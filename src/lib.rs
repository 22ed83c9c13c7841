//! Tools for inspecting and synchronising the contents of FAT disk images:
//! inner path normalisation, metadata formatting, directory listings and
//! the planning of whole-tree copies between the host and an image.
pub mod format;
pub mod listing;
pub mod path;
pub mod tree;
