//! Directory listings of an image, one line per entry, with optional
//! recursion and tiers of metadata.
use vstd::prelude::*;
use crate::format::{
    append_date, append_datetime, append_decimal, date_text, datetime_text, dec_digits, Date,
    DateTime,
};
use crate::path::strings_view;

verus! {

/// The attribute bit that marks a directory.
pub const DIRECTORY_ATTR: u8 = 0x10;

/// What a listing reads of one directory entry of the image.
#[derive(Debug, Clone)]
pub struct EntryInfo {
    pub name: String,
    /// The raw attribute bits of the entry.
    pub attributes: u8,
    /// The byte length; meaningful for files only.
    pub len: u64,
    pub created: DateTime,
    pub modified: DateTime,
    pub accessed: Date,
}

/// An entry of an image directory, with the entries of its own contents
/// when it is a directory that was read.
#[derive(Debug)]
pub struct ImageNode {
    pub info: EntryInfo,
    pub children: Vec<ImageNode>,
}

/// An entry is a directory when its directory attribute bit is set; every
/// other entry is a file.
pub open spec fn is_dir_attr(attributes: u8) -> bool {
    attributes & DIRECTORY_ATTR != 0
}

/// The names `.` and `..`, which a listing never shows.
pub open spec fn is_dot_name(name: Seq<char>) -> bool {
    name == seq!['.'] || name == seq!['.', '.']
}

/// The text that the image's attribute type prints for a set of attribute
/// bits.
pub uninterp spec fn attributes_token(bits: u8) -> Seq<char>;

/// Relies on the `Debug` output of `fatfs::FileAttributes`, built with
/// `from_bits_truncate`: a stable token for the attribute bits alone.
#[verifier::external_body]
fn attributes_text(bits: u8) -> (r: String)
    ensures
        r@ == attributes_token(bits),
{
    format!("{:?}", fatfs::FileAttributes::from_bits_truncate(bits))
}

/// Two spaces for each level of nesting.
pub open spec fn indent_text(depth: nat) -> Seq<char> {
    Seq::new(2 * depth, |i: int| ' ')
}

pub open spec fn created_label() -> Seq<char> {
    seq!['c', 'r', 'e', 'a', 't', 'e', 'd', ' ']
}

pub open spec fn modified_label() -> Seq<char> {
    seq!['m', 'o', 'd', 'i', 'f', 'i', 'e', 'd', ' ']
}

pub open spec fn accessed_label() -> Seq<char> {
    seq!['a', 'c', 'c', 'e', 's', 's', 'e', 'd', ' ']
}

pub open spec fn size_label() -> Seq<char> {
    seq!['s', 'i', 'z', 'e', ' ']
}

/// The metadata that verbosity tier `long` shows before the name, with
/// `token` as the text of the attributes: creation (tier 3), modification
/// (tier 2), last access (tier 3), then attributes and, for a file, its size
/// (tier 1).
pub open spec fn metadata_with(e: EntryInfo, long: u8, token: Seq<char>) -> Seq<char> {
    created_text(e, long) + modified_text(e, long) + accessed_text(e, long)
        + attributes_size_text(e, long, token)
}

/// The metadata of an entry, its attributes written by the image's
/// attribute type.
pub open spec fn metadata_text(e: EntryInfo, long: u8) -> Seq<char> {
    metadata_with(e, long, attributes_token(e.attributes))
}

/// The name, with a trailing `/` for a directory.
pub open spec fn name_text(e: EntryInfo) -> Seq<char> {
    e.name@ + (if is_dir_attr(e.attributes) {
        seq!['/']
    } else {
        Seq::empty()
    })
}

/// The listing line of one entry at nesting depth `depth`.
pub open spec fn entry_line(e: EntryInfo, long: u8, depth: nat) -> Seq<char> {
    indent_text(depth) + metadata_text(e, long) + name_text(e)
}

/// The lines for one entry: none for `.` and `..`; otherwise its own line,
/// followed, when listing recursively and the entry is a directory, by the
/// lines of its contents one level deeper.
pub open spec fn node_lines(n: ImageNode, long: u8, recursive: bool, depth: nat) -> Seq<
    Seq<char>,
>
    decreases n, n.children@.len() + 1,
{
    if is_dot_name(n.info.name@) {
        Seq::empty()
    } else if recursive && is_dir_attr(n.info.attributes) {
        seq![entry_line(n.info, long, depth)] + children_lines(
            n,
            n.children@.len() as int,
            long,
            recursive,
            depth + 1,
        )
    } else {
        seq![entry_line(n.info, long, depth)]
    }
}

/// The lines for the first `k` entries of the contents of `p`, in order.
pub open spec fn children_lines(p: ImageNode, k: int, long: u8, recursive: bool, depth: nat) -> Seq<
    Seq<char>,
>
    decreases p, k,
{
    if k <= 0 || k > p.children@.len() {
        Seq::empty()
    } else {
        children_lines(p, k - 1, long, recursive, depth) + node_lines(
            p.children@[k - 1],
            long,
            recursive,
            depth,
        )
    }
}

/// The lines for a sequence of entries listed at depth `depth`, in order.
pub open spec fn entries_lines(nodes: Seq<ImageNode>, long: u8, recursive: bool, depth: nat) -> Seq<
    Seq<char>,
>
    decreases nodes.len(),
{
    if nodes.len() == 0 {
        Seq::empty()
    } else {
        entries_lines(nodes.drop_last(), long, recursive, depth) + node_lines(
            nodes.last(),
            long,
            recursive,
            depth,
        )
    }
}

/// A line begins with the indentation of depth `depth`.
pub open spec fn indented(line: Seq<char>, depth: nat) -> bool {
    line.len() >= 2 * depth && forall|j: int| 0 <= j < 2 * depth ==> line[j] == ' '
}

proof fn lemma_node_lines_indented(n: ImageNode, long: u8, recursive: bool, e: nat, d: nat)
    requires
        d <= e,
    ensures
        forall|j: int|
            0 <= j < node_lines(n, long, recursive, e).len() ==> indented(
                #[trigger] node_lines(n, long, recursive, e)[j],
                d,
            ),
    decreases n, n.children@.len() + 1,
{
    let lines = node_lines(n, long, recursive, e);
    if !is_dot_name(n.info.name@) {
        let first = entry_line(n.info, long, e);
        assert(indented(first, d)) by {
            assert forall|j: int| 0 <= j < 2 * d implies first[j] == ' ' by {
                assert(first[j] == indent_text(e)[j]);
            }
        }
        if recursive && is_dir_attr(n.info.attributes) {
            lemma_children_lines_indented(n, n.children@.len() as int, long, recursive, e + 1, d);
            let rest = children_lines(n, n.children@.len() as int, long, recursive, e + 1);
            assert forall|j: int| 0 <= j < lines.len() implies indented(#[trigger] lines[j], d) by {
                if j > 0 {
                    assert(lines[j] == rest[j - 1]);
                }
            }
        }
    }
}

proof fn lemma_children_lines_indented(
    p: ImageNode,
    k: int,
    long: u8,
    recursive: bool,
    e: nat,
    d: nat,
)
    requires
        d <= e,
    ensures
        forall|j: int|
            0 <= j < children_lines(p, k, long, recursive, e).len() ==> indented(
                #[trigger] children_lines(p, k, long, recursive, e)[j],
                d,
            ),
    decreases p, k,
{
    if 0 < k <= p.children@.len() {
        lemma_children_lines_indented(p, k - 1, long, recursive, e, d);
        assert(decreases_to!(p => p.children));
        assert(decreases_to!(p.children => p.children@[k - 1]));
        lemma_node_lines_indented(p.children@[k - 1], long, recursive, e, d);
        let a = children_lines(p, k - 1, long, recursive, e);
        let b = node_lines(p.children@[k - 1], long, recursive, e);
        let all = children_lines(p, k, long, recursive, e);
        assert forall|j: int| 0 <= j < all.len() implies indented(#[trigger] all[j], d) by {
            if j < a.len() {
                assert(all[j] == a[j]);
            } else {
                assert(all[j] == b[j - a.len()]);
            }
        }
    }
}

/// In a recursive listing, the line of a directory listed at depth `depth`
/// comes first, behind the indentation of that depth, and every line of its
/// contents, at any nesting, follows behind the strictly longer indentation
/// of depth `depth + 1`.
pub proof fn lemma_nested_indent(n: ImageNode, long: u8, depth: nat)
    requires
        !is_dot_name(n.info.name@),
        is_dir_attr(n.info.attributes),
    ensures
        node_lines(n, long, true, depth).len() >= 1,
        node_lines(n, long, true, depth)[0] == entry_line(n.info, long, depth),
        entry_line(n.info, long, depth).subrange(0, 2 * depth as int) == indent_text(depth),
        forall|j: int|
            1 <= j < node_lines(n, long, true, depth).len() ==> indented(
                #[trigger] node_lines(n, long, true, depth)[j],
                depth + 1,
            ),
        indent_text(depth + 1).len() > indent_text(depth).len(),
{
    let lines = node_lines(n, long, true, depth);
    let rest = children_lines(n, n.children@.len() as int, long, true, depth + 1);
    lemma_children_lines_indented(n, n.children@.len() as int, long, true, depth + 1, depth + 1);
    assert forall|j: int| 1 <= j < lines.len() implies indented(#[trigger] lines[j], depth + 1) by {
        assert(lines[j] == rest[j - 1]);
    }
    assert(entry_line(n.info, long, depth).subrange(0, 2 * depth as int) =~= indent_text(depth));
}

/// Whether a name is `.` or `..`.
pub fn is_dot(name: &str) -> (r: bool)
    ensures
        r == is_dot_name(name@),
{
    let n = name.unicode_len();
    if n == 1 {
        let r = name.get_char(0) == '.';
        assert(r ==> name@ =~= seq!['.']);
        r
    } else if n == 2 {
        let r = name.get_char(0) == '.' && name.get_char(1) == '.';
        assert(r ==> name@ =~= seq!['.', '.']);
        r
    } else {
        false
    }
}

/// Whether the attribute bits mark a directory.
pub fn is_dir(attributes: u8) -> (r: bool)
    ensures
        r == is_dir_attr(attributes),
{
    attributes & DIRECTORY_ATTR != 0
}

pub open spec fn created_text(e: EntryInfo, long: u8) -> Seq<char> {
    if long >= 3 {
        created_label() + datetime_text(e.created) + seq![' ']
    } else {
        Seq::empty()
    }
}

pub open spec fn modified_text(e: EntryInfo, long: u8) -> Seq<char> {
    if long >= 2 {
        modified_label() + datetime_text(e.modified) + seq![' ']
    } else {
        Seq::empty()
    }
}

pub open spec fn accessed_text(e: EntryInfo, long: u8) -> Seq<char> {
    if long >= 3 {
        accessed_label() + date_text(e.accessed) + seq![' ']
    } else {
        Seq::empty()
    }
}

pub open spec fn attributes_size_text(e: EntryInfo, long: u8, token: Seq<char>) -> Seq<char> {
    if long >= 1 {
        token + seq![' '] + (if !is_dir_attr(e.attributes) {
            size_label() + dec_digits(e.len as nat) + seq![' ']
        } else {
            Seq::empty()
        })
    } else {
        Seq::empty()
    }
}

fn append_created(out: &mut String, e: &EntryInfo, long: u8)
    ensures
        final(out)@ == old(out)@ + created_text(*e, long),
{
    if long >= 3 {
        out.append("created ");
        append_datetime(out, e.created);
        out.append(" ");
        proof {
            reveal_strlit("created ");
            reveal_strlit(" ");
        }
    }
    assert(out@ =~= old(out)@ + created_text(*e, long));
}

fn append_modified(out: &mut String, e: &EntryInfo, long: u8)
    ensures
        final(out)@ == old(out)@ + modified_text(*e, long),
{
    if long >= 2 {
        out.append("modified ");
        append_datetime(out, e.modified);
        out.append(" ");
        proof {
            reveal_strlit("modified ");
            reveal_strlit(" ");
        }
    }
    assert(out@ =~= old(out)@ + modified_text(*e, long));
}

fn append_accessed(out: &mut String, e: &EntryInfo, long: u8)
    ensures
        final(out)@ == old(out)@ + accessed_text(*e, long),
{
    if long >= 3 {
        out.append("accessed ");
        append_date(out, e.accessed);
        out.append(" ");
        proof {
            reveal_strlit("accessed ");
            reveal_strlit(" ");
        }
    }
    assert(out@ =~= old(out)@ + accessed_text(*e, long));
}

fn append_attributes_size(out: &mut String, e: &EntryInfo, long: u8, token: &str)
    ensures
        final(out)@ == old(out)@ + attributes_size_text(*e, long, token@),
{
    proof {
        reveal_strlit("size ");
        reveal_strlit(" ");
    }
    if long >= 1 {
        out.append(token);
        out.append(" ");
        if !is_dir(e.attributes) {
            out.append("size ");
            append_decimal(out, e.len);
            out.append(" ");
        }
    }
    assert(out@ =~= old(out)@ + attributes_size_text(*e, long, token@));
}

/// The listing line of one entry behind the given indentation, with `token`
/// as the text of its attributes.
pub fn format_entry_line_with(e: &EntryInfo, long: u8, indent: &str, token: &str) -> (r: String)
    ensures
        r@ == indent@ + metadata_with(*e, long, token@) + name_text(*e),
{
    let mut out = String::from_str(indent);
    append_created(&mut out, e, long);
    append_modified(&mut out, e, long);
    append_accessed(&mut out, e, long);
    append_attributes_size(&mut out, e, long, token);
    let ghost d = out@;
    out.append(e.name.as_str());
    if is_dir(e.attributes) {
        out.append("/");
        proof {
            reveal_strlit("/");
        }
    }
    assert(out@ =~= d + name_text(*e));
    assert(out@ =~= indent@ + metadata_with(*e, long, token@) + name_text(*e));
    out
}

/// The listing line of one entry behind the given indentation.
pub fn format_entry_line(e: &EntryInfo, long: u8, indent: &str) -> (r: String)
    ensures
        r@ == indent@ + metadata_text(*e, long) + name_text(*e),
{
    let token = attributes_text(e.attributes);
    format_entry_line_with(e, long, indent, token.as_str())
}

fn append_node_lines(
    n: &ImageNode,
    long: u8,
    recursive: bool,
    indent: &String,
    Ghost(depth): Ghost<nat>,
    out: &mut Vec<String>,
)
    requires
        indent@ == indent_text(depth),
    ensures
        strings_view(final(out)@) == strings_view(old(out)@) + node_lines(*n, long, recursive, depth),
    decreases n,
{
    let ghost start = strings_view(out@);
    if is_dot(n.info.name.as_str()) {
        assert(strings_view(out@) =~= start + node_lines(*n, long, recursive, depth));
        return;
    }
    let line = format_entry_line(&n.info, long, indent.as_str());
    out.push(line);
    assert(strings_view(out@) =~= start + seq![entry_line(n.info, long, depth)]);
    if recursive && is_dir(n.info.attributes) {
        let mut child_indent = indent.clone();
        child_indent.append("  ");
        proof {
            reveal_strlit("  ");
            assert(child_indent@ =~= indent_text(depth + 1));
        }
        let mut i: usize = 0;
        while i < n.children.len()
            invariant
                i <= n.children@.len(),
                child_indent@ == indent_text(depth + 1),
                strings_view(out@) == start + seq![entry_line(n.info, long, depth)]
                    + children_lines(*n, i as int, long, recursive, depth + 1),
            decreases n.children@.len() - i,
        {
            proof {
                assert(decreases_to!(*n => n.children));
                assert(decreases_to!(n.children => n.children@[i as int]));
            }
            append_node_lines(&n.children[i], long, recursive, &child_indent, Ghost(depth + 1), out);
            proof {
                assert(strings_view(out@) =~= start + seq![entry_line(n.info, long, depth)]
                    + children_lines(*n, i + 1, long, recursive, depth + 1));
            }
            i += 1;
        }
        assert(strings_view(out@) =~= start + node_lines(*n, long, recursive, depth));
    } else {
        assert(strings_view(out@) =~= start + node_lines(*n, long, recursive, depth));
    }
}

/// The lines of a listing of `entries`, in their order, each behind `indent`
/// levels of two spaces: `.` and `..` are left out, and with `recursive` the
/// contents of each directory follow its line one level deeper.
pub fn list_lines(entries: &Vec<ImageNode>, long: u8, recursive: bool, indent: usize) -> (r: Vec<
    String,
>)
    ensures
        strings_view(r@) == entries_lines(entries@, long, recursive, indent as nat),
{
    let mut prefix = String::new();
    let mut k: usize = 0;
    proof {
        reveal_strlit("  ");
    }
    while k < indent
        invariant
            k <= indent,
            prefix@ == indent_text(k as nat),
        decreases indent - k,
    {
        prefix.append("  ");
        proof {
            reveal_strlit("  ");
        }
        assert(2 * (k + 1) == 2 * k + 2);
        assert(prefix@ =~= indent_text((k + 1) as nat));
        k += 1;
    }
    let mut out: Vec<String> = Vec::new();
    let mut i: usize = 0;
    assert(strings_view(out@) =~= Seq::<Seq<char>>::empty());
    while i < entries.len()
        invariant
            i <= entries@.len(),
            prefix@ == indent_text(indent as nat),
            strings_view(out@) == entries_lines(
                entries@.subrange(0, i as int),
                long,
                recursive,
                indent as nat,
            ),
        decreases entries@.len() - i,
    {
        append_node_lines(&entries[i], long, recursive, &prefix, Ghost(indent as nat), &mut out);
        proof {
            let next = entries@.subrange(0, i + 1);
            assert(next.drop_last() =~= entries@.subrange(0, i as int));
        }
        i += 1;
    }
    assert(entries@.subrange(0, entries@.len() as int) =~= entries@);
    out
}

} // verus!
