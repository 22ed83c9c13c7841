//! Plans for mirroring a whole directory subtree between the host and an
//! image: which directories to create and which files to copy, in order.
use vstd::prelude::*;
use crate::listing::{is_dir, is_dir_attr, is_dot, is_dot_name, ImageNode};
use crate::path::strings_view;

verus! {

/// The kind of an entry of the host file system.
#[derive(Debug, Clone, Copy, PartialEq, Eq, Structural)]
pub enum HostKind {
    File,
    Directory,
    Symlink,
    /// A device, socket, pipe or anything else that is not copied.
    Other,
}

/// An entry of a host directory, with the entries of its own contents when
/// it is a directory.
#[derive(Debug)]
pub struct HostNode {
    pub name: String,
    pub kind: HostKind,
    pub children: Vec<HostNode>,
}

/// One step of a tree copy.
#[derive(Debug, Clone, Copy, PartialEq, Eq, Structural)]
pub enum OpKind {
    /// Create a directory at the path.
    CreateDir,
    /// Create a file at the path and copy the source file's bytes into it.
    CopyFile,
    /// Leave out the host entry at the path, with a warning: it is a
    /// symbolic link or a special file.
    Skip,
}

/// A step of a tree copy and the path it acts on, as segments relative to
/// the roots of the copy.
#[derive(Debug, Clone)]
pub struct TreeOp {
    pub kind: OpKind,
    pub path: Vec<String>,
}

/// Why a tree copy was refused before anything was written.
#[derive(Debug, Clone, Copy, PartialEq, Eq, Structural)]
pub enum TreeError {
    /// The destination already holds entries.
    DestinationNotEmpty,
    /// The host destination exists and is not a directory.
    DestinationTypeMismatch,
}

/// What the host destination of a read from the image is before the copy.
#[derive(Debug, Clone, Copy, PartialEq, Eq, Structural)]
pub enum HostDestination {
    Missing,
    NotADirectory,
    EmptyDirectory,
    NonEmptyDirectory,
}

/// A step in the terms of contracts.
pub type OpView = (OpKind, Seq<Seq<char>>);

pub open spec fn op_view(op: TreeOp) -> OpView {
    (op.kind, strings_view(op.path@))
}

pub open spec fn ops_view(ops: Seq<TreeOp>) -> Seq<OpView> {
    ops.map_values(|op: TreeOp| op_view(op))
}

/// The steps that copy one host entry found at `parent` into the image:
/// skip a link or a special file, copy a file, and create a directory and
/// then copy its contents.
pub open spec fn host_node_ops(n: HostNode, parent: Seq<Seq<char>>) -> Seq<OpView>
    decreases n, n.children@.len() + 1,
{
    let p = parent.push(n.name@);
    match n.kind {
        HostKind::File => seq![(OpKind::CopyFile, p)],
        HostKind::Directory => seq![(OpKind::CreateDir, p)] + host_children_ops(
            n,
            n.children@.len() as int,
            p,
        ),
        _ => seq![(OpKind::Skip, p)],
    }
}

/// The steps for the first `k` entries of the contents of host directory
/// `d`, found at `dir`.
pub open spec fn host_children_ops(d: HostNode, k: int, dir: Seq<Seq<char>>) -> Seq<OpView>
    decreases d, k,
{
    if k <= 0 || k > d.children@.len() {
        Seq::empty()
    } else {
        host_children_ops(d, k - 1, dir) + host_node_ops(d.children@[k - 1], dir)
    }
}

/// The steps for a sequence of host entries found at `dir`, in order.
pub open spec fn host_entries_ops(nodes: Seq<HostNode>, dir: Seq<Seq<char>>) -> Seq<OpView>
    decreases nodes.len(),
{
    if nodes.len() == 0 {
        Seq::empty()
    } else {
        host_entries_ops(nodes.drop_last(), dir) + host_node_ops(nodes.last(), dir)
    }
}

/// The steps that copy one image entry found at `parent` onto the host:
/// nothing for `.` and `..`, create a directory and copy its contents, or
/// copy a file.
pub open spec fn image_node_ops(n: ImageNode, parent: Seq<Seq<char>>) -> Seq<OpView>
    decreases n, n.children@.len() + 1,
{
    let p = parent.push(n.info.name@);
    if is_dot_name(n.info.name@) {
        Seq::empty()
    } else if is_dir_attr(n.info.attributes) {
        seq![(OpKind::CreateDir, p)] + image_children_ops(n, n.children@.len() as int, p)
    } else {
        seq![(OpKind::CopyFile, p)]
    }
}

/// The steps for the first `k` entries of the contents of image directory
/// `d`, found at `dir`.
pub open spec fn image_children_ops(d: ImageNode, k: int, dir: Seq<Seq<char>>) -> Seq<OpView>
    decreases d, k,
{
    if k <= 0 || k > d.children@.len() {
        Seq::empty()
    } else {
        image_children_ops(d, k - 1, dir) + image_node_ops(d.children@[k - 1], dir)
    }
}

/// The steps for a sequence of image entries found at `dir`, in order.
pub open spec fn image_entries_ops(nodes: Seq<ImageNode>, dir: Seq<Seq<char>>) -> Seq<OpView>
    decreases nodes.len(),
{
    if nodes.len() == 0 {
        Seq::empty()
    } else {
        image_entries_ops(nodes.drop_last(), dir) + image_node_ops(nodes.last(), dir)
    }
}

/// Whether a directory holds an entry other than `.` and `..`.
pub open spec fn has_real_entry(names: Seq<Seq<char>>) -> bool {
    exists|i: int| 0 <= i < names.len() && !is_dot_name(#[trigger] names[i])
}

/// `a` comes before `b` in the order of names: compared character by
/// character by code point, a proper prefix first.
pub open spec fn name_lt(a: Seq<char>, b: Seq<char>) -> bool
    decreases a.len(),
{
    if a.len() == 0 {
        b.len() > 0
    } else if b.len() == 0 {
        false
    } else if a[0] != b[0] {
        (a[0] as int) < (b[0] as int)
    } else {
        name_lt(a.drop_first(), b.drop_first())
    }
}

/// Entries stand in the order of their names.
pub open spec fn names_sorted(s: Seq<HostNode>) -> bool {
    forall|i: int, j: int| 0 <= i < j < s.len() ==> !name_lt(s[j].name@, s[i].name@)
}

proof fn lemma_name_lt_asym(a: Seq<char>, b: Seq<char>)
    requires
        name_lt(a, b),
    ensures
        !name_lt(b, a),
    decreases a.len(),
{
    if a.len() > 0 && b.len() > 0 && a[0] == b[0] {
        lemma_name_lt_asym(a.drop_first(), b.drop_first());
    }
}

proof fn lemma_name_lt_trans(a: Seq<char>, b: Seq<char>, c: Seq<char>)
    requires
        name_lt(a, b),
        name_lt(b, c),
    ensures
        name_lt(a, c),
    decreases a.len(),
{
    if a.len() > 0 && b.len() > 0 && c.len() > 0 && a[0] == b[0] && b[0] == c[0] {
        lemma_name_lt_trans(a.drop_first(), b.drop_first(), c.drop_first());
    }
}

proof fn lemma_name_lt_total(a: Seq<char>, b: Seq<char>)
    requires
        !name_lt(a, b),
        !name_lt(b, a),
    ensures
        a == b,
    decreases a.len(),
{
    if a.len() > 0 && b.len() > 0 {
        if a[0] != b[0] {
            assert((a[0] as int) != (b[0] as int));
        }
        lemma_name_lt_total(a.drop_first(), b.drop_first());
        assert(a =~= seq![a[0]] + a.drop_first());
        assert(b =~= seq![b[0]] + b.drop_first());
    } else {
        assert(a =~= b);
    }
}

/// Whether name `a` comes before name `b`.
pub fn name_less(a: &str, b: &str) -> (r: bool)
    ensures
        r == name_lt(a@, b@),
{
    let la = a.unicode_len();
    let lb = b.unicode_len();
    let mut i: usize = 0;
    assert(a@.skip(0) =~= a@);
    assert(b@.skip(0) =~= b@);
    while i < la && i < lb
        invariant
            i <= la,
            i <= lb,
            la == a@.len(),
            lb == b@.len(),
            name_lt(a@, b@) == name_lt(a@.skip(i as int), b@.skip(i as int)),
        decreases la - i,
    {
        let ca = a.get_char(i);
        let cb = b.get_char(i);
        if ca != cb {
            return (ca as u32) < (cb as u32);
        }
        assert(a@.skip(i as int).drop_first() =~= a@.skip(i + 1));
        assert(b@.skip(i as int).drop_first() =~= b@.skip(i + 1));
        i += 1;
    }
    i < lb && i == la
}

/// The entries in the order of their names, none added or lost.
#[verifier::loop_isolation(false)]
pub fn sort_by_name(v: Vec<HostNode>) -> (r: Vec<HostNode>)
    ensures
        r@.to_multiset() == v@.to_multiset(),
        names_sorted(r@),
{
    broadcast use vstd::seq_lib::group_to_multiset_ensures, vstd::multiset::group_multiset_axioms;

    let ghost orig = v@;
    let mut rest = v;
    let mut r: Vec<HostNode> = Vec::new();
    assert(r@.to_multiset().add(rest@.to_multiset()) =~= orig.to_multiset());
    while rest.len() > 0
        invariant
            r@.to_multiset().add(rest@.to_multiset()) == orig.to_multiset(),
            names_sorted(r@),
        decreases rest@.len(),
    {
        let ghost before = rest@;
        let x = rest.pop().unwrap();
        assert(before == rest@.push(x));
        let mut p: usize = 0;
        let mut found = false;
        while !found && p < r.len()
            invariant
                p <= r@.len(),
                found ==> p < r@.len() && name_lt(x.name@, r@[p as int].name@),
                forall|k: int| 0 <= k < p ==> !name_lt(x.name@, #[trigger] r@[k].name@),
            decreases r@.len() - p + (if found { 0int } else { 1int }),
        {
            if name_less(x.name.as_str(), r[p].name.as_str()) {
                found = true;
            } else {
                p += 1;
            }
        }
        let ghost old_r = r@;
        proof {
            if p < old_r.len() {
                assert(name_lt(x.name@, old_r[p as int].name@));
                assert forall|k: int| p <= k < old_r.len() implies !name_lt(
                    #[trigger] old_r[k].name@,
                    x.name@,
                ) by {
                    if k > p {
                        assert(!name_lt(old_r[k].name@, old_r[p as int].name@));
                        if name_lt(old_r[p as int].name@, old_r[k].name@) {
                            lemma_name_lt_trans(x.name@, old_r[p as int].name@, old_r[k].name@);
                        } else {
                            lemma_name_lt_total(old_r[p as int].name@, old_r[k].name@);
                        }
                    }
                    lemma_name_lt_asym(x.name@, old_r[k].name@);
                }
            }
        }
        r.insert(p, x);
        proof {
            let n = r@;
            assert(n == old_r.insert(p as int, x));
            assert forall|i: int, j: int| 0 <= i < j < n.len() implies !name_lt(
                n[j].name@,
                n[i].name@,
            ) by {
                if j < p {
                    assert(n[i] == old_r[i] && n[j] == old_r[j]);
                } else if j == p {
                    assert(n[i] == old_r[i]);
                } else if i < p {
                    assert(n[i] == old_r[i] && n[j] == old_r[j - 1]);
                } else if i == p {
                    assert(n[j] == old_r[j - 1]);
                } else {
                    assert(n[i] == old_r[i - 1] && n[j] == old_r[j - 1]);
                }
            }
            vstd::seq_lib::to_multiset_insert(old_r, p as int, x);
            assert(before.to_multiset() == rest@.to_multiset().insert(x));
            assert(r@.to_multiset() =~= old_r.to_multiset().insert(x));
            assert(r@.to_multiset().add(rest@.to_multiset()) =~= orig.to_multiset());
        }
    }
    assert(rest@.to_multiset() =~= vstd::multiset::Multiset::empty());
    assert(r@.to_multiset() =~= orig.to_multiset());
    r
}

fn extend_path(path: &Vec<String>, name: &String) -> (r: Vec<String>)
    ensures
        strings_view(r@) == strings_view(path@).push(name@),
{
    let mut r: Vec<String> = Vec::new();
    let mut i: usize = 0;
    while i < path.len()
        invariant
            i <= path@.len(),
            strings_view(r@) == strings_view(path@).subrange(0, i as int),
        decreases path@.len() - i,
    {
        let ghost before = r@;
        let seg = String::from_str(path[i].as_str());
        r.push(seg);
        assert(r@ =~= before.push(seg));
        assert(strings_view(r@) =~= strings_view(before).push(seg@));
        assert(strings_view(r@) =~= strings_view(path@).subrange(0, i + 1));
        i += 1;
    }
    let ghost before = r@;
    let last = String::from_str(name.as_str());
    r.push(last);
    assert(r@ =~= before.push(last));
    assert(strings_view(r@) =~= strings_view(before).push(last@));
    assert(strings_view(before) =~= strings_view(path@));
    assert(strings_view(r@) =~= strings_view(path@).push(name@));
    r
}

/// Whether any of the names is neither `.` nor `..`.
pub fn any_real_entry(names: &Vec<String>) -> (r: bool)
    ensures
        r == has_real_entry(strings_view(names@)),
{
    let mut i: usize = 0;
    while i < names.len()
        invariant
            i <= names@.len(),
            forall|j: int| 0 <= j < i ==> is_dot_name(#[trigger] strings_view(names@)[j]),
        decreases names@.len() - i,
    {
        if !is_dot(names[i].as_str()) {
            assert(!is_dot_name(strings_view(names@)[i as int]));
            return true;
        }
        i += 1;
    }
    false
}

fn append_host_ops(n: &HostNode, parent: &Vec<String>, out: &mut Vec<TreeOp>)
    ensures
        ops_view(final(out)@) == ops_view(old(out)@) + host_node_ops(*n, strings_view(parent@)),
    decreases n,
{
    let ghost start = ops_view(out@);
    let p = extend_path(parent, &n.name);
    let ghost pv = strings_view(p@);
    match n.kind {
        HostKind::File => {
            out.push(TreeOp { kind: OpKind::CopyFile, path: p });
        },
        HostKind::Directory => {
            out.push(TreeOp { kind: OpKind::CreateDir, path: p.clone() });
            assert(ops_view(out@) =~= start + seq![(OpKind::CreateDir, pv)]);
            let mut i: usize = 0;
            while i < n.children.len()
                invariant
                    i <= n.children@.len(),
                    strings_view(p@) == pv,
                    ops_view(out@) == start + seq![(OpKind::CreateDir, pv)] + host_children_ops(
                        *n,
                        i as int,
                        pv,
                    ),
                decreases n.children@.len() - i,
            {
                proof {
                    assert(decreases_to!(*n => n.children));
                    assert(decreases_to!(n.children => n.children@[i as int]));
                }
                append_host_ops(&n.children[i], &p, out);
                assert(ops_view(out@) =~= start + seq![(OpKind::CreateDir, pv)]
                    + host_children_ops(*n, i + 1, pv));
                i += 1;
            }
        },
        _ => {
            out.push(TreeOp { kind: OpKind::Skip, path: p });
        },
    }
    assert(ops_view(out@) =~= start + host_node_ops(*n, strings_view(parent@)));
}

/// Plans the copy of the host directory whose entries are `entries` into an
/// image directory that holds `dest_names`. The copy is refused when the
/// destination holds anything but `.` and `..`; otherwise each entry gives
/// its steps in order, depth first, with paths relative to both roots.
pub fn plan_write_tree(dest_names: &Vec<String>, entries: &Vec<HostNode>) -> (r: Result<
    Vec<TreeOp>,
    TreeError,
>)
    ensures
        r is Err <==> has_real_entry(strings_view(dest_names@)),
        r matches Err(e) ==> e == TreeError::DestinationNotEmpty,
        r matches Ok(ops) ==> ops_view(ops@) == host_entries_ops(entries@, Seq::empty()),
{
    if any_real_entry(dest_names) {
        return Err(TreeError::DestinationNotEmpty);
    }
    let root: Vec<String> = Vec::new();
    assert(strings_view(root@) =~= Seq::<Seq<char>>::empty());
    let mut out: Vec<TreeOp> = Vec::new();
    let mut i: usize = 0;
    assert(ops_view(out@) =~= Seq::<OpView>::empty());
    while i < entries.len()
        invariant
            i <= entries@.len(),
            strings_view(root@) == Seq::<Seq<char>>::empty(),
            ops_view(out@) == host_entries_ops(entries@.subrange(0, i as int), Seq::empty()),
        decreases entries@.len() - i,
    {
        append_host_ops(&entries[i], &root, &mut out);
        assert(entries@.subrange(0, i + 1).drop_last() =~= entries@.subrange(0, i as int));
        i += 1;
    }
    assert(entries@.subrange(0, entries@.len() as int) =~= entries@);
    Ok(out)
}

fn append_image_ops(n: &ImageNode, parent: &Vec<String>, out: &mut Vec<TreeOp>)
    ensures
        ops_view(final(out)@) == ops_view(old(out)@) + image_node_ops(*n, strings_view(parent@)),
    decreases n,
{
    let ghost start = ops_view(out@);
    if is_dot(n.info.name.as_str()) {
        assert(ops_view(out@) =~= start + image_node_ops(*n, strings_view(parent@)));
        return;
    }
    let p = extend_path(parent, &n.info.name);
    let ghost pv = strings_view(p@);
    if is_dir(n.info.attributes) {
        out.push(TreeOp { kind: OpKind::CreateDir, path: p.clone() });
        assert(ops_view(out@) =~= start + seq![(OpKind::CreateDir, pv)]);
        let mut i: usize = 0;
        while i < n.children.len()
            invariant
                i <= n.children@.len(),
                strings_view(p@) == pv,
                ops_view(out@) == start + seq![(OpKind::CreateDir, pv)] + image_children_ops(
                    *n,
                    i as int,
                    pv,
                ),
            decreases n.children@.len() - i,
        {
            proof {
                assert(decreases_to!(*n => n.children));
                assert(decreases_to!(n.children => n.children@[i as int]));
            }
            append_image_ops(&n.children[i], &p, out);
            assert(ops_view(out@) =~= start + seq![(OpKind::CreateDir, pv)] + image_children_ops(
                *n,
                i + 1,
                pv,
            ));
            i += 1;
        }
    } else {
        out.push(TreeOp { kind: OpKind::CopyFile, path: p });
    }
    assert(ops_view(out@) =~= start + image_node_ops(*n, strings_view(parent@)));
}

/// Whether a read into the host destination has to create its root.
pub open spec fn read_creates_root(dest: HostDestination) -> bool {
    dest == HostDestination::Missing
}

/// Plans the copy of the image directory whose entries are `entries` onto a
/// host destination in state `dest`. A destination that is not a directory
/// is refused; so is a non-empty one unless `force` is set. Otherwise the
/// result says whether the root must be created and gives the steps of
/// each entry in order, depth first, `.` and `..` left out.
pub fn plan_read_tree(dest: HostDestination, force: bool, entries: &Vec<ImageNode>) -> (r: Result<
    (bool, Vec<TreeOp>),
    TreeError,
>)
    ensures
        r == Err::<(bool, Vec<TreeOp>), TreeError>(TreeError::DestinationTypeMismatch) <==> dest
            == HostDestination::NotADirectory,
        r == Err::<(bool, Vec<TreeOp>), TreeError>(TreeError::DestinationNotEmpty) <==> (dest
            == HostDestination::NonEmptyDirectory && !force),
        r matches Ok((create, ops)) ==> create == read_creates_root(dest) && ops_view(ops@)
            == image_entries_ops(entries@, Seq::empty()),
{
    match dest {
        HostDestination::NotADirectory => {
            return Err(TreeError::DestinationTypeMismatch);
        },
        HostDestination::NonEmptyDirectory => {
            if !force {
                return Err(TreeError::DestinationNotEmpty);
            }
        },
        _ => {},
    }
    let root: Vec<String> = Vec::new();
    assert(strings_view(root@) =~= Seq::<Seq<char>>::empty());
    let mut out: Vec<TreeOp> = Vec::new();
    let mut i: usize = 0;
    assert(ops_view(out@) =~= Seq::<OpView>::empty());
    while i < entries.len()
        invariant
            i <= entries@.len(),
            strings_view(root@) == Seq::<Seq<char>>::empty(),
            ops_view(out@) == image_entries_ops(entries@.subrange(0, i as int), Seq::empty()),
        decreases entries@.len() - i,
    {
        append_image_ops(&entries[i], &root, &mut out);
        assert(entries@.subrange(0, i + 1).drop_last() =~= entries@.subrange(0, i as int));
        i += 1;
    }
    assert(entries@.subrange(0, entries@.len() as int) =~= entries@);
    let create = match dest {
        HostDestination::Missing => true,
        _ => false,
    };
    Ok((create, out))
}

/// An image entry that is neither `.` nor `..`.
pub open spec fn real_entry() -> spec_fn(ImageNode) -> bool {
    |c: ImageNode| !is_dot_name(c.info.name@)
}

/// An image entry mirrors a host entry when it has the same name, a file
/// stands for a file and a directory for a directory whose contents, `.`
/// and `..` left aside, mirror the host directory's contents one for one,
/// in order. Links and special files have no mirror.
pub open spec fn mirrors(h: HostNode, i: ImageNode) -> bool
    decreases h,
{
    &&& h.name@ == i.info.name@
    &&& !is_dot_name(h.name@)
    &&& match h.kind {
        HostKind::File => !is_dir_attr(i.info.attributes),
        HostKind::Directory => {
            &&& is_dir_attr(i.info.attributes)
            &&& h.children@.len() == i.children@.filter(real_entry()).len()
            &&& forall|k: int|
                0 <= k < h.children@.len() ==> mirrors(
                    #[trigger] h.children@[k],
                    i.children@.filter(real_entry())[k],
                )
        },
        _ => false,
    }
}

/// A sequence of image entries, `.` and `..` left aside, mirrors a sequence
/// of host entries one for one.
pub open spec fn entries_mirror(hs: Seq<HostNode>, is: Seq<ImageNode>) -> bool {
    &&& hs.len() == is.filter(real_entry()).len()
    &&& forall|k: int| 0 <= k < hs.len() ==> mirrors(#[trigger] hs[k], is.filter(real_entry())[k])
}

proof fn lemma_node_round_trip(h: HostNode, i: ImageNode, parent: Seq<Seq<char>>)
    requires
        mirrors(h, i),
    ensures
        image_node_ops(i, parent) == host_node_ops(h, parent),
    decreases h, i.children@.len() + 1,
{
    if h.kind == HostKind::Directory {
        let cs = i.children@;
        lemma_children_round_trip(h, i, cs.len() as int, parent.push(h.name@));
        assert(cs.subrange(0, cs.len() as int) =~= cs);
    }
}

proof fn lemma_children_round_trip(h: HostNode, i: ImageNode, k: int, dir: Seq<Seq<char>>)
    requires
        mirrors(h, i),
        h.kind == HostKind::Directory,
        0 <= k <= i.children@.len(),
    ensures
        i.children@.subrange(0, k).filter(real_entry()).len() <= h.children@.len(),
        image_children_ops(i, k, dir) == host_children_ops(
            h,
            i.children@.subrange(0, k).filter(real_entry()).len() as int,
            dir,
        ),
    decreases h, k,
{
    broadcast use vstd::seq_lib::group_filter_ensures;

    let cs = i.children@;
    let kept = cs.filter(real_entry());
    let upto = cs.subrange(0, k).filter(real_entry());
    assert(cs =~= cs.subrange(0, k) + cs.subrange(k, cs.len() as int));
    Seq::filter_distributes_over_add(cs.subrange(0, k), cs.subrange(k, cs.len() as int), real_entry());
    assert(upto.len() <= kept.len());
    if k == 0 {
        assert(cs.subrange(0, 0) =~= Seq::<ImageNode>::empty());
        reveal(Seq::filter);
        assert(upto =~= Seq::<ImageNode>::empty());
    } else {
        lemma_children_round_trip(h, i, k - 1, dir);
        let before = cs.subrange(0, k - 1);
        let c = cs[k - 1];
        assert(cs.subrange(0, k) =~= before.push(c));
        before.lemma_filter_push(c, real_entry());
        let m = before.filter(real_entry()).len() as int;
        if !is_dot_name(c.info.name@) {
            assert(upto == before.filter(real_entry()).push(c));
            assert(kept[m] == upto[m]);
            assert(mirrors(h.children@[m], kept[m]));
            assert(decreases_to!(h => h.children));
            assert(decreases_to!(h.children => h.children@[m]));
            lemma_node_round_trip(h.children@[m], c, dir);
            assert(upto.len() == m + 1);
            assert(host_children_ops(h, m + 1, dir) == host_children_ops(h, m, dir)
                + host_node_ops(h.children@[m], dir));
            assert(image_children_ops(i, k, dir) == image_children_ops(i, k - 1, dir)
                + image_node_ops(c, dir));
        } else {
            assert(upto == before.filter(real_entry()));
            assert(image_node_ops(c, dir) == Seq::<OpView>::empty());
            assert(image_children_ops(i, k, dir) =~= image_children_ops(i, k - 1, dir));
        }
    }
}

/// Round trip: when an image directory mirrors a host directory that holds
/// only files and directories, as the copy of that host tree into an empty
/// image directory leaves it, copying the image directory back gives the
/// same steps, on the same relative paths and in the same order, as the
/// copy into the image did.
pub proof fn lemma_round_trip(hs: Seq<HostNode>, is: Seq<ImageNode>, dir: Seq<Seq<char>>)
    requires
        entries_mirror(hs, is),
    ensures
        image_entries_ops(is, dir) == host_entries_ops(hs, dir),
    decreases is.len(),
{
    broadcast use vstd::seq_lib::group_filter_ensures;

    if is.len() == 0 {
        reveal(Seq::filter);
        assert(hs.len() == 0);
    } else {
        let c = is.last();
        let rest = is.drop_last();
        assert(rest.push(c) =~= is);
        rest.lemma_filter_push(c, real_entry());
        if is_dot_name(c.info.name@) {
            lemma_round_trip(hs, rest, dir);
        } else {
            let hrest = hs.drop_last();
            assert forall|k: int| 0 <= k < hrest.len() implies mirrors(
                #[trigger] hrest[k],
                rest.filter(real_entry())[k],
            ) by {
                assert(hs[k] == hrest[k]);
            }
            lemma_round_trip(hrest, rest, dir);
            assert(mirrors(hs[hs.len() - 1], is.filter(real_entry())[hs.len() - 1]));
            lemma_node_round_trip(hs.last(), c, dir);
        }
    }
}

/// A symbolic link, or any special file, of the host gives exactly one step:
/// a skip, with a warning, on its own path. No file or directory is created
/// for it.
pub proof fn lemma_link_skipped(n: HostNode, parent: Seq<Seq<char>>)
    requires
        n.kind == HostKind::Symlink || n.kind == HostKind::Other,
    ensures
        host_node_ops(n, parent) == seq![(OpKind::Skip, parent.push(n.name@))],
{
}

} // verus!
