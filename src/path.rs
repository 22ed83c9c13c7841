//! Normalisation of absolute paths inside an image.
use vstd::prelude::*;

verus! {

/// Why an inner path was refused.
#[derive(Debug, Clone, Copy, PartialEq, Eq, Structural)]
pub enum PathError {
    /// The path does not start with `/`.
    InvalidPath,
}

/// The pieces of `s` between `/` characters, empty pieces included.
/// There is always one more piece than there are separators.
pub open spec fn split_all(s: Seq<char>) -> Seq<Seq<char>>
    decreases s.len(),
{
    if s.len() == 0 {
        seq![Seq::<char>::empty()]
    } else {
        let r = split_all(s.drop_last());
        if s.last() == '/' {
            r.push(Seq::<char>::empty())
        } else {
            r.update(r.len() - 1, r.last().push(s.last()))
        }
    }
}

/// A piece of a path that is kept: one that is not empty.
pub open spec fn keep_piece() -> spec_fn(Seq<char>) -> bool {
    |x: Seq<char>| x.len() > 0
}

/// An inner path is absolute when it starts with `/`.
pub open spec fn is_absolute(p: Seq<char>) -> bool {
    p.len() > 0 && p[0] == '/'
}

/// The segments of an absolute inner path: the text after the leading `/`,
/// split on `/`, with the empty pieces left out.
pub open spec fn path_segments(p: Seq<char>) -> Seq<Seq<char>> {
    split_all(p.drop_first()).filter(keep_piece())
}

/// The segments written back to back with one `/` between neighbours.
pub open spec fn join_segments(segs: Seq<Seq<char>>) -> Seq<char>
    decreases segs.len(),
{
    if segs.len() == 0 {
        Seq::<char>::empty()
    } else if segs.len() == 1 {
        segs[0]
    } else {
        join_segments(segs.drop_last()) + seq!['/'] + segs.last()
    }
}

/// The text views of a vector of strings.
pub open spec fn strings_view(v: Seq<String>) -> Seq<Seq<char>> {
    v.map_values(|s: String| s@)
}

proof fn lemma_split_all_len(s: Seq<char>)
    ensures
        split_all(s).len() >= 1,
    decreases s.len(),
{
    if s.len() > 0 {
        lemma_split_all_len(s.drop_last());
    }
}

proof fn lemma_split_all_no_separator(s: Seq<char>)
    ensures
        forall|i: int|
            0 <= i < split_all(s).len() ==> !(#[trigger] split_all(s)[i]).contains('/'),
    decreases s.len(),
{
    lemma_split_all_len(s);
    if s.len() > 0 {
        lemma_split_all_no_separator(s.drop_last());
        lemma_split_all_len(s.drop_last());
        let r = split_all(s.drop_last());
        if s.last() != '/' {
            let piece = r.last().push(s.last());
            assert forall|k: int| 0 <= k < piece.len() implies piece[k] != '/' by {
                if k < r.last().len() {
                    assert(piece[k] == r.last()[k]);
                    assert(r[r.len() - 1] == r.last());
                }
            }
            assert(!piece.contains('/'));
        }
    }
}

proof fn lemma_join_ends(segs: Seq<Seq<char>>)
    requires
        segs.len() > 0,
        forall|i: int| 0 <= i < segs.len() ==> (#[trigger] segs[i]).len() > 0,
    ensures
        join_segments(segs).len() > 0,
        join_segments(segs)[0] == segs[0][0],
        join_segments(segs).last() == segs.last().last(),
    decreases segs.len(),
{
    if segs.len() > 1 {
        let d = segs.drop_last();
        assert(forall|i: int| 0 <= i < d.len() ==> d[i] == segs[i]);
        lemma_join_ends(d);
    }
}

/// Every segment of a normalised absolute path is non-empty and holds no
/// separator, so the joined form neither starts nor ends with `/`.
pub proof fn lemma_segments_well_formed(p: Seq<char>)
    requires
        is_absolute(p),
    ensures
        forall|i: int|
            0 <= i < path_segments(p).len() ==> (#[trigger] path_segments(p)[i]).len() > 0
                && !path_segments(p)[i].contains('/'),
        path_segments(p).len() > 0 ==> join_segments(path_segments(p))[0] != '/',
        path_segments(p).len() > 0 ==> join_segments(path_segments(p)).last() != '/',
{
    let all = split_all(p.drop_first());
    let segs = path_segments(p);
    lemma_split_all_no_separator(p.drop_first());
    assert forall|i: int| 0 <= i < segs.len() implies (#[trigger] segs[i]).len() > 0
        && !segs[i].contains('/') by {
        all.lemma_filter_pred(keep_piece(), i);
        assert(segs.contains(segs[i]));
        all.lemma_filter_contains_rev(keep_piece(), segs[i]);
        assert(all.contains(segs[i]));
    }
    if segs.len() > 0 {
        lemma_join_ends(segs);
        assert(segs[0].contains(segs[0][0]));
        assert(segs.last() == segs[segs.len() - 1]);
        assert(segs.last().contains(segs.last().last()));
    }
}

/// Splits an absolute inner path into its non-empty segments.
/// `/a//b/` gives `a`, `b`; `/` gives no segment at all, the root.
pub fn inner_path_segments(p: &str) -> (r: Result<Vec<String>, PathError>)
    ensures
        r is Err <==> !is_absolute(p@),
        r matches Ok(v) ==> strings_view(v@) == path_segments(p@),
{
    let n = p.unicode_len();
    if n == 0 || p.get_char(0) != '/' {
        return Err(PathError::InvalidPath);
    }
    let ghost body = p@.drop_first();
    let mut out: Vec<String> = Vec::new();
    let mut start: usize = 1;
    let mut i: usize = 1;
    proof {
        assert(body.subrange(0, 0) =~= Seq::<char>::empty());
        assert(strings_view(out@) =~= Seq::<Seq<char>>::empty());
        assert(split_all(Seq::<char>::empty()).drop_last() =~= Seq::<Seq<char>>::empty());
        reveal(Seq::filter);
        assert(p@.subrange(1, 1) =~= Seq::<char>::empty());
    }
    while i < n
        invariant
            1 <= start <= i <= n,
            n == p@.len(),
            body == p@.drop_first(),
            strings_view(out@) == split_all(body.subrange(0, i - 1)).drop_last().filter(keep_piece()),
            split_all(body.subrange(0, i - 1)).last() == p@.subrange(start as int, i as int),
        decreases n - i,
    {
        let c = p.get_char(i);
        let ghost pre = body.subrange(0, i - 1);
        let ghost post = body.subrange(0, i as int);
        let ghost old_all = split_all(pre);
        proof {
            assert(post.drop_last() =~= pre);
            assert(post.last() == c);
            lemma_split_all_len(pre);
            assert(old_all.drop_last().push(old_all.last()) =~= old_all);
        }
        if c == '/' {
            if start < i {
                let seg = String::from_str(p.substring_char(start, i));
                proof {
                    old_all.drop_last().lemma_filter_push(old_all.last(), keep_piece());
                }
                out.push(seg);
            } else {
                proof {
                    old_all.drop_last().lemma_filter_push(old_all.last(), keep_piece());
                }
            }
            proof {
                assert(split_all(post).drop_last() =~= old_all);
                assert(strings_view(out@) =~= old_all.filter(keep_piece()));
                assert(p@.subrange(i + 1, i + 1) =~= Seq::<char>::empty());
            }
            start = i + 1;
        } else {
            proof {
                assert(split_all(post).drop_last() =~= old_all.drop_last());
                assert(p@.subrange(start as int, i + 1) =~= p@.subrange(start as int, i as int).push(c));
            }
        }
        i += 1;
    }
    proof {
        assert(body.subrange(0, n - 1) =~= body);
        let all = split_all(body);
        lemma_split_all_len(body);
        assert(all.drop_last().push(all.last()) =~= all);
        all.drop_last().lemma_filter_push(all.last(), keep_piece());
    }
    if start < n {
        let seg = String::from_str(p.substring_char(start, n));
        out.push(seg);
    }
    proof {
        assert(strings_view(out@) =~= path_segments(p@));
    }
    Ok(out)
}

/// Normalises an absolute inner path to its segments joined by single `/`
/// characters, with no leading or trailing separator: `/a//b/` gives `a/b`,
/// `/` gives the empty path, the root.
pub fn normalize_inner_path(p: String) -> (r: Result<String, PathError>)
    ensures
        r is Err <==> !is_absolute(p@),
        r matches Ok(s) ==> s@ == join_segments(path_segments(p@)),
{
    let segs = inner_path_segments(p.as_str())?;
    let mut out = String::new();
    let mut i: usize = 0;
    while i < segs.len()
        invariant
            i <= segs@.len(),
            out@ == join_segments(strings_view(segs@).subrange(0, i as int)),
        decreases segs@.len() - i,
    {
        let ghost done = strings_view(segs@).subrange(0, i as int);
        let ghost next = strings_view(segs@).subrange(0, i + 1);
        proof {
            assert(next.drop_last() =~= done);
        }
        if i > 0 {
            out.append("/");
            proof {
                reveal_strlit("/");
            }
        }
        out.append(segs[i].as_str());
        proof {
            if i == 0 {
                assert(done =~= Seq::<Seq<char>>::empty());
            }
        }
        i += 1;
    }
    proof {
        assert(strings_view(segs@).subrange(0, segs@.len() as int) =~= strings_view(segs@));
    }
    Ok(out)
}

} // verus!
