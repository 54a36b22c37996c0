//! The path language: a slash-delimited string names a chain of directory
//! names; empty segments (leading, trailing or doubled separators) are
//! discarded, so `"/"` and `""` both name the root itself.
use vstd::prelude::*;

verus! {

/// The separator character of paths.
pub open spec fn sep() -> char {
    '/'
}

/// The index of the first separator in `p`, or `p.len()` if there is none.
pub open spec fn first_sep(p: Seq<char>) -> nat
    decreases p.len(),
{
    if p.len() == 0 {
        0
    } else if p[0] == sep() {
        0
    } else {
        1 + first_sep(p.drop_first())
    }
}

/// The non-empty segments of `p`, in order: what stands between separators,
/// with empty segments discarded.
pub open spec fn split_segments(p: Seq<char>) -> Seq<Seq<char>>
    decreases p.len(),
{
    let k = first_sep(p) as int;
    if p.len() == 0 {
        Seq::empty()
    } else if k >= p.len() {
        seq![p]
    } else if k == 0 {
        split_segments(p.skip(1))
    } else {
        seq![p.take(k)] + split_segments(p.skip(k + 1))
    }
}

/// The views of a vector of owned segments.
pub open spec fn views_of(ss: Seq<String>) -> Seq<Seq<char>> {
    ss.map_values(|s: String| s@)
}

proof fn lemma_first_sep_at(p: Seq<char>, i: int)
    requires
        0 <= i <= p.len(),
        forall|j: int| 0 <= j < i ==> p[j] != sep(),
        i == p.len() || p[i] == sep(),
    ensures
        first_sep(p) == i,
    decreases i,
{
    if p.len() == 0 {
    } else if p[0] == sep() {
    } else {
        assert(i != 0);
        let q = p.drop_first();
        assert(forall|j: int| 0 <= j < i - 1 ==> q[j] == p[j + 1] && q[j] != sep());
        assert(i - 1 == q.len() || q[i - 1] == sep());
        lemma_first_sep_at(q, i - 1);
    }
}

/// Splits a path into its non-empty segments, scanning from `from`.
fn split_from(path: &str, from: usize, len: usize) -> (segs: Vec<String>)
    requires
        from <= len,
        len == path@.len(),
    ensures
        views_of(segs@) == split_segments(path@.skip(from as int)),
    decreases len - from,
{
    let ghost p = path@.skip(from as int);
    if from == len {
        let out: Vec<String> = Vec::new();
        assert(views_of(out@) =~= split_segments(p));
        return out;
    }
    let mut j = from;
    while j < len && path.get_char(j) != '/'
        invariant
            from <= j <= len,
            len == path@.len(),
            forall|t: int| from <= t < j ==> path@[t] != sep(),
        decreases len - j,
    {
        j += 1;
    }
    proof {
        assert(forall|t: int| 0 <= t < j - from ==> p[t] == path@[t + from] && p[t] != sep());
        assert(j < len ==> p[j - from] == path@[j as int]);
        lemma_first_sep_at(p, j - from);
    }
    if j == from {
        let rest = split_from(path, from + 1, len);
        assert(p.skip(1) =~= path@.skip(from + 1));
        rest
    } else if j == len {
        let seg = path.substring_char(from, j);
        let mut out: Vec<String> = Vec::new();
        out.push(seg.to_owned());
        assert(views_of(out@) =~= seq![p]) by {
            assert(seg@ =~= p);
        }
        out
    } else {
        let seg = path.substring_char(from, j);
        let rest = split_from(path, j + 1, len);
        let mut out = rest;
        out.insert(0, seg.to_owned());
        assert(p.skip(j - from + 1) =~= path@.skip(j + 1));
        assert(seg@ =~= p.take(j - from));
        assert(views_of(out@) =~= seq![p.take(j - from)] + split_segments(p.skip(j - from + 1)));
        out
    }
}

/// Splits a path into its non-empty segments.
pub fn split_path(path: &str) -> (segs: Vec<String>)
    ensures
        views_of(segs@) == split_segments(path@),
{
    let len = path.unicode_len();
    let segs = split_from(path, 0, len);
    assert(path@.skip(0) =~= path@);
    segs
}

} // verus!
