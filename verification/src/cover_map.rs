//! Cover maps: how a decoded packet span is split into real samples,
//! silent underlay and fade transitions.

use vstd::prelude::*;

verus! {

/// Direction of a fade transition section.
#[derive(Debug, Clone, Copy, PartialEq, Eq, Structural)]
pub enum TransitionDirection {
    Up,
    Down,
}

/// One half-open section `(start, end)` of a packet span.
#[derive(Debug, Clone, Copy, PartialEq, Eq)]
pub enum Cover {
    Overlap((usize, usize)),
    Underlay((usize, usize)),
    Transition((TransitionDirection, (usize, usize))),
}

/// True when point `p` lies inside some range of `r`.
pub open spec fn covers(r: Seq<(usize, usize)>, p: int) -> bool {
    exists|i: int| 0 <= i < r.len() && #[trigger] r[i].0 <= p && p < r[i].1
}

/// Ranges are non-empty, sorted and separated by strictly positive gaps.
pub open spec fn is_canonical(r: Seq<(usize, usize)>) -> bool {
    &&& forall|i: int| 0 <= i < r.len() ==> #[trigger] r[i].0 < r[i].1
    &&& forall|i: int, j: int| 0 <= i < j < r.len() ==> #[trigger] r[i].1 < #[trigger] r[j].0
}

/// `r` is the canonical decomposition of the points covered by `s`.
pub open spec fn canonical_union_of(r: Seq<(usize, usize)>, s: Seq<(usize, usize)>) -> bool {
    &&& is_canonical(r)
    &&& forall|p: int| covers(r, p) == covers(s, p)
}

spec fn sorted_by_start(r: Seq<(usize, usize)>) -> bool {
    forall|i: int, j: int| 0 <= i < j < r.len() ==> #[trigger] r[i].0 <= #[trigger] r[j].0
}

/// Sort non-empty ranges by start (insertion sort), dropping empty ones.
#[verifier::rlimit(40)]
fn sort_nonempty_by_start(ranges: &Vec<(usize, usize)>) -> (out: Vec<(usize, usize)>)
    ensures
        sorted_by_start(out@),
        forall|i: int| 0 <= i < out@.len() ==> #[trigger] out@[i].0 < out@[i].1,
        forall|p: int| covers(out@, p) == covers(ranges@, p),
{
    let mut out: Vec<(usize, usize)> = Vec::new();
    let mut i: usize = 0;
    while i < ranges.len()
        invariant
            i <= ranges.len(),
            sorted_by_start(out@),
            forall|k: int| 0 <= k < out@.len() ==> #[trigger] out@[k].0 < out@[k].1,
            forall|p: int| covers(out@, p) == covers(ranges@.take(i as int), p),
        decreases ranges.len() - i,
    {
        let (s, e) = ranges[i];
        let ghost prev = out@;
        let mut pos: usize = 0;
        if s < e {
            while pos < out.len() && out[pos].0 <= s
                invariant
                    pos <= out.len(),
                    out@ == prev,
                    forall|k: int| 0 <= k < pos ==> #[trigger] out@[k].0 <= s,
                decreases out.len() - pos,
            {
                pos = pos + 1;
            }
            out.insert(pos, (s, e));
            proof {
                prev.insert_ensures(pos as int, (s, e));
                assert(sorted_by_start(out@)) by {
                    assert forall|a: int, b: int| 0 <= a < b < out@.len() implies
                        #[trigger] out@[a].0 <= #[trigger] out@[b].0 by {
                        if b < pos {
                        } else if a < pos && b == pos {
                        } else if a < pos {
                            assert(out@[b] == prev[b - 1]);
                        } else if a == pos {
                            assert(out@[b] == prev[b - 1]);
                            if b - 1 < prev.len() && !(s <= prev[b - 1].0) {
                                assert(prev[pos as int].0 <= prev[b - 1].0);
                            }
                        } else {
                            assert(out@[a] == prev[a - 1]);
                            assert(out@[b] == prev[b - 1]);
                        }
                    }
                }
            }
        }
        proof {
            let tk = ranges@.take(i as int);
            let tk1 = ranges@.take(i + 1);
            assert(tk1 == tk.push((s, e)));
            assert forall|p: int| covers(out@, p) == covers(tk1, p) by {
                if covers(tk1, p) {
                    let w = choose|w: int| 0 <= w < tk1.len() && #[trigger] tk1[w].0 <= p && p < tk1[w].1;
                    if w < tk.len() {
                        assert(tk[w] == tk1[w]);
                        assert(covers(tk, p));
                        assert(covers(prev, p));
                        let z = choose|z: int| 0 <= z < prev.len() && #[trigger] prev[z].0 <= p && p < prev[z].1;
                        if s < e {
                            if z < pos { assert(out@[z] == prev[z]); } else { assert(out@[z + 1] == prev[z]); }
                        } else {
                            assert(out@[z] == prev[z]);
                        }
                    } else {
                        assert(s < e);
                        assert(out@[pos as int] == (s, e));
                    }
                }
                if covers(out@, p) {
                    let z = choose|z: int| 0 <= z < out@.len() && #[trigger] out@[z].0 <= p && p < out@[z].1;
                    if s < e {
                        if z == pos {
                            assert(tk1[i as int] == (s, e));
                        } else {
                            let zz = if z < pos { z } else { z - 1 };
                            assert(out@[z] == prev[zz]);
                            assert(covers(prev, p));
                            assert(covers(tk, p));
                            let w = choose|w: int| 0 <= w < tk.len() && #[trigger] tk[w].0 <= p && p < tk[w].1;
                            assert(tk1[w] == tk[w]);
                        }
                    } else {
                        assert(covers(prev, p));
                        assert(covers(tk, p));
                        let w = choose|w: int| 0 <= w < tk.len() && #[trigger] tk[w].0 <= p && p < tk[w].1;
                        assert(tk1[w] == tk[w]);
                    }
                }
            }
        }
        i = i + 1;
    }
    assert(ranges@.take(ranges.len() as int) == ranges@);
    out
}


proof fn lemma_covers_push(r: Seq<(usize, usize)>, x: (usize, usize), p: int)
    ensures
        covers(r.push(x), p) == (covers(r, p) || (x.0 <= p && p < x.1)),
{
    let r2 = r.push(x);
    if covers(r, p) {
        let w = choose|w: int| 0 <= w < r.len() && #[trigger] r[w].0 <= p && p < r[w].1;
        assert(r2[w] == r[w]);
    }
    if x.0 <= p && p < x.1 {
        assert(r2[r.len() as int] == x);
    }
    if covers(r2, p) {
        let w = choose|w: int| 0 <= w < r2.len() && #[trigger] r2[w].0 <= p && p < r2[w].1;
        if w < r.len() {
            assert(r2[w] == r[w]);
        }
    }
}

proof fn lemma_canonical_push(r: Seq<(usize, usize)>, x: (usize, usize))
    requires
        is_canonical(r),
        x.0 < x.1,
        r.len() > 0 ==> r.last().1 < x.0,
    ensures
        is_canonical(r.push(x)),
{
    let r2 = r.push(x);
    assert forall|i: int, j: int| 0 <= i < j < r2.len() implies #[trigger] r2[i].1 < #[trigger] r2[j].0 by {
        if j == r.len() {
            if i < r.len() - 1 {
                assert(r[i].1 < r[r.len() - 1].0);
                assert(r[r.len() - 1].0 < r[r.len() - 1].1);
            }
        }
    }
}

proof fn lemma_canonical_pop(r: Seq<(usize, usize)>, x: (usize, usize))
    requires
        is_canonical(r.push(x)),
    ensures
        is_canonical(r),
        x.0 < x.1,
        r.len() > 0 ==> r.last().1 < x.0,
{
    let r2 = r.push(x);
    assert(r2[r.len() as int] == x);
    assert forall|i: int| 0 <= i < r.len() implies #[trigger] r[i].0 < r[i].1 by {
        assert(r2[i] == r[i]);
    }
    assert forall|i: int, j: int| 0 <= i < j < r.len() implies #[trigger] r[i].1 < #[trigger] r[j].0 by {
        assert(r2[i] == r[i]);
        assert(r2[j] == r[j]);
    }
    if r.len() > 0 {
        assert(r2[r.len() - 1] == r.last());
    }
}

/// Merge overlapping or touching ranges into their canonical decomposition.
/// Empty ranges are dropped.
pub fn normalize_ranges(ranges: Vec<(usize, usize)>) -> (out: Vec<(usize, usize)>)
    ensures
        canonical_union_of(out@, ranges@),
{
    let srt = sort_nonempty_by_start(&ranges);
    if srt.len() == 0 {
        proof {
            assert forall|p: int| covers(srt@, p) == covers(ranges@, p) by {}
        }
        return srt;
    }
    let mut out: Vec<(usize, usize)> = Vec::new();
    let mut cur: (usize, usize) = srt[0];
    let mut i: usize = 1;
    proof {
        assert(srt@.take(1) == Seq::<(usize, usize)>::empty().push(srt@[0]));
        assert forall|p: int| covers(out@.push(cur), p) == covers(srt@.take(1), p) by {
            assert(out@ == Seq::<(usize, usize)>::empty());
        }
    }
    while i < srt.len()
        invariant
            1 <= i <= srt.len(),
            sorted_by_start(srt@),
            forall|k: int| 0 <= k < srt@.len() ==> #[trigger] srt@[k].0 < srt@[k].1,
            is_canonical(out@),
            cur.0 < cur.1,
            out@.len() > 0 ==> out@.last().1 < cur.0,
            forall|j: int| i <= j < srt@.len() ==> cur.0 <= #[trigger] srt@[j].0,
            forall|p: int| covers(out@.push(cur), p) == covers(srt@.take(i as int), p),
        decreases srt.len() - i,
    {
        let (s, e) = srt[i];
        let ghost old_out = out@;
        let ghost old_cur = cur;
        proof {
            assert(srt@.take(i + 1) == srt@.take(i as int).push((s, e)));
        }
        if s <= cur.1 {
            if e > cur.1 {
                cur = (cur.0, e);
            }
            proof {
                assert forall|p: int| covers(out@.push(cur), p) == covers(srt@.take(i + 1), p) by {
                    lemma_covers_push(out@, cur, p);
                    lemma_covers_push(out@, old_cur, p);
                    lemma_covers_push(srt@.take(i as int), (s, e), p);
                }
            }
        } else {
            out.push(cur);
            cur = (s, e);
            proof {
                lemma_canonical_push(old_out, old_cur);
                assert forall|p: int| covers(out@.push(cur), p) == covers(srt@.take(i + 1), p) by {
                    lemma_covers_push(out@, cur, p);
                    lemma_covers_push(old_out, old_cur, p);
                    lemma_covers_push(srt@.take(i as int), (s, e), p);
                }
            }
        }
        i = i + 1;
    }
    let ghost before = out@;
    out.push(cur);
    proof {
        lemma_canonical_push(before, cur);
        assert(srt@.take(srt@.len() as int) == srt@);
    }
    out
}


/// The `(start, end)` bounds of a section.
pub open spec fn cover_bounds(c: Cover) -> (usize, usize) {
    match c {
        Cover::Overlap(r) => r,
        Cover::Underlay(r) => r,
        Cover::Transition((_, r)) => r,
    }
}

/// Appending `c` to `out`: empty sections are dropped, and an underlay
/// (overlap) that starts where a trailing underlay (overlap) ends extends it.
pub open spec fn pushed_cover(out: Seq<Cover>, c: Cover) -> Seq<Cover> {
    let (s, e) = cover_bounds(c);
    if s >= e {
        out
    } else if out.len() > 0 {
        match (out.last(), c) {
            (Cover::Underlay((ls, le)), Cover::Underlay(_)) if le == s =>
                out.update(out.len() - 1, Cover::Underlay((ls, e))),
            (Cover::Overlap((ls, le)), Cover::Overlap(_)) if le == s =>
                out.update(out.len() - 1, Cover::Overlap((ls, e))),
            _ => out.push(c),
        }
    } else {
        out.push(c)
    }
}

/// `out` covers `0..c` with non-empty, contiguous sections.
pub open spec fn tiles_upto(out: Seq<Cover>, c: usize) -> bool {
    if out.len() == 0 {
        c == 0
    } else {
        &&& cover_bounds(out[0]).0 == 0
        &&& cover_bounds(out.last()).1 == c
        &&& forall|i: int| 0 <= i < out.len() ==> #[trigger] cover_bounds(out[i]).0 < cover_bounds(out[i]).1
        &&& forall|i: int| 0 <= i < out.len() - 1 ==> #[trigger] cover_bounds(out[i]).1
            == cover_bounds(out[i + 1]).0
    }
}

/// `out` is a tiling of `0..len` by non-empty, contiguous sections.
pub open spec fn tiles(out: Seq<Cover>, len: usize) -> bool {
    out.len() > 0 && tiles_upto(out, len)
}

proof fn lemma_push_tiles(out: Seq<Cover>, c: usize, sec: Cover)
    requires
        tiles_upto(out, c),
        cover_bounds(sec).0 == c,
        c <= cover_bounds(sec).1,
    ensures
        tiles_upto(pushed_cover(out, sec), cover_bounds(sec).1),
        cover_bounds(sec).0 < cover_bounds(sec).1 ==> pushed_cover(out, sec).len() > 0,
{
    let r = pushed_cover(out, sec);
    let (s, e) = cover_bounds(sec);
    if s < e && out.len() > 0 {
        if r.len() == out.len() {
            assert forall|i: int| 0 <= i < r.len() implies #[trigger] cover_bounds(r[i]).0 < cover_bounds(r[i]).1 by {
                if i < out.len() - 1 { assert(r[i] == out[i]); }
            }
            assert forall|i: int| 0 <= i < r.len() - 1 implies #[trigger] cover_bounds(r[i]).1
                == cover_bounds(r[i + 1]).0 by {
                assert(r[i] == out[i]);
                if i + 1 < out.len() - 1 { assert(r[i + 1] == out[i + 1]); }
            }
            if out.len() > 1 { assert(r[0] == out[0]); }
        } else {
            assert(r == out.push(sec));
            assert forall|i: int| 0 <= i < r.len() implies #[trigger] cover_bounds(r[i]).0 < cover_bounds(r[i]).1 by {
                if i < out.len() { assert(r[i] == out[i]); }
            }
            assert forall|i: int| 0 <= i < r.len() - 1 implies #[trigger] cover_bounds(r[i]).1
                == cover_bounds(r[i + 1]).0 by {
                assert(r[i] == out[i]);
                if i + 1 < out.len() { assert(r[i + 1] == out[i + 1]); }
            }
            assert(r[0] == out[0]);
        }
    }
}

/// Append one section, coalescing it with a trailing section of the same
/// underlay/overlap kind when they touch.
pub fn push_cover(out: &mut Vec<Cover>, c: Cover)
    ensures
        final(out)@ == pushed_cover(old(out)@, c),
{
    let (s, e) = match c {
        Cover::Overlap((s, e)) => (s, e),
        Cover::Underlay((s, e)) => (s, e),
        Cover::Transition((_, (s, e))) => (s, e),
    };
    if s >= e {
        return;
    }
    let n = out.len();
    if n > 0 {
        match (out[n - 1], c) {
            (Cover::Underlay((ls, le)), Cover::Underlay(_)) => {
                if le == s {
                    out.set(n - 1, Cover::Underlay((ls, e)));
                    return;
                }
            },
            (Cover::Overlap((ls, le)), Cover::Overlap(_)) => {
                if le == s {
                    out.set(n - 1, Cover::Overlap((ls, e)));
                    return;
                }
            },
            _ => {},
        }
    }
    out.push(c);
}


/// Each range of `r` with both ends clamped to `len`.
pub open spec fn clamped(r: Seq<(usize, usize)>, len: usize) -> Seq<(usize, usize)> {
    r.map_values(|x: (usize, usize)| (
        if x.0 < len { x.0 } else { len },
        if x.1 < len { x.1 } else { len },
    ))
}

/// Cursor after the plain (transition-free) emission of `n`.
pub open spec fn plain_cursor(n: Seq<(usize, usize)>) -> usize {
    if n.len() == 0 { 0 } else { n.last().1 }
}

/// Underlay/overlap sections for the ranges of `n`, before the tail underlay.
pub open spec fn plain_body(n: Seq<(usize, usize)>) -> Seq<Cover>
    decreases n.len(),
{
    if n.len() == 0 {
        Seq::empty()
    } else {
        let prev = plain_body(n.drop_last());
        let (s, e) = n.last();
        pushed_cover(
            pushed_cover(prev, Cover::Underlay((plain_cursor(n.drop_last()), s))),
            Cover::Overlap((s, e)),
        )
    }
}

/// Interleaved underlay/overlap cover of `0..len` for canonical ranges `n`.
pub open spec fn plain_cover(n: Seq<(usize, usize)>, len: usize) -> Seq<Cover> {
    pushed_cover(plain_body(n), Cover::Underlay((plain_cursor(n), len)))
}

/// Section `c` is an overlap holding point `p`.
pub open spec fn overlap_holds(c: Cover, p: int) -> bool {
    match c {
        Cover::Overlap((s, e)) => s <= p && p < e,
        _ => false,
    }
}

/// Point `p` lies inside an overlap section of `out`.
pub open spec fn overlap_at(out: Seq<Cover>, p: int) -> bool {
    exists|k: int| 0 <= k < out.len() && overlap_holds(#[trigger] out[k], p)
}

proof fn lemma_push_underlay_overlaps(out: Seq<Cover>, r: (usize, usize), p: int)
    ensures
        overlap_at(pushed_cover(out, Cover::Underlay(r)), p) == overlap_at(out, p),
{
    let q = pushed_cover(out, Cover::Underlay(r));
    if overlap_at(q, p) {
        let k = choose|k: int| 0 <= k < q.len() && overlap_holds(#[trigger] q[k], p);
        assert(out[k] == q[k]);
    }
    if overlap_at(out, p) {
        let k = choose|k: int| 0 <= k < out.len() && overlap_holds(#[trigger] out[k], p);
        assert(q[k] == out[k]);
    }
}

proof fn lemma_push_overlap_overlaps(out: Seq<Cover>, s: usize, e: usize, p: int)
    requires
        s < e,
        out.len() > 0 ==> !(out.last() matches Cover::Overlap((_, le)) && le == s),
    ensures
        overlap_at(pushed_cover(out, Cover::Overlap((s, e))), p) == (overlap_at(out, p) || (s <= p && p < e)),
{
    let q = pushed_cover(out, Cover::Overlap((s, e)));
    assert(q == out.push(Cover::Overlap((s, e))));
    if overlap_at(out, p) {
        let k = choose|k: int| 0 <= k < out.len() && overlap_holds(#[trigger] out[k], p);
        assert(q[k] == out[k]);
    }
    if s <= p && p < e {
        assert(q[out.len() as int] == Cover::Overlap((s, e)));
    }
    if overlap_at(q, p) {
        let k = choose|k: int| 0 <= k < q.len() && overlap_holds(#[trigger] q[k], p);
        if k < out.len() {
            assert(out[k] == q[k]);
        }
    }
}

proof fn lemma_plain_body_overlaps(n: Seq<(usize, usize)>, p: int)
    requires
        is_canonical(n),
    ensures
        overlap_at(plain_body(n), p) == covers(n, p),
        n.len() > 0 ==> plain_body(n).len() > 0 && plain_body(n).last() == Cover::Overlap(n.last()),
    decreases n.len(),
{
    if n.len() > 0 {
        let d = n.drop_last();
        assert(is_canonical(d)) by {
            assert forall|i: int| 0 <= i < d.len() implies #[trigger] d[i].0 < d[i].1 by {
                assert(d[i] == n[i]);
            }
            assert forall|i: int, j: int| 0 <= i < j < d.len() implies #[trigger] d[i].1 < #[trigger] d[j].0 by {
                assert(d[i] == n[i]);
                assert(d[j] == n[j]);
            }
        }
        lemma_plain_body_overlaps(d, p);
        let (s, e) = n.last();
        assert(n[n.len() - 1] == n.last());
        assert(s < e);
        let prev = plain_body(d);
        let cur = plain_cursor(d);
        if d.len() > 0 {
            assert(d.last() == n[n.len() - 2]);
            assert(cur < s);
        }
        let mid = pushed_cover(prev, Cover::Underlay((cur, s)));
        lemma_push_underlay_overlaps(prev, (cur, s), p);
        if mid.len() > 0 {
            if cur < s {
                assert(mid.last() matches Cover::Underlay(_));
            } else {
                assert(d.len() == 0);
                assert(prev.len() == 0);
            }
        }
        lemma_push_overlap_overlaps(mid, s, e, p);
        if covers(n, p) {
            let w = choose|w: int| 0 <= w < n.len() && #[trigger] n[w].0 <= p && p < n[w].1;
            if w < n.len() - 1 {
                assert(d[w] == n[w]);
            }
        }
        if covers(d, p) {
            let w = choose|w: int| 0 <= w < d.len() && #[trigger] d[w].0 <= p && p < d[w].1;
            assert(n[w] == d[w]);
        }
        let q = pushed_cover(mid, Cover::Overlap((s, e)));
        assert(q == mid.push(Cover::Overlap((s, e))));
    }
}

/// Without transitions, the overlap sections of the plain cover mark exactly
/// the points of the canonical ranges.
proof fn lemma_plain_cover_overlaps(n: Seq<(usize, usize)>, len: usize, p: int)
    requires
        is_canonical(n),
    ensures
        overlap_at(plain_cover(n, len), p) == covers(n, p),
{
    lemma_plain_body_overlaps(n, p);
    lemma_push_underlay_overlaps(plain_body(n), (plain_cursor(n), len), p);
}

/// A section is a fade transition.
pub open spec fn is_transition(c: Cover) -> bool {
    c is Transition
}

/// No two neighbouring sections are both overlaps or both underlays.
pub open spec fn kinds_alternate(out: Seq<Cover>) -> bool {
    forall|k: int| 0 <= k < out.len() - 1 ==> !((#[trigger] out[k] is Overlap && out[k + 1] is Overlap)
        || (out[k] is Underlay && out[k + 1] is Underlay))
}

/// Without transitions the plain body has none, alternates, and ends with
/// an overlap (when there is a range).
proof fn lemma_plain_body_shape(n: Seq<(usize, usize)>)
    requires
        is_canonical(n),
    ensures
        forall|k: int| 0 <= k < plain_body(n).len() ==> !is_transition(#[trigger] plain_body(n)[k]),
        kinds_alternate(plain_body(n)),
        n.len() > 0 ==> plain_body(n).len() > 0 && plain_body(n).last() == Cover::Overlap(n.last()),
    decreases n.len(),
{
    if n.len() > 0 {
        let d = n.drop_last();
        assert(is_canonical(d)) by {
            assert forall|i: int| 0 <= i < d.len() implies #[trigger] d[i].0 < d[i].1 by {
                assert(d[i] == n[i]);
            }
            assert forall|i: int, j: int| 0 <= i < j < d.len() implies #[trigger] d[i].1 < #[trigger] d[j].0 by {
                assert(d[i] == n[i]);
                assert(d[j] == n[j]);
            }
        }
        lemma_plain_body_shape(d);
        let (s, e) = n.last();
        assert(n[n.len() - 1] == n.last());
        let prev = plain_body(d);
        let cur = plain_cursor(d);
        if d.len() > 0 {
            assert(d.last() == n[n.len() - 2]);
            assert(cur < s);
        }
        let mid = pushed_cover(prev, Cover::Underlay((cur, s)));
        if cur < s {
            assert(mid == prev.push(Cover::Underlay((cur, s))));
            assert forall|k: int| 0 <= k < mid.len() - 1 implies !((#[trigger] mid[k] is Overlap && mid[k + 1] is Overlap)
                || (mid[k] is Underlay && mid[k + 1] is Underlay)) by {
                if k < prev.len() - 1 {
                    assert(mid[k] == prev[k]);
                    assert(mid[k + 1] == prev[k + 1]);
                } else {
                    assert(mid[k] == prev.last());
                }
            }
        } else {
            assert(d.len() == 0);
            assert(mid == prev);
        }
        assert(forall|k: int| 0 <= k < mid.len() ==> !is_transition(#[trigger] mid[k]));
        let q = pushed_cover(mid, Cover::Overlap((s, e)));
        if mid.len() > 0 {
            assert(mid.last() is Underlay);
        }
        assert(q == mid.push(Cover::Overlap((s, e))));
        assert forall|k: int| 0 <= k < q.len() - 1 implies !((#[trigger] q[k] is Overlap && q[k + 1] is Overlap)
            || (q[k] is Underlay && q[k + 1] is Underlay)) by {
            assert(q[k] == mid[k]);
            if k < mid.len() - 1 {
                assert(q[k + 1] == mid[k + 1]);
            }
        }
        assert forall|k: int| 0 <= k < q.len() implies !is_transition(#[trigger] q[k]) by {
            if k < mid.len() {
                assert(q[k] == mid[k]);
            }
        }
    }
}

/// Without transitions the cover holds underlays and overlaps only, and no
/// two neighbouring sections are of the same kind.
proof fn lemma_plain_cover_shape(n: Seq<(usize, usize)>, len: usize)
    requires
        is_canonical(n),
    ensures
        forall|k: int| 0 <= k < plain_cover(n, len).len() ==> !is_transition(#[trigger] plain_cover(n, len)[k]),
        kinds_alternate(plain_cover(n, len)),
{
    lemma_plain_body_shape(n);
    let b = plain_body(n);
    let c = plain_cursor(n);
    let q = plain_cover(n, len);
    if c < len {
        assert(q == b.push(Cover::Underlay((c, len))));
        assert forall|k: int| 0 <= k < q.len() - 1 implies !((#[trigger] q[k] is Overlap && q[k + 1] is Overlap)
            || (q[k] is Underlay && q[k + 1] is Underlay)) by {
            assert(q[k] == b[k]);
            if k < b.len() - 1 {
                assert(q[k + 1] == b[k + 1]);
            }
        }
        assert forall|k: int| 0 <= k < q.len() implies !is_transition(#[trigger] q[k]) by {
            if k < b.len() {
                assert(q[k] == b[k]);
            }
        }
    } else {
        assert(q == b);
    }
}

/// A fade transition `(a, b)` is non-empty and at most `t` long, and it is
/// exactly `t` long unless it is cut at an edge of `0..len`.
pub open spec fn transition_fits(c: Cover, len: usize, t: usize) -> bool {
    match c {
        Cover::Transition((_, (a, b))) => a < b && b - a <= t && (b - a == t || a == 0 || b == len),
        _ => true,
    }
}

/// Every transition of `out` fits.
pub open spec fn transitions_fit(out: Seq<Cover>, len: usize, t: usize) -> bool {
    forall|k: int| 0 <= k < out.len() ==> transition_fits(#[trigger] out[k], len, t)
}

proof fn lemma_push_keeps_fit(out: Seq<Cover>, c: Cover, len: usize, t: usize)
    requires
        transitions_fit(out, len, t),
        cover_bounds(c).0 < cover_bounds(c).1 ==> transition_fits(c, len, t),
    ensures
        transitions_fit(pushed_cover(out, c), len, t),
{
    let q = pushed_cover(out, c);
    assert forall|k: int| 0 <= k < q.len() implies transition_fits(#[trigger] q[k], len, t) by {
        if k < out.len() && q[k] != out[k] {
            assert(k == out.len() - 1);
        } else if k < out.len() {
            assert(transition_fits(out[k], len, t));
        }
    }
}

/// An overlap is kept only when it can hold its transitions: both fades
/// need `t` samples, a single fade at an edge needs `t / 2`.
pub open spec fn viable(r: (usize, usize), len: usize, t: usize) -> bool {
    let needs_up = r.0 > 0;
    let needs_down = r.1 < len;
    if needs_up && needs_down {
        r.1 - r.0 >= t
    } else if !needs_up && !needs_down {
        true
    } else {
        r.1 - r.0 >= t / 2
    }
}

pub open spec fn viable_pred(len: usize, t: usize) -> spec_fn((usize, usize)) -> bool {
    |r: (usize, usize)| viable(r, len, t)
}

/// Merge consecutive ranges whose underlay gap is shorter than `t`.
pub open spec fn merge_small_gaps(v: Seq<(usize, usize)>, t: usize) -> Seq<(usize, usize)>
    decreases v.len(),
{
    if v.len() <= 1 {
        v
    } else {
        let m = merge_small_gaps(v.drop_last(), t);
        let last = m.last();
        let (ns, ne) = v.last();
        let gap = if ns >= last.1 { ns - last.1 } else { 0 };
        if gap < t {
            m.update(m.len() - 1, (last.0, if last.1 >= ne { last.1 } else { ne }))
        } else {
            m.push((ns, ne))
        }
    }
}

/// Cursor after emitting merged ranges `m` with transitions of `half` per side.
pub open spec fn trans_cursor(m: Seq<(usize, usize)>, len: usize, half: usize) -> usize {
    if m.len() == 0 {
        0
    } else {
        let e = m.last().1;
        if e < len {
            if len - e <= half { len } else { (e + half) as usize }
        } else {
            e
        }
    }
}

/// Sections emitted for one merged range `(s, e)` starting from `cursor`.
pub open spec fn trans_step(
    out: Seq<Cover>,
    cursor: usize,
    r: (usize, usize),
    len: usize,
    half: usize,
) -> Seq<Cover> {
    let (s, e) = r;
    let needs_up = s > 0;
    let needs_down = e < len;
    let up_start: usize = if s > half { (s - half) as usize } else { 0 };
    let up_end: usize = (s + half) as usize;
    let down_start: usize = (e - half) as usize;
    let down_end: usize = if len - e <= half { len } else { (e + half) as usize };
    let out1 = pushed_cover(out, Cover::Underlay((cursor, if needs_up { up_start } else { s })));
    let out2 = if needs_up {
        pushed_cover(out1, Cover::Transition((TransitionDirection::Up, (up_start, up_end))))
    } else {
        out1
    };
    let out3 = pushed_cover(
        out2,
        Cover::Overlap((if needs_up { up_end } else { s }, if needs_down { down_start } else { e })),
    );
    if needs_down {
        pushed_cover(out3, Cover::Transition((TransitionDirection::Down, (down_start, down_end))))
    } else {
        out3
    }
}

/// Sections for merged ranges `m`, before the tail underlay.
pub open spec fn trans_body(m: Seq<(usize, usize)>, len: usize, half: usize) -> Seq<Cover>
    decreases m.len(),
{
    if m.len() == 0 {
        Seq::empty()
    } else {
        trans_step(
            trans_body(m.drop_last(), len, half),
            trans_cursor(m.drop_last(), len, half),
            m.last(),
            len,
            half,
        )
    }
}

/// The cover of `0..len` for canonical ranges `n`, with optional transitions
/// of (even) size `t`.
pub open spec fn cover_from_canonical(
    n: Seq<(usize, usize)>,
    len: usize,
    transition_size: Option<usize>,
) -> Seq<Cover> {
    match transition_size {
        None => plain_cover(n, len),
        Some(t) => {
            let v = n.filter(viable_pred(len, t));
            if v.len() == 0 {
                seq![Cover::Underlay((0, len))]
            } else {
                let m = merge_small_gaps(v, t);
                pushed_cover(
                    trans_body(m, len, t / 2),
                    Cover::Underlay((trans_cursor(m, len, t / 2), len)),
                )
            }
        }
    }
}


fn clamp_ranges(overlap: &Vec<(usize, usize)>, len: usize) -> (out: Vec<(usize, usize)>)
    ensures
        out@ == clamped(overlap@, len),
{
    let mut out: Vec<(usize, usize)> = Vec::new();
    let mut i: usize = 0;
    while i < overlap.len()
        invariant
            i <= overlap.len(),
            out@.len() == i,
            forall|k: int| 0 <= k < i ==> #[trigger] out@[k] == clamped(overlap@, len)[k],
        decreases overlap.len() - i,
    {
        let (s, e) = overlap[i];
        let cs = if s < len { s } else { len };
        let ce = if e < len { e } else { len };
        out.push((cs, ce));
        i = i + 1;
    }
    assert(out@ =~= clamped(overlap@, len));
    out
}

proof fn lemma_canonical_within(n: Seq<(usize, usize)>, c: Seq<(usize, usize)>, len: usize)
    requires
        canonical_union_of(n, c),
        forall|k: int| 0 <= k < c.len() ==> #[trigger] c[k].1 <= len,
    ensures
        forall|k: int| 0 <= k < n.len() ==> #[trigger] n[k].1 <= len,
{
    assert forall|k: int| 0 <= k < n.len() implies #[trigger] n[k].1 <= len by {
        let p = n[k].1 - 1;
        assert(n[k].0 <= p && p < n[k].1);
        assert(covers(n, p));
        assert(covers(c, p));
        let w = choose|w: int| 0 <= w < c.len() && #[trigger] c[w].0 <= p && p < c[w].1;
    }
}

fn emit_plain(n: &Vec<(usize, usize)>, len: usize) -> (out: Vec<Cover>)
    requires
        len > 0,
        is_canonical(n@),
        forall|k: int| 0 <= k < n@.len() ==> #[trigger] n@[k].1 <= len,
    ensures
        out@ == plain_cover(n@, len),
        tiles(out@, len),
{
    let mut out: Vec<Cover> = Vec::new();
    let mut cur: usize = 0;
    let mut i: usize = 0;
    while i < n.len()
        invariant
            i <= n.len(),
            out@ == plain_body(n@.take(i as int)),
            cur == plain_cursor(n@.take(i as int)),
            is_canonical(n@),
            forall|k: int| 0 <= k < n@.len() ==> #[trigger] n@[k].1 <= len,
            tiles_upto(out@, cur),
            cur <= len,
            i < n@.len() ==> cur <= n@[i as int].0,
        decreases n.len() - i,
    {
        let (s, e) = n[i];
        proof {
            let t1 = n@.take(i + 1);
            assert(t1.drop_last() == n@.take(i as int));
            assert(t1.last() == (s, e));
            assert(n@[i as int].0 < n@[i as int].1);
            if i + 1 < n@.len() {
                assert(n@[i as int].1 < n@[i + 1].0);
            }
        }
        let ghost o0 = out@;
        push_cover(&mut out, Cover::Underlay((cur, s)));
        proof { lemma_push_tiles(o0, cur, Cover::Underlay((cur, s))); }
        let ghost o1 = out@;
        push_cover(&mut out, Cover::Overlap((s, e)));
        proof { lemma_push_tiles(o1, s, Cover::Overlap((s, e))); }
        cur = e;
        i = i + 1;
    }
    assert(n@.take(n@.len() as int) == n@);
    let ghost o2 = out@;
    push_cover(&mut out, Cover::Underlay((cur, len)));
    proof { lemma_push_tiles(o2, cur, Cover::Underlay((cur, len))); }
    out
}

/// Facts about kept overlaps that make transition arithmetic safe.
spec fn fits(r: (usize, usize), len: usize, half: usize) -> bool {
    &&& r.0 < r.1
    &&& r.1 <= len
    &&& (r.0 > 0 ==> r.0 + half <= r.1)
    &&& (r.1 < len ==> r.1 >= half)
    &&& (r.0 > 0 && r.1 < len ==> r.0 + 2 * half <= r.1)
}

proof fn lemma_trans_step_fits(out: Seq<Cover>, cursor: usize, r: (usize, usize), len: usize, half: usize, t: usize)
    requires
        t == 2 * half,
        transitions_fit(out, len, t),
        fits(r, len, half),
        len + half <= usize::MAX,
    ensures
        transitions_fit(trans_step(out, cursor, r, len, half), len, t),
{
    let (s, e) = r;
    let needs_up = s > 0;
    let needs_down = e < len;
    let up_start: usize = if s > half { (s - half) as usize } else { 0 };
    let up_end: usize = (s + half) as usize;
    let down_start: usize = (e - half) as usize;
    let down_end: usize = if len - e <= half { len } else { (e + half) as usize };
    let out1 = pushed_cover(out, Cover::Underlay((cursor, if needs_up { up_start } else { s })));
    lemma_push_keeps_fit(out, Cover::Underlay((cursor, if needs_up { up_start } else { s })), len, t);
    let out2 = if needs_up {
        pushed_cover(out1, Cover::Transition((TransitionDirection::Up, (up_start, up_end))))
    } else {
        out1
    };
    if needs_up {
        lemma_push_keeps_fit(out1, Cover::Transition((TransitionDirection::Up, (up_start, up_end))), len, t);
    }
    let ov = Cover::Overlap((if needs_up { up_end } else { s }, if needs_down { down_start } else { e }));
    let out3 = pushed_cover(out2, ov);
    lemma_push_keeps_fit(out2, ov, len, t);
    if needs_down {
        lemma_push_keeps_fit(out3, Cover::Transition((TransitionDirection::Down, (down_start, down_end))), len, t);
    }
}

proof fn lemma_trans_body_fits(m: Seq<(usize, usize)>, len: usize, half: usize, t: usize)
    requires
        t == 2 * half,
        forall|k: int| 0 <= k < m.len() ==> #[trigger] fits(m[k], len, half),
        len + half <= usize::MAX,
    ensures
        transitions_fit(trans_body(m, len, half), len, t),
    decreases m.len(),
{
    if m.len() > 0 {
        let d = m.drop_last();
        assert forall|k: int| 0 <= k < d.len() implies #[trigger] fits(d[k], len, half) by {
            assert(d[k] == m[k]);
        }
        lemma_trans_body_fits(d, len, half, t);
        assert(fits(m[m.len() - 1], len, half));
        lemma_trans_step_fits(trans_body(d, len, half), trans_cursor(d, len, half), m.last(), len, half, t);
    }
}

/// Point `p` is farther than `half` from every point covered by `r`.
pub open spec fn far_from(r: Seq<(usize, usize)>, p: int, half: int) -> bool {
    forall|q: int| #[trigger] covers(r, q) ==> p + half < q || q + half < p
}

/// Point `x` is within `half` of some point covered by `v`.
pub open spec fn near(v: Seq<(usize, usize)>, x: int, half: int) -> bool {
    exists|q: int| #[trigger] covers(v, q) && q <= x + half && x <= q + half
}

/// Point `x` lies in section `c`.
pub open spec fn in_section(c: Cover, x: int) -> bool {
    cover_bounds(c).0 <= x && x < cover_bounds(c).1
}

/// Point `p` lies in an underlay section of `out`.
pub open spec fn underlay_at(out: Seq<Cover>, p: int) -> bool {
    exists|k: int| 0 <= k < out.len() && #[trigger] out[k] is Underlay && in_section(out[k], p)
}

/// Every point of every overlap or transition section of `out` is near `v`.
spec fn sounding_near(out: Seq<Cover>, v: Seq<(usize, usize)>, half: int) -> bool {
    forall|k: int, x: int| 0 <= k < out.len() && !(out[k] is Underlay) && #[trigger] in_section(out[k], x)
        ==> near(v, x, half)
}

/// A merged range: its ends are covered by `v` and each of its points is
/// near `v`.
spec fn range_near(r: (usize, usize), v: Seq<(usize, usize)>, half: int) -> bool {
    &&& r.0 < r.1
    &&& covers(v, r.0 as int)
    &&& covers(v, r.1 - 1)
    &&& forall|x: int| r.0 <= x < r.1 ==> #[trigger] near(v, x, half)
}

proof fn lemma_covers_extend(v: Seq<(usize, usize)>, q: int)
    requires
        v.len() > 0,
        covers(v.drop_last(), q),
    ensures
        covers(v, q),
{
    let d = v.drop_last();
    let i = choose|i: int| 0 <= i < d.len() && #[trigger] d[i].0 <= q && q < d[i].1;
    assert(v[i] == d[i]);
}

proof fn lemma_near_extend(v: Seq<(usize, usize)>, x: int, half: int)
    requires
        v.len() > 0,
        near(v.drop_last(), x, half),
    ensures
        near(v, x, half),
{
    let q = choose|q: int| #[trigger] covers(v.drop_last(), q) && q <= x + half && x <= q + half;
    lemma_covers_extend(v, q);
}

proof fn lemma_range_near_extend(r: (usize, usize), v: Seq<(usize, usize)>, half: int)
    requires
        v.len() > 0,
        range_near(r, v.drop_last(), half),
    ensures
        range_near(r, v, half),
{
    lemma_covers_extend(v, r.0 as int);
    lemma_covers_extend(v, r.1 - 1);
    assert forall|x: int| r.0 <= x < r.1 implies #[trigger] near(v, x, half) by {
        assert(near(v.drop_last(), x, half));
        lemma_near_extend(v, x, half);
    }
}

/// Merging only closes underlay gaps shorter than `t`: every merged range
/// starts and ends on covered points, and each of its points is within
/// `t / 2` of a covered point.
proof fn lemma_merged_ranges_near(v: Seq<(usize, usize)>, t: usize, half: int)
    requires
        is_canonical(v),
        t == 2 * half,
    ensures
        forall|k: int| 0 <= k < merge_small_gaps(v, t).len() ==> range_near(#[trigger] merge_small_gaps(v, t)[k], v, half),
        v.len() > 0 ==> merge_small_gaps(v, t).len() > 0 && merge_small_gaps(v, t).last().1 == v.last().1,
    decreases v.len(),
{
    let m = merge_small_gaps(v, t);
    if v.len() <= 1 {
        if v.len() == 1 {
            assert(v[0].0 < v[0].1);
            assert(covers(v, v[0].0 as int));
            assert(covers(v, v[0].1 - 1));
            assert forall|x: int| v[0].0 <= x < v[0].1 implies #[trigger] near(v, x, half) by {
                assert(covers(v, x));
            }
        }
    } else {
        let d = v.drop_last();
        assert(is_canonical(d)) by {
            assert forall|i: int| 0 <= i < d.len() implies #[trigger] d[i].0 < d[i].1 by {
                assert(d[i] == v[i]);
            }
            assert forall|i: int, j: int| 0 <= i < j < d.len() implies #[trigger] d[i].1 < #[trigger] d[j].0 by {
                assert(d[i] == v[i]);
                assert(d[j] == v[j]);
            }
        }
        lemma_merged_ranges_near(d, t, half);
        let md = merge_small_gaps(d, t);
        let last = md.last();
        let (ns, ne) = v.last();
        assert(v[v.len() - 1] == v.last());
        assert(d.last() == v[v.len() - 2]);
        assert(v[v.len() - 2].1 < ns);
        assert(ns < ne);
        assert(covers(v, ns as int));
        assert(covers(v, ne - 1));
        assert forall|k: int| 0 <= k < md.len() implies range_near(#[trigger] md[k], v, half) by {
            lemma_range_near_extend(md[k], v, half);
        }
        let gap = if ns >= last.1 { ns - last.1 } else { 0 };
        if gap < t {
            let nr = (last.0, if last.1 >= ne { last.1 } else { ne });
            assert(nr == (last.0, ne));
            assert(range_near(md[md.len() - 1], v, half));
            assert forall|x: int| last.0 <= x < ne implies #[trigger] near(v, x, half) by {
                if x < last.1 {
                } else if x < ns {
                    if x <= last.1 - 1 + half {
                        assert(covers(v, last.1 - 1));
                    } else {
                        assert(covers(v, ns as int));
                    }
                } else {
                    assert(covers(v, x)) by {
                        assert(v[v.len() - 1].0 <= x && x < v[v.len() - 1].1);
                    }
                }
            }
            assert(range_near(nr, v, half));
            assert forall|k: int| 0 <= k < m.len() implies range_near(#[trigger] m[k], v, half) by {
                if k < md.len() - 1 {
                    assert(m[k] == md[k]);
                }
            }
        } else {
            assert(m == md.push((ns, ne)));
            assert forall|x: int| ns <= x < ne implies #[trigger] near(v, x, half) by {
                assert(covers(v, x)) by {
                    assert(v[v.len() - 1].0 <= x && x < v[v.len() - 1].1);
                }
            }
            assert forall|k: int| 0 <= k < m.len() implies range_near(#[trigger] m[k], v, half) by {
                if k < md.len() {
                    assert(m[k] == md[k]);
                }
            }
        }
    }
}

proof fn lemma_push_sounding(out: Seq<Cover>, c: Cover, v: Seq<(usize, usize)>, half: int)
    requires
        sounding_near(out, v, half),
        !(c is Underlay) ==> forall|x: int| #[trigger] in_section(c, x) ==> near(v, x, half),
    ensures
        sounding_near(pushed_cover(out, c), v, half),
{
    let q = pushed_cover(out, c);
    assert forall|k: int, x: int| 0 <= k < q.len() && !(q[k] is Underlay) && #[trigger] in_section(q[k], x)
        implies near(v, x, half) by {
        if k < out.len() && q[k] == out[k] {
            assert(in_section(out[k], x));
        } else if k < out.len() {
            assert(k == out.len() - 1);
            let (s0, e0) = cover_bounds(c);
            if let Cover::Overlap((ls, le)) = out.last() {
                if x < le {
                    assert(in_section(out[k], x));
                } else {
                    assert(in_section(c, x));
                }
            }
        } else {
            assert(q[k] == c);
        }
    }
}

proof fn lemma_trans_step_sounding(
    out: Seq<Cover>,
    cursor: usize,
    r: (usize, usize),
    len: usize,
    half: usize,
    v: Seq<(usize, usize)>,
)
    requires
        sounding_near(out, v, half as int),
        range_near(r, v, half as int),
        fits(r, len, half),
        len + half <= usize::MAX,
    ensures
        sounding_near(trans_step(out, cursor, r, len, half), v, half as int),
{
    let h = half as int;
    let (s, e) = r;
    let needs_up = s > 0;
    let needs_down = e < len;
    let up_start: usize = if s > half { (s - half) as usize } else { 0 };
    let up_end: usize = (s + half) as usize;
    let down_start: usize = (e - half) as usize;
    let down_end: usize = if len - e <= half { len } else { (e + half) as usize };
    let c1 = Cover::Underlay((cursor, if needs_up { up_start } else { s }));
    let out1 = pushed_cover(out, c1);
    lemma_push_sounding(out, c1, v, h);
    let cu = Cover::Transition((TransitionDirection::Up, (up_start, up_end)));
    let out2 = if needs_up { pushed_cover(out1, cu) } else { out1 };
    if needs_up {
        assert forall|x: int| #[trigger] in_section(cu, x) implies near(v, x, h) by {
            if x < s {
                assert(covers(v, s as int));
            } else {
                assert(near(v, x, h));
            }
        }
        lemma_push_sounding(out1, cu, v, h);
    }
    let co = Cover::Overlap((if needs_up { up_end } else { s }, if needs_down { down_start } else { e }));
    assert forall|x: int| #[trigger] in_section(co, x) implies near(v, x, h) by {
        assert(s <= x && x < e);
        assert(near(v, x, h));
    }
    let out3 = pushed_cover(out2, co);
    lemma_push_sounding(out2, co, v, h);
    if needs_down {
        let cd = Cover::Transition((TransitionDirection::Down, (down_start, down_end)));
        assert forall|x: int| #[trigger] in_section(cd, x) implies near(v, x, h) by {
            if x < e {
                assert(s <= x);
                assert(near(v, x, h));
            } else {
                assert(covers(v, e - 1));
            }
        }
        lemma_push_sounding(out3, cd, v, h);
    }
}

proof fn lemma_trans_body_sounding(m: Seq<(usize, usize)>, len: usize, half: usize, v: Seq<(usize, usize)>)
    requires
        forall|k: int| 0 <= k < m.len() ==> #[trigger] fits(m[k], len, half),
        forall|k: int| 0 <= k < m.len() ==> range_near(#[trigger] m[k], v, half as int),
        len + half <= usize::MAX,
    ensures
        sounding_near(trans_body(m, len, half), v, half as int),
    decreases m.len(),
{
    if m.len() > 0 {
        let d = m.drop_last();
        assert forall|k: int| 0 <= k < d.len() implies #[trigger] fits(d[k], len, half) by {
            assert(d[k] == m[k]);
        }
        assert forall|k: int| 0 <= k < d.len() implies range_near(#[trigger] d[k], v, half as int) by {
            assert(d[k] == m[k]);
        }
        lemma_trans_body_sounding(d, len, half, v);
        assert(fits(m[m.len() - 1], len, half));
        assert(range_near(m[m.len() - 1], v, half as int));
        lemma_trans_step_sounding(trans_body(d, len, half), trans_cursor(d, len, half), m.last(), len, half, v);
    } else {
        assert(trans_body(m, len, half).len() == 0);
    }
}

/// A tiling of `0..len` puts every point of `0..len` in some section.
proof fn lemma_tiles_locate(out: Seq<Cover>, len: usize, p: int, i: int)
    requires
        tiles(out, len),
        0 <= i < out.len(),
        cover_bounds(out[i]).0 <= p < len,
    ensures
        exists|k: int| 0 <= k < out.len() && #[trigger] in_section(out[k], p),
    decreases out.len() - i,
{
    if p < cover_bounds(out[i]).1 {
        assert(in_section(out[i], p));
    } else {
        if i == out.len() - 1 {
            assert(cover_bounds(out.last()).1 == len);
        } else {
            assert(cover_bounds(out[i]).1 == cover_bounds(out[i + 1]).0);
            lemma_tiles_locate(out, len, p, i + 1);
        }
    }
}

proof fn lemma_filter_covers(n: Seq<(usize, usize)>, len: usize, t: usize, q: int)
    requires
        covers(n.filter(viable_pred(len, t)), q),
    ensures
        covers(n, q),
    decreases n.len(),
{
    reveal_with_fuel(Seq::filter, 1);
    let f = n.filter(viable_pred(len, t));
    if n.len() > 0 {
        let d = n.drop_last();
        let fd = d.filter(viable_pred(len, t));
        let i = choose|i: int| 0 <= i < f.len() && #[trigger] f[i].0 <= q && q < f[i].1;
        if i < fd.len() {
            assert(f[i] == fd[i]);
            assert(covers(fd, q));
            lemma_filter_covers(d, len, t, q);
            lemma_covers_extend(n, q);
        } else {
            assert(f[i] == n.last());
            assert(n[n.len() - 1].0 <= q && q < n[n.len() - 1].1);
        }
    }
}

fn filter_viable(n: &Vec<(usize, usize)>, len: usize, t: usize) -> (out: Vec<(usize, usize)>)
    requires
        is_canonical(n@),
        forall|k: int| 0 <= k < n@.len() ==> #[trigger] n@[k].1 <= len,
    ensures
        out@ == n@.filter(viable_pred(len, t)),
        is_canonical(out@),
        forall|k: int| 0 <= k < out@.len() ==> #[trigger] viable(out@[k], len, t),
        forall|k: int| 0 <= k < out@.len() ==> #[trigger] fits(out@[k], len, t / 2),
{
    let mut out: Vec<(usize, usize)> = Vec::new();
    let mut i: usize = 0;
    let ghost mut last_j: int = 0;
    while i < n.len()
        invariant
            i <= n.len(),
            is_canonical(n@),
            forall|k: int| 0 <= k < n@.len() ==> #[trigger] n@[k].1 <= len,
            out@ == n@.take(i as int).filter(viable_pred(len, t)),
            is_canonical(out@),
            forall|k: int| 0 <= k < out@.len() ==> #[trigger] viable(out@[k], len, t),
            forall|k: int| 0 <= k < out@.len() ==> #[trigger] fits(out@[k], len, t / 2),
            out@.len() > 0 ==> 0 <= last_j < i && out@.last() == n@[last_j],
        decreases n.len() - i,
    {
        let (s, e) = n[i];
        proof {
            let t1 = n@.take(i + 1);
            assert(t1.drop_last() == n@.take(i as int));
            assert(t1.last() == (s, e));
            reveal(Seq::filter);
        }
        let needs_up = s > 0;
        let needs_down = e < len;
        let ok = if needs_up && needs_down {
            e - s >= t
        } else if !needs_up && !needs_down {
            true
        } else {
            e - s >= t / 2
        };
        if ok {
            let ghost before = out@;
            out.push((s, e));
            proof {
                if before.len() > 0 {
                    assert(n@[last_j].1 < n@[i as int].0);
                }
                lemma_canonical_push(before, (s, e));
                last_j = i as int;
            }
        }
        i = i + 1;
    }
    assert(n@.take(n@.len() as int) == n@);
    out
}

fn merge_gaps(v: &Vec<(usize, usize)>, len: usize, t: usize) -> (out: Vec<(usize, usize)>)
    requires
        v@.len() > 0,
        is_canonical(v@),
        forall|k: int| 0 <= k < v@.len() ==> #[trigger] viable(v@[k], len, t),
        forall|k: int| 0 <= k < v@.len() ==> #[trigger] fits(v@[k], len, t / 2),
    ensures
        out@ == merge_small_gaps(v@, t),
        out@.len() > 0,
        is_canonical(out@),
        forall|k: int| 0 <= k < out@.len() - 1 ==> #[trigger] out@[k].1 + t <= out@[k + 1].0,
        forall|k: int| 0 <= k < out@.len() ==> #[trigger] fits(out@[k], len, t / 2),
{
    let mut out: Vec<(usize, usize)> = Vec::new();
    let mut cur = v[0];
    let mut i: usize = 1;
    proof {
        assert(v@.take(1).len() == 1);
        assert(v@.take(1) =~= seq![v@[0]]);
        assert(out@.push(cur) =~= seq![v@[0]]);
    }
    while i < v.len()
        invariant
            1 <= i <= v.len(),
            is_canonical(v@),
            forall|k: int| 0 <= k < v@.len() ==> #[trigger] viable(v@[k], len, t),
            forall|k: int| 0 <= k < v@.len() ==> #[trigger] fits(v@[k], len, t / 2),
            out@.push(cur) == merge_small_gaps(v@.take(i as int), t),
            is_canonical(out@.push(cur)),
            forall|k: int| 0 <= k < out@.len() ==> #[trigger] out@.push(cur)[k].1 + t <= out@.push(cur)[k + 1].0,
            forall|k: int| 0 <= k < out@.len() ==> #[trigger] fits(out@[k], len, t / 2),
            fits(cur, len, t / 2),
            cur.1 == v@[i - 1].1,
        decreases v.len() - i,
    {
        let (ns, ne) = v[i];
        let ghost prev = out@;
        let ghost pcur = cur;
        proof {
            lemma_canonical_pop(prev, pcur);
            let t1 = v@.take(i + 1);
            assert(t1.drop_last() == v@.take(i as int));
            assert(t1.last() == (ns, ne));
            assert(v@[i - 1].1 < v@[i as int].0);
            assert(viable(v@[i as int], len, t));
            assert(fits(v@[i as int], len, t / 2));
        }
        let gap = ns - cur.1;
        if gap < t {
            cur = (cur.0, ne);
            proof {
                let m = prev.push(pcur);
                assert(m.update(m.len() - 1, (pcur.0, ne)) =~= prev.push(cur));
                lemma_canonical_push(prev, cur);
                assert forall|k: int| 0 <= k < out@.len() implies #[trigger] out@.push(cur)[k].1 + t <= out@.push(cur)[k + 1].0 by {
                    assert(m[k] == prev.push(cur)[k]);
                    if k + 1 < prev.len() {
                        assert(m[k + 1] == prev.push(cur)[k + 1]);
                    } else {
                        assert(m[k + 1].0 == prev.push(cur)[k + 1].0);
                    }
                }
            }
        } else {
            out.push(cur);
            cur = (ns, ne);
            proof {
                lemma_canonical_push(prev, pcur);
                lemma_canonical_push(prev.push(pcur), cur);
                let a = prev.push(pcur);
                let b = a.push(cur);
                assert forall|k: int| 0 <= k < out@.len() implies #[trigger] out@.push(cur)[k].1 + t <= out@.push(cur)[k + 1].0 by {
                    if k < prev.len() {
                        assert(b[k] == a[k]);
                        assert(b[k + 1] == a[k + 1]);
                    }
                }
            }
        }
        i = i + 1;
    }
    out.push(cur);
    assert(v@.take(v@.len() as int) == v@);
    out
}

fn emit_transitions(m: &Vec<(usize, usize)>, len: usize, half: usize) -> (out: Vec<Cover>)
    requires
        len > 0,
        m@.len() > 0,
        is_canonical(m@),
        forall|k: int| 0 <= k < m@.len() ==> #[trigger] fits(m@[k], len, half),
        forall|k: int| 0 <= k < m@.len() - 1 ==> #[trigger] m@[k].1 + 2 * half <= m@[k + 1].0,
    ensures
        out@ == pushed_cover(trans_body(m@, len, half), Cover::Underlay((trans_cursor(m@, len, half), len))),
        tiles(out@, len),
{
    let mut out: Vec<Cover> = Vec::new();
    let mut cursor: usize = 0;
    let mut i: usize = 0;
    while i < m.len()
        invariant
            i <= m.len(),
            len > 0,
            is_canonical(m@),
            forall|k: int| 0 <= k < m@.len() ==> #[trigger] fits(m@[k], len, half),
            out@ == trans_body(m@.take(i as int), len, half),
            cursor == trans_cursor(m@.take(i as int), len, half),
            forall|k: int| 0 <= k < m@.len() - 1 ==> #[trigger] m@[k].1 + 2 * half <= m@[k + 1].0,
            tiles_upto(out@, cursor),
            cursor <= len,
            i == 0 ==> cursor == 0,
            i > 0 ==> cursor <= m@[i - 1].1 + half,
        decreases m.len() - i,
    {
        let (s, e) = m[i];
        proof {
            let t1 = m@.take(i + 1);
            assert(t1.drop_last() == m@.take(i as int));
            assert(t1.last() == (s, e));
            assert(fits(m@[i as int], len, half));
            if i > 0 {
                assert(m@[i - 1].1 + 2 * half <= m@[i as int].0);
                assert(fits(m@[i - 1], len, half));
            }
        }
        if s == 0 && e == len {
            proof {
                if i > 0 {
                    assert(m@[i - 1].1 < m@[i as int].0);
                }
                if m@.len() > 1 {
                    assert(m@[0].1 < m@[1].0);
                    assert(fits(m@[1], len, half));
                }
                assert(m@ =~= seq![(s, e)]);
                assert(m@.take(0) =~= Seq::<(usize, usize)>::empty());
                assert(m@.drop_last() =~= Seq::<(usize, usize)>::empty());
            }
            let mut single: Vec<Cover> = Vec::new();
            push_cover(&mut single, Cover::Overlap((0, len)));
            proof { lemma_push_tiles(Seq::empty(), 0, Cover::Overlap((0, len))); }
            return single;
        }
        let needs_up = s > 0;
        let needs_down = e < len;
        let (up_start, up_end) = if needs_up {
            (if s > half { s - half } else { 0 }, s + half)
        } else {
            (s, s)
        };
        let (down_start, down_end) = if needs_down {
            (e - half, if len - e <= half { len } else { e + half })
        } else {
            (e, e)
        };
        let before_overlap_start = if needs_up { up_start } else { s };
        let ghost o0 = out@;
        push_cover(&mut out, Cover::Underlay((cursor, before_overlap_start)));
        proof { lemma_push_tiles(o0, cursor, Cover::Underlay((cursor, before_overlap_start))); }
        if needs_up {
            let ghost o1 = out@;
            push_cover(&mut out, Cover::Transition((TransitionDirection::Up, (up_start, up_end))));
            proof { lemma_push_tiles(o1, up_start, Cover::Transition((TransitionDirection::Up, (up_start, up_end)))); }
        }
        let overlap_start = if needs_up { up_end } else { s };
        let overlap_end = if needs_down { down_start } else { e };
        let ghost o2 = out@;
        push_cover(&mut out, Cover::Overlap((overlap_start, overlap_end)));
        proof { lemma_push_tiles(o2, overlap_start, Cover::Overlap((overlap_start, overlap_end))); }
        if needs_down {
            let ghost o3 = out@;
            push_cover(&mut out, Cover::Transition((TransitionDirection::Down, (down_start, down_end))));
            proof { lemma_push_tiles(o3, overlap_end, Cover::Transition((TransitionDirection::Down, (down_start, down_end)))); }
            cursor = down_end;
        } else {
            cursor = e;
        }
        i = i + 1;
    }
    assert(m@.take(m@.len() as int) == m@);
    let ghost o4 = out@;
    push_cover(&mut out, Cover::Underlay((cursor, len)));
    proof { lemma_push_tiles(o4, cursor, Cover::Underlay((cursor, len))); }
    out
}

/// The canonical decomposition of the points covered by `s`.
pub open spec fn canonical_decomposition(s: Seq<(usize, usize)>) -> Seq<(usize, usize)> {
    choose|n: Seq<(usize, usize)>| canonical_union_of(n, s)
}

/// The cover map of `0..len` for overlap ranges `overlap` (empty when `len` is 0).
pub open spec fn spec_map_cover(
    overlap: Seq<(usize, usize)>,
    len: usize,
    transition_size: Option<usize>,
) -> Seq<Cover> {
    if len == 0 {
        Seq::empty()
    } else {
        cover_from_canonical(canonical_decomposition(clamped(overlap, len)), len, transition_size)
    }
}

/// Build a full cover map of underlay/overlap sections (plus fade
/// transitions when `transition_size` is given) over `0..sample_len`.
///
/// Ranges are half-open and clamped to `sample_len`. With a transition size
/// `t` (which must be even), an overlap is kept only if it can hold its
/// fades (`t` for an interior overlap, `t / 2` at an edge), overlaps whose
/// underlay gap is shorter than `t` are merged, and each kept overlap gets an
/// `Up` fade `[s - t/2, s + t/2)` and a `Down` fade `[e - t/2, e + t/2)`,
/// both cut at the edges of the span.
pub fn map_cover(
    overlap: &Vec<(usize, usize)>,
    sample_len: usize,
    transition_size: Option<usize>,
) -> (out: Vec<Cover>)
    requires
        sample_len > 0 ==> match transition_size {
            Some(t) => t % 2 == 0,
            None => true,
        },
    ensures
        out@ == spec_map_cover(overlap@, sample_len, transition_size),
        sample_len > 0 ==> tiles(out@, sample_len),
        sample_len > 0 ==> canonical_union_of(canonical_decomposition(clamped(overlap@, sample_len)),
            clamped(overlap@, sample_len)),
        sample_len > 0 && transition_size is None ==> forall|p: int|
            #[trigger] overlap_at(out@, p) == covers(clamped(overlap@, sample_len), p),
        sample_len > 0 && transition_size is None ==> kinds_alternate(out@)
            && forall|k: int| 0 <= k < out@.len() ==> !is_transition(#[trigger] out@[k]),
        sample_len > 0 ==> match transition_size {
            Some(t) => sample_len + t / 2 <= usize::MAX ==> transitions_fit(out@, sample_len, t),
            None => true,
        },
        sample_len > 0 ==> match transition_size {
            Some(t) => sample_len + t / 2 <= usize::MAX ==> forall|p: int| 0 <= p < sample_len
                && #[trigger] far_from(clamped(overlap@, sample_len), p, (t / 2) as int) ==> underlay_at(out@, p),
            None => true,
        },
{
    if sample_len == 0 {
        return Vec::new();
    }
    let clamped_ranges = clamp_ranges(overlap, sample_len);
    let overlaps = normalize_ranges(clamped_ranges);
    proof {
        assert forall|k: int| 0 <= k < clamped(overlap@, sample_len).len() implies
            #[trigger] clamped(overlap@, sample_len)[k].1 <= sample_len by {}
        lemma_canonical_within(overlaps@, clamped(overlap@, sample_len), sample_len);
    }
    let out = match transition_size {
        None => emit_plain(&overlaps, sample_len),
        Some(t) => {
            let half = t / 2;
            let viable_ranges = filter_viable(&overlaps, sample_len, t);
            if viable_ranges.len() == 0 {
                let mut only: Vec<Cover> = Vec::new();
                push_cover(&mut only, Cover::Underlay((0, sample_len)));
                proof {
                    lemma_push_tiles(Seq::empty(), 0, Cover::Underlay((0, sample_len)));
                    assert(only@ =~= seq![Cover::Underlay((0, sample_len))]);
                    assert forall|p: int| 0 <= p < sample_len implies underlay_at(only@, p) by {
                        assert(in_section(only@[0], p));
                    }
                }
                only
            } else {
                let merged = merge_gaps(&viable_ranges, sample_len, t);
                let o = emit_transitions(&merged, sample_len, half);
                proof {
                    if sample_len + half <= usize::MAX {
                        let c = clamped(overlap@, sample_len);
                        let v = viable_ranges@;
                        let body = trans_body(merged@, sample_len, half);
                        let tail = Cover::Underlay((trans_cursor(merged@, sample_len, half), sample_len));
                        lemma_merged_ranges_near(v, t, half as int);
                        lemma_trans_body_sounding(merged@, sample_len, half, v);
                        lemma_push_sounding(body, tail, v, half as int);
                        assert forall|p: int| 0 <= p < sample_len && #[trigger] far_from(c, p, half as int)
                            implies underlay_at(o@, p) by {
                            lemma_tiles_locate(o@, sample_len, p, 0);
                            let k = choose|k: int| 0 <= k < o@.len() && #[trigger] in_section(o@[k], p);
                            if !(o@[k] is Underlay) {
                                assert(near(v, p, half as int));
                                let q = choose|q: int| #[trigger] covers(v, q) && q <= p + half && p <= q + half;
                                lemma_filter_covers(overlaps@, sample_len, t, q);
                                assert(covers(c, q));
                            }
                        }
                        lemma_trans_body_fits(merged@, sample_len, half, t);
                        lemma_push_keeps_fit(trans_body(merged@, sample_len, half),
                            Cover::Underlay((trans_cursor(merged@, sample_len, half), sample_len)), sample_len, t);
                    }
                }
                o
            }
        },
    };
    proof {
        let c = clamped(overlap@, sample_len);
        assert(canonical_union_of(overlaps@, c));
        let n = canonical_decomposition(c);
        assert(canonical_union_of(n, c));
        lemma_canonical_union_unique(n, overlaps@);
        if transition_size is None {
            assert forall|p: int| #[trigger] overlap_at(out@, p) == covers(c, p) by {
                lemma_plain_cover_overlaps(n, sample_len, p);
            }
            lemma_plain_cover_shape(n, sample_len);
        }
    }
    out
}


proof fn lemma_canonical_tail(r: Seq<(usize, usize)>, p: int)
    requires
        is_canonical(r),
        r.len() > 0,
    ensures
        is_canonical(r.drop_first()),
        covers(r.drop_first(), p) == (covers(r, p) && p >= r[0].1),
{
    let t = r.drop_first();
    assert forall|i: int| 0 <= i < t.len() implies #[trigger] t[i].0 < t[i].1 by {
        assert(t[i] == r[i + 1]);
    }
    assert forall|i: int, j: int| 0 <= i < j < t.len() implies #[trigger] t[i].1 < #[trigger] t[j].0 by {
        assert(t[i] == r[i + 1]);
        assert(t[j] == r[j + 1]);
    }
    if covers(t, p) {
        let w = choose|w: int| 0 <= w < t.len() && #[trigger] t[w].0 <= p && p < t[w].1;
        assert(t[w] == r[w + 1]);
        assert(r[0].1 < r[w + 1].0);
    }
    if covers(r, p) && p >= r[0].1 {
        let w = choose|w: int| 0 <= w < r.len() && #[trigger] r[w].0 <= p && p < r[w].1;
        assert(w != 0);
        assert(t[w - 1] == r[w]);
    }
}

/// The canonical decomposition of a set of covered points is unique: two
/// canonical range lists that cover the same points are equal.
pub proof fn lemma_canonical_union_unique(r1: Seq<(usize, usize)>, r2: Seq<(usize, usize)>)
    requires
        is_canonical(r1),
        is_canonical(r2),
        forall|p: int| covers(r1, p) == covers(r2, p),
    ensures
        r1 == r2,
    decreases r1.len() + r2.len(),
{
    if r1.len() == 0 || r2.len() == 0 {
        if r1.len() > 0 {
            assert(covers(r1, r1[0].0 as int));
        }
        if r2.len() > 0 {
            assert(covers(r2, r2[0].0 as int));
        }
        assert(r1 =~= r2);
    } else {
        let a = r1[0];
        let b = r2[0];
        assert(covers(r1, a.0 as int));
        assert(covers(r2, b.0 as int));
        let wa = choose|w: int| 0 <= w < r2.len() && #[trigger] r2[w].0 <= a.0 && a.0 < r2[w].1;
        let wb = choose|w: int| 0 <= w < r1.len() && #[trigger] r1[w].0 <= b.0 && b.0 < r1[w].1;
        if wa > 0 {
            assert(r2[0].1 < r2[wa].0);
        }
        if wb > 0 {
            assert(r1[0].1 < r1[wb].0);
        }
        assert(a.0 == b.0);
        if a.1 < b.1 {
            assert(covers(r2, a.1 as int));
            let w = choose|w: int| 0 <= w < r1.len() && #[trigger] r1[w].0 <= a.1 && a.1 < r1[w].1;
            if w > 0 {
                assert(r1[0].1 < r1[w].0);
            }
        }
        if b.1 < a.1 {
            assert(covers(r1, b.1 as int));
            let w = choose|w: int| 0 <= w < r2.len() && #[trigger] r2[w].0 <= b.1 && b.1 < r2[w].1;
            if w > 0 {
                assert(r2[0].1 < r2[w].0);
            }
        }
        assert(a == b);
        assert forall|p: int| covers(r1.drop_first(), p) == covers(r2.drop_first(), p) by {
            lemma_canonical_tail(r1, p);
            lemma_canonical_tail(r2, p);
        }
        lemma_canonical_tail(r1, 0);
        lemma_canonical_tail(r2, 0);
        lemma_canonical_union_unique(r1.drop_first(), r2.drop_first());
        assert(r1 =~= seq![a] + r1.drop_first());
        assert(r2 =~= seq![b] + r2.drop_first());
    }
}

} // verus!
