//! The pixel-set model of a run list, and the canonical-form invariant.
//!
//! A run list denotes the set of pixels covered by its runs. The canonical
//! form holds the runs sorted by (row, start, end), each run well formed, and
//! any two consecutive runs on one row separated by at least one background
//! column, so every run is maximal.

use vstd::prelude::*;

use crate::run::{run_lt, Run};

verus! {

/// Pixel (x, y) lies inside a `w` x `h` canvas.
pub open spec fn in_canvas(w: int, h: int, x: int, y: int) -> bool {
    0 <= x < w && 0 <= y < h
}

/// The run's column interval is non-empty.
pub open spec fn run_valid(r: Run) -> bool {
    r.x_start <= r.x_end
}

/// Run `r` covers pixel (x, y).
pub open spec fn covers(r: Run, x: int, y: int) -> bool {
    r.y == y && r.x_start <= x && x <= r.x_end
}

/// Pixel (x, y) is foreground: some run of `rs` covers it.
pub open spec fn foreground(rs: Seq<Run>, x: int, y: int) -> bool {
    exists|i: int| 0 <= i < rs.len() && covers(#[trigger] rs[i], x, y)
}

/// Consecutive-pair shape of the canonical form: `b` lies on a later row,
/// or on the same row with at least one background column after `a`.
pub open spec fn canon_pair(a: Run, b: Run) -> bool {
    a.y < b.y || (a.y == b.y && a.x_end + 1 < b.x_start)
}

/// The canonical form: every run well formed, and every consecutive pair
/// ordered with a gap. Such a list is strictly sorted, its runs are
/// pairwise disjoint, and no two of its runs touch.
pub open spec fn canonical(rs: Seq<Run>) -> bool {
    &&& forall|i: int| 0 <= i < rs.len() ==> run_valid(#[trigger] rs[i])
    &&& forall|i: int| 0 <= i && i + 1 < rs.len() ==> canon_pair(#[trigger] rs[i], rs[i + 1])
}

/// All runs of `rs` lie inside a `w` x `h` canvas.
pub open spec fn runs_in_canvas(rs: Seq<Run>, w: int, h: int) -> bool {
    forall|i: int| 0 <= i < rs.len() ==> {
        &&& 0 <= #[trigger] rs[i].x_start
        &&& rs[i].x_end < w
        &&& 0 <= rs[i].y < h
    }
}

/// In a canonical list the pair shape, and with it the strict order,
/// holds between any two runs, not only consecutive ones.
pub proof fn lemma_canonical_ordered(rs: Seq<Run>, i: int, j: int)
    requires
        canonical(rs),
        0 <= i < j < rs.len(),
    ensures
        canon_pair(rs[i], rs[j]),
        run_lt(rs[i], rs[j]),
    decreases j - i,
{
    if j == i + 1 {
        assert(canon_pair(rs[i], rs[i + 1]));
    } else {
        lemma_canonical_ordered(rs, i, j - 1);
        assert(canon_pair(rs[j - 1], rs[j]));
        assert(run_valid(rs[j - 1]));
    }
}

/// In a canonical list, distinct runs cover disjoint pixel sets.
pub proof fn lemma_canonical_disjoint(rs: Seq<Run>, i: int, j: int, x: int, y: int)
    requires
        canonical(rs),
        0 <= i < rs.len(),
        0 <= j < rs.len(),
        i != j,
        covers(rs[i], x, y),
    ensures
        !covers(rs[j], x, y),
{
    if i < j {
        lemma_canonical_ordered(rs, i, j);
    } else {
        lemma_canonical_ordered(rs, j, i);
    }
}

/// Foreground of a concatenation is the union of the foregrounds.
pub proof fn lemma_fg_concat(a: Seq<Run>, b: Seq<Run>)
    ensures
        forall|x: int, y: int|
            foreground(a + b, x, y) == (foreground(a, x, y) || foreground(b, x, y)),
{
    assert forall|x: int, y: int|
        foreground(a + b, x, y) == (foreground(a, x, y) || foreground(b, x, y)) by {
        let c = a + b;
        if foreground(c, x, y) {
            let i = choose|i: int| 0 <= i < c.len() && covers(#[trigger] c[i], x, y);
            if i < a.len() {
                assert(c[i] == a[i]);
                assert(foreground(a, x, y));
            } else {
                assert(c[i] == b[i - a.len()]);
                assert(foreground(b, x, y));
            }
        }
        if foreground(a, x, y) {
            let i = choose|i: int| 0 <= i < a.len() && covers(#[trigger] a[i], x, y);
            assert(c[i] == a[i]);
            assert(foreground(c, x, y));
        }
        if foreground(b, x, y) {
            let i = choose|i: int| 0 <= i < b.len() && covers(#[trigger] b[i], x, y);
            assert(c[a.len() + i] == b[i]);
            assert(foreground(c, x, y));
        }
    }
}

/// Foreground of a one-run list is coverage by that run.
pub proof fn lemma_fg_single(r: Run)
    ensures
        forall|x: int, y: int| foreground(seq![r], x, y) == covers(r, x, y),
{
    assert forall|x: int, y: int| foreground(seq![r], x, y) == covers(r, x, y) by {
        let s = seq![r];
        if foreground(s, x, y) {
            let i = choose|i: int| 0 <= i < s.len() && covers(#[trigger] s[i], x, y);
            assert(s[i] == r);
        }
        if covers(r, x, y) {
            assert(covers(s[0], x, y));
            assert(foreground(s, x, y));
        }
    }
}

/// Pushing a run adds exactly its pixels to the foreground.
pub proof fn lemma_fg_push(rs: Seq<Run>, r: Run)
    ensures
        forall|x: int, y: int|
            foreground(rs.push(r), x, y) == (foreground(rs, x, y) || covers(r, x, y)),
{
    assert(rs.push(r) =~= rs + seq![r]);
    lemma_fg_concat(rs, seq![r]);
    lemma_fg_single(r);
}

/// Taking one more run adds exactly that run's pixels to the foreground.
pub proof fn lemma_fg_take_succ(rs: Seq<Run>, i: int)
    requires
        0 <= i < rs.len(),
    ensures
        forall|x: int, y: int|
            foreground(rs.take(i + 1), x, y) == (foreground(rs.take(i), x, y) || covers(
                rs[i],
                x,
                y,
            )),
{
    assert(rs.take(i + 1) =~= rs.take(i).push(rs[i]));
    lemma_fg_push(rs.take(i), rs[i]);
}

/// A run list whose foreground is empty everywhere has no runs, since a
/// well-formed run covers at least one pixel.
pub proof fn lemma_no_pixels_no_runs(rs: Seq<Run>)
    requires
        forall|i: int| 0 <= i < rs.len() ==> run_valid(#[trigger] rs[i]),
        forall|x: int, y: int| !foreground(rs, x, y),
    ensures
        rs.len() == 0,
{
    if rs.len() > 0 {
        assert(covers(rs[0], rs[0].x_start as int, rs[0].y as int));
        assert(foreground(rs, rs[0].x_start as int, rs[0].y as int));
    }
}

/// Prepending a run that precedes the first run with a gap keeps a list
/// canonical.
pub proof fn lemma_canonical_push_front(r: Run, rest: Seq<Run>)
    requires
        run_valid(r),
        canonical(rest),
        rest.len() > 0 ==> canon_pair(r, rest[0]),
    ensures
        canonical(seq![r] + rest),
{
    let c = seq![r] + rest;
    assert forall|i: int| 0 <= i < c.len() implies run_valid(#[trigger] c[i]) by {
        if i == 0 {
            assert(c[0] == r);
        } else {
            assert(c[i] == rest[i - 1]);
        }
    }
    assert forall|i: int| 0 <= i && i + 1 < c.len() implies canon_pair(
        #[trigger] c[i],
        c[i + 1],
    ) by {
        if i == 0 {
            assert(c[0] == r);
            assert(c[1] == rest[0]);
        } else {
            assert(c[i] == rest[i - 1]);
            assert(c[i + 1] == rest[i]);
            assert(canon_pair(rest[i - 1], rest[i]));
        }
    }
}

/// Dropping a prefix of a canonical list leaves a canonical list.
pub proof fn lemma_canonical_skip(rs: Seq<Run>, n: int)
    requires
        canonical(rs),
        0 <= n <= rs.len(),
    ensures
        canonical(rs.skip(n)),
{
    let t = rs.skip(n);
    assert forall|i: int| 0 <= i < t.len() implies run_valid(#[trigger] t[i]) by {
        assert(t[i] == rs[i + n]);
    }
    assert forall|i: int| 0 <= i && i + 1 < t.len() implies canon_pair(
        #[trigger] t[i],
        t[i + 1],
    ) by {
        assert(t[i] == rs[i + n]);
        assert(t[i + 1] == rs[i + n + 1]);
        assert(canon_pair(rs[i + n], rs[i + n + 1]));
    }
}

/// Two canonical run lists with the same foreground are equal: the
/// canonical form of a pixel set is unique.
pub proof fn lemma_canonical_unique(a: Seq<Run>, b: Seq<Run>)
    requires
        canonical(a),
        canonical(b),
        forall|x: int, y: int| foreground(a, x, y) == foreground(b, x, y),
    ensures
        a == b,
    decreases a.len(),
{
    if a.len() == 0 && b.len() == 0 {
        assert(a =~= b);
    } else if a.len() == 0 {
        assert(covers(b[0], b[0].x_start as int, b[0].y as int));
        assert(foreground(b, b[0].x_start as int, b[0].y as int));
        assert(false);
    } else if b.len() == 0 {
        assert(covers(a[0], a[0].x_start as int, a[0].y as int));
        assert(foreground(a, a[0].x_start as int, a[0].y as int));
        assert(false);
    } else {
        lemma_canonical_first_eq(a, b);
        lemma_canonical_first_eq(b, a);
        assert(a[0] == b[0]);
        let ta = a.drop_first();
        let tb = b.drop_first();
        lemma_canonical_drop_first(a);
        lemma_canonical_drop_first(b);
        assert forall|x: int, y: int| foreground(ta, x, y) == foreground(tb, x, y) by {
            lemma_fg_drop_first(a, x, y);
            lemma_fg_drop_first(b, x, y);
        }
        lemma_canonical_unique(ta, tb);
        assert(a =~= seq![a[0]] + ta);
        assert(b =~= seq![b[0]] + tb);
    }
}

/// Dropping the first run of a canonical list leaves a canonical list.
pub proof fn lemma_canonical_drop_first(rs: Seq<Run>)
    requires
        canonical(rs),
        rs.len() > 0,
    ensures
        canonical(rs.drop_first()),
{
    let t = rs.drop_first();
    assert forall|i: int| 0 <= i < t.len() implies run_valid(#[trigger] t[i]) by {
        assert(t[i] == rs[i + 1]);
    }
    assert forall|i: int| 0 <= i && i + 1 < t.len() implies canon_pair(#[trigger] t[i], t[i + 1]) by {
        assert(t[i] == rs[i + 1]);
        assert(t[i + 1] == rs[i + 2]);
        assert(canon_pair(rs[i + 1], rs[i + 2]));
    }
}

/// In a canonical list the foreground of the tail is the foreground of the
/// whole list minus the first run's pixels.
pub proof fn lemma_fg_drop_first(rs: Seq<Run>, x: int, y: int)
    requires
        canonical(rs),
        rs.len() > 0,
    ensures
        foreground(rs.drop_first(), x, y) == (foreground(rs, x, y) && !covers(rs[0], x, y)),
{
    let t = rs.drop_first();
    assert(t == rs.subrange(1, rs.len() as int));
    assert(t.len() == rs.len() - 1);
    if foreground(t, x, y) {
        let i = choose|i: int| 0 <= i < t.len() && covers(#[trigger] t[i], x, y);
        assert(t[i] == rs.subrange(1, rs.len() as int)[i]);
        assert(t[i] == rs[i + 1]);
        assert(covers(rs[i + 1], x, y));
        assert(foreground(rs, x, y));
        lemma_canonical_disjoint(rs, i + 1, 0, x, y);
    }
    if foreground(rs, x, y) && !covers(rs[0], x, y) {
        let i = choose|i: int| 0 <= i < rs.len() && covers(#[trigger] rs[i], x, y);
        assert(i != 0);
        assert(t[i - 1] == rs[i]);
        assert(foreground(t, x, y));
    }
}

/// The first run of a canonical list starts at the row-major smallest
/// foreground pixel, and ends just before the first background column at
/// or after it on its row: the list determines it, so two canonical lists
/// with one foreground have equal first runs.
proof fn lemma_canonical_first_eq(a: Seq<Run>, b: Seq<Run>)
    requires
        canonical(a),
        canonical(b),
        a.len() > 0,
        b.len() > 0,
        forall|x: int, y: int| foreground(a, x, y) == foreground(b, x, y),
    ensures
        b[0].y <= a[0].y,
        b[0].y == a[0].y ==> b[0].x_start <= a[0].x_start,
        (b[0].y == a[0].y && b[0].x_start == a[0].x_start) ==> b[0].x_end >= a[0].x_end,
{
    let r = a[0];
    // The start pixel of a's first run is foreground in b, so some run of b
    // covers it; b's first run precedes or equals that run in the order.
    assert(covers(r, r.x_start as int, r.y as int));
    assert(foreground(a, r.x_start as int, r.y as int));
    assert(foreground(b, r.x_start as int, r.y as int));
    let j = choose|j: int|
        0 <= j < b.len() && covers(#[trigger] b[j], r.x_start as int, r.y as int);
    if j > 0 {
        lemma_canonical_ordered(b, 0, j);
    }
    assert(b[0].y <= b[j].y);
    assert(b[j].y == r.y);
    if b[0].y == r.y {
        // b[0] is on the same row; its start cannot lie right of r.x_start,
        // because either b[0] == b[j] (covers the pixel) or b[0] precedes
        // b[j] on that row.
        if j == 0 {
            assert(b[0].x_start <= r.x_start);
        } else {
            lemma_canonical_ordered(b, 0, j);
            assert(b[0].x_start <= b[j].x_start);
            assert(b[j].x_start <= r.x_start);
        }
        if b[0].x_start == r.x_start {
            // Suppose b[0] ended earlier than r: the pixel just after b[0]'s
            // end is covered by r, hence foreground in b, but no run of b
            // covers it: b[0] is too short and later runs start past the gap.
            if b[0].x_end < r.x_end {
                let px = b[0].x_end + 1;
                assert(run_valid(b[0]));
                assert(covers(r, px, r.y as int));
                assert(foreground(a, px, r.y as int));
                assert(foreground(b, px, r.y as int));
                let k = choose|k: int| 0 <= k < b.len() && covers(#[trigger] b[k], px, r.y as int);
                assert(k != 0);
                lemma_canonical_ordered(b, 0, k);
                assert(false);
            }
        }
    }
}

} // verus!
