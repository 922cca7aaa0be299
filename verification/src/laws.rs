//! Algebraic laws of the run-length image operations, proved from the
//! operator contracts: each lemma quantifies over values that satisfy an
//! operator's postcondition and pins the result down, mostly through the
//! uniqueness of the canonical form.

use vstd::prelude::*;

use crate::canon::{
    canonical, covers, foreground, in_canvas, lemma_canonical_unique, lemma_no_pixels_no_runs,
    run_valid, runs_in_canvas,
};
use crate::flip_bits_iter::{after_cursor, flip_from, lemma_flip_from};
use crate::rle::dilated;
use crate::run::Run;

verus! {

/// Round trip: decoding an encoded binary pixel grid yields the grid back.
/// `rs` is any run list meeting the encoder's contract for `data`, and
/// `img` is any buffer meeting the decoder's contract for `rs` with
/// foreground value 1; then `img` equals `data`.
pub proof fn lemma_round_trip(w: int, h: int, data: Seq<u8>, rs: Seq<Run>, img: Seq<u8>)
    requires
        0 <= w,
        0 <= h,
        data.len() == w * h,
        forall|i: int| 0 <= i < data.len() ==> (data[i] == 0 || #[trigger] data[i] == 1),
        forall|x: int, y: int|
            in_canvas(w, h, x, y) ==> (#[trigger] foreground(rs, x, y) == (data[y * w + x] > 0)),
        img.len() == w * h,
        forall|x: int, y: int|
            in_canvas(w, h, x, y) ==> #[trigger] img[y * w + x] == (if foreground(rs, x, y) {
                1u8
            } else {
                0u8
            }),
    ensures
        img == data,
{
    assert forall|idx: int| 0 <= idx < data.len() implies img[idx] == data[idx] by {
        assert(w > 0) by (nonlinear_arith)
            requires
                0 <= idx < w * h,
                0 <= w,
        ;
        let y = idx / w;
        let x = idx % w;
        assert(0 <= x < w && 0 <= y && w * y + x == idx) by (nonlinear_arith)
            requires
                w > 0,
                0 <= idx,
                x == idx % w,
                y == idx / w,
        ;
        assert(y < h) by (nonlinear_arith)
            requires
                w > 0,
                idx < w * h,
                0 <= x < w,
                w * y + x == idx,
        ;
        assert(y * w + x == idx) by (nonlinear_arith)
            requires
                w * y + x == idx,
        ;
        assert(in_canvas(w, h, x, y));
        assert(img[y * w + x] == (if foreground(rs, x, y) {
            1u8
        } else {
            0u8
        }));
        assert(foreground(rs, x, y) == (data[y * w + x] > 0));
        assert(data[idx] == 0 || data[idx] == 1);
    }
    assert(img =~= data);
}

/// Complement involution: complementing an in-canvas canonical run list
/// twice restores it exactly.
pub proof fn lemma_complement_involution(rs: Seq<Run>, w: int, h: int)
    requires
        0 <= w <= i32::MAX,
        0 <= h <= i32::MAX,
        canonical(rs),
        runs_in_canvas(rs, w, h),
    ensures
        flip_from(flip_from(rs, w, h, 0, 0), w, h, 0, 0) == rs,
{
    let c1 = flip_from(rs, w, h, 0, 0);
    let c2 = flip_from(c1, w, h, 0, 0);
    if w == 0 || h == 0 {
        assert(rs.len() == 0) by {
            if rs.len() > 0 {
                assert(run_valid(rs[0]));
                assert(0 <= rs[0].x_start && rs[0].x_end < w && 0 <= rs[0].y < h);
            }
        }
        if w == 0 {
            assert(c1 =~= Seq::<Run>::empty());
            assert(c2 =~= Seq::<Run>::empty());
        } else {
            assert(c1 =~= Seq::<Run>::empty());
            assert(c2 =~= Seq::<Run>::empty());
        }
        assert(c2 =~= rs);
    } else {
        assert forall|x: int, y: int| (in_canvas(w, h, x, y) && #[trigger] foreground(
            rs,
            x,
            y,
        )) implies after_cursor(0, 0, x, y) by {}
        lemma_flip_from(rs, w, h, 0, 0);
        assert forall|x: int, y: int| (in_canvas(w, h, x, y) && #[trigger] foreground(
            c1,
            x,
            y,
        )) implies after_cursor(0, 0, x, y) by {}
        lemma_flip_from(c1, w, h, 0, 0);
        assert forall|x: int, y: int| #[trigger] foreground(c2, x, y) == foreground(
            rs,
            x,
            y,
        ) by {
            if foreground(rs, x, y) {
                let i = choose|i: int| 0 <= i < rs.len() && covers(#[trigger] rs[i], x, y);
                assert(in_canvas(w, h, x, y));
            }
        }
        lemma_canonical_unique(c2, rs);
    }
}

/// The lazy complement producer and the eager complement agree: any
/// sequence collected from the producer and any eager result are both the
/// complement traversal's sequence, hence equal.
pub proof fn lemma_lazy_complement_equals_eager(
    collected: Seq<Run>,
    eager: Seq<Run>,
    rs: Seq<Run>,
    w: int,
    h: int,
)
    requires
        collected == flip_from(rs, w, h, 0, 0),
        eager == flip_from(rs, w, h, 0, 0),
    ensures
        collected == eager,
{
}

/// Intersection is commutative: any two canonical results of intersecting
/// `a` with `b` and `b` with `a` are equal.
pub proof fn lemma_and_commutative(r1: Seq<Run>, r2: Seq<Run>, a: Seq<Run>, b: Seq<Run>)
    requires
        canonical(r1),
        canonical(r2),
        forall|x: int, y: int|
            #[trigger] foreground(r1, x, y) == (foreground(a, x, y) && foreground(b, x, y)),
        forall|x: int, y: int|
            #[trigger] foreground(r2, x, y) == (foreground(b, x, y) && foreground(a, x, y)),
    ensures
        r1 == r2,
{
    lemma_canonical_unique(r1, r2);
}

/// Intersection is idempotent: a canonical result of intersecting a
/// canonical `x` with itself is `x`.
pub proof fn lemma_and_idempotent(r: Seq<Run>, x: Seq<Run>)
    requires
        canonical(r),
        canonical(x),
        forall|px: int, py: int|
            #[trigger] foreground(r, px, py) == (foreground(x, px, py) && foreground(x, px, py)),
    ensures
        r == x,
{
    lemma_canonical_unique(r, x);
}

/// Union is commutative.
pub proof fn lemma_or_commutative(r1: Seq<Run>, r2: Seq<Run>, a: Seq<Run>, b: Seq<Run>)
    requires
        canonical(r1),
        canonical(r2),
        forall|x: int, y: int|
            #[trigger] foreground(r1, x, y) == (foreground(a, x, y) || foreground(b, x, y)),
        forall|x: int, y: int|
            #[trigger] foreground(r2, x, y) == (foreground(b, x, y) || foreground(a, x, y)),
    ensures
        r1 == r2,
{
    lemma_canonical_unique(r1, r2);
}

/// Union is associative: unioning `a` with `b` and then `c` equals
/// unioning `a` with the union of `b` and `c`.
pub proof fn lemma_or_associative(
    r12_3: Seq<Run>,
    r1_23: Seq<Run>,
    r12: Seq<Run>,
    r23: Seq<Run>,
    a: Seq<Run>,
    b: Seq<Run>,
    c: Seq<Run>,
)
    requires
        canonical(r12_3),
        canonical(r1_23),
        forall|x: int, y: int|
            #[trigger] foreground(r12, x, y) == (foreground(a, x, y) || foreground(b, x, y)),
        forall|x: int, y: int|
            #[trigger] foreground(r12_3, x, y) == (foreground(r12, x, y) || foreground(c, x, y)),
        forall|x: int, y: int|
            #[trigger] foreground(r23, x, y) == (foreground(b, x, y) || foreground(c, x, y)),
        forall|x: int, y: int|
            #[trigger] foreground(r1_23, x, y) == (foreground(a, x, y) || foreground(r23, x, y)),
    ensures
        r12_3 == r1_23,
{
    assert forall|x: int, y: int| #[trigger] foreground(r12_3, x, y) == foreground(
        r1_23,
        x,
        y,
    ) by {
        assert(foreground(r12_3, x, y) == (foreground(r12, x, y) || foreground(c, x, y)));
        assert(foreground(r12, x, y) == (foreground(a, x, y) || foreground(b, x, y)));
        assert(foreground(r1_23, x, y) == (foreground(a, x, y) || foreground(r23, x, y)));
        assert(foreground(r23, x, y) == (foreground(b, x, y) || foreground(c, x, y)));
    }
    lemma_canonical_unique(r12_3, r1_23);
}

/// The empty image is a unit for union: a canonical result of unioning a
/// canonical `x` with an empty run list is `x`.
pub proof fn lemma_or_empty_identity(r: Seq<Run>, x: Seq<Run>, e: Seq<Run>)
    requires
        canonical(r),
        canonical(x),
        e.len() == 0,
        forall|px: int, py: int|
            #[trigger] foreground(r, px, py) == (foreground(x, px, py) || foreground(e, px, py)),
    ensures
        r == x,
{
    assert forall|px: int, py: int| #[trigger] foreground(r, px, py) == foreground(
        x,
        px,
        py,
    ) by {
        if foreground(e, px, py) {
            let i = choose|i: int| 0 <= i < e.len() && covers(#[trigger] e[i], px, py);
        }
    }
    lemma_canonical_unique(r, x);
}

/// The difference of an image with itself is empty.
pub proof fn lemma_diff_self_empty(r: Seq<Run>, x: Seq<Run>, w: int, h: int)
    requires
        canonical(r),
        forall|px: int, py: int|
            #[trigger] foreground(r, px, py) == (foreground(x, px, py) && in_canvas(w, h, px, py)
                && !foreground(x, px, py)),
    ensures
        r.len() == 0,
{
    assert forall|px: int, py: int| !foreground(r, px, py) by {}
    lemma_no_pixels_no_runs(r);
}

/// The intersection of an image with its complement is empty.
pub proof fn lemma_and_complement_empty(r: Seq<Run>, x: Seq<Run>, c: Seq<Run>, w: int, h: int)
    requires
        canonical(r),
        forall|px: int, py: int|
            #[trigger] foreground(c, px, py) == (in_canvas(w, h, px, py) && !foreground(
                x,
                px,
                py,
            )),
        forall|px: int, py: int|
            #[trigger] foreground(r, px, py) == (foreground(x, px, py) && foreground(c, px, py)),
    ensures
        r.len() == 0,
{
    assert forall|px: int, py: int| !foreground(r, px, py) by {
        assert(foreground(c, px, py) == (in_canvas(w, h, px, py) && !foreground(x, px, py)));
    }
    lemma_no_pixels_no_runs(r);
}

/// The union of an in-canvas image with its complement is the
/// all-foreground image.
pub proof fn lemma_or_complement_ones(
    r: Seq<Run>,
    x: Seq<Run>,
    c: Seq<Run>,
    o: Seq<Run>,
    w: int,
    h: int,
)
    requires
        canonical(r),
        canonical(o),
        runs_in_canvas(x, w, h),
        forall|px: int, py: int|
            #[trigger] foreground(c, px, py) == (in_canvas(w, h, px, py) && !foreground(
                x,
                px,
                py,
            )),
        forall|px: int, py: int|
            #[trigger] foreground(r, px, py) == (foreground(x, px, py) || foreground(c, px, py)),
        forall|px: int, py: int| #[trigger] foreground(o, px, py) == in_canvas(w, h, px, py),
    ensures
        r == o,
{
    assert forall|px: int, py: int| #[trigger] foreground(r, px, py) == foreground(
        o,
        px,
        py,
    ) by {
        assert(foreground(c, px, py) == (in_canvas(w, h, px, py) && !foreground(x, px, py)));
        if foreground(x, px, py) {
            let i = choose|i: int| 0 <= i < x.len() && covers(#[trigger] x[i], px, py);
            assert(in_canvas(w, h, px, py));
        }
    }
    lemma_canonical_unique(r, o);
}

/// Dilation monotonicity: when the structuring element's own center pixel
/// is foreground, the dilation is a pixel superset of the image.
pub proof fn lemma_dilate_monotone(d: Seq<Run>, a: Seq<Run>, s: Seq<Run>, dx: int, dy: int)
    requires
        foreground(s, dx, dy),
        forall|x: int, y: int|
            #[trigger] foreground(d, x, y) == dilated(a, s, dx, dy, x, y),
    ensures
        forall|x: int, y: int| #[trigger] foreground(a, x, y) ==> foreground(d, x, y),
{
    assert forall|x: int, y: int| #[trigger] foreground(a, x, y) implies foreground(d, x, y) by {
        assert(x == x - dx + dx && y == y + dy - dy);
        assert(dilated(a, s, dx, dy, x, y));
    }
}

} // verus!
