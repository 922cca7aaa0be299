//! Set algebra on run-length encoded images: intersection, union,
//! difference and complement, all computed directly on the run lists.

use vstd::prelude::*;

use crate::canon::{
    canonical, covers, foreground, in_canvas, lemma_canonical_ordered, lemma_fg_concat,
    lemma_fg_push, run_valid, runs_in_canvas,
};
use crate::flip_bits_iter::{flip_from, FlipBitsIter};
use crate::rle::{lemma_rle_view, RLE};
use crate::run::Run;

verus! {

/// Some pixel-covering pair of runs is still ahead of both merge-join
/// cursors: run `k >= i` of `a` and run `l >= j` of `b` both cover (x, y).
pub open spec fn both_pending(a: Seq<Run>, b: Seq<Run>, i: int, j: int, x: int, y: int) -> bool {
    exists|k: int, l: int|
        i <= k < a.len() && j <= l < b.len() && covers(#[trigger] a[k], x, y) && covers(
            #[trigger] b[l],
            x,
            y,
        )
}

impl RLE {
    /// Intersection of two images of equal dimensions: pixel (x, y) is
    /// foreground in the result iff it is foreground in both operands.
    /// Merge-join over the two sorted run lists, then a defensive
    /// re-canonicalization.
    #[verifier::loop_isolation(false)]
    #[verifier::rlimit(100)]
    pub fn and(&self, rhs: &RLE) -> (r: RLE)
        requires
            self.wf(),
            rhs.wf(),
            self.spec_width() == rhs.spec_width(),
            self.spec_height() == rhs.spec_height(),
        ensures
            r.wf(),
            r.spec_width() == self.spec_width(),
            r.spec_height() == self.spec_height(),
            forall|x: int, y: int|
                #[trigger] r.fg(x, y) == (self.fg(x, y) && rhs.fg(x, y)),
    {
        let ghost av = self@;
        let ghost bv = rhs@;
        proof {
            crate::rle::lemma_rle_view(*self);
            crate::rle::lemma_rle_view(*rhs);
        }
        if self.runs.len() == 0 || rhs.runs.len() == 0 {
            let r = RLE { width: self.width, height: self.height, runs: Vec::new() };
            proof {
                crate::rle::lemma_rle_view(r);
                assert forall|x: int, y: int|
                    #[trigger] r.fg(x, y) == (self.fg(x, y) && rhs.fg(x, y)) by {
                    assert(!foreground(r@, x, y));
                    if av.len() == 0 {
                        assert(!foreground(av, x, y));
                    } else {
                        assert(!foreground(bv, x, y));
                    }
                }
            }
            return r;
        }
        let mut out: Vec<Run> = Vec::new();
        let mut i: usize = 0;
        let mut j: usize = 0;
        while i < self.runs.len() && j < rhs.runs.len()
            invariant
                i <= av.len(),
                j <= bv.len(),
                forall|k: int| 0 <= k < out@.len() ==> run_valid(#[trigger] out@[k]),
                forall|x: int, y: int|
                    #[trigger] foreground(out@, x, y) == (foreground(av, x, y) && foreground(
                        bv,
                        x,
                        y,
                    ) && !both_pending(av, bv, i as int, j as int, x, y)),
            decreases av.len() - i + bv.len() - j,
        {
            let ra = self.runs[i];
            let rb = rhs.runs[j];
            if ra.y < rb.y {
                proof {
                    lemma_and_skip_a(av, bv, i as int, j as int);
                    assert forall|x: int, y: int|
                        #[trigger] foreground(out@, x, y) == (foreground(av, x, y) && foreground(
                            bv,
                            x,
                            y,
                        ) && !both_pending(av, bv, i as int + 1, j as int, x, y)) by {
                        assert(both_pending(av, bv, i as int, j as int, x, y) == both_pending(
                            av,
                            bv,
                            i as int + 1,
                            j as int,
                            x,
                            y,
                        ));
                        assert(foreground(out@, x, y) == (foreground(av, x, y) && foreground(
                            bv,
                            x,
                            y,
                        ) && !both_pending(av, bv, i as int, j as int, x, y)));
                    }
                }
                i = i + 1;
            } else if ra.y > rb.y {
                proof {
                    lemma_and_skip_b(av, bv, i as int, j as int);
                    assert forall|x: int, y: int|
                        #[trigger] foreground(out@, x, y) == (foreground(av, x, y) && foreground(
                            bv,
                            x,
                            y,
                        ) && !both_pending(av, bv, i as int, j as int + 1, x, y)) by {
                        assert(both_pending(av, bv, i as int, j as int, x, y) == both_pending(
                            av,
                            bv,
                            i as int,
                            j as int + 1,
                            x,
                            y,
                        ));
                        assert(foreground(out@, x, y) == (foreground(av, x, y) && foreground(
                            bv,
                            x,
                            y,
                        ) && !both_pending(av, bv, i as int, j as int, x, y)));
                    }
                }
                j = j + 1;
            } else {
                let lo = if ra.x_start >= rb.x_start {
                    ra.x_start
                } else {
                    rb.x_start
                };
                let hi = if ra.x_end <= rb.x_end {
                    ra.x_end
                } else {
                    rb.x_end
                };
                let ghost prevout = out@;
                if lo <= hi {
                    out.push(Run { y: ra.y, x_start: lo, x_end: hi });
                    proof {
                        lemma_fg_push(prevout, Run { y: ra.y, x_start: lo, x_end: hi });
                        assert forall|k: int| 0 <= k < out@.len() implies run_valid(
                            #[trigger] out@[k],
                        ) by {
                            if k < prevout.len() {
                                assert(out@[k] == prevout[k]);
                            } else {
                                assert(out@[k] == (Run { y: ra.y, x_start: lo, x_end: hi }));
                            }
                        }
                    }
                }
                proof {
                    let inter = Run { y: ra.y, x_start: lo, x_end: hi };
                    assert forall|x: int, y: int|
                        #[trigger] foreground(out@, x, y) == (foreground(prevout, x, y) || (covers(
                        av[i as int],
                        x,
                        y,
                    ) && covers(bv[j as int], x, y))) by {
                        if lo <= hi {
                            assert(covers(inter, x, y) == (covers(av[i as int], x, y) && covers(
                                bv[j as int],
                                x,
                                y,
                            )));
                        } else {
                            assert(!(covers(av[i as int], x, y) && covers(bv[j as int], x, y)));
                        }
                    }
                }
                let adv_a = ra.x_end < rb.x_end;
                proof {
                    let oi = i as int;
                    let oj = j as int;
                    let ni = oi + (if adv_a { 1int } else { 0 });
                    let nj = oj + (if adv_a { 0int } else { 1 });
                    lemma_and_advance(av, bv, oi, oj, adv_a);
                    assert forall|x: int, y: int|
                        #[trigger] foreground(out@, x, y) == (foreground(av, x, y) && foreground(
                            bv,
                            x,
                            y,
                        ) && !both_pending(av, bv, ni, nj, x, y)) by {
                        assert(foreground(out@, x, y) == (foreground(prevout, x, y) || (covers(
                            av[oi],
                            x,
                            y,
                        ) && covers(bv[oj], x, y))));
                        assert(foreground(prevout, x, y) == (foreground(av, x, y) && foreground(
                            bv,
                            x,
                            y,
                        ) && !both_pending(av, bv, oi, oj, x, y)));
                        assert(both_pending(av, bv, ni, nj, x, y) == (both_pending(
                            av,
                            bv,
                            oi,
                            oj,
                            x,
                            y,
                        ) && !(covers(av[oi], x, y) && covers(bv[oj], x, y))));
                        if covers(av[oi], x, y) && covers(bv[oj], x, y) {
                            assert(foreground(av, x, y));
                            assert(foreground(bv, x, y));
                        }
                    }
                }
                if adv_a {
                    i = i + 1;
                } else {
                    j = j + 1;
                }
            }
        }
        proof {
            assert forall|x: int, y: int|
                #[trigger] foreground(out@, x, y) == (foreground(av, x, y) && foreground(
                    bv,
                    x,
                    y,
                )) by {
                if both_pending(av, bv, i as int, j as int, x, y) {
                    let (k, l) = choose|k: int, l: int|
                        i as int <= k < av.len() && j as int <= l < bv.len() && covers(
                            #[trigger] av[k],
                            x,
                            y,
                        ) && covers(#[trigger] bv[l], x, y);
                }
            }
        }
        Run::merge_overlapping_runs_mut(&mut out);
        let r = RLE { width: self.width, height: self.height, runs: out };
        proof {
            crate::rle::lemma_rle_view(r);
        }
        r
    }

    /// Union of two images of equal dimensions: pixel (x, y) is foreground
    /// in the result iff it is foreground in either operand. Concatenate
    /// the run lists and canonicalize.
    pub fn or(&self, rhs: &RLE) -> (r: RLE)
        requires
            self.wf(),
            rhs.wf(),
            self.spec_width() == rhs.spec_width(),
            self.spec_height() == rhs.spec_height(),
        ensures
            r.wf(),
            r.spec_width() == self.spec_width(),
            r.spec_height() == self.spec_height(),
            forall|x: int, y: int|
                #[trigger] r.fg(x, y) == (self.fg(x, y) || rhs.fg(x, y)),
    {
        proof {
            crate::rle::lemma_rle_view(*self);
            crate::rle::lemma_rle_view(*rhs);
        }
        let mut out: Vec<Run> = copy_runs(&self.runs);
        append_runs(&mut out, &rhs.runs);
        proof {
            lemma_fg_concat(self@, rhs@);
            assert forall|k: int| 0 <= k < out@.len() implies run_valid(#[trigger] out@[k]) by {
                if k < self@.len() {
                    assert(out@[k] == self@[k]);
                } else {
                    assert(out@[k] == rhs@[k - self@.len()]);
                }
            }
        }
        Run::merge_overlapping_runs_mut(&mut out);
        let r = RLE { width: self.width, height: self.height, runs: out };
        proof {
            crate::rle::lemma_rle_view(r);
        }
        r
    }

    /// In-place union: afterwards `self` holds the union of the two
    /// foregrounds.
    pub fn or_assign(&mut self, rhs: &RLE)
        requires
            old(self).wf(),
            rhs.wf(),
            old(self).spec_width() == rhs.spec_width(),
            old(self).spec_height() == rhs.spec_height(),
        ensures
            final(self).wf(),
            final(self).spec_width() == old(self).spec_width(),
            final(self).spec_height() == old(self).spec_height(),
            forall|x: int, y: int|
                #[trigger] final(self).fg(x, y) == (old(self).fg(x, y) || rhs.fg(x, y)),
    {
        proof {
            crate::rle::lemma_rle_view(*old(self));
            crate::rle::lemma_rle_view(*rhs);
        }
        let ghost prev = self.runs@;
        append_runs(&mut self.runs, &rhs.runs);
        proof {
            lemma_fg_concat(prev, rhs@);
            assert(prev == old(self)@);
            assert forall|k: int| 0 <= k < self.runs@.len() implies run_valid(
                #[trigger] self.runs@[k],
            ) by {
                if k < prev.len() {
                    assert(self.runs@[k] == prev[k]);
                    assert(run_valid(old(self)@[k]));
                } else {
                    assert(self.runs@[k] == rhs@[k - prev.len()]);
                    assert(run_valid(rhs@[k - prev.len()]));
                }
            }
        }
        Run::merge_overlapping_runs_mut(&mut self.runs);
        proof {
            crate::rle::lemma_rle_view(*self);
        }
    }

    /// Complement over the canvas, eager: pixel (x, y) is foreground in
    /// the result iff it lies on the canvas and is background in `self`.
    /// Collects the lazy complement producer, so the run list is exactly
    /// the complement traversal's sequence.
    pub fn complement(&self) -> (r: RLE)
        requires
            self.wf(),
        ensures
            r.wf(),
            r.spec_width() == self.spec_width(),
            r.spec_height() == self.spec_height(),
            r@ == flip_from(self@, self.spec_width() as int, self.spec_height() as int, 0, 0),
            runs_in_canvas(r@, self.spec_width() as int, self.spec_height() as int),
            forall|x: int, y: int|
                #[trigger] r.fg(x, y) == (in_canvas(
                    self.spec_width() as int,
                    self.spec_height() as int,
                    x,
                    y,
                ) && !self.fg(x, y)),
    {
        let ghost w = self.spec_width() as int;
        let ghost h = self.spec_height() as int;
        let ghost full = flip_from(self@, w, h, 0, 0);
        let mut it = FlipBitsIter::new(self);
        let mut out: Vec<Run> = Vec::new();
        proof {
            assert(Seq::<Run>::empty() + full =~= full);
        }
        loop
            invariant_except_break
                it.wf(),
                out@ + it.remaining() == full,
            ensures
                out@ == full,
            decreases it.remaining().len(),
        {
            let ghost rem_top = it.remaining();
            let nx = it.next();
            match nx {
                Some(rr) => {
                    let ghost prev = out@;
                    let ghost rem = it.remaining();
                    out.push(rr);
                    proof {
                        assert(prev.push(rr) =~= prev + seq![rr]);
                        assert((prev + seq![rr]) + rem =~= prev + (seq![rr] + rem));
                        assert(out@ + rem == full);
                    }
                },
                None => {
                    proof {
                        assert(out@ + rem_top =~= out@);
                        assert(out@ == full);
                    }
                    break ;
                },
            }
        }
        proof {
            lemma_rle_view(*self);
            if w >= 1 {
                assert forall|x: int, y: int| (in_canvas(w, h, x, y) && #[trigger] foreground(
                    self@,
                    x,
                    y,
                )) implies crate::flip_bits_iter::after_cursor(0, 0, x, y) by {}
                crate::flip_bits_iter::lemma_flip_from(self@, w, h, 0, 0);
            } else {
                assert(full =~= Seq::<Run>::empty());
            }
        }
        let r = RLE { width: self.width, height: self.height, runs: out };
        proof {
            lemma_rle_view(r);
            if w >= 1 {
                assert forall|x: int, y: int|
                    #[trigger] r.fg(x, y) == (in_canvas(w, h, x, y) && !self.fg(x, y)) by {
                    assert(foreground(full, x, y) == (in_canvas(w, h, x, y)
                        && crate::flip_bits_iter::after_cursor(0, 0, x, y) && !foreground(
                        self@,
                        x,
                        y,
                    )));
                }
            } else {
                assert forall|x: int, y: int|
                    #[trigger] r.fg(x, y) == (in_canvas(w, h, x, y) && !self.fg(x, y)) by {
                    if foreground(r@, x, y) {
                        let i = choose|i: int| 0 <= i < r@.len() && covers(#[trigger] r@[i], x, y);
                    }
                }
            }
        }
        r
    }

    /// Difference of two images of equal dimensions: the pixels foreground
    /// in `self`, on the canvas, and background in `rhs`. Computed as the
    /// intersection with the complement of `rhs`.
    pub fn diff(&self, rhs: &RLE) -> (r: RLE)
        requires
            self.wf(),
            rhs.wf(),
            self.spec_width() == rhs.spec_width(),
            self.spec_height() == rhs.spec_height(),
        ensures
            r.wf(),
            r.spec_width() == self.spec_width(),
            r.spec_height() == self.spec_height(),
            forall|x: int, y: int|
                #[trigger] r.fg(x, y) == (self.fg(x, y) && in_canvas(
                    self.spec_width() as int,
                    self.spec_height() as int,
                    x,
                    y,
                ) && !rhs.fg(x, y)),
    {
        let c = rhs.complement();
        self.and(&c)
    }
}

/// When `a[i]` lies on an earlier row than `b[j]`, no pending pair uses
/// `a[i]`, so the cursor over `a` may advance.
proof fn lemma_and_skip_a(a: Seq<Run>, b: Seq<Run>, i: int, j: int)
    requires
        canonical(a),
        canonical(b),
        0 <= i < a.len(),
        0 <= j < b.len(),
        a[i].y < b[j].y,
    ensures
        forall|x: int, y: int|
            both_pending(a, b, i, j, x, y) == both_pending(a, b, i + 1, j, x, y),
{
    assert forall|x: int, y: int|
        both_pending(a, b, i, j, x, y) == both_pending(a, b, i + 1, j, x, y) by {
        if both_pending(a, b, i, j, x, y) {
            let (k, l) = choose|k: int, l: int|
                i <= k < a.len() && j <= l < b.len() && covers(#[trigger] a[k], x, y) && covers(
                    #[trigger] b[l],
                    x,
                    y,
                );
            if k == i {
                // b[l] lies on row y == a[i].y, but every run from b[j] on
                // lies on row b[j].y or later.
                if l > j {
                    lemma_canonical_ordered(b, j, l);
                }
                assert(false);
            }
        }
    }
}

/// When `b[j]` lies on an earlier row than `a[i]`, the cursor over `b` may
/// advance.
proof fn lemma_and_skip_b(a: Seq<Run>, b: Seq<Run>, i: int, j: int)
    requires
        canonical(a),
        canonical(b),
        0 <= i < a.len(),
        0 <= j < b.len(),
        b[j].y < a[i].y,
    ensures
        forall|x: int, y: int|
            both_pending(a, b, i, j, x, y) == both_pending(a, b, i, j + 1, x, y),
{
    assert forall|x: int, y: int|
        both_pending(a, b, i, j, x, y) == both_pending(a, b, i, j + 1, x, y) by {
        if both_pending(a, b, i, j, x, y) {
            let (k, l) = choose|k: int, l: int|
                i <= k < a.len() && j <= l < b.len() && covers(#[trigger] a[k], x, y) && covers(
                    #[trigger] b[l],
                    x,
                    y,
                );
            if l == j {
                if k > i {
                    lemma_canonical_ordered(a, i, k);
                }
                assert(false);
            }
        }
    }
}

/// After the intersection of `a[i]` and `b[j]` on a shared row has been
/// emitted, the cursor of the run that ends first may advance: the only
/// pending pair it could still form is the one just emitted.
proof fn lemma_and_advance(a: Seq<Run>, b: Seq<Run>, i: int, j: int, adv_a: bool)
    requires
        canonical(a),
        canonical(b),
        0 <= i < a.len(),
        0 <= j < b.len(),
        a[i].y == b[j].y,
        adv_a ==> a[i].x_end < b[j].x_end,
        !adv_a ==> b[j].x_end <= a[i].x_end,
    ensures
        forall|x: int, y: int|
            both_pending(a, b, i + (if adv_a { 1int } else { 0 }), j + (
            if adv_a {
                0int
            } else {
                1
            }), x, y) == (both_pending(a, b, i, j, x, y) && !(covers(a[i], x, y) && covers(
                b[j],
                x,
                y,
            ))),
{
    let ni = i + (if adv_a { 1int } else { 0 });
    let nj = j + (if adv_a { 0int } else { 1 });
    assert forall|x: int, y: int|
        both_pending(a, b, ni, nj, x, y) == (both_pending(a, b, i, j, x, y) && !(covers(
            a[i],
            x,
            y,
        ) && covers(b[j], x, y))) by {
        if both_pending(a, b, ni, nj, x, y) {
            let (k, l) = choose|k: int, l: int|
                ni <= k < a.len() && nj <= l < b.len() && covers(#[trigger] a[k], x, y) && covers(
                    #[trigger] b[l],
                    x,
                    y,
                );
            assert(both_pending(a, b, i, j, x, y));
            // The emitted pair cannot still be pending: the advanced run is
            // disjoint from everything at or past the new cursor.
            if covers(a[i], x, y) && covers(b[j], x, y) {
                if adv_a {
                    if k > i {
                        lemma_canonical_ordered(a, i, k);
                    }
                    assert(false);
                } else {
                    if l > j {
                        lemma_canonical_ordered(b, j, l);
                    }
                    assert(false);
                }
            }
        }
        if both_pending(a, b, i, j, x, y) && !(covers(a[i], x, y) && covers(b[j], x, y)) {
            let (k, l) = choose|k: int, l: int|
                i <= k < a.len() && j <= l < b.len() && covers(#[trigger] a[k], x, y) && covers(
                    #[trigger] b[l],
                    x,
                    y,
                );
            if adv_a {
                if k == i {
                    // a[i] and some b[l] cover (x, y); if l == j the pair
                    // would be the emitted one, so l > j, but then b[l]
                    // starts past b[j].x_end > a[i].x_end.
                    assert(l != j);
                    lemma_canonical_ordered(b, j, l);
                    assert(false);
                }
                assert(both_pending(a, b, ni, nj, x, y));
            } else {
                if l == j {
                    assert(k != i);
                    lemma_canonical_ordered(a, i, k);
                    assert(false);
                }
                assert(both_pending(a, b, ni, nj, x, y));
            }
        }
    }
}

/// An owned copy of a run vector.
pub(crate) fn copy_runs(v: &Vec<Run>) -> (r: Vec<Run>)
    ensures
        r@ == v@,
{
    let mut r: Vec<Run> = Vec::new();
    let mut i: usize = 0;
    while i < v.len()
        invariant
            i <= v@.len(),
            r@ == v@.take(i as int),
        decreases v@.len() - i,
    {
        r.push(v[i]);
        proof {
            assert(r@ =~= v@.take(i as int + 1));
        }
        i = i + 1;
    }
    proof {
        assert(v@.take(v@.len() as int) =~= v@);
    }
    r
}

/// Append every run of `src` to `dst`.
fn append_runs(dst: &mut Vec<Run>, src: &Vec<Run>)
    ensures
        final(dst)@ == old(dst)@ + src@,
{
    let ghost base = dst@;
    let mut i: usize = 0;
    while i < src.len()
        invariant
            i <= src@.len(),
            dst@ == base + src@.take(i as int),
        decreases src@.len() - i,
    {
        dst.push(src[i]);
        proof {
            assert(dst@ =~= base + src@.take(i as int + 1));
        }
        i = i + 1;
    }
    proof {
        assert(src@.take(src@.len() as int) =~= src@);
        assert(dst@ =~= base + src@);
    }
}

} // verus!
