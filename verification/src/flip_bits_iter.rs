//! The complement traversal: one spec-level definition of the complement
//! run sequence, a lazy producer that yields it one run at a time, and the
//! lemma that its foreground is the flipped canvas.
//!
//! The traversal walks the canvas in row-major order with a cursor,
//! emitting a background run for every maximal gap before, between and
//! after the clipped foreground runs, and a full-width run for every blank
//! row.

use vstd::prelude::*;

use crate::canon::{
    canon_pair, canonical, covers, foreground, in_canvas, lemma_canonical_ordered,
    lemma_canonical_push_front, lemma_canonical_skip, lemma_fg_concat, lemma_fg_single,
    run_valid, runs_in_canvas,
};
use crate::rle::{lemma_rle_view, RLE};
use crate::run::Run;

verus! {

/// A run from integer coordinates.
pub open spec fn mk_run(y: int, xs: int, xe: int) -> Run {
    Run { y: y as i32, x_start: xs as i32, x_end: xe as i32 }
}

/// Pixel (x, y) lies at or after cursor (cy, cx) in row-major order.
pub open spec fn after_cursor(cy: int, cx: int, x: int, y: int) -> bool {
    y > cy || (y == cy && x >= cx)
}

/// Every in-canvas foreground pixel of `rs` lies at or after the cursor.
pub open spec fn rem_ok(rs: Seq<Run>, w: int, h: int, cy: int, cx: int) -> bool {
    forall|x: int, y: int|
        (in_canvas(w, h, x, y) && #[trigger] foreground(rs, x, y)) ==> after_cursor(cy, cx, x, y)
}

/// Every run of `c` starts at or after the cursor.
pub open spec fn runs_after(c: Seq<Run>, cy: int, cx: int) -> bool {
    forall|i: int|
        0 <= i < c.len() ==> ((#[trigger] c[i]).y > cy || (c[i].y == cy && c[i].x_start >= cx))
}

/// The cursor points at a column of the canvas.
pub open spec fn cursor_ok(w: int, cy: int, cx: int) -> bool {
    0 <= cy && 0 <= cx < w
}

/// Run `r` has no canvas pixel at or after cursor (cy, cx): it lies on an
/// earlier row, off the canvas, or entirely before the cursor on its row.
pub open spec fn skippable(r: Run, w: int, h: int, cy: int, cx: int) -> bool {
    r.y < cy || r.y >= h || r.x_end < 0 || r.x_start > w - 1 || (r.y == cy && r.x_end < cx)
}

/// The complement run sequence of `rs` on a `w` x `h` canvas, walked from
/// cursor (cy, cx): the maximal background gaps of the flipped image, in
/// row-major order. Runs of `rs` that have no canvas pixel at or after the
/// cursor are skipped; a row with no further foreground yields one run to
/// the row end.
pub open spec fn flip_from(rs: Seq<Run>, w: int, h: int, cy: int, cx: int) -> Seq<Run>
    decreases rs.len(), h - cy,
{
    if w <= 0 || cy < 0 || cy >= h {
        Seq::<Run>::empty()
    } else if rs.len() == 0 {
        seq![mk_run(cy, cx, w - 1)] + flip_from(rs, w, h, cy + 1, 0)
    } else {
        let r = rs[0];
        if skippable(r, w, h, cy, cx) {
            flip_from(rs.drop_first(), w, h, cy, cx)
        } else if r.y > cy {
            seq![mk_run(cy, cx, w - 1)] + flip_from(rs, w, h, cy + 1, 0)
        } else {
            let s = if r.x_start > cx {
                r.x_start as int
            } else {
                cx
            };
            let e = if r.x_end < w - 1 {
                r.x_end as int
            } else {
                w - 1
            };
            let gap = if cx < s {
                seq![mk_run(cy, cx, s - 1)]
            } else {
                Seq::<Run>::empty()
            };
            if e >= w - 1 {
                gap + flip_from(rs.drop_first(), w, h, cy + 1, 0)
            } else {
                gap + flip_from(rs.drop_first(), w, h, cy, e + 1)
            }
        }
    }
}

/// The complement sequence is canonical, lies inside the canvas at or
/// after the cursor, and covers exactly the in-canvas pixels at or after
/// the cursor that `rs` does not cover.
pub proof fn lemma_flip_from(rs: Seq<Run>, w: int, h: int, cy: int, cx: int)
    requires
        1 <= w <= i32::MAX,
        0 <= h <= i32::MAX,
        canonical(rs),
        cursor_ok(w, cy, cx),
        rem_ok(rs, w, h, cy, cx),
    ensures
        canonical(flip_from(rs, w, h, cy, cx)),
        runs_in_canvas(flip_from(rs, w, h, cy, cx), w, h),
        runs_after(flip_from(rs, w, h, cy, cx), cy, cx),
        forall|x: int, y: int|
            #[trigger] foreground(flip_from(rs, w, h, cy, cx), x, y) == (in_canvas(w, h, x, y)
                && after_cursor(cy, cx, x, y) && !foreground(rs, x, y)),
    decreases rs.len(), h - cy,
{
    let out = flip_from(rs, w, h, cy, cx);
    if cy >= h {
        assert(out =~= Seq::<Run>::empty());
        assert forall|x: int, y: int| #[trigger] foreground(out, x, y) == (in_canvas(w, h, x, y)
            && after_cursor(cy, cx, x, y) && !foreground(rs, x, y)) by {
            assert(!foreground(out, x, y));
        }
    } else if rs.len() > 0 && skippable(rs[0], w, h, cy, cx) {
        // The first run has no canvas pixel at or after the cursor: skip it.
        let r = rs[0];
        let tail = rs.drop_first();
        assert(out == flip_from(tail, w, h, cy, cx));
        crate::canon::lemma_canonical_drop_first(rs);
        lemma_fg_concat(seq![r], tail);
        lemma_fg_single(r);
        assert(rs =~= seq![r] + tail);
        assert forall|x: int, y: int| (in_canvas(w, h, x, y) && #[trigger] foreground(
            tail,
            x,
            y,
        )) implies after_cursor(cy, cx, x, y) by {
            assert(foreground(rs, x, y) == (covers(r, x, y) || foreground(tail, x, y)));
        }
        lemma_flip_from(tail, w, h, cy, cx);
        assert forall|x: int, y: int| #[trigger] foreground(out, x, y) == (in_canvas(w, h, x, y)
            && after_cursor(cy, cx, x, y) && !foreground(rs, x, y)) by {
            assert(foreground(rs, x, y) == (covers(r, x, y) || foreground(tail, x, y)));
            if in_canvas(w, h, x, y) && after_cursor(cy, cx, x, y) {
                assert(!covers(r, x, y));
            }
        }
    } else if rs.len() == 0 || rs[0].y > cy {
        // A full background stretch from the cursor to the row end, then
        // the walk continues at the start of the next row.
        let head = mk_run(cy, cx, w - 1);
        let rec = flip_from(rs, w, h, cy + 1, 0);
        assert(out == seq![head] + rec);
        assert forall|x: int, y: int| (in_canvas(w, h, x, y) && #[trigger] foreground(
            rs,
            x,
            y,
        )) implies after_cursor(cy + 1, 0, x, y) by {
            let kk = choose|kk: int| 0 <= kk < rs.len() && covers(#[trigger] rs[kk], x, y);
            if kk > 0 {
                lemma_canonical_ordered(rs, 0, kk);
            }
            assert(y > cy);
        }
        lemma_flip_from(rs, w, h, cy + 1, 0);
        lemma_fg_concat(seq![head], rec);
        lemma_fg_single(head);
        if rec.len() > 0 {
            assert(rec[0].y > cy + 1 || (rec[0].y == cy + 1 && rec[0].x_start >= 0));
            assert(canon_pair(head, rec[0]));
        }
        lemma_canonical_push_front(head, rec);
        assert forall|i: int| 0 <= i < out.len() implies {
            &&& 0 <= (#[trigger] out[i]).x_start
            &&& out[i].x_end < w
            &&& 0 <= out[i].y < h
        } by {
            if i == 0 {
                assert(out[0] == head);
            } else {
                assert(out[i] == rec[i - 1]);
            }
        }
        assert forall|i: int| 0 <= i < out.len() implies ((#[trigger] out[i]).y > cy || (
        out[i].y == cy && out[i].x_start >= cx)) by {
            if i == 0 {
                assert(out[0] == head);
            } else {
                assert(out[i] == rec[i - 1]);
            }
        }
        assert forall|x: int, y: int| #[trigger] foreground(out, x, y) == (in_canvas(w, h, x, y)
            && after_cursor(cy, cx, x, y) && !foreground(rs, x, y)) by {
            assert(foreground(out, x, y) == (covers(head, x, y) || foreground(rec, x, y)));
            if in_canvas(w, h, x, y) && y == cy && after_cursor(cy, cx, x, y) {
                assert(!foreground(rs, x, y));
                assert(covers(head, x, y));
            }
        }
    } else {
        // The first run starts on the cursor row: emit the gap before it,
        // if any, and move the cursor past the run's clipped end.
        let r = rs[0];
        let s = if r.x_start > cx {
            r.x_start as int
        } else {
            cx
        };
        let e = if r.x_end < w - 1 {
            r.x_end as int
        } else {
            w - 1
        };
        let gap = if cx < s {
            seq![mk_run(cy, cx, s - 1)]
        } else {
            Seq::<Run>::empty()
        };
        let ncy = if e >= w - 1 {
            cy + 1
        } else {
            cy
        };
        let ncx = if e >= w - 1 {
            0
        } else {
            e + 1
        };
        let tail = rs.drop_first();
        let rec = flip_from(tail, w, h, ncy, ncx);
        assert(out == gap + rec);
        assert(run_valid(r));
        crate::canon::lemma_canonical_drop_first(rs);
        lemma_fg_concat(seq![r], tail);
        lemma_fg_single(r);
        assert(rs =~= seq![r] + tail);
        assert forall|x: int, y: int| (in_canvas(w, h, x, y) && #[trigger] foreground(
            tail,
            x,
            y,
        )) implies after_cursor(ncy, ncx, x, y) by {
            let kk = choose|kk: int| 0 <= kk < tail.len() && covers(#[trigger] tail[kk], x, y);
            assert(tail[kk] == rs[kk + 1]);
            lemma_canonical_ordered(rs, 0, kk + 1);
            if y == cy {
                // Same row: the covering run starts past r's end with a gap.
                assert(x > r.x_end + 1);
            }
        }
        lemma_flip_from(tail, w, h, ncy, ncx);
        lemma_fg_concat(gap, rec);
        if cx < s {
            lemma_fg_single(mk_run(cy, cx, s - 1));
            assert(gap =~= seq![mk_run(cy, cx, s - 1)]);
        }
        // Canonical: the gap, if any, precedes everything in rec.
        if cx < s && rec.len() > 0 {
            assert(rec[0].y > ncy || (rec[0].y == ncy && rec[0].x_start >= ncx));
            assert(canon_pair(mk_run(cy, cx, s - 1), rec[0]));
        }
        if cx < s {
            lemma_canonical_push_front(mk_run(cy, cx, s - 1), rec);
            assert(out =~= seq![mk_run(cy, cx, s - 1)] + rec);
        } else {
            assert(out =~= rec);
        }
        assert forall|i: int| 0 <= i < out.len() implies {
            &&& 0 <= (#[trigger] out[i]).x_start
            &&& out[i].x_end < w
            &&& 0 <= out[i].y < h
        } by {
            if cx < s {
                if i == 0 {
                    assert(out[0] == mk_run(cy, cx, s - 1));
                } else {
                    assert(out[i] == rec[i - 1]);
                }
            } else {
                assert(out[i] == rec[i]);
            }
        }
        assert forall|i: int| 0 <= i < out.len() implies ((#[trigger] out[i]).y > cy || (
        out[i].y == cy && out[i].x_start >= cx)) by {
            if cx < s {
                if i == 0 {
                    assert(out[0] == mk_run(cy, cx, s - 1));
                } else {
                    assert(out[i] == rec[i - 1]);
                }
            } else {
                assert(out[i] == rec[i]);
            }
        }
        assert forall|x: int, y: int| #[trigger] foreground(out, x, y) == (in_canvas(w, h, x, y)
            && after_cursor(cy, cx, x, y) && !foreground(rs, x, y)) by {
            assert(foreground(rs, x, y) == (covers(r, x, y) || foreground(tail, x, y)));
            assert(foreground(out, x, y) == (foreground(gap, x, y) || foreground(rec, x, y)));
            if cx < s {
                assert(foreground(gap, x, y) == covers(mk_run(cy, cx, s - 1), x, y));
            } else {
                assert(!foreground(gap, x, y));
            }
            if in_canvas(w, h, x, y) && y == cy && cx <= x {
                // On the cursor row: background up to s - 1, r's pixels up
                // to e, and the rest belongs to the recursive walk.
                if x < s {
                    assert(!covers(r, x, y));
                    assert(!foreground(tail, x, y));
                    assert(!foreground(rec, x, y));
                } else if x <= e {
                    assert(covers(r, x, y));
                    assert(!foreground(rec, x, y));
                } else {
                    assert(!covers(r, x, y));
                }
            }
        }
    }
}

/// The lazy complement producer: yields the complement run sequence of an
/// image one run at a time, without materializing the whole list. A fresh
/// producer restarts the traversal from the top-left corner.
#[derive(Debug)]
pub struct FlipBitsIter<'a> {
    runs: &'a Vec<Run>,
    width: usize,
    height: usize,
    i: usize,
    cy: usize,
    cx: usize,
}

impl<'a> FlipBitsIter<'a> {
    /// The sequence of runs this producer has yet to yield.
    pub closed spec fn remaining(&self) -> Seq<Run> {
        flip_from(
            self.runs@.skip(self.i as int),
            self.width as int,
            self.height as int,
            self.cy as int,
            self.cx as int,
        )
    }

    /// Well-formed traversal state.
    pub closed spec fn wf(&self) -> bool {
        &&& self.width <= i32::MAX as usize
        &&& self.height <= i32::MAX as usize
        &&& canonical(self.runs@)
        &&& self.i <= self.runs@.len()
        &&& (self.width == 0 ==> self.cy >= self.height)
        &&& (self.cy < self.height ==> self.cx < self.width)
        &&& rem_ok(
            self.runs@.skip(self.i as int),
            self.width as int,
            self.height as int,
            self.cy as int,
            self.cx as int,
        )
    }

    /// Start a complement traversal of the given image.
    pub fn new(rle: &'a RLE) -> (it: FlipBitsIter<'a>)
        requires
            rle.wf(),
        ensures
            it.wf(),
            it.remaining() == flip_from(
                rle@,
                rle.spec_width() as int,
                rle.spec_height() as int,
                0,
                0,
            ),
    {
        proof {
            lemma_rle_view(*rle);
        }
        let runs = &rle.runs;
        let cy: usize = if rle.width() == 0 {
            rle.height()
        } else {
            0
        };
        let it = FlipBitsIter {
            runs,
            width: rle.width(),
            height: rle.height(),
            i: 0,
            cy,
            cx: 0,
        };
        proof {
            assert(it.runs@.skip(0int) =~= rle@);
        }
        it
    }

    /// Yield the next run of the complement sequence, or `None` when the
    /// traversal is finished.
    #[verifier::loop_isolation(false)]
    #[verifier::rlimit(100)]
    pub fn next(&mut self) -> (r: Option<Run>)
        requires
            old(self).wf(),
        ensures
            final(self).wf(),
            match r {
                Some(run) => old(self).remaining() == seq![run] + final(self).remaining(),
                None => old(self).remaining().len() == 0 && final(self).remaining().len() == 0,
            },
    {
        loop
            invariant
                self.wf(),
                self.remaining() == old(self).remaining(),
            decreases self.runs@.len() - self.i,
        {
            let ghost pre = *self;
            if self.width == 0 || self.cy >= self.height {
                proof {
                    assert(pre.remaining() =~= Seq::<Run>::empty());
                }
                return None;
            }
            let w1: i64 = self.width as i64 - 1;
            if self.i < self.runs.len() {
                let r = self.runs[self.i];
                proof {
                    assert(pre.runs@.skip(pre.i as int)[0] == pre.runs@[pre.i as int]);
                }
                if (r.y as i64) < (self.cy as i64) || (r.y as i64) >= (self.height as i64) || (
                r.x_end as i64) < 0 || (r.x_start as i64) > w1 || ((r.y as i64) == (
                self.cy as i64) && (r.x_end as i64) < (self.cx as i64)) {
                    proof {
                        let rs0 = pre.runs@.skip(pre.i as int);
                        assert(rs0.drop_first() =~= pre.runs@.skip(pre.i as int + 1));
                        lemma_canonical_drop_fg(rs0);
                        assert forall|x: int, y: int| (in_canvas(
                            pre.width as int,
                            pre.height as int,
                            x,
                            y,
                        ) && #[trigger] foreground(rs0.drop_first(), x, y)) implies after_cursor(
                            pre.cy as int,
                            pre.cx as int,
                            x,
                            y,
                        ) by {
                            assert(foreground(rs0, x, y) == (covers(rs0[0], x, y) || foreground(
                                rs0.drop_first(),
                                x,
                                y,
                            )));
                        }
                    }
                    self.i = self.i + 1;
                } else if (r.y as i64) > (self.cy as i64) {
                    let run = Run {
                        y: self.cy as i32,
                        x_start: self.cx as i32,
                        x_end: (self.width - 1) as i32,
                    };
                    proof {
                        let rs0 = pre.runs@.skip(pre.i as int);
                        lemma_canonical_skip(pre.runs@, pre.i as int);
                        assert forall|x: int, y: int| (in_canvas(
                            pre.width as int,
                            pre.height as int,
                            x,
                            y,
                        ) && #[trigger] foreground(rs0, x, y)) implies after_cursor(
                            pre.cy as int + 1,
                            0,
                            x,
                            y,
                        ) by {
                            let kk = choose|kk: int|
                                0 <= kk < rs0.len() && covers(#[trigger] rs0[kk], x, y);
                            if kk > 0 {
                                lemma_canonical_ordered(rs0, 0, kk);
                            }
                        }
                        assert(run == mk_run(pre.cy as int, pre.cx as int, pre.width as int - 1));
                    }
                    self.cy = self.cy + 1;
                    self.cx = 0;
                    proof {
                        assert(pre.remaining() =~= seq![run] + self.remaining());
                    }
                    return Some(run);
                } else {
                    // The run lies on the cursor row with pixels from the
                    // cursor on: emit the gap before its clipped start, if
                    // any, and step past its clipped end.
                    let s64: i64 = if (r.x_start as i64) > (self.cx as i64) {
                        r.x_start as i64
                    } else {
                        self.cx as i64
                    };
                    let e64: i64 = if (r.x_end as i64) < w1 {
                        r.x_end as i64
                    } else {
                        w1
                    };
                    let had_gap = (self.cx as i64) < s64;
                    let run = Run {
                        y: self.cy as i32,
                        x_start: self.cx as i32,
                        x_end: (s64 - 1) as i32,
                    };
                    proof {
                        let rs0 = pre.runs@.skip(pre.i as int);
                        lemma_canonical_skip(pre.runs@, pre.i as int);
                        assert(rs0.drop_first() =~= pre.runs@.skip(pre.i as int + 1));
                        lemma_canonical_drop_fg(rs0);
                        let ncy: int = if e64 >= w1 {
                            pre.cy as int + 1
                        } else {
                            pre.cy as int
                        };
                        let ncx: int = if e64 >= w1 {
                            0
                        } else {
                            e64 as int + 1
                        };
                        assert forall|x: int, y: int| (in_canvas(
                            pre.width as int,
                            pre.height as int,
                            x,
                            y,
                        ) && #[trigger] foreground(rs0.drop_first(), x, y)) implies after_cursor(
                            ncy,
                            ncx,
                            x,
                            y,
                        ) by {
                            let kk = choose|kk: int|
                                0 <= kk < rs0.drop_first().len() && covers(
                                    #[trigger] rs0.drop_first()[kk],
                                    x,
                                    y,
                                );
                            assert(rs0.drop_first()[kk] == rs0[kk + 1]);
                            lemma_canonical_ordered(rs0, 0, kk + 1);
                        }
                        if had_gap {
                            assert(run == mk_run(pre.cy as int, pre.cx as int, s64 as int - 1));
                        }
                    }
                    self.i = self.i + 1;
                    if e64 >= w1 {
                        self.cy = self.cy + 1;
                        self.cx = 0;
                    } else {
                        self.cx = (e64 + 1) as usize;
                    }
                    if had_gap {
                        proof {
                            assert(pre.remaining() =~= seq![run] + self.remaining());
                        }
                        return Some(run);
                    }
                    proof {
                        assert(pre.remaining() =~= Seq::<Run>::empty() + self.remaining());
                        assert(pre.remaining() =~= self.remaining());
                    }
                }
            } else {
                let run = Run {
                    y: self.cy as i32,
                    x_start: self.cx as i32,
                    x_end: (self.width - 1) as i32,
                };
                proof {
                    assert(pre.runs@.skip(pre.i as int) =~= Seq::<Run>::empty());
                    assert(run == mk_run(pre.cy as int, pre.cx as int, pre.width as int - 1));
                }
                self.cy = self.cy + 1;
                self.cx = 0;
                proof {
                    assert(pre.remaining() =~= seq![run] + self.remaining());
                }
                return Some(run);
            }
        }
    }
}

/// Foreground of a non-empty list splits into its first run and the rest.
proof fn lemma_canonical_drop_fg(rs: Seq<Run>)
    requires
        rs.len() > 0,
    ensures
        forall|x: int, y: int|
            #[trigger] foreground(rs, x, y) == (covers(rs[0], x, y) || foreground(
                rs.drop_first(),
                x,
                y,
            )),
{
    lemma_fg_concat(seq![rs[0]], rs.drop_first());
    lemma_fg_single(rs[0]);
    assert(rs =~= seq![rs[0]] + rs.drop_first());
}

impl RLE {
    /// A lazy producer of the complement's run sequence: collecting it
    /// yields exactly the eager complement's run list.
    pub fn flip_bits_iter(&self) -> (it: FlipBitsIter<'_>)
        requires
            self.wf(),
        ensures
            it.wf(),
            it.remaining() == flip_from(
                self@,
                self.spec_width() as int,
                self.spec_height() as int,
                0,
                0,
            ),
    {
        FlipBitsIter::new(self)
    }
}

} // verus!
