//! The run-length encoded binary image: width, height and a canonical run
//! list, with encode/decode at the pixel-buffer boundary.

use vstd::prelude::*;

use crate::canon::{
    canonical, covers, foreground, in_canvas, lemma_fg_push, lemma_fg_take_succ, run_valid,
    runs_in_canvas,
};
use crate::image::{zero_buf, Image};
use crate::run::Run;

verus! {

/// A binary image of the given dimensions, stored as a canonical run list:
/// pixel (x, y) is foreground iff some run covers it. Runs outside the
/// canvas may appear transiently (after a dilation) and are clipped only
/// when the image is decoded.
#[derive(Debug, Clone)]
pub struct RLE {
    pub(crate) width: usize,
    pub(crate) height: usize,
    pub(crate) runs: Vec<Run>,
}

impl View for RLE {
    type V = Seq<Run>;

    closed spec fn view(&self) -> Seq<Run> {
        self.runs@
    }
}

/// Row-major indexing: the index of an in-canvas pixel is in bounds, and
/// distinct in-canvas pixels have distinct indices.
pub proof fn lemma_rowmajor(w: int, h: int, x1: int, y1: int, x2: int, y2: int)
    requires
        0 <= x1 < w,
        0 <= y1 < h,
        0 <= x2 < w,
        0 <= y2 < h,
    ensures
        0 <= y1 * w + x1 < w * h,
        y1 * w + x1 == y2 * w + x2 ==> (x1 == x2 && y1 == y2),
{
    assert(0 <= y1 * w + x1 < w * h) by (nonlinear_arith)
        requires
            0 <= x1 < w,
            0 <= y1 < h,
    ;
    assert(y1 * w + x1 == y2 * w + x2 ==> (x1 == x2 && y1 == y2)) by (nonlinear_arith)
        requires
            0 <= x1 < w,
            0 <= y1 < h,
            0 <= x2 < w,
            0 <= y2 < h,
    ;
}

/// Within the crate: the view of an image is its run list, and the spec
/// dimensions are the stored fields.
pub(crate) proof fn lemma_rle_view(r: RLE)
    ensures
        r@ == r.runs@,
        r.spec_width() == r.width,
        r.spec_height() == r.height,
{
}

impl RLE {
    /// Image width.
    pub closed spec fn spec_width(&self) -> usize {
        self.width
    }

    /// Image height.
    pub closed spec fn spec_height(&self) -> usize {
        self.height
    }

    /// The dimensions fit the run coordinate type.
    pub open spec fn dims_ok(&self) -> bool {
        self.spec_width() <= i32::MAX as usize && self.spec_height() <= i32::MAX as usize
    }

    /// Well-formed: the dimensions fit the coordinate type and the run
    /// list is canonical.
    pub open spec fn wf(&self) -> bool {
        self.dims_ok() && canonical(self@)
    }

    /// The foreground pixel set of this image at (x, y).
    pub open spec fn fg(&self, x: int, y: int) -> bool {
        foreground(self@, x, y)
    }

    /// An all-background image of the given dimensions.
    pub fn new(width: usize, height: usize) -> (r: RLE)
        requires
            width <= i32::MAX as usize,
            height <= i32::MAX as usize,
        ensures
            r.wf(),
            r.spec_width() == width,
            r.spec_height() == height,
            r@ =~= Seq::<Run>::empty(),
            forall|x: int, y: int| !(#[trigger] r.fg(x, y)),
    {
        let r = RLE { width, height, runs: Vec::new() };
        proof {
            assert forall|x: int, y: int| !(#[trigger] r.fg(x, y)) by {
                if foreground(r@, x, y) {
                    let i = choose|i: int| 0 <= i < r@.len() && covers(#[trigger] r@[i], x, y);
                }
            }
        }
        r
    }

    /// Wrap a caller-supplied run list as an image: the trust boundary.
    /// The list must already be canonical; this constructor stores it
    /// without a scan, so the obligation is on the caller.
    pub fn from_runs(width: usize, height: usize, runs: Vec<Run>) -> (r: RLE)
        requires
            width <= i32::MAX as usize,
            height <= i32::MAX as usize,
            canonical(runs@),
        ensures
            r.wf(),
            r.spec_width() == width,
            r.spec_height() == height,
            r@ == runs@,
    {
        RLE { width, height, runs }
    }

    /// An all-foreground image: one full-width run per row.
    pub fn ones(width: usize, height: usize) -> (r: RLE)
        requires
            width <= i32::MAX as usize,
            height <= i32::MAX as usize,
        ensures
            r.wf(),
            r.spec_width() == width,
            r.spec_height() == height,
            runs_in_canvas(r@, width as int, height as int),
            forall|x: int, y: int|
                #[trigger] r.fg(x, y) == in_canvas(width as int, height as int, x, y),
    {
        let mut runs: Vec<Run> = Vec::new();
        if width > 0 {
            let mut y: usize = 0;
            while y < height
                invariant
                    y <= height,
                    0 < width <= i32::MAX as usize,
                    height <= i32::MAX as usize,
                    runs@.len() == y as int,
                    forall|k: int|
                        0 <= k < y as int ==> #[trigger] runs@[k] == (Run {
                            y: k as i32,
                            x_start: 0,
                            x_end: (width - 1) as i32,
                        }),
                    canonical(runs@),
                    forall|x: int, yy: int|
                        foreground(runs@, x, yy) == (0 <= x < width as int && 0 <= yy
                            < y as int),
                decreases height - y,
            {
                let run = Run { y: y as i32, x_start: 0, x_end: (width - 1) as i32 };
                let ghost prev = runs@;
                runs.push(run);
                proof {
                    lemma_fg_push(prev, run);
                    assert forall|x: int, yy: int|
                        foreground(runs@, x, yy) == (0 <= x < width as int && 0 <= yy < y as int
                            + 1) by {
                        assert(foreground(runs@, x, yy) == (foreground(prev, x, yy) || covers(
                            run,
                            x,
                            yy,
                        )));
                    }
                    assert forall|k: int| 0 <= k < runs@.len() implies run_valid(
                        #[trigger] runs@[k],
                    ) by {
                        assert(runs@[k] == (Run {
                            y: k as i32,
                            x_start: 0,
                            x_end: (width - 1) as i32,
                        }));
                    }
                    assert forall|k: int| 0 <= k && k + 1 < runs@.len() implies
                        crate::canon::canon_pair(#[trigger] runs@[k], runs@[k + 1]) by {
                        assert(runs@[k].y == k as i32);
                        assert(runs@[k + 1].y == (k + 1) as i32);
                    }
                }
                y = y + 1;
            }
        }
        let r = RLE { width, height, runs };
        proof {
            if width == 0 {
                assert forall|x: int, y: int| !r.fg(x, y) by {
                    if foreground(r@, x, y) {
                        let i = choose|i: int|
                            0 <= i < r@.len() && covers(#[trigger] r@[i], x, y);
                    }
                }
            }
        }
        r
    }

    /// The run list of this image.
    pub fn runs(&self) -> (r: &[Run])
        ensures
            r@ == self@,
    {
        self.runs.as_slice()
    }

    /// Image width.
    pub fn width(&self) -> (r: usize)
        ensures
            r == self.spec_width(),
    {
        self.width
    }

    /// Image height.
    pub fn height(&self) -> (r: usize)
        ensures
            r == self.spec_height(),
    {
        self.height
    }

    /// Set a run of pixels to foreground, re-canonicalizing the list.
    pub fn add_run(&mut self, run: Run)
        requires
            old(self).wf(),
            run_valid(run),
        ensures
            final(self).wf(),
            final(self).spec_width() == old(self).spec_width(),
            final(self).spec_height() == old(self).spec_height(),
            forall|x: int, y: int|
                #[trigger] final(self).fg(x, y) == (old(self).fg(x, y) || covers(run, x, y)),
    {
        let ghost prev = self.runs@;
        proof {
            assert(prev == old(self)@);
        }
        self.runs.push(run);
        proof {
            lemma_fg_push(prev, run);
            assert forall|i: int| 0 <= i < self.runs@.len() implies run_valid(
                #[trigger] self.runs@[i],
            ) by {
                if i < prev.len() {
                    assert(self.runs@[i] == prev[i]);
                    assert(run_valid(prev[i]));
                } else {
                    assert(self.runs@[i] == run);
                }
            }
        }
        Run::merge_overlapping_runs_mut(&mut self.runs);
    }

    /// Re-canonicalize the run list in place. On a well-formed image this
    /// is the identity: one canonicalization pass is a fixed point.
    pub fn merge_overlapping_runs_mut(&mut self)
        requires
            old(self).dims_ok(),
            forall|i: int| 0 <= i < old(self)@.len() ==> run_valid(#[trigger] old(self)@[i]),
        ensures
            final(self).wf(),
            final(self).spec_width() == old(self).spec_width(),
            final(self).spec_height() == old(self).spec_height(),
            forall|x: int, y: int|
                #[trigger] final(self).fg(x, y) == foreground(old(self)@, x, y),
            canonical(old(self)@) ==> final(self)@ == old(self)@,
    {
        proof {
            assert forall|i: int| 0 <= i < self.runs@.len() implies run_valid(
                #[trigger] self.runs@[i],
            ) by {
                assert(self.runs@[i] == old(self)@[i]);
                assert(run_valid(old(self)@[i]));
            }
        }
        Run::merge_overlapping_runs_mut(&mut self.runs);
    }

    /// Re-canonicalize the run list, by value.
    pub fn merge_overlapping_runs(self) -> (r: RLE)
        requires
            self.dims_ok(),
            forall|i: int| 0 <= i < self@.len() ==> run_valid(#[trigger] self@[i]),
        ensures
            r.wf(),
            r.spec_width() == self.spec_width(),
            r.spec_height() == self.spec_height(),
            forall|x: int, y: int| #[trigger] r.fg(x, y) == foreground(self@, x, y),
            canonical(self@) ==> r@ == self@,
    {
        let mut m = self;
        m.merge_overlapping_runs_mut();
        m
    }

    /// Decode to a pixel buffer: every in-canvas pixel covered by a run is
    /// painted with `pixel_val`, every other pixel is 0. Runs and run parts
    /// outside the canvas are clipped away.
    #[verifier::loop_isolation(false)]
    pub fn to_image(&self, pixel_val: u8) -> (img: Image)
        requires
            self.wf(),
            self.spec_width() * self.spec_height() <= usize::MAX,
        ensures
            img.spec_w() == self.spec_width(),
            img.spec_h() == self.spec_height(),
            img.wf(),
            forall|x: int, y: int|
                #![trigger in_canvas(self.spec_width() as int, self.spec_height() as int, x, y)]
                in_canvas(self.spec_width() as int, self.spec_height() as int, x, y)
                    ==> img@[y * self.spec_width() as int + x] == (if self.fg(x, y) {
                    pixel_val
                } else {
                    0u8
                }),
    {
        let w = self.width;
        let h = self.height;
        let mut data = zero_buf(w * h);
        proof {
            assert(self@.take(0int) =~= Seq::<Run>::empty());
            assert forall|x: int, y: int|
                in_canvas(w as int, h as int, x, y) implies data@[y * w as int + x] == (
            if foreground(self@.take(0int), x, y) {
                pixel_val
            } else {
                0u8
            }) by {
                lemma_rowmajor(w as int, h as int, x, y, 0, 0);
            }
        }
        let mut ri: usize = 0;
        while ri < self.runs.len()
            invariant
                ri <= self.runs@.len(),
                data@.len() == w * h,
                forall|x: int, y: int|
                    in_canvas(w as int, h as int, x, y) ==> data@[y * w as int + x] == (
                    if foreground(self@.take(ri as int), x, y) {
                        pixel_val
                    } else {
                        0u8
                    }),
            decreases self.runs@.len() - ri,
        {
            let r = self.runs[ri];
            proof {
                lemma_fg_take_succ(self@, ri as int);
                assert(run_valid(r));
            }
            if w > 0 && r.y >= 0 && (r.y as i64) < (h as i64) && r.x_end >= 0 && (
            r.x_start as i64) <= (w as i64) - 1 {
                let y = r.y as usize;
                let start: usize = if r.x_start > 0 {
                    r.x_start as usize
                } else {
                    0
                };
                let end: usize = if (r.x_end as i64) >= (w as i64) - 1 {
                    w - 1
                } else {
                    r.x_end as usize
                };
                let mut x = start;
                while x <= end
                    invariant
                        start <= x <= end + 1,
                        start <= end < w,
                        y < h,
                        r.y == y as int,
                        r.x_start <= start as int,
                        end as int <= r.x_end,
                        data@.len() == w * h,
                        forall|cx: int, cy: int|
                            in_canvas(w as int, h as int, cx, cy) ==> data@[cy * w as int + cx]
                                == (if foreground(self@.take(ri as int), cx, cy) || (cy
                                == y as int && start as int <= cx < x as int) {
                                pixel_val
                            } else {
                                0u8
                            }),
                    decreases end + 1 - x,
                {
                    proof {
                        lemma_rowmajor(w as int, h as int, x as int, y as int, 0, 0);
                    }
                    let idx = y * w + x;
                    let ghost prevd = data@;
                    data[idx] = pixel_val;
                    proof {
                        assert forall|cx: int, cy: int|
                            in_canvas(w as int, h as int, cx, cy) implies data@[cy * w as int
                            + cx] == (if foreground(self@.take(ri as int), cx, cy) || (cy
                            == y as int && start as int <= cx < x as int + 1) {
                            pixel_val
                        } else {
                            0u8
                        }) by {
                            lemma_rowmajor(w as int, h as int, cx, cy, x as int, y as int);
                            if cy * w as int + cx != idx as int {
                                assert(data@[cy * w as int + cx] == prevd[cy * w as int + cx]);
                            }
                        }
                    }
                    x = x + 1;
                }
                proof {
                    assert forall|cx: int, cy: int|
                        in_canvas(w as int, h as int, cx, cy) implies (foreground(
                        self@.take(ri as int),
                        cx,
                        cy,
                    ) || (cy == y as int && start as int <= cx < x as int)) == foreground(
                        self@.take(ri as int + 1),
                        cx,
                        cy,
                    ) by {
                        assert((cy == y as int && start as int <= cx < x as int) == covers(
                            r,
                            cx,
                            cy,
                        ));
                    }
                }
            } else {
                proof {
                    assert forall|cx: int, cy: int|
                        in_canvas(w as int, h as int, cx, cy) implies foreground(
                        self@.take(ri as int + 1),
                        cx,
                        cy,
                    ) == foreground(self@.take(ri as int), cx, cy) by {
                        assert(!covers(r, cx, cy));
                    }
                }
            }
            ri = ri + 1;
        }
        proof {
            assert(self@.take(self@.len() as int) =~= self@);
        }
        Image::new(w, h, data)
    }

    /// Encode a pixel buffer: scan each row left to right, opening a run at
    /// each foreground byte that follows background and closing it at the
    /// next background byte or the row end. The output is canonical and
    /// in-canvas by construction, and covers exactly the nonzero bytes.
    #[verifier::loop_isolation(false)]
    #[verifier::rlimit(60)]
    pub fn from_raw_data(w: usize, h: usize, data: &[u8]) -> (r: RLE)
        requires
            w * h == data@.len(),
            w <= i32::MAX as usize,
            h <= i32::MAX as usize,
        ensures
            r.wf(),
            r.spec_width() == w,
            r.spec_height() == h,
            runs_in_canvas(r@, w as int, h as int),
            forall|x: int, y: int|
                in_canvas(w as int, h as int, x, y) ==> #[trigger] r.fg(x, y) == (data@[y
                    * w as int + x] > 0),
    {
        let total = data.len();
        let mut runs: Vec<Run> = Vec::new();
        let mut y: usize = 0;
        while y < h
            invariant
                y <= h,
                canonical(runs@),
                runs_in_canvas(runs@, w as int, h as int),
                forall|k: int| 0 <= k < runs@.len() ==> (#[trigger] runs@[k]).y < y as int,
                forall|cx: int, cy: int|
                    in_canvas(w as int, h as int, cx, cy) && cy < y as int ==> foreground(
                        runs@,
                        cx,
                        cy,
                    ) == (data@[cy * w as int + cx] > 0),
                forall|cx: int, cy: int|
                    cy >= y as int ==> !foreground(runs@, cx, cy),
            decreases h - y,
        {
            let mut x: usize = 0;
            let mut in_run: bool = false;
            let mut start: usize = 0;
            while x < w
                invariant
                    x <= w,
                    y < h,
                    canonical(runs@),
                    runs_in_canvas(runs@, w as int, h as int),
                    forall|k: int| 0 <= k < runs@.len() ==> (#[trigger] runs@[k]).y <= y as int,
                    in_run ==> start < x,
                    in_run ==> forall|k: int|
                        start as int <= k < x as int ==> #[trigger] data@[y * w as int + k] > 0,
                    in_run ==> (start == 0 || data@[y * w as int + (start as int - 1)] == 0),
                    !in_run ==> (x == 0 || data@[y * w as int + (x as int - 1)] == 0),
                    in_run ==> (runs@.len() > 0 && runs@.last().y == y as int ==> runs@.last().x_end
                        + 2 <= start as int),
                    !in_run ==> (runs@.len() > 0 && runs@.last().y == y as int
                        ==> runs@.last().x_end + 2 <= x as int),
                    forall|cx: int, cy: int|
                        in_canvas(w as int, h as int, cx, cy) && cy < y as int ==> foreground(
                            runs@,
                            cx,
                            cy,
                        ) == (data@[cy * w as int + cx] > 0),
                    forall|cx: int|
                        0 <= cx < w as int ==> foreground(runs@, cx, y as int) == (cx < (
                        if in_run {
                            start as int
                        } else {
                            x as int
                        }) && data@[y * w as int + cx] > 0),
                    forall|cx: int, cy: int| cy > y as int ==> !foreground(runs@, cx, cy),
                decreases w - x,
            {
                proof {
                    lemma_rowmajor(w as int, h as int, x as int, y as int, 0, 0);
                }
                let b = data[y * w + x];
                if b > 0 {
                    if !in_run {
                        in_run = true;
                        start = x;
                    }
                } else {
                    if in_run {
                        let run = Run {
                            y: y as i32,
                            x_start: start as i32,
                            x_end: (x - 1) as i32,
                        };
                        let ghost prev = runs@;
                        runs.push(run);
                        proof {
                            lemma_encode_push(prev, runs@, run, w as int, h as int, data@);
                        }
                        in_run = false;
                    }
                }
                x = x + 1;
            }
            if in_run {
                let run = Run { y: y as i32, x_start: start as i32, x_end: (w - 1) as i32 };
                let ghost prev = runs@;
                runs.push(run);
                proof {
                    lemma_encode_push(prev, runs@, run, w as int, h as int, data@);
                }
            }
            proof {
                assert forall|cx: int, cy: int|
                    in_canvas(w as int, h as int, cx, cy) && cy < y as int + 1 implies foreground(
                    runs@,
                    cx,
                    cy,
                ) == (data@[cy * w as int + cx] > 0) by {
                    if cy == y as int {
                        assert(foreground(runs@, cx, y as int) == (data@[y * w as int + cx]
                            > 0));
                    }
                }
            }
            y = y + 1;
        }
        RLE { width: w, height: h, runs }
    }

    /// Encode an image's pixel buffer; any nonzero byte is foreground.
    pub fn from_image(img: &Image) -> (r: RLE)
        requires
            img.wf(),
            img.spec_w() <= i32::MAX as usize,
            img.spec_h() <= i32::MAX as usize,
        ensures
            r.wf(),
            r.spec_width() == img.spec_w(),
            r.spec_height() == img.spec_h(),
            runs_in_canvas(r@, img.spec_w() as int, img.spec_h() as int),
            forall|x: int, y: int|
                in_canvas(img.spec_w() as int, img.spec_h() as int, x, y) ==> #[trigger] r.fg(
                    x,
                    y,
                ) == (img@[y * img.spec_w() as int + x] > 0),
    {
        let w = img.w();
        let h = img.h();
        RLE::from_raw_data(w, h, img.data())
    }

    /// Dilation by a structuring element with implicit center
    /// (width / 2, height / 2): the Minkowski sum of the two foregrounds,
    /// computed on intervals. Every pair of runs yields one candidate run;
    /// the whole candidate set is then sorted and merged in one pass.
    /// Candidates outside the canvas are kept and clipped only at decode.
    #[verifier::loop_isolation(false)]
    #[verifier::rlimit(100)]
    pub fn dilate(&self, s: &RLE) -> (r: RLE)
        requires
            self.wf(),
            s.wf(),
            dilate_fits(self@, s@, s.spec_width() as int / 2, s.spec_height() as int / 2),
        ensures
            r.wf(),
            r.spec_width() == self.spec_width(),
            r.spec_height() == self.spec_height(),
            forall|x: int, y: int|
                #[trigger] r.fg(x, y) == dilated(
                    self@,
                    s@,
                    s.spec_width() as int / 2,
                    s.spec_height() as int / 2,
                    x,
                    y,
                ),
    {
        proof {
            lemma_rle_view(*self);
            lemma_rle_view(*s);
        }
        let dx = s.width / 2;
        let dy = s.height / 2;
        let ghost gdx = s.spec_width() as int / 2;
        let ghost gdy = s.spec_height() as int / 2;
        let mut cand: Vec<Run> = Vec::new();
        let mut k: usize = 0;
        while k < self.runs.len()
            invariant
                k <= self@.len(),
                forall|i: int| 0 <= i < cand@.len() ==> run_valid(#[trigger] cand@[i]),
                forall|x: int, y: int|
                    #[trigger] foreground(cand@, x, y) == mink_upto(
                        self@,
                        s@,
                        gdx,
                        gdy,
                        k as int,
                        0,
                        x,
                        y,
                    ),
            decreases self@.len() - k,
        {
            let ra = self.runs[k];
            let mut l: usize = 0;
            proof {
                assert forall|x: int, y: int|
                    mink_upto(self@, s@, gdx, gdy, k as int, 0, x, y) == mink_upto(
                        self@,
                        s@,
                        gdx,
                        gdy,
                        k as int,
                        0int,
                        x,
                        y,
                    ) by {}
            }
            while l < s.runs.len()
                invariant
                    l <= s@.len(),
                    k < self@.len(),
                    forall|i: int| 0 <= i < cand@.len() ==> run_valid(#[trigger] cand@[i]),
                    forall|x: int, y: int|
                        #[trigger] foreground(cand@, x, y) == mink_upto(
                            self@,
                            s@,
                            gdx,
                            gdy,
                            k as int,
                            l as int,
                            x,
                            y,
                        ),
                decreases s@.len() - l,
            {
                let rb = s.runs[l];
                proof {
                    assert(self@[k as int] == ra && s@[l as int] == rb);
                    assert(run_valid(ra) && run_valid(rb));
                }
                let nr = Run {
                    y: ((ra.y as i64) + (dy as i64) - (rb.y as i64)) as i32,
                    x_start: ((ra.x_start as i64) - (dx as i64) + (rb.x_start as i64)) as i32,
                    x_end: ((ra.x_end as i64) - (dx as i64) + (rb.x_end as i64)) as i32,
                };
                let ghost prevc = cand@;
                cand.push(nr);
                proof {
                    assert(nr.y == ra.y + gdy - rb.y);
                    assert(nr.x_start == ra.x_start - gdx + rb.x_start);
                    assert(nr.x_end == ra.x_end - gdx + rb.x_end);
                    lemma_fg_push(prevc, nr);
                    assert forall|i: int| 0 <= i < cand@.len() implies run_valid(
                        #[trigger] cand@[i],
                    ) by {
                        if i < prevc.len() {
                            assert(cand@[i] == prevc[i]);
                        } else {
                            assert(cand@[i] == nr);
                        }
                    }
                    assert forall|x: int, y: int|
                        #[trigger] foreground(cand@, x, y) == mink_upto(
                            self@,
                            s@,
                            gdx,
                            gdy,
                            k as int,
                            l as int + 1,
                            x,
                            y,
                        ) by {
                        assert(covers(nr, x, y) == mink(self@[k as int], s@[l as int], gdx, gdy, x, y));
                        if mink_upto(self@, s@, gdx, gdy, k as int, l as int + 1, x, y) {
                            let (ka, lb) = choose|ka: int, lb: int|
                                #![trigger mink(self@[ka], s@[lb], gdx, gdy, x, y)]
                                0 <= ka < self@.len() && 0 <= lb < s@.len() && (ka < k as int || (
                                ka == k as int && lb < l as int + 1)) && mink(
                                    self@[ka],
                                    s@[lb],
                                    gdx,
                                    gdy,
                                    x,
                                    y,
                                );
                            if ka < k as int || (ka == k as int && lb < l as int) {
                                assert(mink_upto(self@, s@, gdx, gdy, k as int, l as int, x, y));
                            } else {
                                assert(ka == k as int && lb == l as int);
                            }
                        }
                        if mink_upto(self@, s@, gdx, gdy, k as int, l as int, x, y) {
                            let (ka, lb) = choose|ka: int, lb: int|
                                #![trigger mink(self@[ka], s@[lb], gdx, gdy, x, y)]
                                0 <= ka < self@.len() && 0 <= lb < s@.len() && (ka < k as int || (
                                ka == k as int && lb < l as int)) && mink(
                                    self@[ka],
                                    s@[lb],
                                    gdx,
                                    gdy,
                                    x,
                                    y,
                                );
                            assert(mink_upto(self@, s@, gdx, gdy, k as int, l as int + 1, x, y));
                        }
                        if covers(nr, x, y) {
                            assert(mink(self@[k as int], s@[l as int], gdx, gdy, x, y));
                            assert(mink_upto(self@, s@, gdx, gdy, k as int, l as int + 1, x, y));
                        }
                    }
                }
                l = l + 1;
            }
            proof {
                assert forall|x: int, y: int|
                    mink_upto(self@, s@, gdx, gdy, k as int, s@.len() as int, x, y) == mink_upto(
                        self@,
                        s@,
                        gdx,
                        gdy,
                        k as int + 1,
                        0,
                        x,
                        y,
                    ) by {
                    if mink_upto(self@, s@, gdx, gdy, k as int, s@.len() as int, x, y) {
                        let (ka, lb) = choose|ka: int, lb: int|
                            #![trigger mink(self@[ka], s@[lb], gdx, gdy, x, y)]
                            0 <= ka < self@.len() && 0 <= lb < s@.len() && (ka < k as int || (ka
                                == k as int && lb < s@.len() as int)) && mink(
                                self@[ka],
                                s@[lb],
                                gdx,
                                gdy,
                                x,
                                y,
                            );
                        assert(mink_upto(self@, s@, gdx, gdy, k as int + 1, 0, x, y));
                    }
                    if mink_upto(self@, s@, gdx, gdy, k as int + 1, 0, x, y) {
                        let (ka, lb) = choose|ka: int, lb: int|
                            #![trigger mink(self@[ka], s@[lb], gdx, gdy, x, y)]
                            0 <= ka < self@.len() && 0 <= lb < s@.len() && (ka < k as int + 1 || (
                            ka == k as int + 1 && lb < 0)) && mink(
                                self@[ka],
                                s@[lb],
                                gdx,
                                gdy,
                                x,
                                y,
                            );
                        assert(mink_upto(self@, s@, gdx, gdy, k as int, s@.len() as int, x, y));
                    }
                }
            }
            k = k + 1;
        }
        proof {
            lemma_dilated_pairs(self@, s@, gdx, gdy);
        }
        Run::merge_overlapping_runs_mut(&mut cand);
        let r = RLE { width: self.width, height: self.height, runs: cand };
        proof {
            lemma_rle_view(r);
        }
        r
    }

    /// Erosion by a structuring element, as the complement of the dilation
    /// of the complement. Positions pulled off the canvas count as
    /// foreground, and the element is used as given: the duality is exact
    /// for elements symmetric under point reflection about their center,
    /// which both provided generators produce.
    pub fn erode(&self, s: &RLE) -> (r: RLE)
        requires
            self.wf(),
            s.wf(),
            runs_in_canvas(s@, s.spec_width() as int, s.spec_height() as int),
            self.spec_width() as int + s.spec_width() as int <= i32::MAX as int,
            self.spec_height() as int + s.spec_height() as int <= i32::MAX as int,
        ensures
            r.wf(),
            r.spec_width() == self.spec_width(),
            r.spec_height() == self.spec_height(),
            runs_in_canvas(r@, self.spec_width() as int, self.spec_height() as int),
            forall|x: int, y: int|
                in_canvas(self.spec_width() as int, self.spec_height() as int, x, y)
                    ==> (#[trigger] r.fg(x, y) == eroded(
                    self@,
                    s@,
                    self.spec_width() as int,
                    self.spec_height() as int,
                    s.spec_width() as int / 2,
                    s.spec_height() as int / 2,
                    x,
                    y,
                )),
    {
        let ghost w = self.spec_width() as int;
        let ghost h = self.spec_height() as int;
        let ghost gdx = s.spec_width() as int / 2;
        let ghost gdy = s.spec_height() as int / 2;
        let c = self.complement();
        proof {
            assert forall|k: int, l: int|
                #![trigger c@[k], s@[l]]
                0 <= k < c@.len() && 0 <= l < s@.len() implies {
                &&& i32::MIN <= c@[k].x_start - gdx + s@[l].x_start
                &&& c@[k].x_end - gdx + s@[l].x_end <= i32::MAX
                &&& i32::MIN <= c@[k].y + gdy - s@[l].y <= i32::MAX
            } by {
                assert(0 <= c@[k].x_start && c@[k].x_end < w && 0 <= c@[k].y < h);
                assert(0 <= s@[l].x_start && s@[l].x_end < s.spec_width() as int && 0 <= s@[l].y
                    < s.spec_height() as int);
            }
        }
        let d = c.dilate(s);
        let r = d.complement();
        proof {
            assert forall|x: int, y: int| in_canvas(w, h, x, y) implies (#[trigger] r.fg(x, y)
                == eroded(self@, s@, w, h, gdx, gdy, x, y)) by {
                assert(d.fg(x, y) == dilated(c@, s@, gdx, gdy, x, y));
                if dilated(c@, s@, gdx, gdy, x, y) {
                    let (xa, ya, xb, yb) = choose|xa: int, ya: int, xb: int, yb: int|
                        #![trigger foreground(c@, xa, ya), foreground(s@, xb, yb)]
                        foreground(c@, xa, ya) && foreground(s@, xb, yb) && x == xa - gdx + xb
                            && y == ya + gdy - yb;
                    assert(xa == x + gdx - xb && ya == y - gdy + yb);
                    assert(c.fg(xa, ya));
                    assert(in_canvas(w, h, xa, ya) && !foreground(self@, xa, ya));
                    assert(!eroded(self@, s@, w, h, gdx, gdy, x, y));
                } else {
                    assert forall|xb: int, yb: int| #[trigger] foreground(s@, xb, yb) implies (
                    !in_canvas(w, h, x + gdx - xb, y - gdy + yb) || foreground(
                        self@,
                        x + gdx - xb,
                        y - gdy + yb,
                    )) by {
                        let qx = x + gdx - xb;
                        let qy = y - gdy + yb;
                        if in_canvas(w, h, qx, qy) && !foreground(self@, qx, qy) {
                            assert(c.fg(qx, qy) == (in_canvas(w, h, qx, qy) && !self.fg(qx, qy)));
                            assert(foreground(c@, qx, qy));
                            assert(x == qx - gdx + xb && y == qy + gdy - yb);
                            assert(dilated(c@, s@, gdx, gdy, x, y));
                        }
                    }
                    assert(eroded(self@, s@, w, h, gdx, gdy, x, y));
                }
            }
        }
        r
    }

    /// The Manhattan-ball structuring element of radius `k`: a diamond on
    /// a (2k + 1) x (2k + 1) canvas whose pixel (x, y) is foreground iff
    /// `|x - k| + |y - k| <= k`. The center row is full; each step away
    /// from it shortens the run by one pixel on each side.
    #[verifier::loop_isolation(false)]
    pub fn l1_structuring(k: usize) -> (r: RLE)
        requires
            2 * k + 1 <= i32::MAX as usize,
        ensures
            r.wf(),
            r.spec_width() == 2 * k + 1,
            r.spec_height() == 2 * k + 1,
            runs_in_canvas(r@, 2 * k as int + 1, 2 * k as int + 1),
            forall|x: int, y: int|
                #[trigger] r.fg(x, y) == (dist(x, k as int) + dist(y, k as int) <= k as int),
    {
        let dim = 2 * k + 1;
        let mut runs: Vec<Run> = Vec::new();
        let mut i: usize = 0;
        while i < dim
            invariant
                i <= dim,
                dim == 2 * k + 1,
                canonical(runs@),
                runs_in_canvas(runs@, dim as int, dim as int),
                runs@.len() == i as int,
                forall|j: int| 0 <= j < runs@.len() ==> (#[trigger] runs@[j]).y == j as i32,
                forall|x: int, y: int|
                    #[trigger] foreground(runs@, x, y) == (0 <= y < i as int && dist(x, k as int)
                        + dist(y, k as int) <= k as int),
            decreases dim - i,
        {
            let d = if i >= k {
                i - k
            } else {
                k - i
            };
            let half = k - d;
            let run = Run {
                y: i as i32,
                x_start: (k - half) as i32,
                x_end: (k + half) as i32,
            };
            let ghost prev = runs@;
            runs.push(run);
            proof {
                lemma_fg_push(prev, run);
                assert forall|j: int| 0 <= j < runs@.len() implies run_valid(
                    #[trigger] runs@[j],
                ) by {
                    if j < prev.len() {
                        assert(runs@[j] == prev[j]);
                    } else {
                        assert(runs@[j] == run);
                    }
                }
                assert forall|j: int| 0 <= j && j + 1 < runs@.len() implies
                    crate::canon::canon_pair(#[trigger] runs@[j], runs@[j + 1]) by {
                    assert(runs@[j].y == j as i32);
                    assert(runs@[j + 1].y == (j + 1) as i32);
                }
                assert forall|j: int| 0 <= j < runs@.len() implies {
                    &&& 0 <= (#[trigger] runs@[j]).x_start
                    &&& runs@[j].x_end < dim as int
                    &&& 0 <= runs@[j].y < dim as int
                } by {
                    if j < prev.len() {
                        assert(runs@[j] == prev[j]);
                        assert(0 <= prev[j].x_start && prev[j].x_end < dim as int && 0 <= prev[j].y
                            < dim as int);
                    } else {
                        assert(runs@[j] == run);
                    }
                }
                assert forall|x: int, y: int|
                    #[trigger] foreground(runs@, x, y) == (0 <= y < i as int + 1 && dist(
                        x,
                        k as int,
                    ) + dist(y, k as int) <= k as int) by {
                    assert(foreground(runs@, x, y) == (foreground(prev, x, y) || covers(
                        run,
                        x,
                        y,
                    )));
                    assert(covers(run, x, y) == (y == i as int && dist(x, k as int) <= k as int
                        - dist(i as int, k as int)));
                }
            }
            i = i + 1;
        }
        let r = RLE { width: dim, height: dim, runs };
        proof {
            lemma_rle_view(r);
            assert forall|x: int, y: int|
                #[trigger] r.fg(x, y) == (dist(x, k as int) + dist(y, k as int) <= k as int) by {
                assert(foreground(r@, x, y) == (0 <= y < dim as int && dist(x, k as int) + dist(
                    y,
                    k as int,
                ) <= k as int));
            }
        }
        r
    }

    /// The Chebyshev-ball structuring element of radius `k`: the full
    /// (2k + 1) x (2k + 1) block, every pixel foreground.
    pub fn linf_structuring(k: usize) -> (r: RLE)
        requires
            2 * k + 1 <= i32::MAX as usize,
        ensures
            r.wf(),
            r.spec_width() == 2 * k + 1,
            r.spec_height() == 2 * k + 1,
            runs_in_canvas(r@, 2 * k as int + 1, 2 * k as int + 1),
            forall|x: int, y: int|
                #[trigger] r.fg(x, y) == in_canvas(2 * k as int + 1, 2 * k as int + 1, x, y),
    {
        let dim = 2 * k + 1;
        RLE::ones(dim, dim)
    }
}

impl PartialEq for RLE {
    fn eq(&self, other: &RLE) -> (r: bool) {
        proof {
            lemma_rle_view(*self);
            lemma_rle_view(*other);
        }
        self.width == other.width && self.height == other.height && runs_eq(
            &self.runs,
            &other.runs,
        )
    }
}

impl vstd::std_specs::cmp::PartialEqSpecImpl for RLE {
    open spec fn obeys_eq_spec() -> bool {
        true
    }

    open spec fn eq_spec(&self, other: &RLE) -> bool {
        self.spec_width() == other.spec_width() && self.spec_height() == other.spec_height()
            && self@ == other@
    }
}

/// Exec equality of two run lists.
fn runs_eq(a: &Vec<Run>, b: &Vec<Run>) -> (r: bool)
    ensures
        r == (a@ == b@),
{
    if a.len() != b.len() {
        proof {
            assert(a@ != b@);
        }
        return false;
    }
    let n = a.len();
    let mut i: usize = 0;
    while i < n
        invariant
            i <= n,
            n == a@.len(),
            a@.len() == b@.len(),
            forall|k: int| 0 <= k < i as int ==> a@[k] == b@[k],
        decreases n - i,
    {
        let ra = a[i];
        let rb = b[i];
        if ra.y != rb.y || ra.x_start != rb.x_start || ra.x_end != rb.x_end {
            proof {
                assert(a@[i as int] != b@[i as int]);
            }
            return false;
        }
        i = i + 1;
    }
    proof {
        assert(a@ =~= b@);
    }
    true
}

/// Distance between two integers.
pub open spec fn dist(a: int, b: int) -> int {
    if a >= b {
        a - b
    } else {
        b - a
    }
}

/// Pixel (x, y) lies in the Minkowski sum of runs `a` and `b`, with the
/// structuring-element center shifted by (dx, dy): the interval
/// `[a.x_start - dx + b.x_start, a.x_end - dx + b.x_end]` on row
/// `a.y + dy - b.y`.
pub open spec fn mink(a: Run, b: Run, dx: int, dy: int, x: int, y: int) -> bool {
    y == a.y + dy - b.y && a.x_start - dx + b.x_start <= x && x <= a.x_end - dx + b.x_end
}

/// Pixel (x, y) of the dilation of `a` by structuring element `s` with
/// center (dx, dy): some foreground pixel of `a`, displaced by some
/// foreground offset of `s` relative to the center, lands on it.
pub open spec fn dilated(a: Seq<Run>, s: Seq<Run>, dx: int, dy: int, x: int, y: int) -> bool {
    exists|xa: int, ya: int, xb: int, yb: int|
        #![trigger foreground(a, xa, ya), foreground(s, xb, yb)]
        foreground(a, xa, ya) && foreground(s, xb, yb) && x == xa - dx + xb && y == ya + dy - yb
}

/// Pixel (x, y) lies in the Minkowski sum of a pair of runs before the
/// (k, l) position of the candidate generation's double scan.
pub open spec fn mink_upto(
    a: Seq<Run>,
    s: Seq<Run>,
    dx: int,
    dy: int,
    k: int,
    l: int,
    x: int,
    y: int,
) -> bool {
    exists|ka: int, lb: int|
        #![trigger mink(a[ka], s[lb], dx, dy, x, y)]
        0 <= ka < a.len() && 0 <= lb < s.len() && (ka < k || (ka == k && lb < l)) && mink(
            a[ka],
            s[lb],
            dx,
            dy,
            x,
            y,
        )
}

/// The candidate-run coordinates of every pair fit the run coordinate
/// type.
pub open spec fn dilate_fits(a: Seq<Run>, s: Seq<Run>, dx: int, dy: int) -> bool {
    forall|k: int, l: int|
        #![trigger a[k], s[l]]
        0 <= k < a.len() && 0 <= l < s.len() ==> {
            &&& i32::MIN <= a[k].x_start - dx + s[l].x_start
            &&& a[k].x_end - dx + s[l].x_end <= i32::MAX
            &&& i32::MIN <= a[k].y + dy - s[l].y <= i32::MAX
        }
}

/// Pixel (x, y) of the erosion of `a` by structuring element `s` with
/// center (dx, dy) on a `w` x `h` canvas: every foreground offset of `s`
/// pulls (x, y) back to a position that is off the canvas or foreground
/// in `a`.
pub open spec fn eroded(
    a: Seq<Run>,
    s: Seq<Run>,
    w: int,
    h: int,
    dx: int,
    dy: int,
    x: int,
    y: int,
) -> bool {
    forall|xb: int, yb: int|
        #[trigger] foreground(s, xb, yb) ==> (!in_canvas(w, h, x + dx - xb, y - dy + yb)
            || foreground(a, x + dx - xb, y - dy + yb))
}

/// The Minkowski-sum run of two well-formed runs covers exactly the sums
/// of their pixels.
proof fn lemma_mink_pixels(a: Run, b: Run, dx: int, dy: int)
    requires
        run_valid(a),
        run_valid(b),
    ensures
        forall|x: int, y: int|
            #[trigger] mink(a, b, dx, dy, x, y) == (exists|xa: int, ya: int, xb: int, yb: int|
                #![trigger covers(a, xa, ya), covers(b, xb, yb)]
                covers(a, xa, ya) && covers(b, xb, yb) && x == xa - dx + xb && y == ya + dy
                    - yb),
{
    assert forall|x: int, y: int|
        #[trigger] mink(a, b, dx, dy, x, y) == (exists|xa: int, ya: int, xb: int, yb: int|
            #![trigger covers(a, xa, ya), covers(b, xb, yb)]
            covers(a, xa, ya) && covers(b, xb, yb) && x == xa - dx + xb && y == ya + dy
                - yb) by {
        if mink(a, b, dx, dy, x, y) {
            let xa = if a.x_start >= x + dx - b.x_end {
                a.x_start as int
            } else {
                x + dx - b.x_end
            };
            let xb = x + dx - xa;
            assert(covers(a, xa, a.y as int));
            assert(covers(b, xb, b.y as int));
            assert(x == xa - dx + xb && y == a.y + dy - b.y);
        }
        if exists|xa: int, ya: int, xb: int, yb: int|
            #![trigger covers(a, xa, ya), covers(b, xb, yb)]
            covers(a, xa, ya) && covers(b, xb, yb) && x == xa - dx + xb && y == ya + dy - yb {
            let (xa, ya, xb, yb) = choose|xa: int, ya: int, xb: int, yb: int|
                #![trigger covers(a, xa, ya), covers(b, xb, yb)]
                covers(a, xa, ya) && covers(b, xb, yb) && x == xa - dx + xb && y == ya + dy
                    - yb;
            assert(mink(a, b, dx, dy, x, y));
        }
    }
}

/// The dilation's pixel set is the union of the Minkowski sums of all run
/// pairs.
proof fn lemma_dilated_pairs(a: Seq<Run>, s: Seq<Run>, dx: int, dy: int)
    requires
        forall|i: int| 0 <= i < a.len() ==> run_valid(#[trigger] a[i]),
        forall|i: int| 0 <= i < s.len() ==> run_valid(#[trigger] s[i]),
    ensures
        forall|x: int, y: int|
            #[trigger] dilated(a, s, dx, dy, x, y) == mink_upto(
                a,
                s,
                dx,
                dy,
                a.len() as int,
                0,
                x,
                y,
            ),
{
    assert forall|x: int, y: int|
        #[trigger] dilated(a, s, dx, dy, x, y) == mink_upto(
            a,
            s,
            dx,
            dy,
            a.len() as int,
            0,
            x,
            y,
        ) by {
        if dilated(a, s, dx, dy, x, y) {
            let (xa, ya, xb, yb) = choose|xa: int, ya: int, xb: int, yb: int|
                #![trigger foreground(a, xa, ya), foreground(s, xb, yb)]
                foreground(a, xa, ya) && foreground(s, xb, yb) && x == xa - dx + xb && y == ya
                    + dy - yb;
            let ka = choose|ka: int| 0 <= ka < a.len() && covers(#[trigger] a[ka], xa, ya);
            let lb = choose|lb: int| 0 <= lb < s.len() && covers(#[trigger] s[lb], xb, yb);
            lemma_mink_pixels(a[ka], s[lb], dx, dy);
            assert(mink(a[ka], s[lb], dx, dy, x, y));
            assert(mink_upto(a, s, dx, dy, a.len() as int, 0, x, y));
        }
        if mink_upto(a, s, dx, dy, a.len() as int, 0, x, y) {
            let (ka, lb) = choose|ka: int, lb: int|
                #![trigger mink(a[ka], s[lb], dx, dy, x, y)]
                0 <= ka < a.len() && 0 <= lb < s.len() && (ka < a.len() as int || (ka
                    == a.len() as int && lb < 0)) && mink(a[ka], s[lb], dx, dy, x, y);
            lemma_mink_pixels(a[ka], s[lb], dx, dy);
            let (xa, ya, xb, yb) = choose|xa: int, ya: int, xb: int, yb: int|
                #![trigger covers(a[ka], xa, ya), covers(s[lb], xb, yb)]
                covers(a[ka], xa, ya) && covers(s[lb], xb, yb) && x == xa - dx + xb && y == ya
                    + dy - yb;
            assert(foreground(a, xa, ya));
            assert(foreground(s, xb, yb));
            assert(dilated(a, s, dx, dy, x, y));
        }
    }
}

/// Pushing a freshly closed run during the encode scan keeps the list
/// canonical and in-canvas, and adds exactly that run's pixels.
proof fn lemma_encode_push(prev: Seq<Run>, cur: Seq<Run>, run: Run, w: int, h: int, data: Seq<u8>)
    requires
        cur == prev.push(run),
        canonical(prev),
        run_valid(run),
        0 <= run.x_start,
        run.x_end < w,
        0 <= run.y < h,
        forall|k: int| 0 <= k < prev.len() ==> (#[trigger] prev[k]).y <= run.y,
        prev.len() > 0 && prev.last().y == run.y ==> prev.last().x_end + 2 <= run.x_start,
        runs_in_canvas(prev, w, h),
    ensures
        canonical(cur),
        runs_in_canvas(cur, w, h),
        forall|x: int, y: int|
            foreground(cur, x, y) == (foreground(prev, x, y) || covers(run, x, y)),
{
    lemma_fg_push(prev, run);
    assert forall|i: int| 0 <= i < cur.len() implies run_valid(#[trigger] cur[i]) by {
        if i < prev.len() {
            assert(cur[i] == prev[i]);
        } else {
            assert(cur[i] == run);
        }
    }
    assert forall|i: int| 0 <= i < cur.len() implies {
        &&& 0 <= #[trigger] cur[i].x_start
        &&& cur[i].x_end < w
        &&& 0 <= cur[i].y < h
    } by {
        if i < prev.len() {
            assert(cur[i] == prev[i]);
            assert(0 <= prev[i].x_start && prev[i].x_end < w && 0 <= prev[i].y < h);
        } else {
            assert(cur[i] == run);
        }
    }
    assert forall|i: int| 0 <= i && i + 1 < cur.len() implies crate::canon::canon_pair(
        #[trigger] cur[i],
        cur[i + 1],
    ) by {
        if i + 1 < prev.len() {
            assert(cur[i] == prev[i] && cur[i + 1] == prev[i + 1]);
            assert(crate::canon::canon_pair(prev[i], prev[i + 1]));
        } else {
            assert(cur[i] == prev.last() && cur[i + 1] == run);
        }
    }
}

} // verus!
