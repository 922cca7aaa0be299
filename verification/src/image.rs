//! The pixel-buffer container: width, height and a row-major byte buffer.
//! Any nonzero byte is a foreground pixel.

use vstd::prelude::*;

verus! {

/// A `w` x `h` binary image as a row-major byte buffer of length `w * h`.
/// Pixel (x, y) sits at index `y * w + x`; any nonzero byte is foreground.
#[derive(Debug, Clone)]
pub struct Image {
    w: usize,
    h: usize,
    data: Vec<u8>,
}

impl View for Image {
    type V = Seq<u8>;

    closed spec fn view(&self) -> Seq<u8> {
        self.data@
    }
}

impl Image {
    /// Width of the image.
    pub closed spec fn spec_w(&self) -> usize {
        self.w
    }

    /// Height of the image.
    pub closed spec fn spec_h(&self) -> usize {
        self.h
    }

    /// The buffer length agrees with the dimensions.
    pub open spec fn wf(&self) -> bool {
        self@.len() == self.spec_w() * self.spec_h()
    }

    /// Wrap a row-major byte buffer as an image of the given dimensions.
    pub fn new(w: usize, h: usize, data: Vec<u8>) -> (r: Image)
        ensures
            r.spec_w() == w,
            r.spec_h() == h,
            r@ == data@,
    {
        Image { w, h, data }
    }

    /// An all-background image: a zero-filled buffer of the given dimensions.
    pub fn empty(w: usize, h: usize) -> (r: Image)
        requires
            w * h <= usize::MAX,
        ensures
            r.spec_w() == w,
            r.spec_h() == h,
            r.wf(),
            forall|i: int| 0 <= i < r@.len() ==> r@[i] == 0,
    {
        let n = w * h;
        Image { w, h, data: zero_buf(n) }
    }

    /// Image width.
    pub fn w(&self) -> (r: usize)
        ensures
            r == self.spec_w(),
    {
        self.w
    }

    /// Image height.
    pub fn h(&self) -> (r: usize)
        ensures
            r == self.spec_h(),
    {
        self.h
    }

    /// The underlying byte buffer.
    pub fn data(&self) -> (r: &[u8])
        ensures
            r@ == self@,
    {
        self.data.as_slice()
    }

    /// Take the underlying byte buffer out of the image.
    pub fn into_raw(self) -> (r: Vec<u8>)
        ensures
            r@ == self@,
    {
        self.data
    }

    /// Flip every pixel in place: nonzero bytes become 0, zero bytes become 1.
    pub fn flip_bits_mut(&mut self)
        ensures
            final(self).spec_w() == old(self).spec_w(),
            final(self).spec_h() == old(self).spec_h(),
            final(self)@.len() == old(self)@.len(),
            forall|i: int|
                0 <= i < old(self)@.len() ==> final(self)@[i] == (if old(self)@[i] > 0 {
                    0u8
                } else {
                    1u8
                }),
    {
        let n = self.data.len();
        let mut i: usize = 0;
        while i < n
            invariant
                i <= n,
                n == self.data@.len(),
                self.w == old(self).spec_w(),
                self.h == old(self).spec_h(),
                forall|k: int|
                    0 <= k < i as int ==> self.data@[k] == (if old(self)@[k] > 0 {
                        0u8
                    } else {
                        1u8
                    }),
                forall|k: int| i as int <= k < n as int ==> self.data@[k] == old(self)@[k],
            decreases n - i,
        {
            let b = self.data[i];
            self.data[i] = if b > 0 {
                0
            } else {
                1
            };
            i = i + 1;
        }
    }

    /// Flip every pixel: nonzero bytes become 0, zero bytes become 1.
    pub fn flip_bits(self) -> (r: Image)
        ensures
            r.spec_w() == self.spec_w(),
            r.spec_h() == self.spec_h(),
            r@.len() == self@.len(),
            forall|i: int|
                0 <= i < self@.len() ==> r@[i] == (if self@[i] > 0 {
                    0u8
                } else {
                    1u8
                }),
    {
        let mut img = self;
        img.flip_bits_mut();
        img
    }
}

impl PartialEq for Image {
    fn eq(&self, other: &Image) -> (r: bool) {
        let r = self.w == other.w && self.h == other.h && bytes_eq(&self.data, &other.data);
        proof {
            if self@ =~= other@ {
                assert(self@ == other@);
            }
        }
        r
    }
}

impl vstd::std_specs::cmp::PartialEqSpecImpl for Image {
    open spec fn obeys_eq_spec() -> bool {
        true
    }

    open spec fn eq_spec(&self, other: &Image) -> bool {
        self.spec_w() == other.spec_w() && self.spec_h() == other.spec_h() && self@ == other@
    }
}

/// A zero-filled byte buffer of the given length.
pub(crate) fn zero_buf(n: usize) -> (v: Vec<u8>)
    ensures
        v@.len() == n,
        forall|i: int| 0 <= i < n as int ==> v@[i] == 0,
{
    let mut v: Vec<u8> = Vec::new();
    let mut i: usize = 0;
    while i < n
        invariant
            i <= n,
            v@.len() == i as int,
            forall|k: int| 0 <= k < i as int ==> v@[k] == 0,
        decreases n - i,
    {
        v.push(0);
        i = i + 1;
    }
    v
}

/// Exec equality of two byte buffers.
fn bytes_eq(a: &Vec<u8>, b: &Vec<u8>) -> (r: bool)
    ensures
        r == (a@ == b@),
{
    if a.len() != b.len() {
        proof {
            assert(a@ != b@);
        }
        return false;
    }
    let n = a.len();
    let mut i: usize = 0;
    while i < n
        invariant
            i <= n,
            n == a@.len(),
            a@.len() == b@.len(),
            forall|k: int| 0 <= k < i as int ==> a@[k] == b@[k],
        decreases n - i,
    {
        if a[i] != b[i] {
            proof {
                assert(a@[i as int] != b@[i as int]);
            }
            return false;
        }
        i = i + 1;
    }
    proof {
        assert(a@ =~= b@);
    }
    true
}

} // verus!
