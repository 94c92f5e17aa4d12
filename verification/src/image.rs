use vstd::prelude::*;

use crate::error::KakeraError;

verus! {

/// Byte length of a tightly packed RGBA8 image of `width x height` pixels.
pub open spec fn rgba_len(width: int, height: int) -> int {
    width * height * 4
}

/// Byte offset of pixel `(x, y)` in a tightly packed RGBA8 image `width` pixels wide.
pub open spec fn pixel_offset(width: int, x: int, y: int) -> int {
    (y * width + x) * 4
}

/// Both sides are non-zero and `len` is exactly the packed RGBA8 length.
pub open spec fn well_sized(width: int, height: int, len: int) -> bool {
    &&& width > 0
    &&& height > 0
    &&& len == rgba_len(width, height)
}

/// The four bytes of pixel `(x, y)` in a packed buffer.
pub open spec fn pixel_at(bytes: Seq<u8>, width: int, x: int, y: int) -> (u8, u8, u8, u8) {
    let o = pixel_offset(width, x, y);
    (bytes[o], bytes[o + 1], bytes[o + 2], bytes[o + 3])
}

/// Every pixel of an in-range coordinate lies wholly inside the buffer, and
/// distinct pixels occupy disjoint byte ranges.
pub proof fn lemma_pixel_in_bounds(width: int, height: int, x: int, y: int)
    requires
        0 <= x < width,
        0 <= y < height,
    ensures
        0 <= pixel_offset(width, x, y),
        pixel_offset(width, x, y) + 4 <= rgba_len(width, height),
{
    assert(y * width + x < width * height) by (nonlinear_arith)
        requires
            0 <= x < width,
            0 <= y < height,
    ;
    assert(0 <= y * width) by (nonlinear_arith)
        requires
            0 <= y,
            0 < width,
    ;
}

/// The intermediate products of a pixel offset are no larger than the offset.
pub proof fn lemma_index_fits(width: int, x: int, y: int)
    requires
        0 <= x < width,
        0 <= y,
    ensures
        0 <= y * width <= y * width + x,
        y * width + x <= pixel_offset(width, x, y),
{
    assert(0 <= y * width) by (nonlinear_arith)
        requires
            0 <= y,
            0 < width,
    ;
}

/// Two in-range pixels with different coordinates never share a byte.
pub proof fn lemma_pixels_disjoint(width: int, x1: int, y1: int, x2: int, y2: int)
    requires
        0 <= x1 < width,
        0 <= x2 < width,
        0 <= y1,
        0 <= y2,
        x1 != x2 || y1 != y2,
    ensures
        pixel_offset(width, x1, y1) + 4 <= pixel_offset(width, x2, y2) || pixel_offset(
            width,
            x2,
            y2,
        ) + 4 <= pixel_offset(width, x1, y1),
{
    if y1 == y2 {
    } else if y1 < y2 {
        assert(y1 * width + width <= y2 * width) by (nonlinear_arith)
            requires
                y1 < y2,
                0 < width,
        ;
    } else {
        assert(y2 * width + width <= y1 * width) by (nonlinear_arith)
            requires
                y2 < y1,
                0 < width,
        ;
    }
}

/// Packed RGBA8 byte length of a `width x height` image, if it fits in `u128`.
pub fn rgba_byte_len(width: u128, height: u128) -> (r: Option<u128>)
    ensures
        r == (if width * height * 4 <= u128::MAX {
            Some((width * height * 4) as u128)
        } else {
            None::<u128>
        }),
{
    match width.checked_mul(height) {
        Some(wh) => {
            assert(wh * 4 == width * height * 4);
            wh.checked_mul(4)
        },
        None => {
            assert(width * height * 4 > u128::MAX) by (nonlinear_arith)
                requires
                    width * height > u128::MAX,
            ;
            None
        },
    }
}

/// The error for an image too large to address.
pub fn image_too_large(width: u128, height: u128) -> (r: KakeraError)
    ensures
        r == (KakeraError::ImageTooLarge { width, height }),
{
    KakeraError::ImageTooLarge { width, height }
}

/// Byte length required for a `width x height` image, or why there is none.
pub open spec fn spec_expected_len(width: u32, height: u32) -> Result<usize, KakeraError> {
    if width == 0 || height == 0 {
        Err(KakeraError::ZeroDimension { width, height })
    } else if rgba_len(width as int, height as int) <= usize::MAX {
        Ok(rgba_len(width as int, height as int) as usize)
    } else {
        Err(KakeraError::ImageTooLarge { width: width as u128, height: height as u128 })
    }
}

/// Buffer length of an image: both sides must be non-zero, and then the
/// length is four bytes per pixel whenever that fits in `usize`.
pub proof fn law_expected_len(width: u32, height: u32)
    ensures
        (width == 0 || height == 0) ==> spec_expected_len(width, height) == Err::<usize, KakeraError>(
            KakeraError::ZeroDimension { width, height },
        ),
        spec_expected_len(width, height) matches Ok(n) ==> width > 0 && height > 0 && n == width
            * height * 4,
        width > 0 && height > 0 && width * height * 4 <= usize::MAX ==> spec_expected_len(
            width,
            height,
        ) is Ok,
{
}

/// Byte length required for a `width x height` image: zero sides and
/// lengths beyond `usize` are refused.
pub fn expected_len(width: u32, height: u32) -> (r: Result<usize, KakeraError>)
    ensures
        r == spec_expected_len(width, height),
{
    if width == 0 || height == 0 {
        return Err(KakeraError::ZeroDimension { width, height });
    }
    let w = width as u128;
    let h = height as u128;
    assert(w * h * 4 <= u128::MAX) by (nonlinear_arith)
        requires
            w <= u32::MAX,
            h <= u32::MAX,
    ;
    let bytes = match rgba_byte_len(w, h) {
        Some(b) => b,
        None => return Err(image_too_large(w, h)),
    };
    if bytes <= usize::MAX as u128 {
        Ok(bytes as usize)
    } else {
        Err(image_too_large(w, h))
    }
}

/// Owned, tightly packed RGBA8 image (no row padding).
#[derive(Debug, PartialEq, Eq)]
pub struct RgbaImage {
    width: u32,
    height: u32,
    data: Vec<u8>,
}

impl Clone for RgbaImage {
    fn clone(&self) -> (r: RgbaImage)
        ensures
            r.spec_width() == self.spec_width(),
            r.spec_height() == self.spec_height(),
            r.bytes() == self.bytes(),
    {
        proof {
            use_type_invariant(self);
        }
        let data = self.data.clone();
        proof {
            assert forall|i: int| 0 <= i < data@.len() implies data@[i] == self.data@[i] by {
                assert(cloned::<u8>(self.data[i], data[i]));
            }
            assert(data@ =~= self.data@);
        }
        RgbaImage { width: self.width, height: self.height, data }
    }
}

impl RgbaImage {
    #[verifier::type_invariant]
    pub closed spec fn inv(self) -> bool {
        well_sized(self.width as int, self.height as int, self.data@.len() as int)
    }

    /// Width in pixels.
    pub closed spec fn spec_width(self) -> u32 {
        self.width
    }

    /// Height in pixels.
    pub closed spec fn spec_height(self) -> u32 {
        self.height
    }

    /// The packed RGBA8 bytes, row-major.
    pub closed spec fn bytes(self) -> Seq<u8> {
        self.data@
    }

    /// The type invariant, in terms of the public model.
    pub proof fn lemma_inv(self)
        requires
            self.inv(),
        ensures
            well_sized(self.spec_width() as int, self.spec_height() as int, self.bytes().len() as int),
    {
    }

    /// `data` must be exactly `width * height * 4` bytes, row-major RGBA8.
    pub fn new(width: u32, height: u32, data: Vec<u8>) -> (r: Result<RgbaImage, KakeraError>)
        ensures
            spec_expected_len(width, height) is Err ==> r == Err::<RgbaImage, KakeraError>(
                spec_expected_len(width, height)->Err_0,
            ),
            spec_expected_len(width, height) is Ok && data@.len() != rgba_len(width as int, height as int)
                ==> r == Err::<RgbaImage, KakeraError>(
                KakeraError::BufferSizeMismatch {
                    width,
                    height,
                    expected: spec_expected_len(width, height)->Ok_0,
                    actual: data@.len() as usize,
                },
            ),
            well_sized(width as int, height as int, data@.len() as int) ==> r is Ok,
            r matches Ok(img) ==> img.spec_width() == width && img.spec_height() == height
                && img.bytes() == data@,
    {
        let actual = data.len();
        let expected = match expected_len(width, height) {
            Ok(e) => e,
            Err(e) => return Err(e),
        };
        if actual != expected {
            return Err(KakeraError::BufferSizeMismatch { width, height, expected, actual });
        }
        Ok(RgbaImage { width, height, data })
    }

    /// Fully transparent canvas (all zero bytes). Besides the size checks of
    /// [`RgbaImage::new`], an allocation the system refuses is reported as
    /// `ImageTooLarge`.
    pub fn zeroed(width: u32, height: u32) -> (r: Result<RgbaImage, KakeraError>)
        ensures
            spec_expected_len(width, height) is Err ==> r == Err::<RgbaImage, KakeraError>(
                spec_expected_len(width, height)->Err_0,
            ),
            r is Err ==> spec_expected_len(width, height) is Err || r == Err::<
                RgbaImage,
                KakeraError,
            >(KakeraError::ImageTooLarge { width: width as u128, height: height as u128 }),
            r matches Ok(img) ==> img.spec_width() == width && img.spec_height() == height
                && img.bytes().len() == rgba_len(width as int, height as int) && forall|i: int|
                0 <= i < img.bytes().len() ==> #[trigger] img.bytes()[i] == 0u8,
    {
        let expected = match expected_len(width, height) {
            Ok(e) => e,
            Err(e) => return Err(e),
        };
        let mut data: Vec<u8> = Vec::new();
        if data.try_reserve(expected).is_err() {
            return Err(image_too_large(width as u128, height as u128));
        }
        let mut i: usize = 0;
        while i < expected
            invariant
                i <= expected,
                data@.len() == i,
                forall|j: int| 0 <= j < i ==> #[trigger] data@[j] == 0u8,
            decreases expected - i,
        {
            data.push(0u8);
            i = i + 1;
        }
        Ok(RgbaImage { width, height, data })
    }

    pub fn width(&self) -> (r: u32)
        ensures
            r == self.spec_width(),
            r > 0,
    {
        proof {
            use_type_invariant(self);
        }
        self.width
    }

    pub fn height(&self) -> (r: u32)
        ensures
            r == self.spec_height(),
            r > 0,
    {
        proof {
            use_type_invariant(self);
        }
        self.height
    }

    /// The packed RGBA8 bytes.
    pub fn as_bytes(&self) -> (r: &[u8])
        ensures
            r@ == self.bytes(),
    {
        self.data.as_slice()
    }

    /// Gives up the image, keeping its bytes.
    pub fn into_bytes(self) -> (r: Vec<u8>)
        ensures
            r@ == self.bytes(),
    {
        self.data
    }

    /// A borrowed view of the same pixels.
    pub fn view(&self) -> (r: RgbaView<'_>)
        ensures
            r.spec_width() == self.spec_width(),
            r.spec_height() == self.spec_height(),
            r.bytes() == self.bytes(),
    {
        proof {
            use_type_invariant(self);
        }
        RgbaView { width: self.width, height: self.height, data: self.data.as_slice() }
    }

    /// RGBA at `(x, y)`.
    pub fn pixel(&self, x: u32, y: u32) -> (r: (u8, u8, u8, u8))
        requires
            x < self.spec_width(),
            y < self.spec_height(),
        ensures
            r == pixel_at(self.bytes(), self.spec_width() as int, x as int, y as int),
    {
        proof {
            use_type_invariant(self);
            lemma_pixel_in_bounds(self.width as int, self.height as int, x as int, y as int);
            lemma_index_fits(self.width as int, x as int, y as int);
        }
        let _len = self.data.len();
        let idx = ((y as usize) * (self.width as usize) + (x as usize)) * 4;
        (self.data[idx], self.data[idx + 1], self.data[idx + 2], self.data[idx + 3])
    }

    /// Overwrites the four bytes of pixel `(x, y)`; every other byte stays.
    pub fn put_pixel(&mut self, x: u32, y: u32, px: (u8, u8, u8, u8))
        requires
            x < old(self).spec_width(),
            y < old(self).spec_height(),
        ensures
            final(self).spec_width() == old(self).spec_width(),
            final(self).spec_height() == old(self).spec_height(),
            final(self).bytes() == old(self).bytes().update(
                pixel_offset(old(self).spec_width() as int, x as int, y as int),
                px.0,
            ).update(pixel_offset(old(self).spec_width() as int, x as int, y as int) + 1, px.1).update(
                pixel_offset(old(self).spec_width() as int, x as int, y as int) + 2,
                px.2,
            ).update(pixel_offset(old(self).spec_width() as int, x as int, y as int) + 3, px.3),
    {
        proof {
            use_type_invariant(&*self);
            lemma_pixel_in_bounds(self.width as int, self.height as int, x as int, y as int);
            lemma_index_fits(self.width as int, x as int, y as int);
        }
        let _len = self.data.len();
        let idx = ((y as usize) * (self.width as usize) + (x as usize)) * 4;
        self.data[idx] = px.0;
        self.data[idx + 1] = px.1;
        self.data[idx + 2] = px.2;
        self.data[idx + 3] = px.3;
    }
}

/// Borrowed view over a tightly packed RGBA8 buffer.
#[derive(Clone, Copy, Debug)]
pub struct RgbaView<'a> {
    width: u32,
    height: u32,
    data: &'a [u8],
}

impl<'a> RgbaView<'a> {
    #[verifier::type_invariant]
    pub closed spec fn inv(self) -> bool {
        well_sized(self.width as int, self.height as int, self.data@.len() as int)
    }

    /// Width in pixels.
    pub closed spec fn spec_width(self) -> u32 {
        self.width
    }

    /// Height in pixels.
    pub closed spec fn spec_height(self) -> u32 {
        self.height
    }

    /// The packed RGBA8 bytes, row-major.
    pub closed spec fn bytes(self) -> Seq<u8> {
        self.data@
    }

    /// The type invariant, in terms of the public model.
    pub proof fn lemma_inv(self)
        requires
            self.inv(),
        ensures
            well_sized(self.spec_width() as int, self.spec_height() as int, self.bytes().len() as int),
    {
    }

    /// `data` must be exactly `width * height * 4` bytes, row-major RGBA8.
    pub fn new(width: u32, height: u32, data: &'a [u8]) -> (r: Result<RgbaView<'a>, KakeraError>)
        ensures
            spec_expected_len(width, height) is Err ==> r == Err::<RgbaView<'a>, KakeraError>(
                spec_expected_len(width, height)->Err_0,
            ),
            spec_expected_len(width, height) is Ok && data@.len() != rgba_len(width as int, height as int)
                ==> r == Err::<RgbaView<'a>, KakeraError>(
                KakeraError::BufferSizeMismatch {
                    width,
                    height,
                    expected: spec_expected_len(width, height)->Ok_0,
                    actual: data@.len() as usize,
                },
            ),
            well_sized(width as int, height as int, data@.len() as int) ==> r is Ok,
            r matches Ok(v) ==> v.spec_width() == width && v.spec_height() == height && v.bytes()
                == data@,
    {
        let actual = data.len();
        let expected = match expected_len(width, height) {
            Ok(e) => e,
            Err(e) => return Err(e),
        };
        if actual != expected {
            return Err(KakeraError::BufferSizeMismatch { width, height, expected, actual });
        }
        Ok(RgbaView { width, height, data })
    }

    pub fn width(&self) -> (r: u32)
        ensures
            r == self.spec_width(),
            r > 0,
    {
        proof {
            use_type_invariant(self);
        }
        self.width
    }

    pub fn height(&self) -> (r: u32)
        ensures
            r == self.spec_height(),
            r > 0,
    {
        proof {
            use_type_invariant(self);
        }
        self.height
    }

    /// RGBA at `(x, y)`; the caller keeps `x < width` and `y < height`.
    pub fn pixel(&self, x: u32, y: u32) -> (r: (u8, u8, u8, u8))
        requires
            x < self.spec_width(),
            y < self.spec_height(),
        ensures
            r == pixel_at(self.bytes(), self.spec_width() as int, x as int, y as int),
    {
        proof {
            use_type_invariant(self);
            lemma_pixel_in_bounds(self.width as int, self.height as int, x as int, y as int);
            lemma_index_fits(self.width as int, x as int, y as int);
        }
        let _len = self.data.len();
        let idx = ((y as usize) * (self.width as usize) + (x as usize)) * 4;
        (self.data[idx], self.data[idx + 1], self.data[idx + 2], self.data[idx + 3])
    }
}


/// Frames a rendered image for a byte channel: width and height as
/// little-endian `u32`, then the RGBA8 bytes. The receiver recovers both
/// dimensions from the first eight bytes.
pub fn render_payload(img: RgbaImage) -> (r: Vec<u8>)
    ensures
        r@ == vstd::bytes::spec_u32_to_le_bytes(img.spec_width()) + vstd::bytes::spec_u32_to_le_bytes(
            img.spec_height(),
        ) + img.bytes(),
        r@.len() == 8 + rgba_len(img.spec_width() as int, img.spec_height() as int),
        vstd::bytes::spec_u32_from_le_bytes(r@.subrange(0, 4)) == img.spec_width(),
        vstd::bytes::spec_u32_from_le_bytes(r@.subrange(4, 8)) == img.spec_height(),
        r@.subrange(8, r@.len() as int) == img.bytes(),
{
    proof {
        use_type_invariant(&img);
        vstd::bytes::lemma_auto_spec_u32_to_from_le_bytes();
    }
    let w = img.width();
    let h = img.height();
    let mut out = vstd::bytes::u32_to_le_bytes(w);
    let mut hb = vstd::bytes::u32_to_le_bytes(h);
    out.append(&mut hb);
    let mut px = img.into_bytes();
    out.append(&mut px);
    proof {
        let wb = vstd::bytes::spec_u32_to_le_bytes(w);
        let hs = vstd::bytes::spec_u32_to_le_bytes(h);
        assert(out@.subrange(0, 4) =~= wb);
        assert(out@.subrange(4, 8) =~= hs);
        assert(out@.subrange(8, out@.len() as int) =~= img.bytes());
    }
    out
}
} // verus!
