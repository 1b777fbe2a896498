//! Electron-event strips: run-length coded pixel skips, each followed (unless
//! it is the continuation value) by sub-pixel bits and one counted event.
use crate::bitstream::{bits_at, BitStream};
use crate::image::{
    image_counts, image_height, image_width, image_wf, lemma_flat_index_split, CountImage,
};
use vstd::arithmetic::power2::*;
use vstd::bits::*;
use vstd::prelude::*;

verus! {

/// The container's compression code for 8-bit skip codes.
pub const COMPRESSION_EER_8BIT: u32 = 65000;

/// The container's compression code for 7-bit skip codes.
pub const COMPRESSION_EER_7BIT: u32 = 65001;

/// The container's compression code whose widths come from three custom fields.
pub const COMPRESSION_EER_VARIABLE: u32 = 65002;

/// Custom container field: width of the skip code.
pub const TAG_POS_SKIP_BITS: u16 = 65007;

/// Custom container field: horizontal sub-pixel bits.
pub const TAG_HORZ_SUB_BITS: u16 = 65008;

/// Custom container field: vertical sub-pixel bits.
pub const TAG_VERT_SUB_BITS: u16 = 65009;

/// Custom container field that holds the acquisition's XML metadata.
pub const TAG_XML_DATA: u16 = 65001;

/// Widths of the fields of one frame's event stream.
#[derive(Debug, Clone, Copy, PartialEq, Eq, Structural)]
pub struct CompressionParams {
    pub code_len: u32,
    pub horz_sub_bits: u32,
    pub vert_sub_bits: u32,
}

/// What can go wrong while decoding event frames.
#[derive(Debug, Clone, Copy, PartialEq, Eq, Structural)]
pub enum EerError {
    /// The frame's compression code is none of the three event codings.
    UnsupportedCompression(u32),
    /// The variable coding was named but its three width fields were not given.
    MissingCompressionFields,
    /// A skip code outside 1..=32 bits, or sub-pixel fields over 32 bits.
    InvalidParams,
    /// The strip offset and strip size arrays differ in length.
    StripCountMismatch,
    /// The strip with this index ran out of bits before its last pixel.
    TruncatedStrip(usize),
    /// A frame added to a sum has another number of pixels than the sum.
    FrameSizeMismatch,
    /// Every 0th frame was asked for.
    ZeroStride,
}

/// The voxel type of an event-count image.
#[derive(Debug, Clone, Copy, PartialEq, Eq, Structural)]
pub enum VoxelType {
    UnsignedInt16,
}

/// Where one strip's bytes lie in the file.
#[derive(Debug, Clone, Copy, PartialEq, Eq, Structural)]
pub struct StripInfo {
    pub offset: u64,
    pub size: u64,
}

/// Widths with which the decoder can work.
pub open spec fn params_ok(p: CompressionParams) -> bool {
    &&& 1 <= p.code_len <= 32
    &&& p.horz_sub_bits <= 32
    &&& p.vert_sub_bits <= 32
}

/// The largest skip code of `code_len` bits: it continues a run and marks no event.
pub open spec fn sentinel(code_len: nat) -> nat {
    (pow2(code_len) - 1) as nat
}

/// One more count, wrapping at 2^16.
pub open spec fn bump(x: u16) -> u16 {
    if x == u16::MAX {
        0
    } else {
        (x + 1) as u16
    }
}

/// The rest of a strip's decoding: `bit` bits of `data` are consumed and the
/// cursor stands `pos` pixels past pixel `start`; the strip ends before
/// pixel `end`. `None` where the strip runs out of bits before its end.
pub open spec fn decode_strip_from(
    img: Seq<u16>,
    data: Seq<u8>,
    p: CompressionParams,
    bit: nat,
    pos: nat,
    start: nat,
    end: nat,
) -> Option<Seq<u16>>
    decreases 8 * data.len() - bit,
{
    if start + pos >= end {
        Some(img)
    } else if !params_ok(p) || bit + p.code_len > 8 * data.len() {
        None
    } else {
        let skip = bits_at(data, bit, p.code_len as nat);
        let bit1 = bit + p.code_len as nat;
        let pos1 = pos + skip;
        if start + pos1 >= end {
            Some(img)
        } else if skip == sentinel(p.code_len as nat) {
            decode_strip_from(img, data, p, bit1, pos1, start, end)
        } else if bit1 + p.vert_sub_bits + p.horz_sub_bits > 8 * data.len() {
            None
        } else {
            let at = (start + pos1) as int;
            decode_strip_from(
                img.update(at, bump(img[at])),
                data,
                p,
(bit1 + p.vert_sub_bits + p.horz_sub_bits) as nat,
                pos1 + 1,
                start,
                end,
            )
        }
    }
}

/// A strip decoded from its first bit and first pixel. A strip of no bytes
/// holds no events.
pub open spec fn decode_strip_spec(
    img: Seq<u16>,
    data: Seq<u8>,
    p: CompressionParams,
    start: nat,
    end: nat,
) -> Option<Seq<u16>> {
    if data.len() == 0 {
        Some(img)
    } else {
        decode_strip_from(img, data, p, 0, 0, start, end)
    }
}

fn sentinel_of(code_len: u32) -> (r: u64)
    requires
        1 <= code_len <= 32,
    ensures
        r as nat == sentinel(code_len as nat),
{
    proof {
        lemma_u64_pow2_no_overflow(code_len as nat);
        lemma_pow2_pos(code_len as nat);
        lemma_u64_shl_is_mul(1, code_len as u64);
    }
    (1u64 << (code_len as u64)) - 1
}

/// Decodes one strip into `image`, adding one count at each event's pixel;
/// pixel `i` is column `i % width` of row `i / width`. Returns false where
/// the strip runs out of bits before its last pixel.
pub fn decode_strip(
    image: &mut CountImage,
    data: &[u8],
    params: &CompressionParams,
    start: usize,
    end: usize,
) -> (r: bool)
    requires
        params_ok(*params),
        image_wf(*old(image)),
        end <= image_counts(*old(image)).len(),
    ensures
        image_wf(*final(image)),
        image_height(*final(image)) == image_height(*old(image)),
        image_width(*final(image)) == image_width(*old(image)),
        r == decode_strip_spec(image_counts(*old(image)), data@, *params, start as nat, end as nat) is Some,
        r ==> decode_strip_spec(image_counts(*old(image)), data@, *params, start as nat, end as nat)
            == Some(image_counts(*final(image))),
{
    let ghost img0 = image_counts(*image);
    let ghost h0 = image_height(*image);
    let ghost w0 = image_width(*image);
    let ghost goal = decode_strip_spec(img0, data@, *params, start as nat, end as nat);
    let (height, width) = image.dim();
    let code_len = params.code_len;
    let sentinel_code = sentinel_of(code_len);
    let mut bs = BitStream::new(data);
    let mut pos: usize = 0;
    if data.len() == 0 || start >= end {
        return true;
    }
    while pos < end - start
        invariant
            params_ok(*params),
            img0 == image_counts(*old(image)),
            h0 == image_height(*old(image)),
            w0 == image_width(*old(image)),
            goal == decode_strip_spec(img0, data@, *params, start as nat, end as nat),
            code_len == params.code_len,
            sentinel_code as nat == sentinel(code_len as nat),
            image_wf(*image),
            image_height(*image) == h0 == height,
            image_width(*image) == w0 == width,
            start < end <= image_counts(*image).len(),
            bs.wf(),
            bs.data() == data@,
            start + pos <= end,
            decode_strip_from(
                image_counts(*image),
                data@,
                *params,
                bs.pos(),
                pos as nat,
                start as nat,
                end as nat,
            ) == goal,
        decreases 8 * data@.len() - bs.pos(),
    {
        if !bs.has_bits(code_len) {
            return false;
        }
        let skip = bs.get_bits(code_len);
        proof {
            lemma_pow2_pos(code_len as nat);
        }
        if skip as usize >= end - start - pos {
            return true;
        }
        pos = pos + skip as usize;
        if (skip as u64) < sentinel_code {
            if !bs.has_bits(params.vert_sub_bits) {
                return false;
            }
            let _vert_sub = bs.get_bits(params.vert_sub_bits);
            if !bs.has_bits(params.horz_sub_bits) {
                return false;
            }
            let _horz_sub = bs.get_bits(params.horz_sub_bits);
            let at = start + pos;
            proof {
                if width == 0 {
                    assert(height as nat * width as nat == 0) by (nonlinear_arith)
                        requires
                            width == 0,
                    ;
                }
            }
            let row = at / width;
            let col = at % width;
            proof {
                lemma_flat_index_split(at as nat, width as nat);
                assert(row < height) by (nonlinear_arith)
                    requires
                        row * width + col == at,
                        at < height * width,
                        col >= 0,
                        width > 0,
                {
                    if row >= height {
                        assert(row * width >= height * width);
                    }
                }
            }
            let count = image.get(row, col);
            image.set(row, col, count.wrapping_add(1));
            pos = pos + 1;
        }
    }
    true
}

/// The widths that a frame's compression code stands for. `custom` holds
/// the three custom fields of the frame (skip width, horizontal and vertical
/// sub-pixel bits) where the container has them.
pub open spec fn params_for(compression: u32, custom: Option<CompressionParams>) -> Result<
    CompressionParams,
    EerError,
> {
    if compression == COMPRESSION_EER_8BIT {
        Ok(CompressionParams { code_len: 8, horz_sub_bits: 2, vert_sub_bits: 2 })
    } else if compression == COMPRESSION_EER_7BIT {
        Ok(CompressionParams { code_len: 7, horz_sub_bits: 2, vert_sub_bits: 2 })
    } else if compression == COMPRESSION_EER_VARIABLE {
        match custom {
            Some(c) => Ok(c),
            None => Err(EerError::MissingCompressionFields),
        }
    } else {
        Err(EerError::UnsupportedCompression(compression))
    }
}

/// Whether a compression code takes its widths from the custom fields.
pub fn needs_custom_fields(compression: u32) -> (r: bool)
    ensures
        r == (compression == COMPRESSION_EER_VARIABLE),
{
    compression == COMPRESSION_EER_VARIABLE
}

/// Resolves a frame's compression code to the widths of its fields.
pub fn get_compression_params(compression: u32, custom: Option<CompressionParams>) -> (r: Result<
    CompressionParams,
    EerError,
>)
    ensures
        r == params_for(compression, custom),
{
    if compression == COMPRESSION_EER_8BIT {
        Ok(CompressionParams { code_len: 8, horz_sub_bits: 2, vert_sub_bits: 2 })
    } else if compression == COMPRESSION_EER_7BIT {
        Ok(CompressionParams { code_len: 7, horz_sub_bits: 2, vert_sub_bits: 2 })
    } else if compression == COMPRESSION_EER_VARIABLE {
        match custom {
            Some(c) => Ok(c),
            None => Err(EerError::MissingCompressionFields),
        }
    } else {
        Err(EerError::UnsupportedCompression(compression))
    }
}

/// Pairs the container's strip offsets with its strip sizes.
pub fn get_strips_info(offsets: &Vec<u64>, sizes: &Vec<u64>) -> (r: Result<Vec<StripInfo>, EerError>)
    ensures
        offsets@.len() != sizes@.len() <==> r == Err::<Vec<StripInfo>, EerError>(
            EerError::StripCountMismatch,
        ),
        offsets@.len() == sizes@.len() ==> r is Ok,
        r is Ok ==> {
            let v = r->Ok_0@;
            &&& v.len() == offsets@.len()
            &&& forall|i: int|
                0 <= i < v.len() ==> v[i] == (StripInfo { offset: offsets@[i], size: sizes@[i] })
        },
{
    if offsets.len() != sizes.len() {
        return Err(EerError::StripCountMismatch);
    }
    let mut strips: Vec<StripInfo> = Vec::new();
    let mut i: usize = 0;
    while i < offsets.len()
        invariant
            offsets@.len() == sizes@.len(),
            i <= offsets@.len(),
            strips@.len() == i,
            forall|j: int|
                0 <= j < i ==> strips@[j] == (StripInfo { offset: offsets@[j], size: sizes@[j] }),
        decreases offsets@.len() - i,
    {
        strips.push(StripInfo { offset: offsets[i], size: sizes[i] });
        i = i + 1;
    }
    Ok(strips)
}

pub open spec fn min_nat(a: nat, b: nat) -> nat {
    if a <= b {
        a
    } else {
        b
    }
}

/// First pixel of strip `k`: its first row is `k * rows_per_strip`, clipped
/// to the frame's height.
pub open spec fn strip_start(k: nat, width: nat, height: nat, rows_per_strip: nat) -> nat {
    min_nat(k * rows_per_strip, height) * width
}

/// One past the last pixel of strip `k`: the last strip ends at the frame's
/// last row.
pub open spec fn strip_end(k: nat, width: nat, height: nat, rows_per_strip: nat) -> nat {
    min_nat(k * rows_per_strip + rows_per_strip, height) * width
}

/// The byte contents of each strip.
pub open spec fn strip_bytes(strips: Seq<Vec<u8>>) -> Seq<Seq<u8>> {
    strips.map_values(|v: Vec<u8>| v@)
}

/// Strips `k..` of a frame decoded into `img` one after another; `None`
/// where one of them runs out of bits.
pub open spec fn decode_strips_from(
    img: Seq<u16>,
    strips: Seq<Seq<u8>>,
    p: CompressionParams,
    width: nat,
    height: nat,
    rows_per_strip: nat,
    k: nat,
) -> Option<Seq<u16>>
    decreases strips.len() - k,
{
    if k >= strips.len() {
        Some(img)
    } else {
        match decode_strip_spec(
            img,
            strips[k as int],
            p,
            strip_start(k, width, height, rows_per_strip),
            strip_end(k, width, height, rows_per_strip),
        ) {
            None => None,
            Some(next) => decode_strips_from(next, strips, p, width, height, rows_per_strip, k + 1),
        }
    }
}

/// An image of `len` pixels, all zero.
pub open spec fn zero_image(len: nat) -> Seq<u16> {
    Seq::new(len, |i: int| 0u16)
}

/// A frame's count image, row by row, from its strips' bytes.
pub open spec fn frame_image(
    strips: Seq<Seq<u8>>,
    p: CompressionParams,
    width: nat,
    height: nat,
    rows_per_strip: nat,
) -> Option<Seq<u16>> {
    decode_strips_from(
        zero_image(width * height),
        strips,
        p,
        width,
        height,
        rows_per_strip,
        0,
    )
}

/// The pixel range of strip `k`, in the frame's row-major order.
fn strip_range(k: usize, width: u32, height: u32, rows_per_strip: u32) -> (r: (usize, usize))
    requires
        width as nat * height as nat <= usize::MAX,
    ensures
        r.0 as nat == strip_start(k as nat, width as nat, height as nat, rows_per_strip as nat),
        r.1 as nat == strip_end(k as nat, width as nat, height as nat, rows_per_strip as nat),
        r.1 <= width as nat * height as nat,
{
    let h = height as u64;
    let rps = rows_per_strip as u64;
    let start_row: u64 = if rps == 0 {
        0
    } else if (k as u64) >= h {
        assert(k as nat * rps as nat >= k as nat) by (nonlinear_arith)
            requires
                rps >= 1,
        ;
        h
    } else {
        assert(k as nat * rps as nat <= 0xffff_ffff * 0xffff_ffff) by (nonlinear_arith)
            requires
                k < 0x1_0000_0000,
                rps < 0x1_0000_0000,
        ;
        let raw = (k as u64) * rps;
        if raw < h {
            raw
        } else {
            h
        }
    };
    let ghost kr = k as nat * rps as nat;
    proof {
        if rps == 0 {
            assert(kr == 0) by (nonlinear_arith)
                requires
                    kr == k as nat * rps as nat,
                    rps == 0,
            ;
        }
    }
    assert(start_row as nat == min_nat(kr, h as nat));
    let end_row: u64 = if start_row >= h {
        proof {
            if rps > 0 {
                assert(k as nat * rps as nat + rps as nat >= h);
            }
        }
        h
    } else if start_row + rps < h {
        start_row + rps
    } else {
        h
    };
    assert(end_row as nat == min_nat(kr + rps as nat, h as nat));
    assert(start_row * width as nat <= height as nat * width as nat) by (nonlinear_arith)
        requires
            start_row <= height,
    ;
    assert(end_row * width as nat <= height as nat * width as nat) by (nonlinear_arith)
        requires
            end_row <= height,
    ;
    assert(height as nat * width as nat == width as nat * height as nat) by (nonlinear_arith);
    ((start_row as usize) * (width as usize), (end_row as usize) * (width as usize))
}

/// Decodes one frame from its strips' bytes into a count image of
/// `height` rows of `width` pixels.
pub fn decode_eer_frame(
    width: u32,
    height: u32,
    rows_per_strip: u32,
    params: &CompressionParams,
    strips: &Vec<Vec<u8>>,
) -> (r: Result<CountImage, EerError>)
    requires
        width as nat * height as nat <= isize::MAX,
        width <= isize::MAX,
        height <= isize::MAX,
    ensures
        !params_ok(*params) ==> (r is Err && r->Err_0 == EerError::InvalidParams),
        params_ok(*params) ==> {
            let img = frame_image(
                strip_bytes(strips@),
                *params,
                width as nat,
                height as nat,
                rows_per_strip as nat,
            );
            &&& r is Ok <==> img is Some
            &&& r is Ok ==> img == Some(image_counts(r->Ok_0))
            &&& r is Ok ==> image_wf(r->Ok_0) && image_height(r->Ok_0) == height
                && image_width(r->Ok_0) == width
            &&& r is Err ==> r->Err_0 is TruncatedStrip
        },
{
    if !(1 <= params.code_len && params.code_len <= 32 && params.horz_sub_bits <= 32
        && params.vert_sub_bits <= 32) {
        return Err(EerError::InvalidParams);
    }
    let ghost sb = strip_bytes(strips@);
    let ghost w = width as nat;
    let ghost h = height as nat;
    let ghost rps = rows_per_strip as nat;
    assert(height as nat * width as nat == width as nat * height as nat) by (nonlinear_arith);
    let mut image = CountImage::zeros(height as usize, width as usize);
    let mut k: usize = 0;
    while k < strips.len()
        invariant
            params_ok(*params),
            width as nat * height as nat <= usize::MAX,
            sb == strip_bytes(strips@),
            w == width as nat && h == height as nat && rps == rows_per_strip as nat,
            image_wf(image),
            image_height(image) == h,
            image_width(image) == w,
            image_counts(image).len() == w * h,
            k <= strips@.len(),
            decode_strips_from(image_counts(image), sb, *params, w, h, rps, k as nat) == frame_image(
                sb,
                *params,
                w,
                h,
                rps,
            ),
        decreases strips@.len() - k,
    {
        let (start, end) = strip_range(k, width, height, rows_per_strip);
        let ok = decode_strip(&mut image, strips[k].as_slice(), params, start, end);
        if !ok {
            return Err(EerError::TruncatedStrip(k));
        }
        k = k + 1;
    }
    Ok(image)
}

/// A strip whose only code word is the continuation value counts no event:
/// it leaves the image as it was where the continuation reaches the strip's
/// end, and is rejected as running out of bits otherwise.
pub proof fn lemma_sentinel_only_strip(
    img: Seq<u16>,
    data: Seq<u8>,
    p: CompressionParams,
    start: nat,
    end: nat,
)
    requires
        params_ok(p),
        p.code_len <= 8 * data.len() < 2 * p.code_len,
        bits_at(data, 0, p.code_len as nat) == sentinel(p.code_len as nat),
    ensures
        decode_strip_spec(img, data, p, start, end) == Some(img) || decode_strip_spec(
            img,
            data,
            p,
            start,
            end,
        ) is None,
        end <= start + sentinel(p.code_len as nat) ==> decode_strip_spec(img, data, p, start, end)
            == Some(img),
{
    let cl = p.code_len as nat;
    if start < end && start + sentinel(cl) < end {
        assert(decode_strip_spec(img, data, p, start, end) == decode_strip_from(
            img,
            data,
            p,
            cl,
            sentinel(cl),
            start,
            end,
        ));
        assert(decode_strip_from(img, data, p, cl, sentinel(cl), start, end) is None);
    }
}

/// A strip of one code word below the continuation value, with its
/// sub-pixel bits, counts one event at the pixel that the code word skips
/// to, where that pixel is the strip's last; a strip with pixels left after
/// it is rejected as running out of bits.
pub proof fn lemma_single_event_strip(
    img: Seq<u16>,
    data: Seq<u8>,
    p: CompressionParams,
    start: nat,
    end: nat,
)
    requires
        params_ok(p),
        end <= img.len(),
        p.code_len + p.vert_sub_bits + p.horz_sub_bits <= 8 * data.len(),
        8 * data.len() < 2 * p.code_len + p.vert_sub_bits + p.horz_sub_bits,
        bits_at(data, 0, p.code_len as nat) < sentinel(p.code_len as nat),
        start + bits_at(data, 0, p.code_len as nat) < end,
    ensures
        ({
            let at = start + bits_at(data, 0, p.code_len as nat);
            &&& at + 1 == end ==> decode_strip_spec(img, data, p, start, end) == Some(
                img.update(at as int, bump(img[at as int])),
            )
            &&& at + 1 < end ==> decode_strip_spec(img, data, p, start, end) is None
        }),
{
    let cl = p.code_len as nat;
    let skip = bits_at(data, 0, cl);
    let at = start + skip;
    let next = img.update(at as int, bump(img[at as int]));
    let bit2 = (cl + p.vert_sub_bits + p.horz_sub_bits) as nat;
    assert(decode_strip_spec(img, data, p, start, end) == decode_strip_from(
        next,
        data,
        p,
        bit2,
        skip + 1,
        start,
        end,
    ));
    if at + 1 < end {
        assert(decode_strip_from(next, data, p, bit2, skip + 1, start, end) is None);
    }
}

proof fn lemma_single_strip_frame(
    strip: Seq<u8>,
    p: CompressionParams,
    width: nat,
    height: nat,
    rows_per_strip: nat,
)
    requires
        rows_per_strip >= height,
    ensures
        strip_start(0, width, height, rows_per_strip) == 0,
        strip_end(0, width, height, rows_per_strip) == height * width,
        frame_image(seq![strip], p, width, height, rows_per_strip) == match decode_strip_spec(
            zero_image(width * height),
            strip,
            p,
            0,
            height * width,
        ) {
            None => None,
            Some(img) => Some(img),
        },
{
    assert(0 * rows_per_strip == 0);
    assert(0 * width == 0);
    assert(height * width == width * height) by (nonlinear_arith);
    let s = seq![strip];
    assert(s.len() == 1 && s[0] == strip);
    let z = zero_image(width * height);
    match decode_strip_spec(z, strip, p, 0, height * width) {
        None => {},
        Some(img) => {
            assert(decode_strips_from(img, s, p, width, height, rows_per_strip, 1) == Some(img));
        },
    }
}

/// A frame of one strip whose only code word is the continuation value,
/// over no more pixels than that value, decodes to an image of zeros.
pub proof fn lemma_sentinel_only_frame(
    strip: Seq<u8>,
    p: CompressionParams,
    width: nat,
    height: nat,
    rows_per_strip: nat,
)
    requires
        params_ok(p),
        rows_per_strip >= height,
        p.code_len <= 8 * strip.len() < 2 * p.code_len,
        bits_at(strip, 0, p.code_len as nat) == sentinel(p.code_len as nat),
        width * height <= sentinel(p.code_len as nat),
    ensures
        frame_image(seq![strip], p, width, height, rows_per_strip) == Some(
            zero_image(width * height),
        ),
{
    lemma_single_strip_frame(strip, p, width, height, rows_per_strip);
    lemma_sentinel_only_strip(zero_image(width * height), strip, p, 0, height * width);
}

/// A frame of one strip holding one code word `k` below the continuation
/// value, with its sub-pixel bits, over exactly `k + 1` pixels, decodes to
/// an image with a single count of one, at pixel `k`.
pub proof fn lemma_single_event_frame(
    strip: Seq<u8>,
    p: CompressionParams,
    width: nat,
    height: nat,
    rows_per_strip: nat,
)
    requires
        params_ok(p),
        rows_per_strip >= height,
        p.code_len + p.vert_sub_bits + p.horz_sub_bits <= 8 * strip.len(),
        8 * strip.len() < 2 * p.code_len + p.vert_sub_bits + p.horz_sub_bits,
        bits_at(strip, 0, p.code_len as nat) < sentinel(p.code_len as nat),
        width * height == bits_at(strip, 0, p.code_len as nat) + 1,
    ensures
        frame_image(seq![strip], p, width, height, rows_per_strip) == Some(
            zero_image(width * height).update(bits_at(strip, 0, p.code_len as nat) as int, 1u16),
        ),
{
    lemma_single_strip_frame(strip, p, width, height, rows_per_strip);
    lemma_single_event_strip(zero_image(width * height), strip, p, 0, height * width);
}

} // verus!
