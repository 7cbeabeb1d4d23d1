use vstd::prelude::*;

verus! {

/// One decoded monochrome glyph image: `pixels` holds one luma sample per
/// pixel, row-major, top row first, left pixel first.
pub struct DecodedImage {
    pub width: u32,
    pub height: u32,
    pub pixels: Vec<u8>,
}

impl DecodedImage {
    /// A well-formed image holds exactly one sample per pixel.
    pub open spec fn wf(self) -> bool {
        self.pixels@.len() == self.width * self.height
    }

    /// Wraps a pixel grid, rejecting one whose sample count does not match
    /// the declared dimensions.
    pub fn new(width: u32, height: u32, pixels: Vec<u8>) -> (r: Option<DecodedImage>)
        ensures
            match r {
                Some(img) => img.width == width && img.height == height && img.pixels@ == pixels@
                    && img.wf(),
                None => pixels@.len() != width * height,
            },
    {
        proof {
            vstd::arithmetic::mul::lemma_mul_upper_bound(
                width as int,
                u32::MAX as int,
                height as int,
                u32::MAX as int,
            );
        }
        let expected = (width as u64) * (height as u64);
        if pixels.len() as u64 == expected {
            Some(DecodedImage { width, height, pixels })
        } else {
            None
        }
    }
}

/// True when bit `k` (counting from the least significant end) of `b` is set.
pub open spec fn bit_of(b: u8, k: u8) -> bool
    recommends
        k < 8,
{
    (b >> k) & 1u8 == 1u8
}

/// The bit a sample contributes: 0 for pure black, 1 for anything else.
pub open spec fn bitv(p: u8) -> u8 {
    if p == 0 {
        0u8
    } else {
        1u8
    }
}

/// The packed byte covering the eight pixels starting at `off`: the first
/// pixel of the group lands in the most significant bit, the last in the
/// least significant bit.
pub open spec fn byte_from(pixels: Seq<u8>, off: int) -> u8
    recommends
        0 <= off,
        off + 8 <= pixels.len(),
{
    (128 * bitv(pixels[off]) + 64 * bitv(pixels[off + 1]) + 32 * bitv(pixels[off + 2]) + 16 * bitv(
        pixels[off + 3],
    ) + 8 * bitv(pixels[off + 4]) + 4 * bitv(pixels[off + 5]) + 2 * bitv(pixels[off + 6]) + bitv(
        pixels[off + 7],
    )) as u8
}

/// The bit-packed form of a pixel grid: one byte for every eight pixels.
pub open spec fn packed(pixels: Seq<u8>) -> Seq<u8> {
    Seq::new(pixels.len() / 8, |i: int| byte_from(pixels, 8 * i))
}

/// The bit a sample contributes, as an executable computation.
fn pixel_bit(p: u8) -> (r: u16)
    ensures
        r == bitv(p) as u16,
{
    if p == 0 {
        0
    } else {
        1
    }
}

/// Packs a pixel grid eight samples at a time: within each byte the first
/// sample of the group occupies the most significant bit.
pub fn pack_glyph(pixels: &Vec<u8>) -> (r: Vec<u8>)
    requires
        pixels@.len() % 8 == 0,
    ensures
        r@ == packed(pixels@),
{
    let n = pixels.len();
    let groups = n / 8;
    let mut r: Vec<u8> = Vec::new();
    let mut g: usize = 0;
    while g < groups
        invariant
            n == pixels@.len(),
            n % 8 == 0,
            groups == n / 8,
            g <= groups,
            r@.len() == g,
            forall|k: int| 0 <= k < g ==> r@[k] == byte_from(pixels@, 8 * k),
        decreases groups - g,
    {
        proof {
            assert(8 * (n as int / 8) <= n);
            assert(8 * (g as int) + 8 <= n);
        }
        let off = 8 * g;
        let mut acc: u16 = 0;
        acc = 2 * acc + pixel_bit(pixels[off]);
        acc = 2 * acc + pixel_bit(pixels[off + 1]);
        acc = 2 * acc + pixel_bit(pixels[off + 2]);
        acc = 2 * acc + pixel_bit(pixels[off + 3]);
        acc = 2 * acc + pixel_bit(pixels[off + 4]);
        acc = 2 * acc + pixel_bit(pixels[off + 5]);
        acc = 2 * acc + pixel_bit(pixels[off + 6]);
        acc = 2 * acc + pixel_bit(pixels[off + 7]);
        proof {
            assert(acc <= 255);
            assert(acc as u8 == byte_from(pixels@, 8 * (g as int)));
        }
        r.push(acc as u8);
        g += 1;
    }
    proof {
        assert(r@ =~= packed(pixels@));
    }
    r
}

/// The unpacking rule: bit 7 of each byte is the first pixel of its group,
/// bit 0 the last.
pub open spec fn unpacked(bytes: Seq<u8>) -> Seq<bool> {
    Seq::new(bytes.len() * 8, |k: int| bit_of(bytes[k / 8], (7 - (k % 8)) as u8))
}

/// Which samples of a grid are lit: the binary image the packing encodes.
pub open spec fn lit(pixels: Seq<u8>) -> Seq<bool> {
    pixels.map_values(|p: u8| p != 0)
}

/// Expands packed bytes back into one boolean per pixel, reading each byte
/// from its most significant bit down.
pub fn unpack_glyph(bytes: &Vec<u8>) -> (r: Vec<bool>)
    requires
        bytes@.len() * 8 <= usize::MAX,
    ensures
        r@ == unpacked(bytes@),
{
    let mut r: Vec<bool> = Vec::new();
    let mut i: usize = 0;
    while i < bytes.len()
        invariant
            bytes@.len() * 8 <= usize::MAX,
            i <= bytes@.len(),
            r@.len() == 8 * i,
            forall|k: int|
                0 <= k < 8 * i ==> r@[k] == bit_of(bytes@[k / 8], (7 - (k % 8)) as u8),
        decreases bytes@.len() - i,
    {
        let b = bytes[i];
        let mut j: u8 = 0;
        while j < 8
            invariant
                i < bytes@.len(),
                bytes@[i as int] == b,
                j <= 8,
                r@.len() == 8 * i + j,
                forall|k: int|
                    0 <= k < 8 * i + j ==> r@[k] == bit_of(bytes@[k / 8], (7 - (k % 8)) as u8),
            decreases 8 - j,
        {
            r.push(((b >> (7 - j)) & 1) == 1);
            proof {
                let k = 8 * (i as int) + j;
                lemma_div_mod_8(i as int, j as int);
                assert(r@[k] == bit_of(bytes@[k / 8], (7 - (k % 8)) as u8));
            }
            j += 1;
        }
        i += 1;
    }
    proof {
        assert(r@ =~= unpacked(bytes@));
    }
    r
}

/// Decomposing an index into its group and its place within the group.
proof fn lemma_div_mod_8(i: int, j: int)
    requires
        0 <= i,
        0 <= j < 8,
    ensures
        (8 * i + j) / 8 == i,
        (8 * i + j) % 8 == j,
{
    assert((8 * i + j) / 8 == i && (8 * i + j) % 8 == j) by (nonlinear_arith)
        requires
            0 <= i,
            0 <= j < 8,
    ;
}

/// Bit `7 - j` of a packed byte records whether pixel `off + j` of its
/// group is lit.
pub proof fn lemma_byte_bits(pixels: Seq<u8>, off: int, j: int)
    requires
        0 <= off,
        off + 8 <= pixels.len(),
        0 <= j < 8,
    ensures
        bit_of(byte_from(pixels, off), (7 - j) as u8) == (pixels[off + j] != 0),
{
    let b0 = bitv(pixels[off]);
    let b1 = bitv(pixels[off + 1]);
    let b2 = bitv(pixels[off + 2]);
    let b3 = bitv(pixels[off + 3]);
    let b4 = bitv(pixels[off + 4]);
    let b5 = bitv(pixels[off + 5]);
    let b6 = bitv(pixels[off + 6]);
    let b7 = bitv(pixels[off + 7]);
    let byte = byte_from(pixels, off);
    assert(byte == (128 * b0 + 64 * b1 + 32 * b2 + 16 * b3 + 8 * b4 + 4 * b5 + 2 * b6 + b7) as u8);
    assert(b0 <= 1 && b1 <= 1 && b2 <= 1 && b3 <= 1 && b4 <= 1 && b5 <= 1 && b6 <= 1 && b7 <= 1);
    assert((b0 <= 1 && b1 <= 1 && b2 <= 1 && b3 <= 1 && b4 <= 1 && b5 <= 1 && b6 <= 1 && b7 <= 1
        && byte == (128 * b0 + 64 * b1 + 32 * b2 + 16 * b3 + 8 * b4 + 4 * b5 + 2 * b6 + b7) as u8)
        ==> {
        &&& (((byte >> 7u8) & 1u8 == 1u8) <==> b0 == 1)
        &&& (((byte >> 6u8) & 1u8 == 1u8) <==> b1 == 1)
        &&& (((byte >> 5u8) & 1u8 == 1u8) <==> b2 == 1)
        &&& (((byte >> 4u8) & 1u8 == 1u8) <==> b3 == 1)
        &&& (((byte >> 3u8) & 1u8 == 1u8) <==> b4 == 1)
        &&& (((byte >> 2u8) & 1u8 == 1u8) <==> b5 == 1)
        &&& (((byte >> 1u8) & 1u8 == 1u8) <==> b6 == 1)
        &&& (((byte >> 0u8) & 1u8 == 1u8) <==> b7 == 1)
    }) by (bit_vector);
}

/// Law: unpacking the packed form of a grid yields exactly the grid's
/// binary image.
pub proof fn lemma_pack_round_trip(pixels: Seq<u8>)
    requires
        pixels.len() % 8 == 0,
    ensures
        unpacked(packed(pixels)) == lit(pixels),
{
    assert(8 * (pixels.len() as int / 8) == pixels.len());
    assert forall|k: int| 0 <= k < pixels.len() implies unpacked(packed(pixels))[k] == lit(
        pixels,
    )[k] by {
        let i = k / 8;
        let j = k % 8;
        assert(k == 8 * i + j && 0 <= j < 8 && 0 <= i);
        assert(i < pixels.len() / 8) by (nonlinear_arith)
            requires
                k == 8 * i + j,
                0 <= j < 8,
                0 <= k < pixels.len(),
                pixels.len() % 8 == 0,
        ;
        lemma_byte_bits(pixels, 8 * i, j);
    }
    assert(unpacked(packed(pixels)) =~= lit(pixels));
}

/// Law: a well-formed glyph whose width is a multiple of eight packs to
/// `(width / 8) * height` bytes.
pub proof fn lemma_packed_len(img: DecodedImage)
    requires
        img.wf(),
        img.width % 8 == 0,
    ensures
        packed(img.pixels@).len() == (img.width / 8) * img.height,
{
    let w = img.width as int;
    let h = img.height as int;
    assert((w * h) / 8 == (w / 8) * h) by (nonlinear_arith)
        requires
            w % 8 == 0,
            0 <= w,
            0 <= h,
    ;
}

/// A well-formed glyph whose width is a multiple of eight has a sample
/// count that is a multiple of eight, so it packs without a remainder.
pub proof fn lemma_pixel_count_multiple(img: DecodedImage)
    requires
        img.wf(),
        img.width % 8 == 0,
    ensures
        img.pixels@.len() % 8 == 0,
{
    let w = img.width as int;
    let h = img.height as int;
    let q = w / 8;
    assert(w == 8 * q);
    assert(w * h == 8 * (q * h)) by (nonlinear_arith)
        requires
            w == 8 * q,
    ;
    assert((8 * (q * h)) % 8 == 0) by (nonlinear_arith);
}

} // verus!
