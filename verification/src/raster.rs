//! Grey-scale label images and the bit rows that the printer prints.
use vstd::prelude::*;

use crate::packet::NiimbotPacket;

verus! {

/// A grey-scale image, one luma byte per pixel, row by row.
pub struct LumaImage {
    width: u32,
    height: u32,
    pixels: Vec<u8>,
}

impl View for LumaImage {
    /// Width, height and the luma bytes, row by row.
    type V = (u32, u32, Seq<u8>);

    closed spec fn view(&self) -> (u32, u32, Seq<u8>) {
        (self.width, self.height, self.pixels@)
    }
}

impl LumaImage {
    #[verifier::type_invariant]
    spec fn has_every_pixel(self) -> bool {
        self.pixels@.len() == self.width * self.height
    }

    /// An image of `width` by `height` pixels; `None` unless `pixels` holds
    /// exactly one luma byte per pixel.
    pub fn new(width: u32, height: u32, pixels: Vec<u8>) -> (res: Option<Self>)
        ensures
            res is Some <==> pixels@.len() == width * height,
            res matches Some(image) ==> image@ == (width, height, pixels@),
    {
        if width == 0 || height == 0 {
            assert(width * height == 0) by (nonlinear_arith)
                requires
                    width == 0 || height == 0,
            ;
            if pixels.len() == 0 {
                return Some(LumaImage { width, height, pixels });
            }
            return None;
        }
        if pixels.len() / (width as usize) != height as usize || pixels.len() % (width as usize)
            != 0 {
            proof {
                if pixels@.len() == width * height {
                    vstd::arithmetic::div_mod::lemma_div_multiples_vanish(
                        height as int,
                        width as int,
                    );
                    vstd::arithmetic::div_mod::lemma_mod_multiples_basic(
                        height as int,
                        width as int,
                    );
                    vstd::arithmetic::mul::lemma_mul_is_commutative(
                        width as int,
                        height as int,
                    );
                }
            }
            return None;
        }
        proof {
            vstd::arithmetic::div_mod::lemma_fundamental_div_mod(
                pixels@.len() as int,
                width as int,
            );
        }
        Some(LumaImage { width, height, pixels })
    }

    pub fn width(&self) -> (res: u32)
        ensures
            res == self@.0,
    {
        self.width
    }

    pub fn height(&self) -> (res: u32)
        ensures
            res == self@.1,
    {
        self.height
    }
}

/// Whether a pixel is printed: the image is cut to black and white at luma
/// 127 (brighter is white), then inverted, and what is then non-zero is
/// printed.
pub open spec fn inked(luma: u8) -> bool {
    (255 - (if luma > 127 {
        255int
    } else {
        0int
    })) != 0
}

/// Whether bit `k` (0 is the most significant) of `byte` is set.
pub open spec fn bit_at(byte: u8, k: int) -> bool {
    (byte >> ((7 - k) as u8)) & 1u8 == 1u8
}

/// Bytes in one printed row: one bit per pixel, rounded up.
pub open spec fn row_len(width: u32) -> int {
    (width + 7) / 8
}

/// `row` is row `y` of `image` packed eight pixels to a byte, leftmost pixel in
/// the most significant bit, a bit set exactly for a printed pixel and padding
/// bits clear.
pub open spec fn packs_row(row: Seq<u8>, image: (u32, u32, Seq<u8>), y: int) -> bool {
    let (width, height, pixels) = image;
    &&& row.len() == row_len(width)
    &&& forall|j: int, k: int|
        0 <= j < row.len() && 0 <= k < 8 ==> (#[trigger] bit_at(row[j], k) <==> (8 * j + k
            < width && inked(pixels[y * width + 8 * j + k])))
}

/// The payload of the packet for row `y`: the row number (big-endian, cut to
/// 16 bits), the bytes 0 0 0 1, then the packed row.
pub open spec fn row_header(y: int) -> Seq<u8> {
    let line = #[verifier::truncate] (y as u16);
    seq![(line >> 8u16) as u8, line as u8, 0u8, 0u8, 0u8, 1u8]
}

/// `packets` print `image`: one packet of type 0x85 per row, top to bottom,
/// each holding the row header and the packed row.
pub open spec fn prints_rows(packets: Seq<NiimbotPacket>, image: (u32, u32, Seq<u8>)) -> bool {
    &&& packets.len() == image.1
    &&& forall|y: int|
        0 <= y < packets.len() ==> (#[trigger] packets[y])@.0 == 0x85 && 6 <= packets[y]@.1.len()
            && packets[y]@.1.subrange(
            0,
            6,
        ) == row_header(y) && packs_row(
            packets[y]@.1.subrange(6, packets[y]@.1.len() as int),
            image,
            y,
        )
}

/// Setting bit `s` leaves the other bits alone.
proof fn lemma_set_bit(v: u8, s: u8, t: u8)
    requires
        s < 8,
        t < 8,
    ensures
        ((v | (1u8 << s)) >> t) & 1u8 == 1u8 <==> (s == t || (v >> t) & 1u8 == 1u8),
{
    assert(((v | (1u8 << s)) >> t) & 1u8 == 1u8 <==> (s == t || (v >> t) & 1u8 == 1u8))
        by (bit_vector)
        requires
            s < 8,
            t < 8,
    ;
}

proof fn lemma_zero_bits(t: u8)
    requires
        t < 8,
    ensures
        (0u8 >> t) & 1u8 != 1u8,
{
    assert((0u8 >> t) & 1u8 != 1u8) by (bit_vector);
}

/// Packs row `y` of `image`, eight pixels to a byte.
pub(crate) fn pack_row(image: &LumaImage, y: u32) -> (res: Vec<u8>)
    requires
        y < image@.1,
    ensures
        packs_row(res@, image@, y as int),
{
    proof {
        use_type_invariant(image);
    }
    let width = image.width;
    let ghost w = width as int;
    let ghost pixels = image.pixels@;
    let bytes_per_row: usize = (width / 8) as usize + if width % 8 != 0 {
        1
    } else {
        0
    };
    assert(bytes_per_row == row_len(width));
    let ghost h = image.height as int;
    assert(y * w + w <= w * h) by (nonlinear_arith)
        requires
            0 <= y < h,
            0 <= w,
    ;
    assert(pixels.len() == w * h);
    let total = image.pixels.len();
    assert(y * w <= total);
    let row_start: usize = (y as usize) * (width as usize);
    assert(row_start + w <= pixels.len());
    let mut line: Vec<u8> = vec![0u8; bytes_per_row];
    assert forall|j: int, k: int|
        0 <= j < line@.len() && 0 <= k < 8 implies !(#[trigger] bit_at(line@[j], k)) by {
        lemma_zero_bits((7 - k) as u8);
    }
    let mut x: u32 = 0;
    while x < width
        invariant
            x <= width,
            w == width,
            pixels == image.pixels@,
            pixels.len() == image.width * image.height,
            row_start == y * w,
            row_start + w <= pixels.len(),
            pixels.len() <= usize::MAX,
            line@.len() == bytes_per_row,
            bytes_per_row == row_len(width),
            forall|j: int, k: int|
                0 <= j < line@.len() && 0 <= k < 8 ==> (#[trigger] bit_at(line@[j], k) <==> (8 * j
                    + k < x && inked(pixels[y * w + 8 * j + k]))),
        decreases width - x,
    {
        let luma = image.pixels[row_start + x as usize];
        let binary: u8 = if luma > 127 {
            255
        } else {
            0
        };
        let value: u8 = 255 - binary;
        let byte_index = (x / 8) as usize;
        let bit_index = (7 - x % 8) as u8;
        assert(luma == pixels[y * w + x]);
        assert(value != 0 <==> inked(luma));
        assert(byte_index < line@.len());
        if value != 0 {
            let ghost old_line = line@;
            let old_byte = line[byte_index];
            line.set(byte_index, old_byte | (1u8 << bit_index));
            assert forall|j: int, k: int|
                0 <= j < line@.len() && 0 <= k < 8 implies (#[trigger] bit_at(line@[j], k) <==> (
                8 * j + k < x + 1 && inked(pixels[y * w + 8 * j + k]))) by {
                assert(bit_at(old_line[j], k) <==> (8 * j + k < x && inked(
                    pixels[y * w + 8 * j + k],
                )));
                if j == byte_index {
                    lemma_set_bit(old_byte, bit_index, (7 - k) as u8);
                    assert((bit_index == (7 - k) as u8) <==> (8 * j + k == x));
                } else {
                    assert(line@[j] == old_line[j]);
                    assert(8 * j + k != x);
                }
            }
        } else {
            assert forall|j: int, k: int|
                0 <= j < line@.len() && 0 <= k < 8 implies (#[trigger] bit_at(line@[j], k) <==> (
                8 * j + k < x + 1 && inked(pixels[y * w + 8 * j + k]))) by {
                if 8 * j + k == x {
                    assert(j == byte_index);
                }
            }
        }
        x = x + 1;
    }
    line
}

/// The packets that print `image`, one per row, top to bottom.
pub(crate) fn image_rows(image: &LumaImage) -> (res: Vec<NiimbotPacket>)
    ensures
        prints_rows(res@, image@),
{
    let height = image.height;
    let mut packets: Vec<NiimbotPacket> = Vec::new();
    let mut y: u32 = 0;
    while y < height
        invariant
            y <= height,
            height == image@.1,
            packets@.len() == y,
            forall|i: int|
                0 <= i < y ==> (#[trigger] packets@[i])@.0 == 0x85 && 6 <= packets@[i]@.1.len()
                    && packets@[i]@.1.subrange(0, 6)
                    == row_header(i) && packs_row(
                    packets@[i]@.1.subrange(6, packets@[i]@.1.len() as int),
                    image@,
                    i,
                ),
        decreases height - y,
    {
        let row = pack_row(image, y);
        let line = #[verifier::truncate] (y as u16);
        let mut payload: Vec<u8> = Vec::with_capacity(6 + row.len());
        payload.push(#[verifier::truncate] ((line >> 8) as u8));
        payload.push(#[verifier::truncate] (line as u8));
        payload.push(0);
        payload.push(0);
        payload.push(0);
        payload.push(1);
        let mut i: usize = 0;
        while i < row.len()
            invariant
                i <= row@.len(),
                payload@ =~= row_header(y as int) + row@.take(i as int),
            decreases row@.len() - i,
        {
            payload.push(row[i]);
            i = i + 1;
        }
        assert(payload@.subrange(0, 6) =~= row_header(y as int));
        assert(payload@.subrange(6, payload@.len() as int) =~= row@);
        packets.push(NiimbotPacket::new(0x85, payload));
        y = y + 1;
    }
    packets
}

/// Row numbering: in the packets that print an image, the payload of the
/// packet for row `y` starts with `y` as two big-endian bytes (`y / 256`, then
/// `y % 256`) followed by 0 0 0 1, for every row below 65536, and every packet
/// has type 0x85.
pub proof fn lemma_row_numbers(packets: Seq<NiimbotPacket>, image: (u32, u32, Seq<u8>))
    requires
        prints_rows(packets, image),
    ensures
        forall|y: int|
            0 <= y < packets.len() && y < 65536 ==> {
                let payload = (#[trigger] packets[y])@.1;
                &&& packets[y]@.0 == 0x85
                &&& payload.len() >= 6
                &&& payload[0] == y / 256
                &&& payload[1] == y % 256
                &&& payload[2] == 0
                &&& payload[3] == 0
                &&& payload[4] == 0
                &&& payload[5] == 1
            },
{
    assert forall|y: int| 0 <= y < packets.len() && y < 65536 implies {
        let payload = (#[trigger] packets[y])@.1;
        &&& packets[y]@.0 == 0x85
        &&& payload.len() >= 6
        &&& payload[0] == y / 256
        &&& payload[1] == y % 256
        &&& payload[2] == 0
        &&& payload[3] == 0
        &&& payload[4] == 0
        &&& payload[5] == 1
    } by {
        let payload = packets[y]@.1;
        let header = row_header(y);
        assert(payload.subrange(0, 6) == header);
        assert(payload[0] == header[0] && payload[1] == header[1]);
        assert(payload[2] == header[2] && payload[3] == header[3]);
        assert(payload[4] == header[4] && payload[5] == header[5]);
        let line = y as u16;
        assert(line == y);
        assert((line >> 8u16) as u8 == line / 256 && line as u8 == line % 256) by (bit_vector);
    }
}

} // verus!
