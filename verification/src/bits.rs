//! Packing bitmap samples into bits and back.
//!
//! An unpacked bitmap holds one byte per pixel. A packed bitmap holds one
//! bit per pixel, the leftmost pixel in the highest bit of a byte, and
//! every row starts on a byte of its own. A set bit is a sample of 0
//! (black); a clear bit is a sample of 1. The bits that pad the last byte
//! of a row are clear.

use vstd::arithmetic::div_mod::lemma_fundamental_div_mod_converse;
use vstd::prelude::*;

verus! {

/// The number of bytes that a packed row of `width` pixels takes.
pub open spec fn row_bytes(width: int) -> int {
    (width + 7) / 8
}

/// What bit `i` of a byte weighs, bit 0 being the highest.
pub open spec fn bit_weight(i: int) -> int {
    if i <= 0 {
        128
    } else if i == 1 {
        64
    } else if i == 2 {
        32
    } else if i == 3 {
        16
    } else if i == 4 {
        8
    } else if i == 5 {
        4
    } else if i == 6 {
        2
    } else {
        1
    }
}

/// Whether bit `i` of `byte` is set, bit 0 being the highest.
pub open spec fn bit_at(byte: u8, i: int) -> bool {
    (byte as int / bit_weight(i)) % 2 == 1
}

/// Whether the pixel in row `row` and column `col` of the unpacked bitmap
/// `u` gets a set bit: it lies inside the row and its sample is 0.
pub open spec fn is_ink(u: Seq<u8>, width: int, row: int, col: int) -> bool {
    col < width && u[row * width + col] == 0
}

/// The value of the first `n` bits of byte `k` of packed row `row`.
pub open spec fn packed_bits(u: Seq<u8>, width: int, row: int, k: int, n: nat) -> int
    decreases n,
{
    if n == 0 {
        0
    } else {
        packed_bits(u, width, row, k, (n - 1) as nat) + if is_ink(u, width, row, 8 * k + n - 1) {
            bit_weight(n - 1)
        } else {
            0
        }
    }
}

/// Byte `k` of packed row `row`.
pub open spec fn packed_byte(u: Seq<u8>, width: int, row: int, k: int) -> u8 {
    packed_bits(u, width, row, k, 8) as u8
}

/// The packed form of the unpacked bitmap `u` of `width` by `height`
/// pixels.
pub open spec fn pack(u: Seq<u8>, width: int, height: int) -> Seq<u8> {
    Seq::new(
        (row_bytes(width) * height) as nat,
        |j: int| packed_byte(u, width, j / row_bytes(width), j % row_bytes(width)),
    )
}

/// The sample of the pixel in row `row` and column `col` of the packed
/// bitmap `p`.
pub open spec fn sample_at(p: Seq<u8>, width: int, row: int, col: int) -> u8 {
    if bit_at(p[row * row_bytes(width) + col / 8], col % 8) {
        0
    } else {
        1
    }
}

/// The unpacked form of the packed bitmap `p` of `width` by `height`
/// pixels.
pub open spec fn unpack(p: Seq<u8>, width: int, height: int) -> Seq<u8> {
    Seq::new((width * height) as nat, |i: int| sample_at(p, width, i / width, i % width))
}

/// Every sample is 0 or 1.
pub open spec fn is_bitmap(u: Seq<u8>) -> bool {
    forall|i: int| 0 <= i < u.len() ==> #[trigger] u[i] <= 1
}

/// A packed byte is a byte, and each of its bits is set exactly where the
/// pixel it stands for is ink.
pub proof fn lemma_packed_byte_bits(u: Seq<u8>, width: int, row: int, k: int, i: int)
    requires
        0 <= i < 8,
    ensures
        0 <= packed_bits(u, width, row, k, 8) < 256,
        bit_at(packed_byte(u, width, row, k), i) == is_ink(u, width, row, 8 * k + i),
{
    reveal_with_fuel(packed_bits, 9);
}

/// Cell `col` of row `row` lies inside a grid of `height` rows of `width`
/// cells, and the row and the column can be read off its position.
pub proof fn lemma_grid_cell(width: int, height: int, row: int, col: int)
    requires
        0 <= row < height,
        0 <= col < width,
    ensures
        0 <= row * width + col < width * height,
        (row * width + col) / width == row,
        (row * width + col) % width == col,
{
    assert(row * width + col < width * height) by (nonlinear_arith)
        requires
            0 <= row < height,
            0 <= col < width,
    ;
    assert(0 <= row * width) by (nonlinear_arith)
        requires
            0 <= row,
            0 < width,
    ;
    lemma_fundamental_div_mod_converse(row * width + col, width, row, col);
}

/// A position inside a grid of `height` rows of `width` cells splits into
/// a row and a column of the grid.
pub proof fn lemma_grid_position(width: int, height: int, i: int)
    requires
        0 < width,
        0 <= i < width * height,
    ensures
        0 <= i / width < height,
        0 <= i % width < width,
        i == (i / width) * width + i % width,
{
    vstd::arithmetic::div_mod::lemma_fundamental_div_mod(i, width);
    vstd::arithmetic::div_mod::lemma_mod_bound(i, width);
    let q = i / width;
    assert(0 <= q < height) by (nonlinear_arith)
        requires
            0 < width,
            0 <= i < width * height,
            i == width * q + i % width,
            0 <= i % width < width,
    ;
    assert(width * q == q * width) by (nonlinear_arith);
}

/// The packed bitmap grows row by row: the first `row + 1` rows packed are
/// the first `row` rows packed and then the bytes of row `row`.
pub proof fn lemma_pack_row(u: Seq<u8>, width: int, row: int)
    requires
        0 < width,
        0 <= row,
    ensures
        pack(u, width, row + 1) == pack(u, width, row) + Seq::new(
            row_bytes(width) as nat,
            |k: int| packed_byte(u, width, row, k),
        ),
{
    let stride = row_bytes(width);
    let longer = pack(u, width, row + 1);
    let joined = pack(u, width, row) + Seq::new(
        stride as nat,
        |k: int| packed_byte(u, width, row, k),
    );
    assert(stride * (row + 1) == stride * row + stride) by (nonlinear_arith);
    assert(0 <= stride * row) by (nonlinear_arith)
        requires
            0 <= row,
            0 < stride,
    ;
    assert(longer.len() == joined.len());
    assert forall|j: int| 0 <= j < longer.len() implies longer[j] == joined[j] by {
        if j >= stride * row {
            lemma_grid_cell(stride, row + 1, row, j - stride * row);
            assert(row * stride == stride * row) by (nonlinear_arith);
        }
    }
    assert(longer =~= joined);
}

/// Unpacking undoes packing: a bitmap of samples 0 and 1 comes back from
/// its packed form as it was.
pub proof fn lemma_unpack_pack(u: Seq<u8>, width: int, height: int)
    requires
        width > 0,
        height > 0,
        u.len() == width * height,
        is_bitmap(u),
    ensures
        unpack(pack(u, width, height), width, height) == u,
{
    let p = pack(u, width, height);
    let back = unpack(p, width, height);
    let stride = row_bytes(width);
    assert forall|i: int| 0 <= i < u.len() implies back[i] == u[i] by {
        lemma_grid_position(width, height, i);
        let row = i / width;
        let col = i % width;
        lemma_grid_cell(stride, height, row, col / 8);
        assert(stride * height == height * stride) by (nonlinear_arith);
        assert(p[row * stride + col / 8] == packed_byte(u, width, row, col / 8));
        lemma_packed_byte_bits(u, width, row, col / 8, col % 8);
        assert(is_ink(u, width, row, col) == (u[i] == 0));
    }
    assert(back =~= u);
}

/// The mask that picks bit `i` of a byte, bit 0 being the highest.
fn bit_mask(i: usize) -> (mask: u8)
    requires
        i < 8,
    ensures
        mask == bit_weight(i as int),
        forall|byte: u8| (byte & mask != 0) == #[trigger] bit_at(byte, i as int),
{
    let shift: u8 = i as u8;
    let mask: u8 = 0x80u8 >> shift;
    assert(mask == bit_weight(i as int)) by (bit_vector)
        requires
            shift < 8,
            shift == i,
            mask == 0x80u8 >> shift,
    ;
    assert forall|byte: u8| (byte & mask != 0) == #[trigger] bit_at(byte, i as int) by {
        assert((byte & mask != 0) == ((byte / mask) % 2 == 1)) by (bit_vector)
            requires
                shift < 8,
                mask == 0x80u8 >> shift,
        ;
    }
    mask
}

/// Packs the unpacked bitmap `datauchar` of `width` by `height` pixels.
pub fn uchar_to_bit(datauchar: &[u8], width: usize, height: usize) -> (databit: Vec<u8>)
    requires
        width > 0,
        height > 0,
        datauchar.len() == width * height,
    ensures
        databit@ == pack(datauchar@, width as int, height as int),
        databit.len() == row_bytes(width as int) * height,
{
    let ghost u = datauchar@;
    let stride: usize = (width - 1) / 8 + 1;
    assert(stride == row_bytes(width as int));
    let mut databit: Vec<u8> = Vec::new();
    let mut row: usize = 0;
    assert(databit@ =~= pack(u, width as int, 0));
    while row < height
        invariant
            0 < width,
            row <= height,
            u == datauchar@,
            datauchar.len() == width * height,
            stride == row_bytes(width as int),
            databit@ == pack(u, width as int, row as int),
        decreases height - row,
    {
        let ghost done = databit@;
        let mut k: usize = 0;
        assert(databit@ =~= done + Seq::new(
            k as nat,
            |j: int| packed_byte(u, width as int, row as int, j),
        ));
        while k < stride
            invariant
                0 < width,
                row < height,
                k <= stride,
                u == datauchar@,
                datauchar.len() == width * height,
                stride == row_bytes(width as int),
                databit@ == done + Seq::new(
                    k as nat,
                    |j: int| packed_byte(u, width as int, row as int, j),
                ),
            decreases stride - k,
        {
            let base: usize = k * 8;
            let mut byte: u8 = 0;
            let mut bit: usize = 0;
            while bit < 8
                invariant
                    0 < width,
                    row < height,
                    bit <= 8,
                    base == k * 8,
                    base < width,
                    u == datauchar@,
                    datauchar.len() == width * height,
                    byte == packed_bits(u, width as int, row as int, k as int, bit as nat),
                    bit < 8 ==> byte + 2 * bit_weight(bit as int) <= 256,
                decreases 8 - bit,
            {
                let mask: u8 = bit_mask(bit);
                proof {
                    if bit < width - base {
                        lemma_grid_cell(width as int, height as int, row as int, base + bit);
                    }
                }
                if bit < width - base && datauchar[row * width + (base + bit)] == 0 {
                    byte = byte + mask;
                }
                bit += 1;
            }
            proof {
                lemma_packed_byte_bits(u, width as int, row as int, k as int, 0);
                assert(databit@.push(byte) =~= done + Seq::new(
                    (k + 1) as nat,
                    |j: int| packed_byte(u, width as int, row as int, j),
                ));
            }
            databit.push(byte);
            k += 1;
        }
        proof {
            lemma_pack_row(u, width as int, row as int);
        }
        row += 1;
    }
    databit
}

/// Unpacks the packed bitmap `databit` of `width` by `height` pixels.
pub fn bit_to_uchar(databit: &[u8], width: usize, height: usize) -> (datauchar: Vec<u8>)
    requires
        width > 0,
        height > 0,
        width * height <= usize::MAX,
        databit.len() >= row_bytes(width as int) * height,
    ensures
        datauchar@ == unpack(databit@, width as int, height as int),
        datauchar.len() == width * height,
{
    let ghost p = databit@;
    let stride: usize = (width - 1) / 8 + 1;
    let mut datauchar: Vec<u8> = Vec::new();
    let mut row: usize = 0;
    assert(row * width == 0) by (nonlinear_arith)
        requires
            row == 0,
    ;
    while row < height
        invariant
            0 < width,
            row <= height,
            width * height <= usize::MAX,
            p == databit@,
            stride == row_bytes(width as int),
            databit.len() >= stride * height,
            datauchar.len() == row * width,
            forall|i: int|
                0 <= i < datauchar.len() ==> datauchar@[i] == sample_at(
                    p,
                    width as int,
                    i / (width as int),
                    i % (width as int),
                ),
        decreases height - row,
    {
        let mut col: usize = 0;
        while col < width
            invariant
                0 < width,
                row < height,
                col <= width,
                width * height <= usize::MAX,
                p == databit@,
                stride == row_bytes(width as int),
                databit.len() >= stride * height,
                datauchar.len() == row * width + col,
                forall|i: int|
                    0 <= i < datauchar.len() ==> datauchar@[i] == sample_at(
                        p,
                        width as int,
                        i / (width as int),
                        i % (width as int),
                    ),
            decreases width - col,
        {
            proof {
                lemma_grid_cell(stride as int, height as int, row as int, col as int / 8);
                lemma_grid_cell(width as int, height as int, row as int, col as int);
                assert(stride * height == height * stride) by (nonlinear_arith);
            }
            let byte: u8 = databit[row * stride + col / 8];
            let mask: u8 = bit_mask(col % 8);
            let sample: u8 = if byte & mask != 0 {
                0
            } else {
                1
            };
            assert(sample == sample_at(p, width as int, row as int, col as int));
            datauchar.push(sample);
            col += 1;
        }
        assert((row + 1) * width == row * width + width) by (nonlinear_arith);
        row += 1;
    }
    assert(row * width == width * height) by (nonlinear_arith)
        requires
            row == height,
    ;
    assert(datauchar@ =~= unpack(p, width as int, height as int));
    datauchar
}

} // verus!
