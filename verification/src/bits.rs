//! One-bit-per-pixel image buffers and their packing into bytes.
use vstd::prelude::*;

verus! {

/// The number read from `n` bits of `bits`, starting at `start`, most
/// significant bit first; positions past the end of `bits` read as 0.
pub open spec fn bits_value(bits: Seq<bool>, start: int, n: nat) -> nat
    decreases n,
{
    if n == 0 {
        0
    } else {
        let b: nat = if 0 <= start + n - 1 < bits.len() && bits[start + n - 1] {
            1
        } else {
            0
        };
        2 * bits_value(bits, start, (n - 1) as nat) + b
    }
}

/// The byte that holds `bits[8 * i .. 8 * i + 8]`, first bit in the most
/// significant place, padded with zeros past the end.
pub open spec fn packed_byte(bits: Seq<bool>, i: int) -> nat {
    bits_value(bits, 8 * i, 8)
}

/// Bit `pos` of `value`, counting from the least significant bit.
pub open spec fn bit_at(value: nat, pos: nat) -> bool
    decreases pos,
{
    if pos == 0 {
        value % 2 == 1
    } else {
        bit_at(value / 2, (pos - 1) as nat)
    }
}

/// The number of bytes that hold `n` bits.
pub open spec fn bytes_for_bits(n: nat) -> nat {
    (n + 7) / 8
}

/// `rows` packed row after row, each row padded to whole bytes.
pub open spec fn packed_rows(rows: Seq<Seq<bool>>) -> Seq<u8>
    decreases rows.len(),
{
    if rows.len() == 0 {
        Seq::empty()
    } else {
        packed_rows(rows.drop_last()) + packed_seq(rows.last())
    }
}

/// `bits` packed eight to a byte.
pub open spec fn packed_seq(bits: Seq<bool>) -> Seq<u8> {
    Seq::new(bytes_for_bits(bits.len()), |i: int| packed_byte(bits, i) as u8)
}

pub proof fn lemma_bits_value_bound(bits: Seq<bool>, start: int, n: nat)
    ensures
        bits_value(bits, start, n) < vstd::arithmetic::power2::pow2(n),
    decreases n,
{
    if n > 0 {
        lemma_bits_value_bound(bits, start, (n - 1) as nat);
        vstd::arithmetic::power2::lemma_pow2_unfold(n);
    } else {
        vstd::arithmetic::power2::lemma2_to64();
    }
}

/// Reading bit `n - 1 - j` of the number made of `n` bits gives back bit `j`.
pub proof fn lemma_bits_value_bit(bits: Seq<bool>, start: int, n: nat, j: nat)
    requires
        j < n,
    ensures
        bit_at(bits_value(bits, start, n), (n - 1 - j) as nat) == (0 <= start + j < bits.len()
            && bits[start + j]),
    decreases n,
{
    let v = bits_value(bits, start, n);
    let prev = bits_value(bits, start, (n - 1) as nat);
    if j == n - 1 {
    } else {
        assert(v / 2 == prev);
        lemma_bits_value_bit(bits, start, (n - 1) as nat, j);
        assert(bit_at(v, (n - 1 - j) as nat) == bit_at(v / 2, (n - 2 - j) as nat));
    }
}

/// Packing keeps every bit: bit `k` of the input is bit `7 - k % 8` of byte
/// `k / 8`, and the padding bits of the last byte are zero.
pub proof fn lemma_packing_keeps_bits(bits: Seq<bool>, k: int)
    requires
        0 <= k < 8 * bytes_for_bits(bits.len()),
    ensures
        bit_at(packed_byte(bits, k / 8), (7 - k % 8) as nat) == (k < bits.len() && bits[k]),
{
    lemma_bits_value_bit(bits, 8 * (k / 8), 8, (k % 8) as nat);
    assert(8 * (k / 8) + k % 8 == k);
}

/// A `height` by `width` buffer of unlit pixels.
pub fn new_buffer_bools(width: u32, height: u32) -> (buffer: Vec<Vec<bool>>)
    ensures
        buffer@.len() == height,
        forall|r: int| 0 <= r < height ==> #[trigger] buffer@[r]@.len() == width,
        forall|r: int, c: int| 0 <= r < height && 0 <= c < width ==> !#[trigger] buffer@[r]@[c],
{
    let mut buffer: Vec<Vec<bool>> = Vec::new();
    let mut r: u32 = 0;
    while r < height
        invariant
            r <= height,
            buffer@.len() == r,
            forall|i: int| 0 <= i < r ==> #[trigger] buffer@[i]@.len() == width,
            forall|i: int, c: int| 0 <= i < r && 0 <= c < width ==> !#[trigger] buffer@[i]@[c],
        decreases height - r,
    {
        let mut row: Vec<bool> = Vec::new();
        let mut c: u32 = 0;
        while c < width
            invariant
                c <= width,
                row@.len() == c,
                forall|j: int| 0 <= j < c ==> !#[trigger] row@[j],
            decreases width - c,
        {
            row.push(false);
            c = c + 1;
        }
        buffer.push(row);
        r = r + 1;
    }
    buffer
}

/// Bit `j` of byte `b`, counting from the least significant bit.
pub open spec fn byte_bit(b: u8, j: nat) -> bool {
    bit_at(b as nat, j)
}

/// Where the bytes of row `r` begin when every row before it takes
/// `ceil(len / 8)` bytes.
pub open spec fn row_offset(rows: Seq<Vec<bool>>, r: int) -> int
    decreases r,
{
    if r <= 0 {
        0
    } else {
        row_offset(rows, r - 1) + (rows[r - 1]@.len() + 7) / 8
    }
}

/// The bytes of `data` that belong to row `r`.
pub open spec fn row_bytes(data: Seq<u8>, rows: Seq<Vec<bool>>, r: int) -> Seq<u8> {
    data.subrange(row_offset(rows, r), row_offset(rows, r + 1))
}

proof fn lemma_row_offset_monotone(rows: Seq<Vec<bool>>, r1: int, r2: int)
    requires
        0 <= r1 <= r2,
    ensures
        0 <= row_offset(rows, r1) <= row_offset(rows, r2),
    decreases r2,
{
    if r2 > 0 {
        if r1 < r2 {
            lemma_row_offset_monotone(rows, r1, r2 - 1);
        } else {
            lemma_row_offset_monotone(rows, 0, r2 - 1);
        }
    }
}

/// Packs a row of pixels eight to a byte, the first pixel in the most
/// significant bit; a last partial byte is padded with zeros.
pub fn vec_u8_from_vec_bool(v: Vec<bool>) -> (out: Vec<u8>)
    ensures
        out@ == packed_seq(v@),
        out@.len() == (v@.len() + 7) / 8,
        forall|i: int, j: nat|
            0 <= i < out@.len() && j < 8 ==> #[trigger] byte_bit(out@[i], j) == (8 * i + 7 - j
                < v@.len() && v@[8 * i + 7 - j]),
{
    pack_bits(&v)
}

fn pack_bits(v: &Vec<bool>) -> (out: Vec<u8>)
    ensures
        out@ == packed_seq(v@),
        out@.len() == (v@.len() + 7) / 8,
        forall|i: int, j: nat|
            0 <= i < out@.len() && j < 8 ==> #[trigger] byte_bit(out@[i], j) == (8 * i + 7 - j
                < v@.len() && v@[8 * i + 7 - j]),
{
    let n = v.len();
    let n_bytes: usize = if n % 8 == 0 {
        n / 8
    } else {
        n / 8 + 1
    };
    assert(n_bytes == bytes_for_bits(n as nat));
    let mut out: Vec<u8> = Vec::new();
    let mut b: usize = 0;
    while b < n_bytes
        invariant
            n == v@.len(),
            n_bytes == bytes_for_bits(n as nat),
            b <= n_bytes,
            out@.len() == b,
            forall|i: int| 0 <= i < b ==> #[trigger] out@[i] == packed_byte(v@, i) as u8,
        decreases n_bytes - b,
    {
        let base: usize = b * 8;
        let mut byte: u8 = 0;
        let mut j: usize = 0;
        while j < 8
            invariant
                n == v@.len(),
                base == 8 * b,
                base <= n,
                j <= 8,
                byte == bits_value(v@, base as int, j as nat),
            decreases 8 - j,
        {
            proof {
                lemma_bits_value_bound(v@, base as int, j as nat);
                vstd::arithmetic::power2::lemma2_to64();
                if j < 7 {
                    vstd::arithmetic::power2::lemma_pow2_strictly_increases(j as nat, 7);
                }
            }
            let bit: u8 = if j < n - base && v[base + j] {
                1
            } else {
                0
            };
            byte = byte * 2 + bit;
            j = j + 1;
        }
        out.push(byte);
        b = b + 1;
    }
    assert(out@ =~= packed_seq(v@));
    proof {
        assert forall|i: int, j: nat| 0 <= i < out@.len() && j < 8 implies #[trigger] byte_bit(
            out@[i],
            j,
        ) == (8 * i + 7 - j < v@.len() && v@[8 * i + 7 - j]) by {
            lemma_bits_value_bound(v@, 8 * i, 8);
            vstd::arithmetic::power2::lemma2_to64();
            assert(out@[i] as nat == bits_value(v@, 8 * i, 8));
            lemma_bits_value_bit(v@, 8 * i, 8, (7 - j) as nat);
        }
    }
    out
}

/// The image data of a buffer: every row packed, rows one after another.
pub fn packed_image_data(buffer: &Vec<Vec<bool>>) -> (data: Vec<u8>)
    ensures
        data@ == packed_rows(buffer@.map_values(|row: Vec<bool>| row@)),
        data@.len() == row_offset(buffer@, buffer@.len() as int),
        forall|r: int, i: int, j: nat|
            0 <= r < buffer@.len() && 0 <= i < (buffer@[r]@.len() + 7) / 8 && j < 8
                ==> #[trigger] byte_bit(row_bytes(data@, buffer@, r)[i], j) == (8 * i + 7 - j
                < buffer@[r]@.len() && buffer@[r]@[8 * i + 7 - j]),
{
    let ghost rows = buffer@.map_values(|row: Vec<bool>| row@);
    let mut data: Vec<u8> = Vec::new();
    let mut r: usize = 0;
    while r < buffer.len()
        invariant
            r <= buffer@.len(),
            rows == buffer@.map_values(|row: Vec<bool>| row@),
            data@ == packed_rows(rows.take(r as int)),
            data@.len() == row_offset(buffer@, r as int),
            forall|q: int, i: int, j: nat|
                0 <= q < r && 0 <= i < (buffer@[q]@.len() + 7) / 8 && j < 8 ==> #[trigger] byte_bit(
                    row_bytes(data@, buffer@, q)[i],
                    j,
                ) == (8 * i + 7 - j < buffer@[q]@.len() && buffer@[q]@[8 * i + 7 - j]),
        decreases buffer@.len() - r,
    {
        let ghost before = data@;
        let mut packed = pack_bits(&buffer[r]);
        let ghost new_bytes = packed@;
        data.append(&mut packed);
        assert(rows.take(r + 1).drop_last() =~= rows.take(r as int));
        proof {
            assert(row_offset(buffer@, r + 1) == row_offset(buffer@, r as int) + (buffer@[r as int]@.len()
                + 7) / 8);
            assert(row_bytes(data@, buffer@, r as int) =~= new_bytes);
            assert forall|q: int, i: int, j: nat|
                0 <= q < r + 1 && 0 <= i < (buffer@[q]@.len() + 7) / 8 && j < 8 implies #[trigger] byte_bit(
                row_bytes(data@, buffer@, q)[i],
                j,
            ) == (8 * i + 7 - j < buffer@[q]@.len() && buffer@[q]@[8 * i + 7 - j]) by {
                if q < r {
                    lemma_row_offset_monotone(buffer@, q + 1, r as int);
                    lemma_row_offset_monotone(buffer@, q, q + 1);
                    assert(row_bytes(data@, buffer@, q) =~= row_bytes(before, buffer@, q));
                }
            }
        }
        r = r + 1;
    }
    assert(rows.take(buffer@.len() as int) =~= rows);
    data
}

} // verus!
