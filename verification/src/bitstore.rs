//! The bit-packed record store.
//!
//! Records of a fixed bit width are appended one after the other with no
//! byte alignment: bits accumulate across byte boundaries, least-significant
//! bit first within each byte.  A record is read back from the byte range
//! `[floor(index * W / 8), floor(((index + 1) * W - 1) / 8)]` by extracting
//! `W` bits at bit offset `(index * W) % 8` relative to that range.  Writing
//! and reading are exact inverses.

use vstd::prelude::*;

use crate::cells::{lemma_pow2_mono, spec_pow2};
use vstd::arithmetic::div_mod::{lemma_fundamental_div_mod, lemma_fundamental_div_mod_converse};

verus! {

/// The low `w` bits of `x`, least-significant first.
pub open spec fn bits_of_num(x: int, w: int) -> Seq<bool>
    decreases w,
{
    if w <= 0 {
        Seq::empty()
    } else {
        seq![x % 2 == 1] + bits_of_num(x / 2, w - 1)
    }
}

/// The number whose least-significant-first bit sequence is `s`.
pub open spec fn bits_to_num(s: Seq<bool>) -> int
    decreases s.len(),
{
    if s.len() == 0 {
        0
    } else {
        (if s[0] {
            1int
        } else {
            0int
        }) + 2 * bits_to_num(s.drop_first())
    }
}

/// The eight bits of one byte, least-significant first.
pub open spec fn bits_of_byte(b: u8) -> Seq<bool> {
    bits_of_num(b as int, 8)
}

/// The bit stream of a byte sequence: each byte contributes its bits
/// least-significant first.
pub open spec fn bytes_bits(s: Seq<u8>) -> Seq<bool>
    decreases s.len(),
{
    if s.len() == 0 {
        Seq::empty()
    } else {
        bytes_bits(s.drop_last()) + bits_of_byte(s.last())
    }
}

/// `bits_of_num` yields exactly `w` bits.
pub proof fn lemma_bits_of_num_len(x: int, w: int)
    requires
        w >= 0,
    ensures
        bits_of_num(x, w).len() == w,
    decreases w,
{
    if w > 0 {
        lemma_bits_of_num_len(x / 2, w - 1);
    }
}

/// A byte sequence carries eight bits per byte.
pub proof fn lemma_bytes_bits_len(s: Seq<u8>)
    ensures
        bytes_bits(s).len() == 8 * s.len(),
    decreases s.len(),
{
    if s.len() > 0 {
        lemma_bytes_bits_len(s.drop_last());
        lemma_bits_of_num_len(s.last() as int, 8);
    }
}

/// The value of a bit sequence is bounded by the matching power of two.
pub proof fn lemma_bits_to_num_bound(s: Seq<bool>)
    ensures
        0 <= bits_to_num(s) < spec_pow2(s.len() as int),
    decreases s.len(),
{
    if s.len() == 0 {
    } else {
        lemma_bits_to_num_bound(s.drop_first());
    }
}

/// Writing the low `w` bits of a value below `2^w` and reading them back
/// returns the value unchanged.
pub proof fn lemma_num_bits_round_trip(x: int, w: int)
    requires
        w >= 0,
        0 <= x < spec_pow2(w),
    ensures
        bits_to_num(bits_of_num(x, w)) == x,
    decreases w,
{
    if w == 0 {
    } else {
        lemma_fundamental_div_mod(x, 2);
        lemma_num_bits_round_trip(x / 2, w - 1);
        let s = bits_of_num(x, w);
        lemma_bits_of_num_len(x / 2, w - 1);
        assert(s.drop_first() =~= bits_of_num(x / 2, w - 1));
    }
}

/// Appending a byte appends its eight bits.
pub proof fn lemma_bytes_bits_push(s: Seq<u8>, b: u8)
    ensures
        bytes_bits(s.push(b)) =~= bytes_bits(s) + bits_of_byte(b),
{
    assert(s.push(b).drop_last() =~= s);
    assert(s.push(b).last() == b);
}

/// Bit `i` of the stream is bit `i % 8` of byte `i / 8`.
pub proof fn lemma_bytes_bits_index(s: Seq<u8>, i: int)
    requires
        0 <= i < 8 * s.len(),
    ensures
        bytes_bits(s)[i] == bits_of_byte(s[i / 8])[i % 8],
    decreases s.len(),
{
    lemma_bytes_bits_len(s);
    lemma_bytes_bits_len(s.drop_last());
    lemma_bits_of_num_len(s.last() as int, 8);
    let n = s.len() as int;
    if i < 8 * (n - 1) {
        lemma_bytes_bits_index(s.drop_last(), i);
        assert(s.drop_last()[i / 8] == s[i / 8]) by {
            assert(0 <= i / 8 < n - 1) by {
                lemma_fundamental_div_mod(i, 8);
            }
        }
    } else {
        assert(bytes_bits(s)[i] == bits_of_byte(s.last())[i - 8 * (n - 1)]);
        lemma_fundamental_div_mod_converse(i, 8, n - 1, i - 8 * (n - 1));
        assert(s[i / 8] == s.last());
    }
}

/// The bits of a slice of a byte sequence are the matching bits of the
/// whole sequence.
pub proof fn lemma_chunk_bits(file: Seq<u8>, a: int, b: int, i: int)
    requires
        0 <= a <= b <= file.len(),
        0 <= i < 8 * (b - a),
    ensures
        bytes_bits(file.subrange(a, b))[i] == bytes_bits(file)[8 * a + i],
{
    let chunk = file.subrange(a, b);
    lemma_bytes_bits_index(chunk, i);
    lemma_bytes_bits_index(file, 8 * a + i);
    lemma_fundamental_div_mod(i, 8);
    lemma_fundamental_div_mod_converse(8 * a + i, 8, a + i / 8, i % 8);
    assert(chunk[i / 8] == file[a + i / 8]);
}

/// The bit stream of `count` records of width `w` each, stored one after
/// the other.
pub open spec fn records_bits(rs: Seq<u64>, w: int) -> Seq<bool>
    decreases rs.len(),
{
    if rs.len() == 0 {
        Seq::empty()
    } else {
        records_bits(rs.drop_last(), w) + bits_of_num(rs.last() as int, w)
    }
}

/// `count` records of width `w` occupy `count * w` bits.
pub proof fn lemma_records_bits_len(rs: Seq<u64>, w: int)
    requires
        w >= 0,
    ensures
        records_bits(rs, w).len() == rs.len() * w,
    decreases rs.len(),
{
    if rs.len() > 0 {
        lemma_records_bits_len(rs.drop_last(), w);
        lemma_bits_of_num_len(rs.last() as int, w);
        assert((rs.len() - 1) * w + w == rs.len() * w) by (nonlinear_arith);
    }
}

/// Record round trip: in a stream of fixed-width records, the bits at
/// record index `i` are exactly the bits of record `i`, and their value is
/// record `i` itself whenever it fits the width.
pub proof fn lemma_store_round_trip(rs: Seq<u64>, w: int, i: int)
    requires
        w >= 1,
        0 <= i < rs.len(),
        forall|j: int| 0 <= j < rs.len() ==> (#[trigger] rs[j]) < spec_pow2(w),
    ensures
        records_bits(rs, w).subrange(i * w, (i + 1) * w) =~= bits_of_num(rs[i] as int, w),
        bits_to_num(records_bits(rs, w).subrange(i * w, (i + 1) * w)) == rs[i],
    decreases rs.len(),
{
    lemma_records_bits_len(rs, w);
    lemma_records_bits_len(rs.drop_last(), w);
    lemma_bits_of_num_len(rs.last() as int, w);
    let n = rs.len() as int;
    if i == n - 1 {
        assert(records_bits(rs, w).subrange(i * w, (i + 1) * w) =~= bits_of_num(
            rs[i] as int,
            w,
        )) by {
            assert((n - 1) * w + w == n * w) by (nonlinear_arith);
        }
    } else {
        lemma_store_round_trip(rs.drop_last(), w, i);
        assert((i + 1) * w <= (n - 1) * w) by (nonlinear_arith)
            requires
                i + 1 <= n - 1 && w >= 1,
        ;
        assert(i * w >= 0) by (nonlinear_arith)
            requires
                i >= 0 && w >= 1,
        ;
        let whole = records_bits(rs, w);
        let prefix = records_bits(rs.drop_last(), w);
        assert((i + 1) * w == i * w + w) by (nonlinear_arith);
        assert(whole == prefix + bits_of_num(rs.last() as int, w));
        assert forall|k: int| 0 <= k < w implies #[trigger] whole.subrange(i * w, (i + 1) * w)[k]
            == prefix.subrange(i * w, (i + 1) * w)[k] by {
            assert(whole[i * w + k] == prefix[i * w + k]);
        }
        assert(whole.subrange(i * w, (i + 1) * w) =~= prefix.subrange(i * w, (i + 1) * w));
        assert(rs.drop_last()[i] == rs[i]);
    }
    lemma_num_bits_round_trip(rs[i] as int, w);
}

/// An append-only bit buffer: the write half of the store.  Bits accumulate
/// least-significant first; every eight bits close a byte.
pub struct BitWriter {
    bytes: Vec<u8>,
    cur: Vec<bool>,
}

impl View for BitWriter {
    type V = Seq<bool>;

    /// All bits appended so far, in order.
    closed spec fn view(&self) -> Seq<bool> {
        bytes_bits(self.bytes@) + self.cur@
    }
}

impl BitWriter {
    /// A partial byte never holds a full eight bits.
    pub closed spec fn wf(&self) -> bool {
        self.cur@.len() < 8
    }

    /// The bits not yet part of a full byte.
    pub closed spec fn spec_pending(&self) -> int {
        self.cur@.len() as int
    }

    /// An empty writer.
    pub fn new() -> (r: BitWriter)
        ensures
            r.wf(),
            r@ =~= Seq::<bool>::empty(),
    {
        let w = BitWriter { bytes: Vec::new(), cur: Vec::new() };
        proof {
            assert(w.bytes@ =~= Seq::<u8>::empty());
            assert(bytes_bits(w.bytes@) =~= Seq::<bool>::empty());
        }
        w
    }

    /// Append one bit.
    pub fn push_bit(&mut self, b: bool)
        requires
            old(self).wf(),
            old(self)@.len() < 0x1000_0000_0000,
        ensures
            final(self).wf(),
            final(self)@ =~= old(self)@.push(b),
    {
        self.cur.push(b);
        if self.cur.len() == 8 {
            let byte = byte_of_bits(&self.cur);
            let ghost old_bytes = self.bytes@;
            let ghost cur_bits = self.cur@;
            self.bytes.push(byte);
            self.cur.clear();
            proof {
                lemma_bytes_bits_push(old_bytes, byte);
                assert(bytes_bits(self.bytes@) =~= bytes_bits(old_bytes) + cur_bits);
            }
        }
    }

    /// Append the low `w` bits of `rec`, least-significant first.
    pub fn push_record(&mut self, rec: u64, w: usize)
        requires
            old(self).wf(),
            w <= 56,
            old(self)@.len() + w < 0x1000_0000_0000,
        ensures
            final(self).wf(),
            final(self)@ =~= old(self)@ + bits_of_num(rec as int, w as int),
    {
        let mut x = rec;
        let mut i: usize = 0;
        proof {
            lemma_bits_of_num_len(rec as int, w as int);
        }
        while i < w
            invariant
                i <= w <= 56,
                self.wf(),
                old(self)@.len() + w < 0x1000_0000_0000,
                bits_of_num(rec as int, w as int).len() == w,
                self@ =~= old(self)@ + bits_of_num(rec as int, w as int).take(i as int),
                bits_of_num(x as int, (w - i) as int) =~= bits_of_num(rec as int, w as int).skip(
                    i as int,
                ),
            decreases w - i,
        {
            let b = x % 2 == 1;
            proof {
                lemma_bits_of_num_len(x as int / 2, (w - i - 1) as int);
                assert(bits_of_num(x as int, (w - i) as int)[0] == b);
                assert(bits_of_num(rec as int, w as int)[i as int] == b);
                assert(bits_of_num(rec as int, w as int).take(i + 1) =~= bits_of_num(
                    rec as int,
                    w as int,
                ).take(i as int).push(b));
                assert(bits_of_num(x as int, (w - i) as int).drop_first() =~= bits_of_num(
                    x as int / 2,
                    (w - i - 1) as int,
                ));
                assert(bits_of_num(rec as int, w as int).skip(i as int).drop_first()
                    =~= bits_of_num(rec as int, w as int).skip(i + 1));
            }
            self.push_bit(b);
            x = x / 2;
            i = i + 1;
        }
        proof {
            assert(bits_of_num(rec as int, w as int).take(w as int) =~= bits_of_num(
                rec as int,
                w as int,
            ));
        }
    }

    /// The bits appended so far.
    pub fn num_bits(&self) -> (r: u64)
        requires
            self@.len() < 0x1000_0000_0000,
        ensures
            r == self@.len(),
    {
        proof {
            lemma_bytes_bits_len(self.bytes@);
        }
        (self.bytes.len() as u64) * 8 + (self.cur.len() as u64)
    }

    /// Close the stream: pad the last byte with zero bits and hand out the
    /// packed bytes.  Every appended bit is at its position in the result;
    /// at most seven zero padding bits follow.
    pub fn finish(self) -> (r: Vec<u8>)
        requires
            self.wf(),
        ensures
            self@.len() <= 8 * r@.len() < self@.len() + 8,
            bytes_bits(r@).take(self@.len() as int) =~= self@,
            forall|i: int|
                self@.len() <= i < 8 * r@.len() ==> !(#[trigger] bytes_bits(r@)[i]),
    {
        let BitWriter { mut bytes, mut cur } = self;
        let ghost all = bytes_bits(bytes@) + cur@;
        let ghost pending = cur@.len() as int;
        proof {
            lemma_bytes_bits_len(bytes@);
        }
        if cur.len() > 0 {
            let ghost cur0 = cur@;
            while cur.len() < 8
                invariant
                    cur0.len() <= cur@.len() <= 8,
                    cur@.take(cur0.len() as int) =~= cur0,
                    forall|i: int| cur0.len() <= i < cur@.len() ==> !(#[trigger] cur@[i]),
                decreases 8 - cur.len(),
            {
                cur.push(false);
            }
            let byte = byte_of_bits(&cur);
            let ghost old_bytes = bytes@;
            bytes.push(byte);
            proof {
                lemma_bytes_bits_push(old_bytes, byte);
                lemma_bytes_bits_len(bytes@);
                assert(bytes_bits(bytes@) =~= bytes_bits(old_bytes) + cur@);
                assert(bytes_bits(bytes@).take(all.len() as int) =~= all);
            }
        } else {
            proof {
                assert(bytes_bits(bytes@).take(all.len() as int) =~= all);
            }
        }
        bytes
    }
}

/// The byte whose bits, least-significant first, are the eight booleans of
/// `bits`.
#[verifier::rlimit(100)]
fn byte_of_bits(bits: &Vec<bool>) -> (r: u8)
    requires
        bits@.len() == 8,
    ensures
        bits_of_byte(r) =~= bits@,
{
    let b0: u8 = if bits[0] { 1 } else { 0 };
    let b1: u8 = if bits[1] { 1 } else { 0 };
    let b2: u8 = if bits[2] { 1 } else { 0 };
    let b3: u8 = if bits[3] { 1 } else { 0 };
    let b4: u8 = if bits[4] { 1 } else { 0 };
    let b5: u8 = if bits[5] { 1 } else { 0 };
    let b6: u8 = if bits[6] { 1 } else { 0 };
    let b7: u8 = if bits[7] { 1 } else { 0 };
    let r: u8 = b0 + 2 * b1 + 4 * b2 + 8 * b3 + 16 * b4 + 32 * b5 + 64 * b6 + 128 * b7;
    proof {
        let v = r as int;
        assert(v % 2 == b0 && v / 2 == b1 + 2 * b2 + 4 * b3 + 8 * b4 + 16 * b5 + 32 * b6 + 64
            * b7);
        assert(bits_of_num(v, 8) =~= bits@) by {
            reveal_with_fuel(bits_of_num, 9);
        }
    }
    r
}

/// Bit `j` of one byte, least-significant first.
#[verifier::rlimit(50)]
fn bit_of_byte(b: u8, j: usize) -> (r: bool)
    requires
        j < 8,
    ensures
        r == bits_of_byte(b)[j as int],
{
    proof {
        assert(bits_of_byte(b) =~= seq![
            b as int % 2 == 1,
            (b as int) / 2 % 2 == 1,
            (b as int) / 4 % 2 == 1,
            (b as int) / 8 % 2 == 1,
            (b as int) / 16 % 2 == 1,
            (b as int) / 32 % 2 == 1,
            (b as int) / 64 % 2 == 1,
            (b as int) / 128 % 2 == 1,
        ]) by {
            reveal_with_fuel(bits_of_num, 9);
        }
    }
    if j == 0 {
        b % 2 == 1
    } else if j == 1 {
        (b / 2) % 2 == 1
    } else if j == 2 {
        (b / 4) % 2 == 1
    } else if j == 3 {
        (b / 8) % 2 == 1
    } else if j == 4 {
        (b / 16) % 2 == 1
    } else if j == 5 {
        (b / 32) % 2 == 1
    } else if j == 6 {
        (b / 64) % 2 == 1
    } else {
        (b / 128) % 2 == 1
    }
}

/// Bit `bit_ind` of the bit stream of `buf`.
pub fn get_bit(buf: &[u8], bit_ind: usize) -> (r: bool)
    requires
        bit_ind < 8 * buf@.len(),
    ensures
        r == bytes_bits(buf@)[bit_ind as int],
{
    let byte = buf[bit_ind / 8];
    let r = bit_of_byte(byte, bit_ind % 8);
    proof {
        lemma_bytes_bits_index(buf@, bit_ind as int);
    }
    r
}

/// The value of the `w` bits starting at bit offset `bit_off` of `buf`.
pub fn read_record_in(buf: &[u8], bit_off: usize, w: usize) -> (r: u64)
    requires
        w <= 56,
        buf@.len() <= 0x1000_0000,
        bit_off + w <= 8 * buf@.len(),
    ensures
        r == bits_to_num(bytes_bits(buf@).subrange(bit_off as int, bit_off + w)),
        r < spec_pow2(w as int),
{
    proof {
        lemma_bytes_bits_len(buf@);
    }
    let ghost bits = bytes_bits(buf@);
    let mut r: u64 = 0;
    let mut j: usize = w;
    while j > 0
        invariant
            j <= w <= 56,
            buf@.len() <= 0x1000_0000,
            bit_off + w <= 8 * buf@.len(),
            bits == bytes_bits(buf@),
            bits.len() == 8 * buf@.len(),
            r == bits_to_num(bits.subrange(bit_off + j, bit_off + w)),
            r < spec_pow2((w - j) as int),
        decreases j,
    {
        proof {
            lemma_pow2_mono((w - j) as int, 55);
            assert(spec_pow2(55) == 0x80_0000_0000_0000) by {
                reveal_with_fuel(spec_pow2, 56);
            }
        }
        j = j - 1;
        let b = get_bit(buf, bit_off + j);
        proof {
            let sub = bits.subrange(bit_off + j, bit_off + w as int);
            assert(sub[0] == bits[bit_off + j]);
            assert(sub.drop_first() =~= bits.subrange(bit_off + j + 1, bit_off + w as int));
        }
        r = 2 * r + (if b {
            1
        } else {
            0
        });
    }
    proof {
        lemma_bits_to_num_bound(bits.subrange(bit_off as int, bit_off + w as int));
    }
    r
}

/// The inclusive byte range that record `index` of width `w` occupies, and
/// the record's bit offset relative to the start of that range: the bytes
/// that a reader must fetch before extracting the record.
pub fn record_byte_range(index: u64, w: u64) -> (r: (u64, u64, u64))
    requires
        1 <= w,
        (index + 1) * w <= 0x1000_0000_0000,
    ensures
        r.0 == (index * w) / 8,
        r.1 == ((index + 1) * w - 1) / 8,
        r.2 == (index * w) % 8,
        r.0 <= r.1,
        8 * r.0 + r.2 == index * w,
{
    proof {
        assert(index * w <= (index + 1) * w - 1 && index * w >= 0 && index + 1
            <= 0x1000_0000_0000 && (index + 1) * w <= 0x1000_0000_0000) by (nonlinear_arith)
            requires
                w >= 1 && index >= 0 && (index + 1) * w <= 0x1000_0000_0000,
        ;
        vstd::arithmetic::div_mod::lemma_div_is_ordered(
            (index * w) as int,
            ((index + 1) * w - 1) as int,
            8,
        );
        lemma_fundamental_div_mod((index * w) as int, 8);
    }
    let start_bit = index * w;
    let stop_bit = (index + 1) * w - 1;
    (start_bit / 8, stop_bit / 8, start_bit % 8)
}

/// The bits of `n`, least-significant first, as a bit vector of the given
/// width.
pub fn num_to_bits(n: u64, width: usize) -> (r: Vec<bool>)
    requires
        width <= 56,
    ensures
        r@ =~= bits_of_num(n as int, width as int),
{
    proof {
        lemma_bits_of_num_len(n as int, width as int);
    }
    let mut r: Vec<bool> = Vec::new();
    let mut x = n;
    let mut i: usize = 0;
    while i < width
        invariant
            i <= width <= 56,
            bits_of_num(n as int, width as int).len() == width,
            r@ =~= bits_of_num(n as int, width as int).take(i as int),
            bits_of_num(x as int, (width - i) as int) =~= bits_of_num(n as int, width as int).skip(
                i as int,
            ),
        decreases width - i,
    {
        let b = x % 2 == 1;
        proof {
            lemma_bits_of_num_len(x as int / 2, (width - i - 1) as int);
            assert(bits_of_num(x as int, (width - i) as int)[0] == b);
            assert(bits_of_num(n as int, width as int)[i as int] == b);
            assert(bits_of_num(n as int, width as int).take(i + 1) =~= bits_of_num(
                n as int,
                width as int,
            ).take(i as int).push(b));
            assert(bits_of_num(x as int, (width - i) as int).drop_first() =~= bits_of_num(
                x as int / 2,
                (width - i - 1) as int,
            ));
            assert(bits_of_num(n as int, width as int).skip(i as int).drop_first() =~= bits_of_num(
                n as int,
                width as int,
            ).skip(i + 1));
        }
        r.push(b);
        x = x / 2;
        i = i + 1;
    }
    proof {
        assert(bits_of_num(n as int, width as int).take(width as int) =~= bits_of_num(
            n as int,
            width as int,
        ));
    }
    r
}

/// The value whose least-significant-first bits are `bits`.
pub fn get_ind_from_bits(bits: &[bool]) -> (r: usize)
    requires
        bits@.len() <= 31,
    ensures
        r == bits_to_num(bits@),
        r < spec_pow2(bits@.len() as int),
{
    let n = bits.len();
    let mut r: usize = 0;
    let mut j: usize = n;
    while j > 0
        invariant
            j <= n == bits@.len() <= 31,
            r == bits_to_num(bits@.subrange(j as int, n as int)),
            r < spec_pow2((n - j) as int),
        decreases j,
    {
        proof {
            lemma_pow2_mono((n - j) as int, 31);
            assert(spec_pow2(31) == 0x8000_0000) by {
                reveal_with_fuel(spec_pow2, 32);
            }
        }
        j = j - 1;
        let b = bits[j];
        proof {
            let sub = bits@.subrange(j as int, n as int);
            assert(sub[0] == bits@[j as int]);
            assert(sub.drop_first() =~= bits@.subrange(j + 1, n as int));
        }
        r = 2 * r + (if b {
            1
        } else {
            0
        });
    }
    proof {
        assert(bits@.subrange(0, n as int) =~= bits@);
        lemma_bits_to_num_bound(bits@);
    }
    r
}

/// Read record `index` of width `w` from the packed bytes `buf`.
pub fn read_record(buf: &[u8], index: u64, w: usize) -> (r: u64)
    requires
        1 <= w <= 56,
        buf@.len() <= 0x1000_0000,
        (index + 1) * (w as int) <= 8 * buf@.len(),
    ensures
        r == bits_to_num(
            bytes_bits(buf@).subrange((index * w) as int, (index * w) + (w as int)),
        ),
        r < spec_pow2(w as int),
{
    proof {
        assert((index * (w as int)) + w == (index + 1) * (w as int) && index * (w as int) >= 0
            && index < 0x8000_0000 && index * (w as int) <= 0x8000_0000) by (nonlinear_arith)
            requires
                (index + 1) * (w as int) <= 8 * 0x1000_0000 && 1 <= w && index >= 0,
        ;
    }
    let bit_off = (index as usize) * w;
    read_record_in(buf, bit_off, w)
}

} // verus!
