//! The bit-level model of a packed buffer, and the packer that fills one:
//! 5-bit symbols least-significant bit first, with byte-aligned raw splices.
use vstd::prelude::*;

verus! {

/// Bit `k` (0 = least significant) of a byte.
pub open spec fn bit(x: u8, k: int) -> bool {
    (x >> (k as u8)) & 1u8 == 1u8
}

/// Bit `k` of the packer's 16-bit accumulator.
pub open spec fn wbit(x: u16, k: int) -> bool {
    (x >> (k as u16)) & 1u16 == 1u16
}

/// The eight bits of a byte, least significant first.
pub open spec fn byte_bits(x: u8) -> Seq<bool> {
    Seq::new(8, |k: int| bit(x, k))
}

/// A byte sequence read as a bit sequence, each byte least significant bit first.
pub open spec fn bits_of(bytes: Seq<u8>) -> Seq<bool> {
    Seq::new(8 * bytes.len(), |i: int| bit(bytes[i / 8], i % 8))
}

/// The five bits of a symbol, least significant first.
pub open spec fn sym_bits(v: u8) -> Seq<bool> {
    Seq::new(5, |k: int| bit(v, k))
}

/// The number a bit sequence stands for, least significant bit first.
pub open spec fn bits_value(b: Seq<bool>) -> nat
    decreases b.len(),
{
    if b.len() == 0 {
        0
    } else {
        (if b[0] {
            1nat
        } else {
            0nat
        }) + 2 * bits_value(b.drop_first())
    }
}

/// A bit sequence followed by the zero bits that bring it to a whole number of bytes.
pub open spec fn pad(s: Seq<bool>) -> Seq<bool> {
    s + Seq::new(((8 - s.len() % 8) % 8) as nat, |i: int| false)
}

/// The symbol stored at bit position `p` of a buffer.
pub open spec fn sym_at(bytes: Seq<u8>, p: int) -> nat {
    bits_value(bits_of(bytes).subrange(p, p + 5))
}

/// One emitted item: a symbol, and the raw bytes spliced in right after it
/// (none for almost every symbol).
pub type Token = (u8, Seq<u8>);

/// The bit stream after one more token: its symbol, then, if it carries raw
/// bytes, padding to a byte boundary and those bytes.
pub open spec fn extend(s: Seq<bool>, t: Token) -> Seq<bool> {
    if t.1.len() == 0 {
        s + sym_bits(t.0)
    } else {
        pad(s + sym_bits(t.0)) + bits_of(t.1)
    }
}

/// The bit stream of a token sequence.
pub open spec fn stream(ts: Seq<Token>) -> Seq<bool>
    decreases ts.len(),
{
    if ts.len() == 0 {
        Seq::empty()
    } else {
        extend(stream(ts.drop_last()), ts.last())
    }
}

proof fn lemma_or_shift(c: u16, v: u16, o: u16, k: u16)
    requires
        o < 8,
        v < 32,
        c >> o == 0,
        k < 16,
    ensures
        k < o ==> ((c | (v << o)) >> k) & 1 == (c >> k) & 1,
        o <= k < o + 5 ==> ((c | (v << o)) >> k) & 1 == (v >> ((k - o) as u16)) & 1,
        (c | (v << o)) >> ((o + 5) as u16) == 0,
{
    assert(k < o ==> ((c | (v << o)) >> k) & 1 == (c >> k) & 1) by (bit_vector)
        requires
            o < 8,
            v < 32,
            c >> o == 0,
    ;
    assert(o <= k < o + 5 ==> ((c | (v << o)) >> k) & 1 == (v >> ((k - o) as u16)) & 1)
        by (bit_vector)
        requires
            o < 8,
            v < 32,
            c >> o == 0,
    ;
    assert((c | (v << o)) >> ((o + 5) as u16) == 0) by (bit_vector)
        requires
            o < 8,
            v < 32,
            c >> o == 0,
    ;
}

proof fn lemma_low_byte(c: u16, k: u16)
    requires
        k < 8,
    ensures
        bit((c & 0xff) as u8, k as int) == wbit(c, k as int),
        wbit(c >> 8, k as int) == wbit(c, k + 8),
        ((((c & 0xff) as u8) >> (k as u8)) & 1u8 == 1u8) == ((c >> k) & 1 == 1),
        ((c >> 8) >> k) & 1 == (c >> ((k + 8) as u16)) & 1,
{
    let b = (c & 0xff) as u8;
    assert(b == (c & 0xff) as u8);
    assert((k as int) as u8 == k as u8);
    assert((k as int) as u16 == k);
    assert(((k + 8) as int) as u16 == (k + 8) as u16);
    assert(((b >> (k as u8)) & 1u8 == 1u8) == ((c >> k) & 1 == 1)) by (bit_vector)
        requires
            b == (c & 0xff) as u8,
            k < 8,
    ;
    assert(((c >> 8) >> k) & 1 == (c >> ((k + 8) as u16)) & 1) by (bit_vector)
        requires
            k < 8,
    ;
}

proof fn lemma_u8_bit_u16(x: u8, k: u16)
    requires
        k < 8,
    ensures
        bit(x, k as int) == wbit(x as u16, k as int),
        bit(x, k as int) == (((x as u16) >> k) & 1u16 == 1u16),
{
    assert((k as int) as u8 == k as u8);
    assert((k as int) as u16 == k);
    assert(((x >> (k as u8)) & 1u8 == 1u8) == (((x as u16) >> k) & 1u16 == 1u16)) by (bit_vector)
        requires
            k < 8,
    ;
}

/// Appending a byte appends its eight bits.
pub proof fn lemma_bits_of_push(s: Seq<u8>, b: u8)
    ensures
        bits_of(s.push(b)) =~= bits_of(s) + byte_bits(b),
{
    let n = s.len();
    assert forall|i: int| 0 <= i < 8 * n + 8 implies #[trigger] bits_of(s.push(b))[i] == (
    bits_of(s) + byte_bits(b))[i] by {
        if i < 8 * n {
            assert(i / 8 < n) by (nonlinear_arith)
                requires
                    0 <= i < 8 * n,
            ;
        } else {
            assert(i / 8 == n && i % 8 == i - 8 * n) by (nonlinear_arith)
                requires
                    8 * n <= i < 8 * n + 8,
            ;
        }
    }
}

/// Packs symbols into bytes, least significant bit first, carrying the bits
/// of an unfinished byte in an accumulator.
pub struct Packer {
    out: Vec<u8>,
    current: u16,
    offset: u8,
    bits: Ghost<Seq<bool>>,
}

impl Packer {
    /// All bits handed to the packer so far.
    pub closed spec fn view_bits(&self) -> Seq<bool> {
        self.bits@
    }

    /// The bytes written out and the pending accumulator hold exactly the bits handed over.
    pub closed spec fn wf(&self) -> bool {
        &&& self.offset < 8
        &&& self.bits@.len() == 8 * self.out@.len() + self.offset
        &&& bits_of(self.out@) == self.bits@.subrange(0, 8 * self.out@.len() as int)
        &&& forall|k: int|
            0 <= k < self.offset ==> self.bits@[8 * self.out@.len() + k] == #[trigger] wbit(
                self.current,
                k,
            )
        &&& self.current >> (self.offset as u16) == 0
    }

    /// A packer with nothing in it.
    pub fn new() -> (r: Packer)
        ensures
            r.wf(),
            r.view_bits() == Seq::<bool>::empty(),
            r.written() == 0,
            r.pending() == 0,
    {
        let r = Packer { out: Vec::new(), current: 0, offset: 0, bits: Ghost(Seq::empty()) };
        assert(bits_of(r.out@) =~= Seq::<bool>::empty());
        assert(0u16 >> 0u16 == 0) by (bit_vector);
        assert(r.bits@.subrange(0, 0) =~= Seq::<bool>::empty());
        r
    }

    /// Whether the bits handed over so far fill whole bytes.
    pub fn is_aligned(&self) -> (r: bool)
        requires
            self.wf(),
        ensures
            r == (self.view_bits().len() % 8 == 0),
    {
        proof {
            let n = self.out@.len();
            let o = self.offset as int;
            assert((8 * n + o) % 8 == o) by (nonlinear_arith)
                requires
                    0 <= o < 8,
            ;
        }
        self.offset == 0
    }

    /// Appends the five bits of `v`, writing out each byte as soon as it is full.
    pub fn push_symbol(&mut self, v: u8)
        requires
            old(self).wf(),
            v < 32,
        ensures
            final(self).wf(),
            final(self).view_bits() == old(self).view_bits() + sym_bits(v),
            final(self).written() == old(self).written() + (old(self).pending() + 5) / 8,
            final(self).pending() == (old(self).pending() + 5) % 8,
            final(self).pending() < 8,
    {
        let ghost old_bits = self.bits@;
        let ghost n = self.out@.len() as int;
        let c = self.current;
        let o = self.offset;
        let c1 = c | ((v as u16) << (o as u16));
        let ghost nb = old_bits + sym_bits(v);
        proof {
            assert forall|k: int| 0 <= k < o + 5 implies nb[8 * n + k] == #[trigger] wbit(c1, k) by {
                lemma_or_shift(c, v as u16, o as u16, k as u16);
                assert((k as u16) as int == k);
                if k >= o {
                    lemma_u8_bit_u16(v, (k - o) as u16);
                    assert(nb[8 * n + k] == sym_bits(v)[k - o]);
                    assert(((k as u16) - (o as u16)) as u16 == (k - o) as u16);
                } else {
                    assert(nb[8 * n + k] == old_bits[8 * n + k]);
                    assert(old_bits[8 * n + k] == wbit(c, k));
                }
            }
            lemma_or_shift(c, v as u16, o as u16, 0);
        }
        self.current = c1;
        self.offset = o + 5;
        self.bits = Ghost(nb);
        if self.offset >= 8 {
            let byte = (self.current & 0xff) as u8;
            let c2 = self.current >> 8;
            proof {
                lemma_bits_of_push(self.out@, byte);
                assert(byte_bits(byte) =~= nb.subrange(8 * n, 8 * n + 8)) by {
                    assert forall|k: int| 0 <= k < 8 implies #[trigger] byte_bits(byte)[k]
                        == nb[8 * n + k] by {
                        lemma_low_byte(c1, k as u16);
                        assert(nb[8 * n + k] == wbit(c1, k));
                    }
                }
                assert(nb.subrange(0, 8 * n + 8) =~= nb.subrange(0, 8 * n) + nb.subrange(
                    8 * n,
                    8 * n + 8,
                ));
                assert forall|k: int| 0 <= k < o + 5 - 8 implies nb[8 * (n + 1) + k]
                    == #[trigger] wbit(c2, k) by {
                    lemma_low_byte(c1, k as u16);
                    assert(nb[8 * n + (k + 8)] == wbit(c1, k + 8));
                }
                let oo = (o + 5 - 8) as u16;
                assert(c1 >> ((o + 5) as u16) == 0);
                assert((c1 >> 8) >> oo == 0) by (bit_vector)
                    requires
                        c1 >> ((oo + 8) as u16) == 0,
                        oo < 8,
                ;
            }
            self.out.push(byte);
            self.current = c2;
            self.offset = self.offset - 8;
        }
        assert(self.bits@.subrange(0, 8 * self.out@.len() as int) == bits_of(self.out@)) by {
            if self.out@.len() == n {
                assert(nb.subrange(0, 8 * n) =~= old_bits.subrange(0, 8 * n));
            }
        }
    }

    /// Writes out the unfinished byte, zero-padded in its high bits, if there is one.
    pub fn align(&mut self)
        requires
            old(self).wf(),
        ensures
            final(self).wf(),
            final(self).view_bits() == pad(old(self).view_bits()),
            final(self).is_aligned_spec(),
            final(self).pending() == 0,
            final(self).written() == old(self).written() + if old(self).pending() > 0 {
                1nat
            } else {
                0nat
            },
    {
        let ghost old_bits = self.bits@;
        let ghost n = self.out@.len() as int;
        let o = self.offset;
        proof {
            assert((8 * n + o) % 8 == o as int) by (nonlinear_arith)
                requires
                    0 <= o < 8,
            ;
        }
        if o > 0 {
            let byte = self.current as u8;
            let ghost nb = pad(old_bits);
            proof {
                lemma_bits_of_push(self.out@, byte);
                let c = self.current;
                assert forall|k: int| 0 <= k < 8 implies #[trigger] byte_bits(byte)[k] == nb[8 * n
                    + k] by {
                    lemma_low_byte(c, k as u16);
                    assert((c & 0xff) as u8 == c as u8) by (bit_vector);
                    let kk = k as u16;
                    assert(kk >= o ==> (c >> kk) & 1 == 0) by (bit_vector)
                        requires
                            c >> (o as u16) == 0,
                            kk < 8,
                    ;
                }
                assert(byte_bits(byte) =~= nb.subrange(8 * n, 8 * n + 8));
                assert(nb.subrange(0, 8 * n + 8) =~= nb.subrange(0, 8 * n) + nb.subrange(
                    8 * n,
                    8 * n + 8,
                ));
                assert(nb.subrange(0, 8 * n) =~= old_bits.subrange(0, 8 * n));
                assert(nb.subrange(0, 8 * n + 8) =~= nb);
            }
            self.out.push(byte);
            self.current = 0;
            self.offset = 0;
            self.bits = Ghost(nb);
            assert(0u16 >> 0u16 == 0) by (bit_vector);
        } else {
            assert(pad(old_bits) =~= old_bits);
        }
    }

    /// How many bytes were written out.
    pub closed spec fn written(&self) -> nat {
        self.out@.len()
    }

    /// How many bits wait in the accumulator for their byte to fill.
    pub closed spec fn pending(&self) -> nat {
        self.offset as nat
    }

    /// No unfinished byte is pending.
    pub closed spec fn is_aligned_spec(&self) -> bool {
        self.offset == 0
    }

    /// Appends whole bytes at a byte boundary, bypassing the 5-bit packing.
    pub fn push_raw(&mut self, bytes: &Vec<u8>)
        requires
            old(self).wf(),
            old(self).is_aligned_spec(),
        ensures
            final(self).wf(),
            final(self).is_aligned_spec(),
            final(self).view_bits() == old(self).view_bits() + bits_of(bytes@),
            final(self).written() == old(self).written() + bytes@.len(),
            final(self).pending() == 0,
    {
        let ghost b0 = self.bits@;
        let ghost w0 = self.out@.len();
        let mut i: usize = 0;
        while i < bytes.len()
            invariant
                self.wf(),
                self.is_aligned_spec(),
                i <= bytes@.len(),
                self.bits@ == b0 + bits_of(bytes@.subrange(0, i as int)),
                self.out@.len() == w0 + i,
            decreases bytes@.len() - i,
        {
            let b = bytes[i];
            proof {
                lemma_bits_of_push(self.out@, b);
                lemma_bits_of_push(bytes@.subrange(0, i as int), b);
                assert(bytes@.subrange(0, i + 1) =~= bytes@.subrange(0, i as int).push(b));
                assert(self.bits@.subrange(0, 8 * self.out@.len() as int) =~= self.bits@);
            }
            self.out.push(b);
            self.bits = Ghost(self.bits@ + byte_bits(b));
            proof {
                assert(self.bits@ =~= b0 + bits_of(bytes@.subrange(0, i + 1)));
                assert(self.bits@.subrange(0, 8 * self.out@.len() as int) =~= self.bits@);
            }
            i = i + 1;
        }
        assert(bytes@.subrange(0, bytes@.len() as int) =~= bytes@);
    }

    /// Flushes the unfinished byte and hands over the buffer.
    pub fn finish(self) -> (r: Vec<u8>)
        requires
            self.wf(),
        ensures
            bits_of(r@) == pad(self.view_bits()),
    {
        let mut p = self;
        p.align();
        proof {
            assert(p.bits@.subrange(0, 8 * p.out@.len() as int) =~= p.bits@);
        }
        p.out
    }
}

/// The value of five bits, written out.
pub proof fn lemma_value5(s: Seq<bool>)
    requires
        s.len() == 5,
    ensures
        bits_value(s) == (if s[0] {
            1nat
        } else {
            0
        }) + 2 * (if s[1] {
            1nat
        } else {
            0
        }) + 4 * (if s[2] {
            1nat
        } else {
            0
        }) + 8 * (if s[3] {
            1nat
        } else {
            0
        }) + 16 * (if s[4] {
            1nat
        } else {
            0
        }),
{
    let s1 = s.drop_first();
    let s2 = s1.drop_first();
    let s3 = s2.drop_first();
    let s4 = s3.drop_first();
    let s5 = s4.drop_first();
    assert(s5.len() == 0);
    assert(bits_value(s5) == 0);
    assert(bits_value(s4) == (if s[4] {
        1nat
    } else {
        0
    }) + 2 * bits_value(s5));
    assert(bits_value(s3) == (if s[3] {
        1nat
    } else {
        0
    }) + 2 * bits_value(s4));
    assert(bits_value(s2) == (if s[2] {
        1nat
    } else {
        0
    }) + 2 * bits_value(s3));
    assert(bits_value(s1) == (if s[1] {
        1nat
    } else {
        0
    }) + 2 * bits_value(s2));
}

/// The five bits of a symbol read back give the symbol.
pub proof fn lemma_sym_bits_value(v: u8)
    requires
        v < 32,
    ensures
        bits_value(sym_bits(v)) == v,
{
    lemma_value5(sym_bits(v));
    assert(v == (v & 1) + 2 * ((v >> 1) & 1) + 4 * ((v >> 2) & 1) + 8 * ((v >> 3) & 1) + 16 * ((
    v >> 4) & 1)) by (bit_vector)
        requires
            v < 32,
    ;
    assert((v >> 0u8) == v) by (bit_vector);
    assert(((v >> 0u8) & 1) <= 1 && ((v >> 1u8) & 1) <= 1 && ((v >> 2u8) & 1) <= 1 && ((v >> 3u8)
        & 1) <= 1 && ((v >> 4u8) & 1) <= 1) by (bit_vector);
}

proof fn lemma_window_bits(b0: u8, b1: u8, off: u8, j: u8)
    requires
        off < 8,
        j < 5,
    ensures
        ({
            let val = if off <= 3 {
                (b0 >> off) & 31
            } else {
                ((b0 >> off) | (b1 << ((8 - off) as u8))) & 31
            };
            &&& val < 32
            &&& bit(val, j as int) == if off + j < 8 {
                bit(b0, (off + j) as int)
            } else {
                bit(b1, (off + j - 8) as int)
            }
        }),
{
    assert((j as int) as u8 == j);
    assert(((off + j) as int) as u8 == (off + j) as u8);
    assert(((off + j - 8) as int) as u8 == (off + j - 8) as u8);
    assert(((b0 >> off) & 31) < 32) by (bit_vector);
    assert((((b0 >> off) | (b1 << ((8 - off) as u8))) & 31) < 32) by (bit_vector);
    assert(off <= 3 ==> (((((b0 >> off) & 31) >> j) & 1u8 == 1u8) == (((b0 >> ((off + j) as u8))
        & 1u8) == 1u8))) by (bit_vector)
        requires
            off < 8,
            j < 5,
    ;
    assert(off > 3 && off + j < 8 ==> ((((((b0 >> off) | (b1 << ((8 - off) as u8))) & 31) >> j)
        & 1u8 == 1u8) == (((b0 >> ((off + j) as u8)) & 1u8) == 1u8))) by (bit_vector)
        requires
            off < 8,
            j < 5,
    ;
    assert(off > 3 && off + j >= 8 ==> ((((((b0 >> off) | (b1 << ((8 - off) as u8))) & 31) >> j)
        & 1u8 == 1u8) == (((b1 >> ((off + j - 8) as u8)) & 1u8) == 1u8))) by (bit_vector)
        requires
            off < 8,
            j < 5,
    ;
}

/// The read cursor five bits on: the bit offset wraps into the next byte.
pub fn next_cursor(idx: usize, off: u8) -> (r: (usize, u8))
    requires
        off < 8,
        idx < usize::MAX,
    ensures
        r.0 == idx + (off + 5) / 8,
        r.1 == (off + 5) % 8,
        8 * r.0 + r.1 == 8 * idx + off + 5,
{
    if off + 5 >= 8 {
        (idx + 1, off + 5 - 8)
    } else {
        (idx, off + 5)
    }
}

/// Reads the symbol at bit `8 * idx + off`, or `None` where it would run past the end.
pub fn pull_symbol(bytes: &Vec<u8>, idx: usize, off: u8) -> (r: Option<u8>)
    requires
        off < 8,
    ensures
        r is Some <==> 8 * idx + off + 5 <= 8 * bytes@.len(),
        r matches Some(v) ==> v < 32 && v as nat == sym_at(bytes@, 8 * idx + off),
{
    if idx >= bytes.len() {
        return None;
    }
    if off > 3 && idx + 1 >= bytes.len() {
        return None;
    }
    let b0 = bytes[idx];
    let b1 = if off > 3 {
        bytes[idx + 1]
    } else {
        0
    };
    let val = if off <= 3 {
        (b0 >> off) & 31
    } else {
        ((b0 >> off) | (b1 << (8 - off))) & 31
    };
    proof {
        lemma_window_bits(b0, b1, off, 0);
        let p = 8 * idx + off;
        let w = bits_of(bytes@).subrange(p as int, p + 5);
        assert forall|j: int| 0 <= j < 5 implies #[trigger] w[j] == sym_bits(val)[j] by {
            lemma_window_bits(b0, b1, off, j as u8);
            assert((j as u8) as int == j);
            if off + j < 8 {
                assert((p + j) / 8 == idx && (p + j) % 8 == off + j) by (nonlinear_arith)
                    requires
                        p == 8 * idx + off,
                        off + j < 8,
                        0 <= j,
                ;
            } else {
                assert((p + j) / 8 == idx + 1 && (p + j) % 8 == off + j - 8) by (nonlinear_arith)
                    requires
                        p == 8 * idx + off,
                        off + j >= 8,
                        off < 8,
                        j < 5,
                ;
            }
        }
        assert(w =~= sym_bits(val));
        lemma_sym_bits_value(val);
    }
    Some(val)
}

} // verus!
