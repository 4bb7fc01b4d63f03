//! The mode machine: text to symbols and back.
//!
//! A raw literal (a character outside the alphabet) is written as `ESC NUM`,
//! then, at the next byte boundary, one byte holding the length of the
//! character's UTF-8 encoding, then those bytes; the packing of symbols goes on
//! at the byte boundary after them.
use vstd::prelude::*;
use vstd::utf8::{encode_utf8, decode_utf8, valid_utf8};
use crate::alphabet::{index_of, char_of, char_to_index, index_to_char, NUM, ESC, SPACE};
use crate::bits::{Token, stream, pad, bits_of, sym_at, extend, Packer, pull_symbol, next_cursor};
use vstd::slice::slice_subrange;
use crate::blob::{SmolBlob, SmolError, VERSION};

verus! {

/// An ASCII decimal digit.
pub open spec fn is_digit(c: char) -> bool {
    '0' <= c && c <= '9'
}

/// An uppercase ASCII letter.
pub open spec fn is_upper(c: char) -> bool {
    'A' <= c && c <= 'Z'
}

/// A symbol with no raw bytes after it.
pub open spec fn sym(v: u8) -> Token {
    (v, Seq::empty())
}

/// The UTF-8 bytes of one character.
pub open spec fn utf8_of(c: char) -> Seq<u8> {
    encode_utf8(seq![c])
}

/// A raw literal as spliced into the buffer: a length byte, then the UTF-8 bytes.
pub open spec fn raw_literal(c: char) -> Seq<u8> {
    seq![utf8_of(c).len() as u8] + utf8_of(c)
}

/// The tokens written for `c` when number mode is `num`.
pub open spec fn char_tokens(c: char, num: bool) -> Seq<Token> {
    if is_digit(c) {
        (if num {
            Seq::empty()
        } else {
            seq![sym(NUM)]
        }) + seq![sym((c as u32 - 48) as u8)]
    } else if c == '\r' {
        Seq::empty()
    } else {
        (if num {
            seq![sym(NUM)]
        } else {
            Seq::empty()
        }) + if c == '\n' {
            seq![sym(ESC), sym(SPACE)]
        } else if is_upper(c) {
            seq![sym(ESC), sym((c as u32 - 64) as u8)]
        } else if index_of(c) is Some {
            seq![sym(index_of(c)->0)]
        } else {
            seq![sym(ESC), (NUM, raw_literal(c))]
        }
    }
}

/// Number mode after `c` was written in mode `num`.
pub open spec fn mode_after(c: char, num: bool) -> bool {
    if is_digit(c) {
        true
    } else if c == '\r' {
        num
    } else {
        false
    }
}

/// The tokens of `s` written from number mode `num`, closing number mode at the end.
pub open spec fn tokens_from(s: Seq<char>, num: bool) -> Seq<Token>
    decreases s.len(),
{
    if s.len() == 0 {
        if num {
            seq![sym(NUM)]
        } else {
            Seq::empty()
        }
    } else {
        char_tokens(s[0], num) + tokens_from(s.drop_first(), mode_after(s[0], num))
    }
}

/// The tokens that encoding `s` writes.
pub open spec fn tokens(s: Seq<char>) -> Seq<Token> {
    tokens_from(s, false)
}

/// The payload that encoding `s` produces, as bits.
pub open spec fn encoded_bits(s: Seq<char>) -> Seq<bool> {
    pad(stream(tokens(s)))
}

proof fn lemma_stream_push(ts: Seq<Token>, t: Token)
    ensures
        stream(ts.push(t)) == extend(stream(ts), t),
{
    assert(ts.push(t).drop_last() =~= ts);
}

proof fn lemma_utf8_len(c: char)
    ensures
        1 <= utf8_of(c).len() <= 4,
{
    assert(encode_utf8(seq![c]) == vstd::utf8::encode_scalar(c as u32) + encode_utf8(
        seq![c].drop_first(),
    ));
    assert(seq![c].drop_first() =~= Seq::<char>::empty());
}

/// Relies on `char::encode_utf8`: the UTF-8 bytes of `c`.
#[verifier::external_body]
fn char_utf8(c: char) -> (r: Vec<u8>)
    ensures
        r@ == utf8_of(c),
{
    let mut buf = [0u8; 4];
    c.encode_utf8(&mut buf).as_bytes().to_vec()
}

/// Relies on `str::chars`: the characters of `s`, in order.
#[verifier::external_body]
pub(crate) fn chars_of(s: &str) -> (r: Vec<char>)
    ensures
        r@ == s@,
{
    s.chars().collect()
}

/// The state of an encoding under way.
struct Encoder {
    packer: Packer,
    count: u64,
    emitted: Ghost<Seq<Token>>,
}

impl Encoder {
    spec fn wf(&self) -> bool {
        &&& self.packer.wf()
        &&& self.packer.view_bits() == stream(self.emitted@)
        &&& self.count == self.emitted@.len()
    }

    /// Writes one symbol.
    fn emit(&mut self, v: u8)
        requires
            old(self).wf(),
            v < 32,
            old(self).count < u64::MAX,
        ensures
            final(self).wf(),
            final(self).emitted@ == old(self).emitted@.push(sym(v)),
    {
        proof {
            lemma_stream_push(self.emitted@, sym(v));
        }
        self.packer.push_symbol(v);
        self.count = self.count + 1;
        self.emitted = Ghost(self.emitted@.push(sym(v)));
    }

    /// Writes the `NUM` of a raw literal and splices in the literal's bytes.
    fn emit_raw(&mut self, c: char)
        requires
            old(self).wf(),
            old(self).count < u64::MAX,
        ensures
            final(self).wf(),
            final(self).emitted@ == old(self).emitted@.push((NUM, raw_literal(c))),
    {
        let ghost t = (NUM, raw_literal(c));
        proof {
            lemma_stream_push(self.emitted@, t);
            lemma_utf8_len(c);
        }
        self.packer.push_symbol(NUM);
        self.packer.align();
        let bytes = char_utf8(c);
        let mut lit: Vec<u8> = Vec::new();
        lit.push(bytes.len() as u8);
        let mut i: usize = 0;
        while i < bytes.len()
            invariant
                i <= bytes@.len(),
                lit@ == seq![bytes@.len() as u8] + bytes@.subrange(0, i as int),
            decreases bytes@.len() - i,
        {
            lit.push(bytes[i]);
            i = i + 1;
            assert(lit@ =~= seq![bytes@.len() as u8] + bytes@.subrange(0, i as int));
        }
        assert(lit@ =~= raw_literal(c));
        self.packer.push_raw(&lit);
        self.count = self.count + 1;
        self.emitted = Ghost(self.emitted@.push(t));
    }
}

impl SmolBlob {
    /// Encodes a text: digits through number mode, uppercase ASCII letters and
    /// newlines through an escape, carriage returns dropped, and any other
    /// character outside the alphabet as a raw literal.
    pub fn encode(str: &String) -> (r: SmolBlob)
        requires
            str@.len() < 0x4000_0000_0000_0000,
        ensures
            r@.version == VERSION,
            r@.symbol_count == tokens(str@).len(),
            bits_of(r@.payload) == encoded_bits(str@),
            r@.wf(),
    {
        let chars = chars_of(str.as_str());
        let n = chars.len();
        let mut e = Encoder { packer: Packer::new(), count: 0, emitted: Ghost(Seq::empty()) };
        let mut num = false;
        let mut i: usize = 0;
        assert(chars@.subrange(0, n as int) =~= chars@);
        assert(e.emitted@ + tokens(chars@) =~= tokens(chars@));
        while i < n
            invariant
                n == chars@.len(),
                chars@ == str@,
                n < 0x4000_0000_0000_0000,
                i <= n,
                e.wf(),
                e.emitted@ + tokens_from(chars@.subrange(i as int, n as int), num) == tokens(chars@),
                e.count <= 3 * i,
            decreases n - i,
        {
            let c = chars[i];
            let ghost before = e.emitted@;
            let ghost num0 = num;
            if '0' <= c && c <= '9' {
                if !num {
                    e.emit(NUM);
                    num = true;
                }
                e.emit((c as u32 - 48) as u8);
            } else if c != '\r' {
                if num {
                    e.emit(NUM);
                    num = false;
                }
                if c == '\n' {
                    e.emit(ESC);
                    e.emit(SPACE);
                } else if 'A' <= c && c <= 'Z' {
                    e.emit(ESC);
                    e.emit((c as u32 - 64) as u8);
                } else {
                    match char_to_index(c) {
                        Some(v) => {
                            e.emit(v);
                        },
                        None => {
                            e.emit(ESC);
                            e.emit_raw(c);
                        },
                    }
                }
            }
            proof {
                let rest = chars@.subrange(i as int, n as int);
                assert(rest.drop_first() =~= chars@.subrange(i + 1, n as int));
                assert(rest[0] == c);
                assert(e.emitted@ =~= before + char_tokens(c, num0));
                assert(num == mode_after(c, num0));
                assert(e.emitted@ + tokens_from(chars@.subrange(i + 1, n as int), num) =~= before
                    + tokens_from(rest, num0));
            }
            i = i + 1;
        }
        if num {
            e.emit(NUM);
        }
        proof {
            assert(chars@.subrange(n as int, n as int) =~= Seq::<char>::empty());
            assert(e.emitted@ =~= tokens(str@));
        }
        let buffer = e.packer.finish();
        SmolBlob::from_parts(VERSION, buffer, e.count)
    }
}

/// `pre` in front of a decoded text; an error stays as it is.
pub open spec fn prepend(pre: Seq<char>, r: Result<Seq<char>, SmolError>) -> Result<
    Seq<char>,
    SmolError,
> {
    match r {
        Ok(t) => Ok(pre + t),
        Err(e) => Err(e),
    }
}

/// The uppercase form of a letter symbol; other symbols keep their character.
pub open spec fn upper_of(v: u8) -> char {
    if 1 <= v && v <= 26 {
        ((v + 64) as u8) as char
    } else {
        char_of(v)
    }
}

/// The digit that a symbol carries in number mode.
pub open spec fn digit_of(v: u8) -> char {
    ((v + 48) as u8) as char
}

/// Byte index of the first whole byte at or after bit `q`.
pub open spec fn next_byte(q: nat) -> nat {
    (q + 7) / 8
}

/// The text that `n` symbols read from bit `p` decode to, in number mode `num`
/// and with an escape pending where `sup`.
pub open spec fn decode_from(b: Seq<u8>, p: nat, n: nat, num: bool, sup: bool) -> Result<
    Seq<char>,
    SmolError,
>
    decreases n,
{
    if n == 0 {
        Ok(Seq::empty())
    } else if p + 5 > 8 * b.len() {
        Err(SmolError::TruncatedInput)
    } else {
        let v = sym_at(b, p as int) as u8;
        let q = p + 5;
        if sup {
            if v == SPACE {
                prepend(seq!['\n'], decode_from(b, q, (n - 1) as nat, num, false))
            } else if v == NUM {
                let a = next_byte(q);
                if a >= b.len() {
                    Err(SmolError::TruncatedInput)
                } else if a + 1 + b[a as int] > b.len() {
                    Err(SmolError::TruncatedInput)
                } else {
                    let e = (a + 1 + b[a as int]) as nat;
                    let raw = b.subrange(a + 1 as int, e as int);
                    if !valid_utf8(raw) {
                        Err(SmolError::InvalidUtf8)
                    } else {
                        prepend(decode_utf8(raw), decode_from(b, 8 * e, (n - 1) as nat, num, false))
                    }
                }
            } else if v == ESC {
                Err(SmolError::InvalidSymbol)
            } else {
                prepend(seq![upper_of(v)], decode_from(b, q, (n - 1) as nat, num, false))
            }
        } else if v == NUM {
            decode_from(b, q, (n - 1) as nat, !num, false)
        } else if v == ESC {
            decode_from(b, q, (n - 1) as nat, num, true)
        } else if num {
            if v < 10 {
                prepend(seq![digit_of(v)], decode_from(b, q, (n - 1) as nat, num, false))
            } else {
                Err(SmolError::InvalidSymbol)
            }
        } else {
            prepend(seq![char_of(v)], decode_from(b, q, (n - 1) as nat, num, false))
        }
    }
}

/// What decoding a blob gives.
pub open spec fn decoded(payload: Seq<u8>, symbol_count: nat) -> Result<Seq<char>, SmolError> {
    decode_from(payload, 0, symbol_count, false, false)
}

/// Relies on `std::str::from_utf8`: accepts exactly the valid UTF-8 byte
/// sequences, whose characters it gives.
#[verifier::external_body]
fn utf8_str(b: &[u8]) -> (r: Option<&str>)
    ensures
        r is Some <==> valid_utf8(b@),
        r matches Some(s) ==> s@ == decode_utf8(b@),
{
    std::str::from_utf8(b).ok()
}

/// Relies on `FromIterator<char>` for `String`: the characters in order.
#[verifier::external_body]
pub(crate) fn string_of(cs: &Vec<char>) -> (r: String)
    ensures
        r@ == cs@,
{
    cs.iter().collect()
}

/// Appends every character of `cs`.
fn push_all(out: &mut Vec<char>, cs: &Vec<char>)
    ensures
        final(out)@ == old(out)@ + cs@,
{
    let mut i: usize = 0;
    let ghost o = old(out)@;
    while i < cs.len()
        invariant
            i <= cs@.len(),
            out@ == o + cs@.subrange(0, i as int),
        decreases cs@.len() - i,
    {
        out.push(cs[i]);
        i = i + 1;
        assert(out@ =~= o + cs@.subrange(0, i as int));
    }
    assert(cs@.subrange(0, cs@.len() as int) =~= cs@);
}

proof fn lemma_prepend_assoc(a: Seq<char>, b: Seq<char>, r: Result<Seq<char>, SmolError>)
    ensures
        prepend(a, prepend(b, r)) == prepend(a + b, r),
{
    match r {
        Ok(t) => {
            assert(a + (b + t) =~= (a + b) + t);
        },
        Err(_) => {},
    }
}

impl SmolBlob {
    /// Replays the mode machine over the blob's symbols and gives the text back.
    pub fn decode_blob(input: &SmolBlob) -> (r: Result<String, SmolError>)
        ensures
            match r {
                Ok(s) => decoded(input@.payload, input@.symbol_count as nat) == Ok::<
                    Seq<char>,
                    SmolError,
                >(s@),
                Err(e) => decoded(input@.payload, input@.symbol_count as nat) == Err::<
                    Seq<char>,
                    SmolError,
                >(e),
            },
    {
        let bytes = input.payload();
        let n = input.symbol_count();
        let ghost b = bytes@;
        let blen = bytes.len();
        let ghost goal = decoded(b, n as nat);
        let mut out: Vec<char> = Vec::new();
        let mut idx: usize = 0;
        let mut off: u8 = 0;
        let mut num = false;
        let mut sup = false;
        let mut k: u64 = 0;
        assert(out@ + Seq::<char>::empty() =~= Seq::<char>::empty());
        assert(prepend(out@, goal) == goal) by {
            match goal {
                Ok(t) => {
                    assert(out@ + t =~= t);
                },
                Err(_) => {},
            }
        }
        while k < n
            invariant
                bytes@ == b,
                blen == b.len(),
                b == input@.payload,
                n == input@.symbol_count,
                goal == decoded(b, n as nat),
                off < 8,
                k <= n,
                8 * idx + off <= 8 * b.len() + 8,
                goal == prepend(
                    out@,
                    decode_from(b, (8 * idx + off) as nat, (n - k) as nat, num, sup),
                ),
            decreases n - k,
        {
            let ghost p = (8 * idx + off) as nat;
            let ghost m = (n - k) as nat;
            let ghost o = out@;
            let v = match pull_symbol(bytes, idx, off) {
                Some(v) => v,
                None => {
                    return Err(SmolError::TruncatedInput);
                },
            };
            let ghost rest = decode_from(b, (p + 5) as nat, (m - 1) as nat, num, false);
            assert(idx < blen);
            let (next_idx, next_off) = next_cursor(idx, off);
            idx = next_idx;
            off = next_off;
            assert(8 * idx + off == p + 5);
            if sup {
                sup = false;
                if v == SPACE {
                    out.push('\n');
                    proof {
                        lemma_prepend_assoc(o, seq!['\n'], rest);
                        assert(o.push('\n') =~= o + seq!['\n']);
                    }
                } else if v == NUM {
                    let a: usize = if off > 0 {
                        if idx >= bytes.len() {
                            return Err(SmolError::TruncatedInput);
                        }
                        idx + 1
                    } else {
                        idx
                    };
                    assert(a == next_byte((p + 5) as nat));
                    if a >= bytes.len() {
                        return Err(SmolError::TruncatedInput);
                    }
                    let len = bytes[a] as usize;
                    if len > bytes.len() - a - 1 {
                        return Err(SmolError::TruncatedInput);
                    }
                    let raw = slice_subrange(bytes.as_slice(), a + 1, a + 1 + len);
                    match utf8_str(raw) {
                        None => {
                            return Err(SmolError::InvalidUtf8);
                        },
                        Some(text) => {
                            let cs = chars_of(text);
                            push_all(&mut out, &cs);
                            proof {
                                let e = (a + 1 + len) as nat;
                                assert(raw@ =~= b.subrange(a + 1, e as int));
                                lemma_prepend_assoc(
                                    o,
                                    cs@,
                                    decode_from(b, 8 * e, (m - 1) as nat, num, false),
                                );
                            }
                            idx = a + 1 + len;
                            off = 0;
                        },
                    }
                } else if v == ESC {
                    return Err(SmolError::InvalidSymbol);
                } else {
                    let c = if 1 <= v && v <= 26 {
                        (v + 64) as char
                    } else {
                        index_to_char(v)
                    };
                    out.push(c);
                    proof {
                        lemma_prepend_assoc(o, seq![c], rest);
                        assert(o.push(c) =~= o + seq![c]);
                    }
                }
            } else if v == NUM {
                num = !num;
            } else if v == ESC {
                sup = true;
            } else if num {
                if v >= 10 {
                    return Err(SmolError::InvalidSymbol);
                }
                let c = (v + 48) as char;
                out.push(c);
                proof {
                    lemma_prepend_assoc(o, seq![c], rest);
                    assert(o.push(c) =~= o + seq![c]);
                }
            } else {
                let c = index_to_char(v);
                out.push(c);
                proof {
                    lemma_prepend_assoc(o, seq![c], rest);
                    assert(o.push(c) =~= o + seq![c]);
                }
            }
            k = k + 1;
        }
        assert(out@ + Seq::<char>::empty() =~= out@);
        Ok(string_of(&out))
    }
}

} // verus!
