//! What holds across encoding, decoding and framing.
use vstd::prelude::*;
use crate::alphabet::{index_of, lemma_index_char_inverse, NUM};
use crate::bits::{Token, stream, pad, bits_of, bit, sym_at, sym_bits, extend, lemma_sym_bits_value};
use crate::blob::{BlobView, SmolError, VERSION};
use crate::frame::{
    frame_of, headerless_of, unwrap_spec, unwrap_headerless_spec, lemma_frame_round_trip,
    lemma_headerless_round_trip,
};
use crate::codec::{
    raw_literal, utf8_of, next_byte,
    char_tokens, decode_from, decoded, is_digit, is_upper, mode_after, prepend, sym,
    tokens, tokens_from, encoded_bits,
};

verus! {

/// A character that encoding keeps exactly: one of the alphabet, a digit, an
/// uppercase ASCII letter or a newline.
pub open spec fn plain_char(c: char) -> bool {
    index_of(c) is Some || is_digit(c) || is_upper(c) || c == '\n'
}

/// Every character of `s` is plain.
pub open spec fn plain_text(s: Seq<char>) -> bool {
    forall|i: int| 0 <= i < s.len() ==> plain_char(#[trigger] s[i])
}

/// Decoding what encoding wrote gives the text back, for any text made of
/// alphabet characters, digits, uppercase ASCII letters and newlines. The
/// payload is described as `SmolBlob::encode` describes its own, and the
/// result as `SmolBlob::decode_blob` describes its own, so
/// `decode_blob(&encode(s))` is `Ok(s)`.
pub proof fn lemma_round_trip(s: Seq<char>, payload: Seq<u8>)
    requires
        plain_text(s),
        bits_of(payload) == encoded_bits(s),
    ensures
        decoded(payload, tokens(s).len()) == Ok::<Seq<char>, SmolError>(s),
{
    assert(no_carriage_return(s)) by {
        assert forall|i: int| 0 <= i < s.len() implies #[trigger] s[i] != '\r' by {
            assert(plain_char(s[i]));
        }
    }
    lemma_round_trip_any(s, payload);
}

proof fn lemma_cr_tokens(a: Seq<char>, b: Seq<char>, m: bool)
    ensures
        tokens_from(a + seq!['\r'] + b, m) == tokens_from(a + b, m),
    decreases a.len(),
{
    let s1 = a + seq!['\r'] + b;
    let s2 = a + b;
    if a.len() == 0 {
        assert(s1[0] == '\r');
        assert(s1.drop_first() =~= s2);
        assert(char_tokens('\r', m) =~= Seq::<Token>::empty());
        assert(Seq::<Token>::empty() + tokens_from(s2, m) =~= tokens_from(s2, m));
    } else {
        assert(s1[0] == a[0]);
        assert(s2[0] == a[0]);
        assert(s1.drop_first() =~= a.drop_first() + seq!['\r'] + b);
        assert(s2.drop_first() =~= a.drop_first() + b);
        lemma_cr_tokens(a.drop_first(), b, mode_after(a[0], m));
    }
}

/// A carriage return anywhere in a text changes nothing in its encoding.
pub proof fn lemma_carriage_return_dropped(a: Seq<char>, b: Seq<char>)
    ensures
        tokens(a + seq!['\r'] + b) == tokens(a + b),
        encoded_bits(a + seq!['\r'] + b) == encoded_bits(a + b),
{
    lemma_cr_tokens(a, b, false);
}

/// Every character of `s` is an ASCII digit.
pub open spec fn all_digits(s: Seq<char>) -> bool {
    forall|i: int| 0 <= i < s.len() ==> is_digit(#[trigger] s[i])
}

/// The symbols that carry a run of digits in number mode.
pub open spec fn digit_symbols(s: Seq<char>) -> Seq<Token> {
    Seq::new(s.len(), |i: int| sym((s[i] as u32 - 48) as u8))
}

proof fn lemma_digits_in_number_mode(s: Seq<char>)
    requires
        all_digits(s),
    ensures
        tokens_from(s, true) == digit_symbols(s) + seq![sym(NUM)],
    decreases s.len(),
{
    if s.len() == 0 {
        assert(digit_symbols(s) + seq![sym(NUM)] =~= seq![sym(NUM)]);
    } else {
        let r = s.drop_first();
        assert(is_digit(s[0]));
        assert(all_digits(r)) by {
            assert forall|i: int| 0 <= i < r.len() implies is_digit(#[trigger] r[i]) by {
                assert(r[i] == s[i + 1]);
            }
        }
        lemma_digits_in_number_mode(r);
        assert(digit_symbols(s) + seq![sym(NUM)] =~= seq![sym((s[0] as u32 - 48) as u8)] + (
        digit_symbols(r) + seq![sym(NUM)]));
        assert(char_tokens(s[0], true) =~= seq![sym((s[0] as u32 - 48) as u8)]);
    }
}

/// A run of digits is written as one number-mode toggle, a symbol per digit,
/// and the toggle that closes number mode.
pub proof fn lemma_digit_run(s: Seq<char>)
    requires
        s.len() > 0,
        all_digits(s),
    ensures
        tokens(s) == seq![sym(NUM)] + digit_symbols(s) + seq![sym(NUM)],
        tokens(s).len() == s.len() + 2,
        forall|i: int| 0 <= i < s.len() ==> #[trigger] digit_symbols(s)[i].0 < 10,
{
    let r = s.drop_first();
    assert(is_digit(s[0]));
    assert(all_digits(r)) by {
        assert forall|i: int| 0 <= i < r.len() implies is_digit(#[trigger] r[i]) by {
            assert(r[i] == s[i + 1]);
        }
    }
    lemma_digits_in_number_mode(r);
    assert(char_tokens(s[0], false) =~= seq![sym(NUM), sym((s[0] as u32 - 48) as u8)]);
    assert(seq![sym(NUM)] + digit_symbols(s) + seq![sym(NUM)] =~= seq![
        sym(NUM),
        sym((s[0] as u32 - 48) as u8),
    ] + (digit_symbols(r) + seq![sym(NUM)]));
}

/// A text without carriage returns comes back from the framed and from the
/// headerless form of its encoding: with `b` as `SmolBlob::encode` describes
/// its result, `decode(&encode(s).buffer())` and
/// `decode_headerless(&encode(s).buffer_headerless())` are `Ok(s)`.
pub proof fn lemma_framed_round_trip(s: Seq<char>, b: BlobView)
    requires
        no_carriage_return(s),
        b.version == VERSION,
        b.symbol_count == tokens(s).len(),
        bits_of(b.payload) == encoded_bits(s),
        b.payload.len() <= u64::MAX,
    ensures
        unwrap_spec(frame_of(b)) == Ok::<BlobView, SmolError>(b),
        unwrap_headerless_spec(headerless_of(b)) == Ok::<BlobView, SmolError>(b),
        decoded(b.payload, b.symbol_count as nat) == Ok::<Seq<char>, SmolError>(s),
{
    lemma_frame_round_trip(b);
    lemma_headerless_round_trip(b);
    lemma_round_trip_any(s, b.payload);
}

/// Bit position where token `i` starts.
pub open spec fn token_pos(ts: Seq<Token>, i: int) -> nat {
    stream(ts.subrange(0, i)).len()
}

proof fn lemma_stream_step(ts: Seq<Token>, i: int)
    requires
        0 <= i < ts.len(),
    ensures
        stream(ts.subrange(0, i + 1)) == extend(stream(ts.subrange(0, i)), ts[i]),
{
    assert(ts.subrange(0, i + 1).drop_last() =~= ts.subrange(0, i));
}

proof fn lemma_stream_prefix(ts: Seq<Token>, i: int, j: int)
    requires
        0 <= i <= j <= ts.len(),
    ensures
        stream(ts.subrange(0, i)).len() <= stream(ts.subrange(0, j)).len(),
        stream(ts.subrange(0, j)).subrange(0, stream(ts.subrange(0, i)).len() as int) == stream(
            ts.subrange(0, i),
        ),
    decreases j - i,
{
    if i == j {
        assert(stream(ts.subrange(0, j)).subrange(0, stream(ts.subrange(0, i)).len() as int)
            =~= stream(ts.subrange(0, i)));
    } else {
        lemma_stream_prefix(ts, i, j - 1);
        lemma_stream_step(ts, j - 1);
        let a = stream(ts.subrange(0, i));
        let b = stream(ts.subrange(0, j - 1));
        let c = stream(ts.subrange(0, j));
        assert(c.subrange(0, b.len() as int) =~= b);
        assert(c.subrange(0, a.len() as int) =~= b.subrange(0, a.len() as int));
    }
}

proof fn lemma_bytes_from_bits(x: u8, y: u8)
    requires
        forall|k: int| 0 <= k < 8 ==> #[trigger] bit(x, k) == bit(y, k),
    ensures
        x == y,
{
    assert(bit(x, 0) == bit(y, 0));
    assert(bit(x, 1) == bit(y, 1));
    assert(bit(x, 2) == bit(y, 2));
    assert(bit(x, 3) == bit(y, 3));
    assert(bit(x, 4) == bit(y, 4));
    assert(bit(x, 5) == bit(y, 5));
    assert(bit(x, 6) == bit(y, 6));
    assert(bit(x, 7) == bit(y, 7));
    assert(x == y) by (bit_vector)
        requires
            ((x >> 0u8) & 1u8 == 1u8) == ((y >> 0u8) & 1u8 == 1u8),
            ((x >> 1u8) & 1u8 == 1u8) == ((y >> 1u8) & 1u8 == 1u8),
            ((x >> 2u8) & 1u8 == 1u8) == ((y >> 2u8) & 1u8 == 1u8),
            ((x >> 3u8) & 1u8 == 1u8) == ((y >> 3u8) & 1u8 == 1u8),
            ((x >> 4u8) & 1u8 == 1u8) == ((y >> 4u8) & 1u8 == 1u8),
            ((x >> 5u8) & 1u8 == 1u8) == ((y >> 5u8) & 1u8 == 1u8),
            ((x >> 6u8) & 1u8 == 1u8) == ((y >> 6u8) & 1u8 == 1u8),
            ((x >> 7u8) & 1u8 == 1u8) == ((y >> 7u8) & 1u8 == 1u8),
    ;
}

proof fn lemma_payload_prefix(payload: Seq<u8>, ts: Seq<Token>, i: int)
    requires
        bits_of(payload) == pad(stream(ts)),
        0 <= i < ts.len(),
    ensures
        stream(ts.subrange(0, i + 1)).len() <= 8 * payload.len(),
        forall|k: int|
            0 <= k < stream(ts.subrange(0, i + 1)).len() ==> #[trigger] bits_of(payload)[k]
                == stream(ts.subrange(0, i + 1))[k],
{
    let n = ts.len() as int;
    lemma_stream_prefix(ts, i + 1, n);
    assert(ts.subrange(0, n) =~= ts);
    let after = stream(ts.subrange(0, i + 1));
    assert forall|k: int| 0 <= k < after.len() implies #[trigger] bits_of(payload)[k]
        == after[k] by {
        assert(pad(stream(ts))[k] == stream(ts)[k]);
        assert(stream(ts).subrange(0, after.len() as int)[k] == after[k]);
    }
}

proof fn lemma_bytes_in_bits(payload: Seq<u8>, r: Seq<u8>, a: nat, front: Seq<bool>)
    requires
        front.len() == 8 * a,
        (front + bits_of(r)).len() <= 8 * payload.len(),
        forall|k: int|
            0 <= k < (front + bits_of(r)).len() ==> #[trigger] bits_of(payload)[k] == (front
                + bits_of(r))[k],
    ensures
        a + r.len() <= payload.len(),
        payload.subrange(a as int, (a + r.len()) as int) == r,
{
    let all = front + bits_of(r);
    assert(all.len() == 8 * (a + r.len()));
    assert(a + r.len() <= payload.len());
    assert forall|j: int| 0 <= j < r.len() implies #[trigger] payload[a + j] == r[j] by {
        assert forall|k: int| 0 <= k < 8 implies #[trigger] bit(payload[a + j], k) == bit(r[j], k) by {
            let x = 8 * (a + j) + k;
            assert(x / 8 == a + j && x % 8 == k) by (nonlinear_arith)
                requires
                    x == 8 * (a + j) + k,
                    0 <= k < 8,
            ;
            let y = 8 * j + k;
            assert(y / 8 == j && y % 8 == k) by (nonlinear_arith)
                requires
                    y == 8 * j + k,
                    0 <= k < 8,
            ;
            assert(bits_of(payload)[x] == all[x]);
            assert(all[x] == bits_of(r)[y]);
        }
        lemma_bytes_from_bits(payload[a + j], r[j]);
    }
    let sub = payload.subrange(a as int, (a + r.len()) as int);
    assert forall|j: int| 0 <= j < r.len() implies sub[j] == r[j] by {
        assert(sub[j] == payload[a + j]);
        assert(payload[a + j] == r[j]);
    }
    assert(sub =~= r);
}

/// What the payload holds at token `i`: its symbol, and its raw bytes after
/// the next byte boundary.
proof fn lemma_token_at(payload: Seq<u8>, ts: Seq<Token>, i: int)
    requires
        bits_of(payload) == pad(stream(ts)),
        0 <= i < ts.len(),
        ts[i].0 < 32,
    ensures
        token_pos(ts, i) + 5 <= 8 * payload.len(),
        sym_at(payload, token_pos(ts, i) as int) == ts[i].0 as nat,
        ts[i].1.len() == 0 ==> token_pos(ts, i + 1) == token_pos(ts, i) + 5,
        ts[i].1.len() > 0 ==> ({
            let a = crate::codec::next_byte(token_pos(ts, i) + 5);
            &&& a + ts[i].1.len() <= payload.len()
            &&& payload.subrange(a as int, (a + ts[i].1.len()) as int) == ts[i].1
            &&& token_pos(ts, i + 1) == 8 * (a + ts[i].1.len())
        }),
{
    lemma_payload_prefix(payload, ts, i);
    lemma_stream_step(ts, i);
    let full = bits_of(payload);
    let before = stream(ts.subrange(0, i));
    let after = stream(ts.subrange(0, i + 1));
    let p = before.len() as int;
    let t = ts[i];
    assert(after.subrange(p, p + 5) =~= sym_bits(t.0));
    assert(full.subrange(p, p + 5) =~= sym_bits(t.0));
    lemma_sym_bits_value(t.0);
    if t.1.len() > 0 {
        let q = (p + 5) as nat;
        let a = crate::codec::next_byte(q);
        let padded = pad(before + sym_bits(t.0));
        assert(padded.len() == 8 * a) by {
            assert((q + (8 - q % 8) % 8) == 8 * ((q + 7) / 8)) by (nonlinear_arith);
        }
        lemma_bytes_in_bits(payload, t.1, a, padded);
    }
}

/// `s` holds no carriage return.
pub open spec fn no_carriage_return(s: Seq<char>) -> bool {
    forall|i: int| 0 <= i < s.len() ==> #[trigger] s[i] != '\r'
}

/// Every token's symbol is a 5-bit value.
pub open spec fn small_symbols(ts: Seq<Token>) -> bool {
    forall|k: int| 0 <= k < ts.len() ==> (#[trigger] ts[k]).0 < 32
}

proof fn lemma_tokens_small(s: Seq<char>, m: bool)
    ensures
        small_symbols(tokens_from(s, m)),
    decreases s.len(),
{
    if s.len() > 0 {
        let c = s[0];
        lemma_tokens_small(s.drop_first(), mode_after(c, m));
        lemma_index_char_inverse(c, 0);
        let a = char_tokens(c, m);
        let b = tokens_from(s.drop_first(), mode_after(c, m));
        assert(small_symbols(a));
        assert forall|k: int| 0 <= k < (a + b).len() implies (#[trigger] (a + b)[k]).0 < 32 by {
            if k >= a.len() {
                assert((a + b)[k] == b[k - a.len()]);
            }
        }
    }
}

proof fn lemma_raw_literal_decodes(c: char)
    ensures
        raw_literal(c).len() == 1 + utf8_of(c).len(),
        raw_literal(c)[0] as nat == utf8_of(c).len(),
        raw_literal(c).subrange(1, raw_literal(c).len() as int) == utf8_of(c),
        vstd::utf8::valid_utf8(utf8_of(c)),
        vstd::utf8::decode_utf8(utf8_of(c)) == seq![c],
{
    assert(utf8_of(c) == vstd::utf8::encode_scalar(c as u32) + vstd::utf8::encode_utf8(
        seq![c].drop_first(),
    ));
    assert(seq![c].drop_first() =~= Seq::<char>::empty());
    vstd::utf8::encode_utf8_valid_utf8(seq![c]);
    vstd::utf8::encode_utf8_decode_utf8(seq![c]);
    assert(raw_literal(c).subrange(1, raw_literal(c).len() as int) =~= utf8_of(c));
}

/// The tokens of one character stand at token `i` of `ts`.
pub open spec fn tokens_at(ts: Seq<Token>, i: int, a: Seq<Token>) -> bool {
    &&& 0 <= i
    &&& i + a.len() <= ts.len()
    &&& forall|j: int| 0 <= j < a.len() ==> ts[i + j] == #[trigger] a[j]
}

#[verifier::rlimit(60)]
proof fn lemma_step_off(payload: Seq<u8>, ts: Seq<Token>, c: char, i: int, n: nat)
    requires
        bits_of(payload) == pad(stream(ts)),
        small_symbols(ts),
        c != '\r',
        !is_digit(c),
        tokens_at(ts, i, char_tokens(c, false)),
        n >= char_tokens(c, false).len(),
    ensures
        decode_from(payload, token_pos(ts, i), n, false, false) == prepend(
            seq![c],
            decode_from(
                payload,
                token_pos(ts, i + char_tokens(c, false).len()),
                (n - char_tokens(c, false).len()) as nat,
                false,
                false,
            ),
        ),
{
    let a = char_tokens(c, false);
    let l = a.len() as int;
    lemma_index_char_inverse(c, 0);
    assert(ts[i] == a[0]);
    lemma_token_at(payload, ts, i);
    let p1 = token_pos(ts, i + 1);
    if c == '\n' || is_upper(c) {
        assert(ts[i + 1] == a[1]);
        lemma_token_at(payload, ts, i + 1);
        let tail = decode_from(payload, token_pos(ts, i + 2), (n - 2) as nat, false, false);
        assert(decode_from(payload, p1, (n - 1) as nat, false, true) == prepend(seq![c], tail));
    } else if index_of(c) is Some {
    } else {
        lemma_raw_literal_decodes(c);
        let r = raw_literal(c);
        assert(ts[i + 1] == a[1]);
        lemma_token_at(payload, ts, i + 1);
        let q = next_byte(p1 + 5);
        assert(ts[i + 1] == (NUM, r));
        assert(payload.subrange(q as int, (q + r.len()) as int) == r);
        assert(payload[q as int] == r[0]);
        assert(payload.subrange(q + 1int, (q + r.len()) as int) =~= r.subrange(
            1,
            r.len() as int,
        ));
        let tail = decode_from(payload, token_pos(ts, i + 2), (n - 2) as nat, false, false);
        assert(decode_from(payload, p1, (n - 1) as nat, false, true) == prepend(seq![c], tail));
    }
}

proof fn lemma_step_digit(payload: Seq<u8>, ts: Seq<Token>, c: char, m: bool, i: int, n: nat)
    requires
        bits_of(payload) == pad(stream(ts)),
        small_symbols(ts),
        is_digit(c),
        tokens_at(ts, i, char_tokens(c, m)),
        n >= char_tokens(c, m).len(),
    ensures
        decode_from(payload, token_pos(ts, i), n, m, false) == prepend(
            seq![c],
            decode_from(
                payload,
                token_pos(ts, i + char_tokens(c, m).len()),
                (n - char_tokens(c, m).len()) as nat,
                true,
                false,
            ),
        ),
{
    let a = char_tokens(c, m);
    assert(ts[i] == a[0]);
    lemma_token_at(payload, ts, i);
    if !m {
        assert(ts[i + 1] == a[1]);
        lemma_token_at(payload, ts, i + 1);
        let tail = decode_from(payload, token_pos(ts, i + 2), (n - 2) as nat, true, false);
        assert(decode_from(payload, token_pos(ts, i + 1), (n - 1) as nat, true, false) == prepend(
            seq![c],
            tail,
        ));
    }
}

proof fn lemma_step(payload: Seq<u8>, ts: Seq<Token>, c: char, m: bool, i: int, n: nat)
    requires
        bits_of(payload) == pad(stream(ts)),
        small_symbols(ts),
        c != '\r',
        tokens_at(ts, i, char_tokens(c, m)),
        n >= char_tokens(c, m).len(),
    ensures
        decode_from(payload, token_pos(ts, i), n, m, false) == prepend(
            seq![c],
            decode_from(
                payload,
                token_pos(ts, i + char_tokens(c, m).len()),
                (n - char_tokens(c, m).len()) as nat,
                mode_after(c, m),
                false,
            ),
        ),
{
    if is_digit(c) {
        lemma_step_digit(payload, ts, c, m, i, n);
    } else if m {
        let a = char_tokens(c, true);
        let b = char_tokens(c, false);
        assert(a =~= seq![sym(NUM)] + b);
        assert(ts[i] == a[0]);
        lemma_token_at(payload, ts, i);
        assert(tokens_at(ts, i + 1, b)) by {
            assert forall|j: int| 0 <= j < b.len() implies ts[i + 1 + j] == #[trigger] b[j] by {
                assert(a[1 + j] == b[j]);
                assert(ts[i + (1 + j)] == a[1 + j]);
            }
        }
        lemma_step_off(payload, ts, c, i + 1, (n - 1) as nat);
    } else {
        lemma_step_off(payload, ts, c, i, n);
    }
}

proof fn lemma_decode_text(payload: Seq<u8>, ts: Seq<Token>, s: Seq<char>, m: bool, i: int)
    requires
        bits_of(payload) == pad(stream(ts)),
        no_carriage_return(s),
        small_symbols(ts),
        0 <= i,
        i + tokens_from(s, m).len() == ts.len(),
        ts.subrange(i, ts.len() as int) == tokens_from(s, m),
    ensures
        decode_from(payload, token_pos(ts, i), tokens_from(s, m).len(), m, false) == Ok::<
            Seq<char>,
            SmolError,
        >(s),
    decreases s.len(),
{
    let tk = tokens_from(s, m);
    let n = tk.len();
    assert forall|j: int| 0 <= j < n implies ts[i + j] == #[trigger] tk[j] by {
        assert(ts.subrange(i, ts.len() as int)[j] == ts[i + j]);
    }
    if s.len() == 0 {
        assert(Seq::<char>::empty() =~= s);
        if m {
            assert(ts[i] == tk[0]);
            lemma_token_at(payload, ts, i);
            assert(sym_at(payload, token_pos(ts, i) as int) == NUM as nat);
            assert(decode_from(payload, token_pos(ts, i) + 5, 0, false, false) == Ok::<
                Seq<char>,
                SmolError,
            >(Seq::empty()));
        }
    } else {
        let c = s[0];
        let rest = s.drop_first();
        let m2 = mode_after(c, m);
        let a = char_tokens(c, m);
        let b = tokens_from(rest, m2);
        let l = a.len() as int;
        assert(tk == a + b);
        assert(n == l + b.len());
        assert(c != '\r');
        assert(no_carriage_return(rest)) by {
            assert forall|j: int| 0 <= j < rest.len() implies #[trigger] rest[j] != '\r' by {
                assert(rest[j] == s[j + 1]);
            }
        }
        assert(ts.subrange(i + l, ts.len() as int) =~= b) by {
            assert forall|j: int| 0 <= j < b.len() implies ts.subrange(
                i + l,
                ts.len() as int,
            )[j] == b[j] by {
                assert(tk[l + j] == b[j]);
                assert(ts[i + (l + j)] == tk[l + j]);
            }
        }
        assert(tokens_at(ts, i, a)) by {
            assert forall|j: int| 0 <= j < l implies ts[i + j] == #[trigger] a[j] by {
                assert(tk[j] == a[j]);
            }
        }
        lemma_decode_text(payload, ts, rest, m2, i + l);
        lemma_step(payload, ts, c, m, i, n);
        assert(s =~= seq![c] + rest);
        assert(decode_from(payload, token_pos(ts, i + l), (n - l) as nat, m2, false) == Ok::<
            Seq<char>,
            SmolError,
        >(rest));
    }
}

/// Decoding what encoding wrote gives the text back, for any text without
/// carriage returns (which encoding drops): characters outside the alphabet
/// come back from their raw literals.
pub proof fn lemma_round_trip_any(s: Seq<char>, payload: Seq<u8>)
    requires
        no_carriage_return(s),
        bits_of(payload) == encoded_bits(s),
    ensures
        decoded(payload, tokens(s).len()) == Ok::<Seq<char>, SmolError>(s),
{
    let ts = tokens(s);
    lemma_tokens_small(s, false);
    assert(ts.subrange(0, ts.len() as int) =~= ts);
    assert(ts.subrange(0, 0) =~= Seq::<Token>::empty());
    lemma_decode_text(payload, ts, s, false, 0);
}

} // verus!
