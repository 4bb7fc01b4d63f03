//! The container around a blob: the `smol` tag, a length-prefixed header that
//! holds the version and the symbol count, then the length-prefixed payload;
//! and the headerless form, symbol count then payload.
//! Lengths and header fields are unsigned LEB128 numbers.
use vstd::prelude::*;
use vstd::slice::slice_subrange;
use crate::blob::{BlobView, SmolBlob, SmolError, VERSION, symbols_in};
use crate::codec::decoded;

verus! {

/// The unsigned LEB128 encoding of `v`: seven bits per byte, low groups first,
/// the high bit set on every byte but the last.
pub open spec fn uleb(v: nat) -> Seq<u8>
    decreases v,
{
    if v < 128 {
        seq![v as u8]
    } else {
        seq![(v % 128 + 128) as u8] + uleb(v / 128)
    }
}

/// The unsigned LEB128 number at the front of `s`, whose first byte is byte
/// `depth` of the number: its value and how many bytes it takes. `None` where
/// the input ends inside the number, or where a tenth byte would carry more
/// than the 64th bit.
pub open spec fn uleb_read(s: Seq<u8>, depth: nat) -> Option<(nat, nat)>
    decreases s.len(),
{
    if s.len() == 0 {
        None
    } else if depth >= 9 && s[0] > 1 {
        None
    } else if s[0] < 128 {
        Some((s[0] as nat, 1nat))
    } else {
        match uleb_read(s.drop_first(), depth + 1) {
            Some((v, n)) => Some((((s[0] - 128) + 128 * v) as nat, n + 1)),
            None => None,
        }
    }
}

/// A number read takes at least one byte and no more than there are.
pub proof fn lemma_uleb_read_len(s: Seq<u8>, depth: nat)
    ensures
        uleb_read(s, depth) matches Some((v, n)) ==> 1 <= n <= s.len(),
    decreases s.len(),
{
    if s.len() > 0 {
        lemma_uleb_read_len(s.drop_first(), depth + 1);
    }
}

/// The error type of `leb128::read::unsigned`, carried through opaquely.
#[verifier::external_type_specification]
#[verifier::external_body]
pub struct ExLebReadError(leb128::read::Error);

/// Relies on `leb128::write::unsigned`: appends the LEB128 encoding of `v`
/// (writing to a `Vec` does not fail).
#[verifier::external_body]
pub(crate) fn write_uleb(buf: &mut Vec<u8>, v: u64)
    ensures
        final(buf)@ == old(buf)@ + uleb(v as nat),
{
    let _ = leb128::write::unsigned(buf, v);
}

/// Relies on `leb128::read::unsigned`: reads one number from the front of `b`
/// and gives it with the length of what is left after it.
#[verifier::external_body]
fn read_uleb(b: &[u8]) -> (r: Result<(u64, usize), leb128::read::Error>)
    ensures
        r is Ok <==> uleb_read(b@, 0) is Some,
        r matches Ok((v, rest)) ==> rest <= b@.len() && uleb_read(b@, 0) == Some(
            (v as nat, (b@.len() - rest) as nat),
        ),
{
    let mut rest = b;
    let v = leb128::read::unsigned(&mut rest)?;
    Ok((v, rest.len()))
}

/// The number at `pos`, with the position after it.
pub(crate) fn read_at(input: &Vec<u8>, pos: usize) -> (r: Result<(u64, usize), SmolError>)
    requires
        pos <= input@.len(),
    ensures
        r matches Ok((v, q)) ==> pos < q <= input@.len() && uleb_read(from(input@, pos as nat), 0)
            == Some((v as nat, (q - pos) as nat)),
        r is Err ==> uleb_read(from(input@, pos as nat), 0) is None && r == Err::<
            (u64, usize),
            SmolError,
        >(SmolError::MalformedVarint),
{
    proof {
        lemma_uleb_read_len(from(input@, pos as nat), 0);
    }
    let s = slice_subrange(input.as_slice(), pos, input.len());
    match read_uleb(s) {
        Ok((v, rest)) => Ok((v, input.len() - rest)),
        Err(_) => Err(SmolError::MalformedVarint),
    }
}

/// The four tag bytes `smol`.
pub open spec fn magic() -> Seq<u8> {
    seq![115u8, 109u8, 111u8, 108u8]
}

/// The header of a blob: its version, then, after version 1, its symbol count.
pub open spec fn header_of(b: BlobView) -> Seq<u8> {
    if b.version == 1 {
        uleb(1)
    } else {
        uleb(b.version as nat) + uleb(b.symbol_count as nat)
    }
}

/// The framed form of a blob.
pub open spec fn frame_of(b: BlobView) -> Seq<u8> {
    magic() + uleb(header_of(b).len()) + header_of(b) + uleb(b.payload.len()) + b.payload
}

/// The headerless form of a blob.
pub open spec fn headerless_of(b: BlobView) -> Seq<u8> {
    uleb(b.symbol_count as nat) + b.payload
}

/// `s` from position `p` on.
pub open spec fn from(s: Seq<u8>, p: nat) -> Seq<u8> {
    s.subrange(p as int, s.len() as int)
}

/// The payload length at `p`, then the payload, of a blob with the given version and count.
pub open spec fn payload_at(s: Seq<u8>, p: nat, version: u64, count: u64) -> Result<
    BlobView,
    SmolError,
> {
    match uleb_read(from(s, p), 0) {
        None => Err(SmolError::MalformedVarint),
        Some((len, n)) => if p + n + len > s.len() {
            Err(SmolError::TruncatedInput)
        } else {
            Ok(
                BlobView {
                    version,
                    symbol_count: if version == 1 {
                        symbols_in(len) as u64
                    } else {
                        count
                    },
                    payload: s.subrange((p + n) as int, (p + n + len) as int),
                },
            )
        },
    }
}

/// What unwrapping a framed buffer gives.
pub open spec fn unwrap_spec(s: Seq<u8>) -> Result<BlobView, SmolError> {
    if s.len() < 4 {
        Err(SmolError::TruncatedInput)
    } else if s.subrange(0, 4) != magic() {
        Err(SmolError::BadMagic)
    } else {
        match uleb_read(from(s, 4), 0) {
            None => Err(SmolError::MalformedVarint),
            Some((_h, n1)) => match uleb_read(from(s, 4 + n1), 0) {
                None => Err(SmolError::MalformedVarint),
                Some((ver, n2)) => if ver == 1 {
                    payload_at(s, 4 + n1 + n2, 1, 0)
                } else {
                    match uleb_read(from(s, 4 + n1 + n2), 0) {
                        None => Err(SmolError::MalformedVarint),
                        Some((count, n3)) => payload_at(
                            s,
                            4 + n1 + n2 + n3,
                            ver as u64,
                            count as u64,
                        ),
                    }
                },
            },
        }
    }
}

/// What unwrapping a headerless buffer gives.
pub open spec fn unwrap_headerless_spec(s: Seq<u8>) -> Result<BlobView, SmolError> {
    match uleb_read(s, 0) {
        None => Err(SmolError::MalformedVarint),
        Some((count, n)) => Ok(
            BlobView { version: VERSION, symbol_count: count as u64, payload: from(s, n) },
        ),
    }
}

/// Appends every byte of `src`.
pub(crate) fn append_bytes(out: &mut Vec<u8>, src: &Vec<u8>)
    ensures
        final(out)@ == old(out)@ + src@,
{
    let ghost o = old(out)@;
    let mut i: usize = 0;
    while i < src.len()
        invariant
            i <= src@.len(),
            out@ == o + src@.subrange(0, i as int),
        decreases src@.len() - i,
    {
        out.push(src[i]);
        i = i + 1;
        assert(out@ =~= o + src@.subrange(0, i as int));
    }
    assert(src@.subrange(0, src@.len() as int) =~= src@);
}

/// The bytes of `src` from `lo` up to `hi`.
pub(crate) fn copy_range(src: &Vec<u8>, lo: usize, hi: usize) -> (r: Vec<u8>)
    requires
        lo <= hi <= src@.len(),
    ensures
        r@ == src@.subrange(lo as int, hi as int),
{
    let mut out: Vec<u8> = Vec::new();
    let mut i: usize = lo;
    while i < hi
        invariant
            lo <= i <= hi,
            hi <= src@.len(),
            out@ == src@.subrange(lo as int, i as int),
        decreases hi - i,
    {
        out.push(src[i]);
        i = i + 1;
        assert(out@ =~= src@.subrange(lo as int, i as int));
    }
    out
}

impl SmolBlob {
    /// The framed form of the blob: tag, header length, header, payload length, payload.
    pub fn buffer(&self) -> (r: Vec<u8>)
        ensures
            r@ == frame_of(self@),
    {
        let mut out: Vec<u8> = vec![115u8, 109u8, 111u8, 108u8];
        let mut header: Vec<u8> = Vec::new();
        write_uleb(&mut header, self.version());
        if self.version() != 1 {
            write_uleb(&mut header, self.symbol_count());
        }
        assert(header@ =~= header_of(self@));
        write_uleb(&mut out, header.len() as u64);
        append_bytes(&mut out, &header);
        let payload = self.payload();
        write_uleb(&mut out, payload.len() as u64);
        append_bytes(&mut out, payload);
        assert(out@ =~= frame_of(self@));
        out
    }

    /// The headerless form of the blob: symbol count, then payload.
    pub fn buffer_headerless(&self) -> (r: Vec<u8>)
        ensures
            r@ == headerless_of(self@),
    {
        let mut out: Vec<u8> = Vec::new();
        write_uleb(&mut out, self.symbol_count());
        append_bytes(&mut out, self.payload());
        assert(out@ =~= headerless_of(self@));
        out
    }

    /// Reads a framed buffer back into a blob.
    pub fn unwrap_frame(input: &Vec<u8>) -> (r: Result<SmolBlob, SmolError>)
        ensures
            match r {
                Ok(b) => unwrap_spec(input@) == Ok::<BlobView, SmolError>(b@) && b@.wf(),
                Err(e) => unwrap_spec(input@) == Err::<BlobView, SmolError>(e),
            },
            input@.len() < 4 ==> r matches Err(SmolError::TruncatedInput),
            input@.len() >= 4 && input@.subrange(0, 4) != magic() ==> r matches Err(
                SmolError::BadMagic,
            ),
    {
        let ghost s = input@;
        if input.len() < 4 {
            return Err(SmolError::TruncatedInput);
        }
        if input[0] != 115 || input[1] != 109 || input[2] != 111 || input[3] != 108 {
            proof {
                if s.subrange(0, 4) == magic() {
                    assert(s.subrange(0, 4)[0] == 115u8);
                    assert(s.subrange(0, 4)[1] == 109u8);
                    assert(s.subrange(0, 4)[2] == 111u8);
                    assert(s.subrange(0, 4)[3] == 108u8);
                }
            }
            return Err(SmolError::BadMagic);
        }
        assert(s.subrange(0, 4) =~= magic());
        let (_header_len, at_version) = read_at(input, 4)?;
        let (version, at_count) = read_at(input, at_version)?;
        let mut count: u64 = 0;
        let mut at_len = at_count;
        if version != 1 {
            let (c, p) = read_at(input, at_count)?;
            count = c;
            at_len = p;
        }
        let (len, at_payload) = read_at(input, at_len)?;
        if len > (input.len() - at_payload) as u64 {
            return Err(SmolError::TruncatedInput);
        }
        let end = at_payload + len as usize;
        let payload = copy_range(input, at_payload, end);
        let size = if version == 1 {
            ((len as u128) * 8 / 5) as u64
        } else {
            count
        };
        let b = SmolBlob::from_parts(version, payload, size);
        assert(b@ == unwrap_spec(s)->Ok_0);
        Ok(b)
    }

    /// Reads a headerless buffer back into a blob of the current version.
    pub fn unwrap_headerless(input: &Vec<u8>) -> (r: Result<SmolBlob, SmolError>)
        ensures
            match r {
                Ok(b) => unwrap_headerless_spec(input@) == Ok::<BlobView, SmolError>(b@)
                    && b@.wf(),
                Err(e) => unwrap_headerless_spec(input@) == Err::<BlobView, SmolError>(e),
            },
    {
        assert(input@.subrange(0, input@.len() as int) =~= input@);
        let (count, p) = read_at(input, 0)?;
        let payload = copy_range(input, p, input.len());
        Ok(SmolBlob::from_parts(VERSION, payload, count))
    }

    /// Decodes a framed buffer into its text.
    pub fn decode(input: &Vec<u8>) -> (r: Result<String, SmolError>)
        ensures
            match unwrap_spec(input@) {
                Ok(b) => match r {
                    Ok(s) => decoded(b.payload, b.symbol_count as nat) == Ok::<
                        Seq<char>,
                        SmolError,
                    >(s@),
                    Err(e) => decoded(b.payload, b.symbol_count as nat) == Err::<
                        Seq<char>,
                        SmolError,
                    >(e),
                },
                Err(e) => r == Err::<String, SmolError>(e),
            },
            input@.len() < 4 ==> r matches Err(SmolError::TruncatedInput),
            input@.len() >= 4 && input@.subrange(0, 4) != magic() ==> r matches Err(
                SmolError::BadMagic,
            ),
    {
        let blob = SmolBlob::unwrap_frame(input)?;
        SmolBlob::decode_blob(&blob)
    }

    /// Decodes a headerless buffer into its text.
    pub fn decode_headerless(input: &Vec<u8>) -> (r: Result<String, SmolError>)
        ensures
            match unwrap_headerless_spec(input@) {
                Ok(b) => match r {
                    Ok(s) => decoded(b.payload, b.symbol_count as nat) == Ok::<
                        Seq<char>,
                        SmolError,
                    >(s@),
                    Err(e) => decoded(b.payload, b.symbol_count as nat) == Err::<
                        Seq<char>,
                        SmolError,
                    >(e),
                },
                Err(e) => r == Err::<String, SmolError>(e),
            },
    {
        let blob = SmolBlob::unwrap_headerless(input)?;
        SmolBlob::decode_blob(&blob)
    }
}

/// The numbers that fit in what is left of a 64-bit LEB128 number whose next
/// byte is byte `depth`.
pub open spec fn uleb_cap(depth: nat) -> nat
    decreases 9 - depth,
{
    if depth >= 9 {
        2
    } else {
        128 * uleb_cap(depth + 1)
    }
}

/// Reading back the LEB128 encoding of a number gives the number and the
/// encoding's length, whatever follows it.
pub proof fn lemma_uleb_round_trip(v: nat, rest: Seq<u8>, depth: nat)
    requires
        v < uleb_cap(depth),
    ensures
        uleb_read(uleb(v) + rest, depth) == Some((v, uleb(v).len())),
    decreases v,
{
    let s = uleb(v) + rest;
    if v < 128 {
        assert(s[0] == v as u8);
        if depth >= 9 {
            assert(v < 2);
        }
    } else {
        assert(depth < 9);
        assert(s[0] == (v % 128 + 128) as u8);
        assert(s.drop_first() =~= uleb(v / 128) + rest);
        assert(v / 128 < uleb_cap(depth + 1));
        lemma_uleb_round_trip(v / 128, rest, depth + 1);
    }
}

/// Every 64-bit number can be read back.
pub proof fn lemma_uleb_cap_64()
    ensures
        uleb_cap(0) == 0x1_0000_0000_0000_0000,
{
    reveal_with_fuel(uleb_cap, 10);
}

/// Unwrapping the framed form of a blob gives the blob back.
#[verifier::rlimit(50)]
pub proof fn lemma_frame_round_trip(b: BlobView)
    requires
        b.wf(),
        b.payload.len() <= u64::MAX,
    ensures
        unwrap_spec(frame_of(b)) == Ok::<BlobView, SmolError>(b),
{
    lemma_uleb_cap_64();
    let h = header_of(b);
    let p = b.payload;
    let s = frame_of(b);
    let hl = h.len();
    assert(hl <= 20) by {
        lemma_uleb_len(b.version as nat, 0);
        lemma_uleb_len(b.symbol_count as nat, 0);
        lemma_uleb_len(1, 0);
    }
    assert(s.subrange(0, 4) =~= magic());
    let t1 = h + uleb(p.len()) + p;
    assert(from(s, 4) =~= uleb(hl) + t1);
    lemma_uleb_round_trip(hl, t1, 0);
    let n1 = uleb(hl).len();
    if b.version == 1 {
        let t2 = uleb(p.len()) + p;
        assert(from(s, 4 + n1) =~= uleb(1) + t2);
        lemma_uleb_round_trip(1, t2, 0);
        let n2 = uleb(1).len();
        assert(from(s, 4 + n1 + n2) =~= uleb(p.len()) + p);
        lemma_uleb_round_trip(p.len(), p, 0);
        let n3 = uleb(p.len()).len();
        assert(s.subrange((4 + n1 + n2 + n3) as int, (4 + n1 + n2 + n3 + p.len()) as int) =~= p);
    } else {
        let t3 = uleb(p.len()) + p;
        let t2 = uleb(b.symbol_count as nat) + t3;
        assert(from(s, 4 + n1) =~= uleb(b.version as nat) + t2);
        lemma_uleb_round_trip(b.version as nat, t2, 0);
        let n2 = uleb(b.version as nat).len();
        assert(from(s, 4 + n1 + n2) =~= t2);
        lemma_uleb_round_trip(b.symbol_count as nat, t3, 0);
        let n3 = uleb(b.symbol_count as nat).len();
        assert(from(s, 4 + n1 + n2 + n3) =~= uleb(p.len()) + p);
        lemma_uleb_round_trip(p.len(), p, 0);
        let n4 = uleb(p.len()).len();
        assert(s.subrange((4 + n1 + n2 + n3 + n4) as int, (4 + n1 + n2 + n3 + n4 + p.len()) as int)
            =~= p);
    }
}

/// Unwrapping the headerless form of a blob of the current version gives the blob back.
pub proof fn lemma_headerless_round_trip(b: BlobView)
    requires
        b.version == VERSION,
    ensures
        unwrap_headerless_spec(headerless_of(b)) == Ok::<BlobView, SmolError>(b),
{
    lemma_uleb_cap_64();
    lemma_uleb_round_trip(b.symbol_count as nat, b.payload, 0);
    let n = uleb(b.symbol_count as nat).len();
    assert(from(headerless_of(b), n) =~= b.payload);
}

proof fn lemma_uleb_len(v: nat, k: nat)
    requires
        v < uleb_cap(k),
        k <= 9,
    ensures
        uleb(v).len() <= 10 - k,
    decreases v,
{
    if v >= 128 {
        assert(k < 9);
        assert(v / 128 < uleb_cap(k + 1));
        lemma_uleb_len(v / 128, k + 1);
    }
}

} // verus!
