//! The first version of the format: the text is lowercased and each character
//! is packed as its alphabet index (a character outside the alphabet as a
//! space), with no modes; the header holds only the version, and a reader takes
//! as many symbols as the payload has room for.
use vstd::prelude::*;
use crate::alphabet::{index_of, char_of, char_to_index, index_to_char};
use crate::bits::{Token, stream, pad, bits_of, sym_at, Packer, pull_symbol, next_cursor};
use crate::blob::{SmolError, symbols_in};
use crate::codec::{sym, chars_of, string_of};
use crate::frame::{
    uleb, uleb_read, from, magic, read_at, copy_range, write_uleb, append_bytes,
};

verus! {

/// What `str::to_lowercase` makes of a text.
pub uninterp spec fn lower_of(s: Seq<char>) -> Seq<char>;

/// Relies on `str::to_lowercase`: the lowercase form of `s`, which depends on
/// its characters alone.
#[verifier::external_body]
fn lowercase(s: &str) -> (r: String)
    ensures
        r@ == lower_of(s@),
{
    s.to_lowercase()
}

/// The alphabet index of `c`, or the space's for a character outside it.
pub open spec fn index_or_space(c: char) -> u8 {
    match index_of(c) {
        Some(i) => i,
        None => 0,
    }
}

/// One symbol per character.
pub open spec fn plain_tokens(s: Seq<char>) -> Seq<Token> {
    Seq::new(s.len(), |i: int| sym(index_or_space(s[i])))
}

/// The framed form of a version-1 blob.
pub open spec fn legacy_frame_of(version: u64, data: Seq<u8>) -> Seq<u8> {
    magic() + uleb(uleb(version as nat).len()) + uleb(version as nat) + uleb(data.len()) + data
}

/// The payload of a version-1 frame: after the tag, the header is skipped by
/// its length, then the payload length and the payload follow.
pub open spec fn legacy_payload(s: Seq<u8>) -> Result<Seq<u8>, SmolError> {
    if s.len() < 4 {
        Err(SmolError::TruncatedInput)
    } else if s.subrange(0, 4) != magic() {
        Err(SmolError::BadMagic)
    } else {
        match uleb_read(from(s, 4), 0) {
            None => Err(SmolError::MalformedVarint),
            Some((h, n1)) => if 4 + n1 + h > s.len() {
                Err(SmolError::TruncatedInput)
            } else {
                let p = (4 + n1 + h) as nat;
                match uleb_read(from(s, p), 0) {
                    None => Err(SmolError::MalformedVarint),
                    Some((len, n2)) => if p + n2 + len > s.len() {
                        Err(SmolError::TruncatedInput)
                    } else {
                        Ok(s.subrange((p + n2) as int, (p + n2 + len) as int))
                    },
                }
            },
        }
    }
}

/// The text of a version-1 payload: every symbol that fits, as its character.
pub open spec fn legacy_text(data: Seq<u8>) -> Seq<char> {
    Seq::new(symbols_in(data.len()), |k: int| char_of(sym_at(data, 5 * k) as u8))
}

/// A version-1 blob: the version and the packed bytes.
pub struct SmolBlob {
    version: u64,
    data: Vec<u8>,
}

impl View for SmolBlob {
    type V = (u64, Seq<u8>);

    closed spec fn view(&self) -> (u64, Seq<u8>) {
        (self.version, self.data@)
    }
}

impl SmolBlob {
    /// The framed form: tag, header length, header (the version), payload length, payload.
    pub fn buffer(&self) -> (r: Vec<u8>)
        ensures
            r@ == legacy_frame_of(self@.0, self@.1),
    {
        let mut out: Vec<u8> = vec![115u8, 109u8, 111u8, 108u8];
        let mut header: Vec<u8> = Vec::new();
        write_uleb(&mut header, self.version);
        write_uleb(&mut out, header.len() as u64);
        append_bytes(&mut out, &header);
        write_uleb(&mut out, self.data.len() as u64);
        append_bytes(&mut out, &self.data);
        assert(out@ =~= legacy_frame_of(self@.0, self@.1));
        out
    }

    /// Packs an already lowercased text, one symbol per character.
    pub fn encode_lowered(lowered: &String) -> (r: SmolBlob)
        ensures
            r@.0 == 1,
            bits_of(r@.1) == pad(stream(plain_tokens(lowered@))),
    {
        let chars = chars_of(lowered.as_str());
        let mut p = Packer::new();
        let mut i: usize = 0;
        while i < chars.len()
            invariant
                i <= chars@.len(),
                chars@ == lowered@,
                p.wf(),
                p.view_bits() == stream(plain_tokens(chars@.subrange(0, i as int))),
            decreases chars@.len() - i,
        {
            let v = match char_to_index(chars[i]) {
                Some(v) => v,
                None => 0,
            };
            proof {
                let a = plain_tokens(chars@.subrange(0, i as int));
                let b = plain_tokens(chars@.subrange(0, i + 1));
                assert(b.drop_last() =~= a);
                assert(b.last() == sym(v));
            }
            p.push_symbol(v);
            i = i + 1;
        }
        assert(chars@.subrange(0, chars@.len() as int) =~= chars@);
        SmolBlob { version: 1, data: p.finish() }
    }

    /// Lowercases a text and packs it, one symbol per character.
    pub fn encode(str: &String) -> (r: SmolBlob)
        ensures
            r@.0 == 1,
            bits_of(r@.1) == pad(stream(plain_tokens(lower_of(str@)))),
    {
        let lowered = lowercase(str.as_str());
        SmolBlob::encode_lowered(&lowered)
    }

    /// Reads a version-1 frame and gives back the text of every symbol that fits in it.
    pub fn decode(input: &Vec<u8>) -> (r: Result<String, SmolError>)
        ensures
            match legacy_payload(input@) {
                Ok(data) => r matches Ok(s) && s@ == legacy_text(data),
                Err(e) => r == Err::<String, SmolError>(e),
            },
    {
        let ghost s = input@;
        if input.len() < 4 {
            return Err(SmolError::TruncatedInput);
        }
        if input[0] != 115 || input[1] != 109 || input[2] != 111 || input[3] != 108 {
            proof {
                if s.subrange(0, 4) == magic() {
                    assert(s.subrange(0, 4)[0] == 115u8);
                    assert(s.subrange(0, 4)[1] == 109u8);
                    assert(s.subrange(0, 4)[2] == 111u8);
                    assert(s.subrange(0, 4)[3] == 108u8);
                }
            }
            return Err(SmolError::BadMagic);
        }
        assert(s.subrange(0, 4) =~= magic());
        let (header_len, at_header) = read_at(input, 4)?;
        if header_len > (input.len() - at_header) as u64 {
            return Err(SmolError::TruncatedInput);
        }
        let at_len = at_header + header_len as usize;
        let (len, at_payload) = read_at(input, at_len)?;
        if len > (input.len() - at_payload) as u64 {
            return Err(SmolError::TruncatedInput);
        }
        let data = copy_range(input, at_payload, at_payload + len as usize);
        let ghost n = data@.len();
        let dlen = data.len();
        let mut out: Vec<char> = Vec::new();
        let mut idx: usize = 0;
        let mut off: u8 = 0;
        let ghost mut k: nat = 0;
        loop
            invariant
                off < 8,
                8 * idx + off == 5 * k,
                5 * k <= 8 * n,
                n == data@.len(),
                dlen == n,
                out@ == Seq::new(k, |j: int| char_of(sym_at(data@, 5 * j) as u8)),
            ensures
                5 * k + 5 > 8 * n,
                out@ == Seq::new(k, |j: int| char_of(sym_at(data@, 5 * j) as u8)),
            decreases 8 * n - 5 * k,
        {
            match pull_symbol(&data, idx, off) {
                None => {
                    break ;
                },
                Some(v) => {
                    out.push(index_to_char(v));
                    proof {
                        assert(out@ =~= Seq::new(
                            k + 1,
                            |j: int| char_of(sym_at(data@, 5 * j) as u8),
                        ));
                        k = k + 1;
                    }
                    assert(idx < dlen);
                    let (next_idx, next_off) = next_cursor(idx, off);
                    idx = next_idx;
                    off = next_off;
                },
            }
        }
        proof {
            let kk = k as int;
            let nn = n as int;
            assert(kk == 8 * nn / 5) by (nonlinear_arith)
                requires
                    5 * kk <= 8 * nn,
                    5 * kk + 5 > 8 * nn,
            ;
        }
        Ok(string_of(&out))
    }
}

} // verus!
