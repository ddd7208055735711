//! Byte-level utilities: fixed-width integer codecs, decimal and UTF-8
//! string helpers, and seed-mask predicates.

use vstd::bytes::{
    spec_u32_from_le_bytes, spec_u32_to_le_bytes, spec_u64_from_le_bytes, spec_u64_to_le_bytes,
    u32_from_le_bytes, u32_to_le_bytes, u64_from_le_bytes, u64_to_le_bytes,
};
use vstd::prelude::*;
use vstd::slice::slice_subrange;

use crate::types::{IntWidth, SufrError, OUTFILE_VERSION};

verus! {

/// The `k`-th integer of width `w` stored little-endian in `bytes`.
pub open spec fn le_value_at(bytes: Seq<u8>, w: IntWidth, k: int) -> u64 {
    match w {
        IntWidth::U32 => spec_u32_from_le_bytes(bytes.subrange(4 * k, 4 * k + 4)) as u64,
        IntWidth::U64 => spec_u64_from_le_bytes(bytes.subrange(8 * k, 8 * k + 8)),
    }
}

/// The little-endian bytes of `v` at width `w`; `v` must fit the width.
pub open spec fn le_bytes_of(v: u64, w: IntWidth) -> Seq<u8> {
    match w {
        IntWidth::U32 => spec_u32_to_le_bytes(v as u32),
        IntWidth::U64 => spec_u64_to_le_bytes(v),
    }
}

/// Round trip of one value through its width-`w` byte form.
pub proof fn lemma_le_round_trip(v: u64, w: IntWidth)
    requires
        w.fits(v),
    ensures
        le_bytes_of(v, w).len() == w.spec_bytes(),
        le_value_at(le_bytes_of(v, w), w, 0) == v,
{
    vstd::bytes::lemma_auto_spec_u32_to_from_le_bytes();
    vstd::bytes::lemma_auto_spec_u64_to_from_le_bytes();
    match w {
        IntWidth::U32 => {
            assert(le_bytes_of(v, w).subrange(0, 4) =~= le_bytes_of(v, w));
        },
        IntWidth::U64 => {
            assert(le_bytes_of(v, w).subrange(0, 8) =~= le_bytes_of(v, w));
        },
    }
}

/// The bytes of `value`, least significant first, one per 8 bits of a `usize`.
pub fn usize_to_bytes(value: usize) -> (r: Vec<u8>)
    ensures
        r@.len() == usize::BITS / 8,
        forall|j: int|
            0 <= j < r@.len() ==> r@[j] == ((value >> (8 * j)) & 0xff) as u8,
{
    let size: usize = (usize::BITS / 8) as usize;
    let mut bytes: Vec<u8> = Vec::with_capacity(size);
    let mut i: usize = 0;
    while i < size
        invariant
            i <= size,
            size == usize::BITS / 8,
            bytes@.len() == i,
            forall|j: int|
                0 <= j < i ==> bytes@[j] == ((value >> (8 * j)) & 0xff) as u8,
        decreases size - i,
    {
        let shift: usize = 8 * i;
        bytes.push(((value >> shift) & 0xff) as u8);
        i = i + 1;
    }
    bytes
}

/// Decodes `len` integers of width `w` from the front of `buffer`.
pub fn slice_u8_to_vec(buffer: &[u8], len: usize, w: IntWidth) -> (r: Vec<u64>)
    requires
        len * w.spec_bytes() <= buffer@.len(),
        len * w.spec_bytes() <= usize::MAX,
    ensures
        r@.len() == len,
        forall|k: int| 0 <= k < len ==> r@[k] == le_value_at(buffer@, w, k),
{
    let wb: usize = w.bytes();
    let mut out: Vec<u64> = Vec::with_capacity(len);
    let mut k: usize = 0;
    while k < len
        invariant
            k <= len,
            wb == w.spec_bytes(),
            len * w.spec_bytes() <= buffer@.len(),
            len * w.spec_bytes() <= usize::MAX,
            out@.len() == k,
            forall|j: int| 0 <= j < k ==> out@[j] == le_value_at(buffer@, w, j),
        decreases len - k,
    {
        proof {
            assert((k + 1) * w.spec_bytes() <= len * w.spec_bytes()) by (nonlinear_arith)
                requires
                    k + 1 <= len,
                    w.spec_bytes() >= 0,
            ;
            assert(k * w.spec_bytes() + w.spec_bytes() == (k + 1) * w.spec_bytes())
                by (nonlinear_arith);
            assert(k * w.spec_bytes() <= len * w.spec_bytes()) by (nonlinear_arith)
                requires
                    k <= len,
                    w.spec_bytes() >= 0,
            ;
        }
        let start: usize = k * wb;
        let v: u64 = match w {
            IntWidth::U32 => u32_from_le_bytes(slice_subrange(buffer, start, start + 4)) as u64,
            IntWidth::U64 => u64_from_le_bytes(slice_subrange(buffer, start, start + 8)),
        };
        assert(v == le_value_at(buffer@, w, k as int));
        out.push(v);
        k = k + 1;
    }
    out
}

/// Encodes each value of `vec` at width `w`, little-endian, back to back.
pub fn vec_to_slice_u8(vec: &[u64], w: IntWidth) -> (r: Vec<u8>)
    requires
        vec@.len() * w.spec_bytes() <= usize::MAX,
        forall|k: int| 0 <= k < vec@.len() ==> w.fits(#[trigger] vec@[k]),
    ensures
        r@.len() == vec@.len() * w.spec_bytes(),
        forall|k: int|
            0 <= k < vec@.len() ==> r@.subrange(
                k * w.spec_bytes(),
                k * w.spec_bytes() + w.spec_bytes(),
            ) == le_bytes_of(vec@[k], w),
{
    let wb: usize = w.bytes();
    let n: usize = vec.len();
    let mut out: Vec<u8> = Vec::new();
    let mut k: usize = 0;
    while k < n
        invariant
            k <= n,
            n == vec@.len(),
            wb == w.spec_bytes(),
            n * w.spec_bytes() <= usize::MAX,
            forall|j: int| 0 <= j < n ==> w.fits(#[trigger] vec@[j]),
            out@.len() == k * w.spec_bytes(),
            forall|j: int|
                0 <= j < k ==> out@.subrange(
                    j * w.spec_bytes(),
                    j * w.spec_bytes() + w.spec_bytes(),
                ) == le_bytes_of(vec@[j], w),
        decreases n - k,
    {
        proof {
            assert((k + 1) * w.spec_bytes() <= n * w.spec_bytes()) by (nonlinear_arith)
                requires
                    k + 1 <= n,
                    w.spec_bytes() >= 0,
            ;
            assert(k * w.spec_bytes() + w.spec_bytes() == (k + 1) * w.spec_bytes())
                by (nonlinear_arith);
            vstd::bytes::lemma_auto_spec_u32_to_from_le_bytes();
            vstd::bytes::lemma_auto_spec_u64_to_from_le_bytes();
        }
        let ghost prev = out@;
        let v: u64 = vec[k];
        let mut piece: Vec<u8> = match w {
            IntWidth::U32 => u32_to_le_bytes(v as u32),
            IntWidth::U64 => u64_to_le_bytes(v),
        };
        assert(piece@ == le_bytes_of(vec@[k as int], w));
        out.append(&mut piece);
        proof {
            assert forall|j: int| 0 <= j < k + 1 implies out@.subrange(
                j * w.spec_bytes(),
                j * w.spec_bytes() + w.spec_bytes(),
            ) == le_bytes_of(vec@[j], w) by {
                assert((j + 1) * w.spec_bytes() <= k * w.spec_bytes() + w.spec_bytes())
                    by (nonlinear_arith)
                    requires
                        j + 1 <= k + 1,
                        w.spec_bytes() >= 0,
                ;
                assert(j * w.spec_bytes() + w.spec_bytes() == (j + 1) * w.spec_bytes())
                    by (nonlinear_arith);
                if j < k {
                    assert(out@.subrange(
                        j * w.spec_bytes(),
                        j * w.spec_bytes() + w.spec_bytes(),
                    ) =~= prev.subrange(j * w.spec_bytes(), j * w.spec_bytes() + w.spec_bytes()));
                } else {
                    assert(out@.subrange(
                        j * w.spec_bytes(),
                        j * w.spec_bytes() + w.spec_bytes(),
                    ) =~= le_bytes_of(vec@[j], w));
                }
            }
        }
        k = k + 1;
    }
    out
}

/// Relies on `String::from_utf8`: succeeds exactly on valid UTF-8 — the
/// bytes some character sequence encodes to — and ASCII bytes decode to
/// the characters with the same codes.
#[verifier::external_body]
pub(crate) fn string_from_utf8(bytes: Vec<u8>) -> (r: Option<String>)
    ensures
        r is Some <==> exists|cs: Seq<char>| vstd::utf8::encode_utf8(cs) == bytes@,
        r is Some ==> vstd::utf8::encode_utf8(r.unwrap()@) == bytes@,
        (forall|j: int| 0 <= j < bytes@.len() ==> bytes@[j] < 128) ==> r is Some
            && r.unwrap()@ == bytes@.map_values(|b: u8| b as char),
{
    String::from_utf8(bytes).ok()
}

/// Relies on `String::push_str`: appends the characters of `t` to `s`.
#[verifier::external_body]
pub(crate) fn append_str(s: &mut String, t: &str)
    ensures
        final(s)@ == old(s)@ + t@,
{
    s.push_str(t)
}

/// Turns a vector of ASCII bytes into the string of the same characters.
pub(crate) fn ascii_digits_to_string(bytes: Vec<u8>) -> (r: String)
    requires
        forall|j: int| 0 <= j < bytes@.len() ==> bytes@[j] < 128,
    ensures
        r@ == bytes@.map_values(|b: u8| b as char),
{
    let ghost bs = bytes@;
    let opt = string_from_utf8(bytes);
    match opt {
        Some(s) => s,
        None => vstd::pervasive::unreached(),
    }
}

/// Indices of the bytes equal to `b'1'` in `s`, ascending.
pub open spec fn spec_mask_positions(s: Seq<u8>) -> Seq<int>
    decreases s.len(),
{
    if s.len() == 0 {
        Seq::empty()
    } else {
        let prefix = spec_mask_positions(s.drop_last());
        if s.last() == 49 {
            prefix.push(s.len() - 1)
        } else {
            prefix
        }
    }
}

/// Positions of the `1` bytes of a seed mask, e.g. `b"101"` gives `[0, 2]`.
pub fn seed_mask_positions(bytes: &[u8]) -> (r: Vec<usize>)
    ensures
        r@.map_values(|x: usize| x as int) == spec_mask_positions(bytes@),
{
    let n: usize = bytes.len();
    let mut out: Vec<usize> = Vec::new();
    let mut i: usize = 0;
    while i < n
        invariant
            i <= n,
            n == bytes@.len(),
            forall|j: int| 0 <= j < out@.len() ==> #[trigger] out@[j] < i,
            out@.map_values(|x: usize| x as int) == spec_mask_positions(bytes@.take(i as int)),
        decreases n - i,
    {
        let b: u8 = *vstd::slice::slice_index_get(bytes, i);
        proof {
            assert(bytes@.take(i + 1).drop_last() =~= bytes@.take(i as int));
            assert(bytes@.take(i + 1).last() == bytes@[i as int]);
        }
        if b == 49 {
            out.push(i);
            assert(out@.map_values(|x: usize| x as int) =~= spec_mask_positions(
                bytes@.take(i + 1),
            ));
        } else {
            assert(out@.map_values(|x: usize| x as int) =~= spec_mask_positions(
                bytes@.take(i + 1),
            ));
        }
        i = i + 1;
    }
    proof {
        assert(bytes@.take(n as int) =~= bytes@);
    }
    out
}

/// Gap of each mask position over its rank: `m[i] - i` for each `i`.
pub fn seed_mask_difference(positions: &[usize]) -> (r: Vec<usize>)
    requires
        forall|i: int| 0 <= i < positions@.len() ==> i <= #[trigger] positions@[i],
    ensures
        r@.len() == positions@.len(),
        forall|i: int| 0 <= i < r@.len() ==> r@[i] == positions@[i] - i,
{
    let n: usize = positions.len();
    let mut out: Vec<usize> = Vec::with_capacity(n);
    let mut i: usize = 0;
    while i < n
        invariant
            i <= n,
            n == positions@.len(),
            forall|j: int| 0 <= j < n ==> j <= #[trigger] positions@[j],
            out@.len() == i,
            forall|j: int| 0 <= j < i ==> out@[j] == positions@[j] - j,
        decreases n - i,
    {
        let m: usize = *vstd::slice::slice_index_get(positions, i);
        out.push(m - i);
        i = i + 1;
    }
    out
}

/// A well-formed seed mask: only `0` and `1` characters, starting and
/// ending with `1`, with at least one `0` in between.
pub open spec fn spec_seed_mask(s: Seq<char>) -> bool {
    &&& s.len() >= 3
    &&& (forall|j: int| 0 <= j < s.len() ==> s[j] == '0' || s[j] == '1')
    &&& s[0] == '1'
    &&& s[s.len() - 1] == '1'
    &&& (exists|j: int| 0 <= j < s.len() && s[j] == '0')
}

/// Relies on `regex::Regex::new` and `Regex::is_match`: the anchored pattern
/// `^1+0[01]*1$` accepts exactly the strings of `0`s and `1`s that begin
/// with `1`, end with `1`, and contain at least one `0`.
#[verifier::external_body]
pub fn valid_seed_mask(mask: &str) -> (r: bool)
    ensures
        r == spec_seed_mask(mask@),
{
    let seed_re = regex::Regex::new("^1+0[01]*1$").unwrap();
    seed_re.is_match(mask)
}

/// Reads the text length out of the fixed-size prefix of an index image.
/// The first four bytes are the version and flag bytes; the next eight are
/// the length.
pub fn read_text_length(data: &[u8]) -> (r: Result<usize, SufrError>)
    ensures
        r is Ok <==> data@.len() >= 12 && data@[0] == OUTFILE_VERSION && spec_u64_from_le_bytes(
            data@.subrange(4, 12),
        ) <= usize::MAX,
        r is Ok ==> r.unwrap() == spec_u64_from_le_bytes(data@.subrange(4, 12)),
        r is Err ==> r.unwrap_err() == SufrError::MalformedHeader,
{
    if data.len() < 12 {
        return Err(SufrError::MalformedHeader);
    }
    let version: u8 = *vstd::slice::slice_index_get(data, 0);
    if version != OUTFILE_VERSION {
        return Err(SufrError::MalformedHeader);
    }
    let v: u64 = u64_from_le_bytes(slice_subrange(data, 4, 12));
    if v > usize::MAX as u64 {
        return Err(SufrError::MalformedHeader);
    }
    Ok(v as usize)
}

} // verus!
