//! The bencode wire codec used for peer records.

use vstd::prelude::*;
use crate::err::BencodeError;

verus! {

/// A decoded bencode document.
#[derive(Debug)]
pub enum BencodeObject {
    Integer(i64),
    Bytes(Vec<u8>),
    List(Vec<BencodeObject>),
    Dict(Vec<(Vec<u8>, BencodeObject)>),
}

/// The decimal digits of `n`, most significant first.
pub open spec fn dec_seq(n: nat) -> Seq<u8>
    decreases n,
{
    if n < 10 {
        seq![(0x30 + n) as u8]
    } else {
        dec_seq(n / 10).push((0x30 + n % 10) as u8)
    }
}

/// The encoding of one document: `i<digits>e` for integers, `<len>:<bytes>`
/// for byte strings, `l...e` for lists and `d...e` for dictionaries.
pub open spec fn encoded(o: BencodeObject) -> Seq<u8>
    decreases o, 0int,
{
    match o {
        BencodeObject::Integer(n) => if n >= 0 {
            seq![0x69u8] + dec_seq(n as nat) + seq![0x65u8]
        } else {
            seq![0x69u8, 0x2du8] + dec_seq((-(n as int)) as nat) + seq![0x65u8]
        },
        BencodeObject::Bytes(b) => dec_seq(b@.len()) + seq![0x3au8] + b@,
        BencodeObject::List(items) => seq![0x6cu8] + encoded_list(items, 0) + seq![0x65u8],
        BencodeObject::Dict(entries) => seq![0x64u8] + encoded_dict(entries, 0) + seq![0x65u8],
    }
}

/// The concatenated encodings of the list items from `idx` on.
pub open spec fn encoded_list(items: Vec<BencodeObject>, idx: int) -> Seq<u8>
    decreases items, items@.len() - idx,
{
    if idx < 0 || idx >= items@.len() {
        Seq::empty()
    } else {
        encoded(items@[idx]) + encoded_list(items, idx + 1)
    }
}

/// The concatenated `<len>:<key><value>` encodings of the entries from
/// `idx` on.
pub open spec fn encoded_dict(entries: Vec<(Vec<u8>, BencodeObject)>, idx: int) -> Seq<u8>
    decreases entries, entries@.len() - idx,
{
    if idx < 0 || idx >= entries@.len() {
        Seq::empty()
    } else {
        dec_seq(entries@[idx].0@.len()) + seq![0x3au8] + entries@[idx].0@ + encoded(
            entries@[idx].1,
        ) + encoded_dict(entries, idx + 1)
    }
}

/// Appends the decimal digits of `n`.
fn push_decimal(n: u64, out: &mut Vec<u8>)
    ensures
        final(out)@ == old(out)@ + dec_seq(n as nat),
    decreases n,
{
    if n < 10 {
        out.push(0x30 + n as u8);
        proof {
            assert(final(out)@ =~= old(out)@ + dec_seq(n as nat));
        }
    } else {
        push_decimal(n / 10, out);
        out.push(0x30 + (n % 10) as u8);
        proof {
            assert(final(out)@ =~= old(out)@ + dec_seq(n as nat));
        }
    }
}

impl BencodeObject {
    /// Serialises the document, exactly as `encoded` describes.
    #[verifier::loop_isolation(false)]
    #[verifier::rlimit(100)]
    pub fn into_bytes(&self) -> (r: Vec<u8>)
        ensures
            r@ == encoded(*self),
        decreases *self, 0int,
    {
        let mut out: Vec<u8> = Vec::new();
        match self {
            BencodeObject::Integer(n) => {
                out.push(0x69);
                if *n >= 0 {
                    push_decimal(*n as u64, &mut out);
                } else {
                    out.push(0x2d);
                    let mag: u64 = (-(*n as i128)) as u64;
                    push_decimal(mag, &mut out);
                }
                out.push(0x65);
                proof {
                    assert(out@ =~= encoded(*self));
                }
            },
            BencodeObject::Bytes(b) => {
                push_decimal(b.len() as u64, &mut out);
                out.push(0x3a);
                out.extend_from_slice(b.as_slice());
                proof {
                    assert(out@ =~= encoded(*self));
                }
            },
            BencodeObject::List(items) => {
                out.push(0x6c);
                let mut idx: usize = 0;
                while idx < items.len()
                    invariant
                        idx <= items@.len(),
                        out@ + encoded_list(*items, idx as int) == seq![0x6cu8] + encoded_list(
                            *items,
                            0,
                        ),
                    decreases items@.len() - idx,
                {
                    let piece = items[idx].into_bytes();
                    out.extend_from_slice(piece.as_slice());
                    proof {
                        assert(out@ + encoded_list(*items, idx as int + 1) =~= seq![0x6cu8]
                            + encoded_list(*items, 0));
                    }
                    idx += 1;
                }
                out.push(0x65);
                proof {
                    assert(out@ =~= encoded(*self));
                }
            },
            BencodeObject::Dict(entries) => {
                out.push(0x64);
                let mut idx: usize = 0;
                while idx < entries.len()
                    invariant
                        idx <= entries@.len(),
                        out@ + encoded_dict(*entries, idx as int) == seq![0x64u8] + encoded_dict(
                            *entries,
                            0,
                        ),
                    decreases entries@.len() - idx,
                {
                    push_decimal(entries[idx].0.len() as u64, &mut out);
                    out.push(0x3a);
                    out.extend_from_slice(entries[idx].0.as_slice());
                    let piece = entries[idx].1.into_bytes();
                    out.extend_from_slice(piece.as_slice());
                    proof {
                        assert(out@ + encoded_dict(*entries, idx as int + 1) =~= seq![0x64u8]
                            + encoded_dict(*entries, 0));
                    }
                    idx += 1;
                }
                out.push(0x65);
                proof {
                    assert(out@ =~= encoded(*self));
                }
            },
        }
        out
    }

    /// Decodes one complete document: the whole input must be consumed.
    pub fn parse(bytes: &[u8]) -> (r: Result<BencodeObject, BencodeError>)
        ensures
            bytes@.len() == 0 ==> r == Err::<BencodeObject, BencodeError>(
                BencodeError::UnexpectedEndOfInput,
            ),
    {
        let mut i: usize = 0;
        let len = bytes.len();
        let parsed = parse_at(bytes, &mut i);
        match parsed {
            Ok(obj) => {
                if i == len {
                    Ok(obj)
                } else {
                    Err(BencodeError::UnexpectedCharacter(i))
                }
            },
            Err(e) => Err(e),
        }
    }
}

/// Whether the two byte vectors hold the same bytes.
#[verifier::loop_isolation(false)]
fn bytes_eq(a: &Vec<u8>, b: &Vec<u8>) -> (r: bool)
    ensures
        r == (a@ == b@),
{
    if a.len() != b.len() {
        proof {
            assert(a@.len() != b@.len());
        }
        return false;
    }
    let mut k: usize = 0;
    while k < a.len()
        invariant
            k <= a@.len(),
            a@.len() == b@.len(),
            forall|t: int| 0 <= t < k ==> a@[t] == b@[t],
        decreases a@.len() - k,
    {
        if a[k] != b[k] {
            return false;
        }
        k += 1;
    }
    proof {
        assert(a@ =~= b@);
    }
    true
}

/// Decodes the document starting at `*i`, leaving `*i` just past it.
#[verifier::loop_isolation(false)]
#[verifier::rlimit(100)]
fn parse_at(bytes: &[u8], i: &mut usize) -> (r: Result<BencodeObject, BencodeError>)
    requires
        *old(i) <= bytes@.len(),
    ensures
        r is Ok ==> *old(i) < *final(i) <= bytes@.len(),
        r is Err ==> *old(i) <= *final(i) <= bytes@.len(),
        *old(i) == bytes@.len() ==> r == Err::<BencodeObject, BencodeError>(
            BencodeError::UnexpectedEndOfInput,
        ),
    decreases bytes@.len() - *i,
{
    let len = bytes.len();
    if *i == len {
        return Err(BencodeError::UnexpectedEndOfInput);
    }
    let c = bytes[*i];
    if c == 0x69 {
        // 'i': a signed decimal integer terminated by 'e'
        *i += 1;
        let start = *i;
        while *i < len && ((bytes[*i] >= 0x30 && bytes[*i] <= 0x39) || bytes[*i] == 0x2d)
            invariant
                start <= *i <= len,
            decreases len - *i,
        {
            *i += 1;
        }
        if *i == len {
            return Err(BencodeError::UnexpectedEndOfInput);
        }
        if bytes[*i] != 0x65 {
            return Err(BencodeError::UnexpectedCharacter(*i));
        }
        *i += 1;
        let endpos = *i - 1;
        match parse_i64(bytes, start, endpos) {
            Ok(n) => Ok(BencodeObject::Integer(n)),
            Err(e) => Err(e),
        }
    } else if c == 0x6c {
        // 'l': a list of documents terminated by 'e'
        *i += 1;
        let mut vec: Vec<BencodeObject> = Vec::new();
        while *i < len && bytes[*i] != 0x65
            invariant
                *old(i) < *i <= len,
            decreases len - *i,
        {
            match parse_at(bytes, i) {
                Ok(o) => {
                    vec.push(o);
                },
                Err(e) => {
                    return Err(e);
                },
            }
        }
        if *i == len {
            return Err(BencodeError::UnexpectedEndOfInput);
        }
        *i += 1;
        Ok(BencodeObject::List(vec))
    } else if c == 0x64 {
        // 'd': key-value pairs terminated by 'e'; a later duplicate key
        // replaces the earlier value, as a map insert would
        *i += 1;
        let mut map: Vec<(Vec<u8>, BencodeObject)> = Vec::new();
        while *i < len && bytes[*i] != 0x65
            invariant
                *old(i) < *i <= len,
            decreases len - *i,
        {
            let key = match parse_at(bytes, i) {
                Ok(BencodeObject::Bytes(kb)) => kb,
                Ok(_) => {
                    return Err(BencodeError::DictionaryKeyNotString);
                },
                Err(e) => {
                    return Err(e);
                },
            };
            let value = match parse_at(bytes, i) {
                Ok(v) => v,
                Err(e) => {
                    return Err(e);
                },
            };
            let mut j: usize = 0;
            let mut found: usize = map.len();
            while j < map.len()
                invariant
                    j <= map@.len(),
                    found <= map@.len(),
                decreases map@.len() - j,
            {
                if bytes_eq(&map[j].0, &key) {
                    found = j;
                    break ;
                }
                j += 1;
            }
            if found < map.len() {
                map[found] = (key, value);
            } else {
                map.push((key, value));
            }
        }
        if *i == len {
            return Err(BencodeError::UnexpectedEndOfInput);
        }
        *i += 1;
        Ok(BencodeObject::Dict(map))
    } else if c >= 0x30 && c <= 0x39 {
        // a byte string: <decimal length>:<bytes>
        let start = *i;
        while *i < len && bytes[*i] >= 0x30 && bytes[*i] <= 0x39
            invariant
                start <= *i <= len,
            decreases len - *i,
        {
            *i += 1;
        }
        if *i == len {
            return Err(BencodeError::UnexpectedEndOfInput);
        }
        if bytes[*i] != 0x3a {
            return Err(BencodeError::UnexpectedCharacter(*i));
        }
        let n = match parse_usize(bytes, start, *i) {
            Ok(n) => n,
            Err(e) => {
                return Err(e);
            },
        };
        *i += 1;
        if n > len - *i {
            return Err(BencodeError::UnexpectedEndOfInput);
        }
        let mut data: Vec<u8> = Vec::new();
        let mut k: usize = 0;
        while k < n
            invariant
                *i + n <= len,
                k <= n,
            decreases n - k,
        {
            data.push(bytes[*i + k]);
            k += 1;
        }
        *i += n;
        Ok(BencodeObject::Bytes(data))
    } else {
        Err(BencodeError::UnexpectedCharacter(*i))
    }
}

/// Reads the span `[start, end)` as a decimal `i64` with an optional
/// leading minus sign.
#[verifier::loop_isolation(false)]
fn parse_i64(bytes: &[u8], start: usize, end: usize) -> (r: Result<i64, BencodeError>)
    requires
        start <= end <= bytes@.len(),
{
    if start == end {
        return Err(BencodeError::IntError);
    }
    let negative = bytes[start] == 0x2d;
    let mut k = if negative {
        start + 1
    } else {
        start
    };
    if k == end {
        return Err(BencodeError::IntError);
    }
    let mut val: i64 = 0;
    while k < end
        invariant
            k <= end,
            end <= bytes@.len(),
            negative ==> val <= 0,
            !negative ==> val >= 0,
        decreases end - k,
    {
        let c = bytes[k];
        if c < 0x30 || c > 0x39 {
            return Err(BencodeError::IntError);
        }
        let d = (c - 0x30) as i64;
        if negative {
            if val < (i64::MIN + d) / 10 {
                return Err(BencodeError::IntError);
            }
            val = val * 10 - d;
        } else {
            if val > (i64::MAX - d) / 10 {
                return Err(BencodeError::IntError);
            }
            val = val * 10 + d;
        }
        k += 1;
    }
    Ok(val)
}

/// Reads the span `[start, end)` as a decimal `usize`.
#[verifier::loop_isolation(false)]
fn parse_usize(bytes: &[u8], start: usize, end: usize) -> (r: Result<usize, BencodeError>)
    requires
        start <= end <= bytes@.len(),
{
    if start == end {
        return Err(BencodeError::IntError);
    }
    let mut val: usize = 0;
    let mut k = start;
    while k < end
        invariant
            k <= end,
            end <= bytes@.len(),
        decreases end - k,
    {
        let c = bytes[k];
        if c < 0x30 || c > 0x39 {
            return Err(BencodeError::IntError);
        }
        let d = (c - 0x30) as usize;
        if val > (usize::MAX - d) / 10 {
            return Err(BencodeError::IntError);
        }
        val = val * 10 + d;
        k += 1;
    }
    Ok(val)
}

} // verus!
