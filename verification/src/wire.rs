//! The binary primitive codec: little-endian 32-bit words and null-terminated
//! strings, read from a byte slice at a position and appended to a byte vector.
//!
//! A reader takes the input and the position to read at, and returns the value
//! together with the position just behind it. A position behind the end of the
//! input reads as an exhausted stream.

use crate::error::Error;
use byteorder::{ByteOrder, LittleEndian};
use vstd::prelude::*;
use vstd::slice::{slice_subrange, slice_to_vec};
use vstd::utf8::{decode_utf8, encode_utf8, valid_utf8};

verus! {

/// The bytes that are left to read at position `pos` of `input`.
pub open spec fn rest(input: Seq<u8>, pos: usize) -> Seq<u8> {
    if pos <= input.len() {
        input.skip(pos as int)
    } else {
        Seq::empty()
    }
}

/// The unsigned integer that the four bytes of `s` from position `at` on hold
/// in little-endian order.
pub open spec fn word_at(s: Seq<u8>, at: int) -> u32
    recommends
        0 <= at,
        at + 4 <= s.len(),
{
    (s[at] as int + s[at + 1] as int * 0x100 + s[at + 2] as int * 0x1_0000 + s[at + 3] as int
        * 0x100_0000) as u32
}

/// The unsigned integer that the first four bytes of `b` hold in little-endian
/// order.
pub open spec fn le_u32(b: Seq<u8>) -> u32
    recommends
        b.len() >= 4,
{
    word_at(b, 0)
}

/// A reader that started at `pos` and stopped at `end` went forward, and no
/// further than the input reaches.
pub open spec fn within(input: Seq<u8>, pos: usize, end: usize) -> bool {
    pos <= end && end - pos <= rest(input, pos).len()
}

/// Moving on by `k` bytes from `pos` leaves what is left at `pos + k`.
pub proof fn lemma_rest_skip(input: &[u8], pos: usize, k: nat)
    requires
        k <= rest(input@, pos).len(),
    ensures
        pos + k <= usize::MAX,
        rest(input@, pos).skip(k as int) == rest(input@, (pos + k) as usize),
{
    assert(input@.len() == input.len());
    assert(rest(input@, pos).skip(k as int) =~= rest(input@, (pos + k) as usize));
}

/// The four bytes that hold `n` in little-endian order.
pub open spec fn u32_le(n: u32) -> Seq<u8> {
    seq![
        (n % 0x100) as u8,
        (n / 0x100 % 0x100) as u8,
        (n / 0x1_0000 % 0x100) as u8,
        (n / 0x100_0000) as u8,
    ]
}

/// Reading a 32-bit word: four bytes, or the stream is exhausted.
pub open spec fn parse_u32(s: Seq<u8>) -> Result<(u32, nat), Error> {
    if s.len() >= 4 {
        Ok((le_u32(s), 4nat))
    } else {
        Err(Error::UnexpectedEof)
    }
}

/// Reading `len` raw bytes.
pub open spec fn parse_bytes(s: Seq<u8>, len: nat) -> Result<(Seq<u8>, nat), Error> {
    if s.len() >= len {
        Ok((s.take(len as int), len))
    } else {
        Err(Error::UnexpectedEof)
    }
}

/// Passing over `len` bytes.
pub open spec fn parse_skip(s: Seq<u8>, len: nat) -> Result<nat, Error> {
    if s.len() >= len {
        Ok(len)
    } else {
        Err(Error::UnexpectedEof)
    }
}

/// Position `n` of `s` holds the first zero byte of `s`.
pub open spec fn terminated_at(s: Seq<u8>, n: int) -> bool {
    &&& 0 <= n < s.len()
    &&& s[n] == 0
    &&& forall|i: int| 0 <= i < n ==> s[i] != 0
}

/// Reading a null-terminated byte string: the bytes before the first zero
/// byte, with the terminator consumed too.
#[verifier::opaque]
pub open spec fn parse_cstring(s: Seq<u8>) -> Result<(Seq<u8>, nat), Error> {
    if exists|n: int| terminated_at(s, n) {
        let n = choose|n: int| terminated_at(s, n);
        Ok((s.take(n), (n + 1) as nat))
    } else {
        Err(Error::UnexpectedEof)
    }
}

/// Reading a null-terminated string as text: the bytes before the terminator
/// must be valid UTF-8.
pub open spec fn parse_text(s: Seq<u8>) -> Result<(Seq<char>, nat), Error> {
    match parse_cstring(s) {
        Err(e) => Err(e),
        Ok((raw, n)) => if valid_utf8(raw) {
            Ok((decode_utf8(raw), n))
        } else {
            Err(Error::InvalidText)
        },
    }
}

/// The bytes of a text written as a null-terminated string.
pub open spec fn text_bytes(t: Seq<char>) -> Seq<u8> {
    encode_utf8(t) + seq![0u8]
}

/// A text that a null-terminated string can hold: its encoding has no zero
/// byte.
pub open spec fn terminable(t: Seq<char>) -> bool {
    forall|i: int| 0 <= i < encode_utf8(t).len() ==> encode_utf8(t)[i] != 0
}

/// The outcome of reading more items after `done`, which took `used` bytes.
pub open spec fn after<T>(done: Seq<T>, used: nat, more: Result<(Seq<T>, nat), Error>) -> Result<
    (Seq<T>, nat),
    Error,
> {
    match more {
        Ok((items, n)) => Ok((done + items, used + n)),
        Err(e) => Err(e),
    }
}

/// Reading nothing more changes nothing.
pub proof fn lemma_after_nothing<T>(more: Result<(Seq<T>, nat), Error>)
    ensures
        after(Seq::<T>::empty(), 0, more) == more,
{
    match more {
        Ok((items, n)) => {
            assert(Seq::<T>::empty() + items =~= items);
        },
        Err(_) => {},
    }
}

/// Reading one item and then the others is reading them all.
pub proof fn lemma_after_after<T>(
    done: Seq<T>,
    used: nat,
    item: T,
    n: nat,
    more: Result<(Seq<T>, nat), Error>,
)
    ensures
        after(done, used, after(seq![item], n, more)) == after(done.push(item), used + n, more),
{
    match more {
        Ok((items, m)) => {
            assert(done + (seq![item] + items) =~= done.push(item) + items);
        },
        Err(_) => {},
    }
}

/// Decoding the little-endian bytes of a word gives the word back.
pub proof fn lemma_le_u32_of_u32_le(n: u32, tail: Seq<u8>)
    ensures
        le_u32(u32_le(n) + tail) == n,
        parse_u32(u32_le(n) + tail) == Ok::<(u32, nat), Error>((n, 4nat)),
{
    let b = u32_le(n) + tail;
    assert(b[0] == (n % 0x100) as u8);
    assert(b[1] == (n / 0x100 % 0x100) as u8);
    assert(b[2] == (n / 0x1_0000 % 0x100) as u8);
    assert(b[3] == (n / 0x100_0000) as u8);
}

/// The word whose little-endian bytes stand at position `at` is read there.
pub proof fn lemma_word_at(s: Seq<u8>, at: int, n: u32)
    requires
        0 <= at,
        at + 4 <= s.len(),
        s.subrange(at, at + 4) == u32_le(n),
    ensures
        word_at(s, at) == n,
{
    let b = s.subrange(at, at + 4);
    assert(b[0] == s[at] && b[1] == s[at + 1] && b[2] == s[at + 2] && b[3] == s[at + 3]);
    lemma_le_u32_of_u32_le(n, Seq::empty());
    assert(u32_le(n) + Seq::<u8>::empty() =~= u32_le(n));
}

/// What a null-terminated string reads as: the bytes before the first zero
/// byte, or nothing where there is no zero byte.
pub proof fn lemma_parse_cstring_is(s: Seq<u8>)
    ensures
        match parse_cstring(s) {
            Ok((raw, n)) => terminated_at(s, n - 1) && raw == s.take(n - 1),
            Err(e) => e == Error::UnexpectedEof && forall|i: int| 0 <= i < s.len() ==> s[i] != 0,
        },
{
    reveal(parse_cstring);
    if !exists|n: int| terminated_at(s, n) {
        assert forall|i: int| 0 <= i < s.len() implies s[i] != 0 by {
            if s[i] == 0 {
                lemma_first_zero(s, i);
            }
        }
    }
}

proof fn lemma_first_zero(s: Seq<u8>, i: int)
    requires
        0 <= i < s.len(),
        s[i] == 0,
    ensures
        exists|n: int| terminated_at(s, n),
    decreases i,
{
    if exists|j: int| 0 <= j < i && s[j] == 0 {
        let j = choose|j: int| 0 <= j < i && s[j] == 0;
        lemma_first_zero(s, j);
    } else {
        assert(terminated_at(s, i));
    }
}

/// A null-terminated string reads the same from any input that starts with
/// the same bytes up to and including the terminator, and so does a text.
pub proof fn lemma_parse_text_local(s: Seq<u8>, t: Seq<u8>)
    requires
        parse_cstring(s) is Ok,
        t.len() >= parse_cstring(s)->Ok_0.1,
        t.take(parse_cstring(s)->Ok_0.1 as int) == s.take(parse_cstring(s)->Ok_0.1 as int),
    ensures
        parse_cstring(t) == parse_cstring(s),
        parse_text(t) == parse_text(s),
{
    lemma_parse_cstring_is(s);
    lemma_parse_text_len(s);
    let n = parse_cstring(s)->Ok_0.1 as int;
    assert forall|i: int| 0 <= i < n implies t[i] == s[i] by {
        assert(t.take(n)[i] == s.take(n)[i]);
    }
    assert(terminated_at(t, n - 1));
    lemma_parse_cstring(t, n - 1);
    assert(t.take(n - 1) =~= s.take(n - 1));
}

/// A byte string without a zero byte holds no null-terminated string.
pub proof fn lemma_parse_cstring_none(s: Seq<u8>)
    requires
        forall|i: int| 0 <= i < s.len() ==> s[i] != 0,
    ensures
        parse_cstring(s) == Err::<(Seq<u8>, nat), Error>(Error::UnexpectedEof),
{
    reveal(parse_cstring);
}

/// A null-terminated string takes at least its terminator and no more than
/// there is, and so does a text.
pub proof fn lemma_parse_text_len(s: Seq<u8>)
    ensures
        parse_cstring(s) matches Ok((_, n)) ==> 1 <= n <= s.len(),
        parse_text(s) matches Ok((_, n)) ==> 1 <= n <= s.len(),
{
    reveal(parse_cstring);
}

/// The first zero byte of a sequence is the only position that terminates it.
pub proof fn lemma_parse_cstring(s: Seq<u8>, n: int)
    requires
        terminated_at(s, n),
    ensures
        parse_cstring(s) == Ok::<(Seq<u8>, nat), Error>((s.take(n), (n + 1) as nat)),
{
    reveal(parse_cstring);
    let m = choose|m: int| terminated_at(s, m);
    if m < n {
        assert(s[m] != 0);
    }
    if n < m {
        assert(s[n] != 0);
    }
}

/// A written text reads back as itself, whatever follows it.
pub proof fn lemma_parse_text_bytes(t: Seq<char>, tail: Seq<u8>)
    requires
        terminable(t),
    ensures
        parse_text(text_bytes(t) + tail) == Ok::<(Seq<char>, nat), Error>(
            (t, text_bytes(t).len()),
        ),
{
    broadcast use {vstd::utf8::encode_utf8_valid_utf8, vstd::utf8::encode_utf8_decode_utf8};

    let raw = encode_utf8(t);
    let s = text_bytes(t) + tail;
    let n = raw.len() as int;
    assert(s[n] == 0);
    assert forall|i: int| 0 <= i < n implies s[i] != 0 by {
        assert(s[i] == raw[i]);
    }
    lemma_parse_cstring(s, n);
    assert(s.take(n) =~= raw);
    assert(valid_utf8(encode_utf8(t)));
    assert(decode_utf8(encode_utf8(t)) == t);
}

/// `byteorder::LittleEndian::read_u32`: the first four bytes of the buffer,
/// taken as an unsigned integer in little-endian order. The call panics on a
/// shorter buffer, which the precondition rules out.
#[verifier::external_body]
fn decode_u32(buf: &[u8]) -> (n: u32)
    requires
        buf@.len() >= 4,
    ensures
        n == le_u32(buf@),
{
    LittleEndian::read_u32(buf)
}

/// `byteorder::LittleEndian::write_u32`: fills a four-byte buffer with the
/// integer in little-endian order.
#[verifier::external_body]
fn encode_u32(n: u32) -> (b: [u8; 4])
    ensures
        b@ == u32_le(n),
{
    let mut b = [0u8; 4];
    LittleEndian::write_u32(&mut b, n);
    b
}

/// `String::from_utf8`: the text that the bytes encode, or nothing when they
/// are not valid UTF-8.
#[verifier::external_body]
pub(crate) fn text_from_utf8(raw: Vec<u8>) -> (r: Option<String>)
    ensures
        r is Some <==> valid_utf8(raw@),
        r matches Some(t) ==> t@ == decode_utf8(raw@),
{
    String::from_utf8(raw).ok()
}

/// Reads a little-endian 32-bit word at `pos`.
pub fn read_u32(input: &[u8], pos: usize) -> (r: Result<(u32, usize), Error>)
    ensures
        match r {
            Ok((v, end)) => within(input@, pos, end) && parse_u32(rest(input@, pos)) == Ok::<
                (u32, nat),
                Error,
            >((v, (end - pos) as nat)),
            Err(e) => parse_u32(rest(input@, pos)) == Err::<(u32, nat), Error>(e),
        },
{
    if pos > input.len() || input.len() - pos < 4 {
        return Err(Error::UnexpectedEof);
    }
    let word = slice_subrange(input, pos, pos + 4);
    let v: u32 = decode_u32(word);
    assert(le_u32(word@) == le_u32(input@.skip(pos as int)));
    Ok((v, pos + 4))
}

/// Reads `len` bytes at `pos`.
pub fn read_bytes(input: &[u8], pos: usize, len: usize) -> (r: Result<(Vec<u8>, usize), Error>)
    ensures
        match r {
            Ok((v, end)) => within(input@, pos, end) && parse_bytes(
                rest(input@, pos),
                len as nat,
            ) == Ok::<(Seq<u8>, nat), Error>((v@, (end - pos) as nat)),
            Err(e) => parse_bytes(rest(input@, pos), len as nat) == Err::<(Seq<u8>, nat), Error>(
                e,
            ),
        },
{
    if pos > input.len() {
        if len == 0 {
            let v: Vec<u8> = Vec::new();
            assert(v@ =~= rest(input@, pos).take(0));
            return Ok((v, pos));
        }
        return Err(Error::UnexpectedEof);
    }
    if input.len() - pos < len {
        return Err(Error::UnexpectedEof);
    }
    let v = slice_to_vec(slice_subrange(input, pos, pos + len));
    assert(v@ =~= input@.skip(pos as int).take(len as int));
    Ok((v, pos + len))
}

/// Advances past `len` bytes at `pos` without looking at them.
pub fn skip(input: &[u8], pos: usize, len: u64) -> (r: Result<usize, Error>)
    ensures
        match r {
            Ok(end) => within(input@, pos, end) && parse_skip(rest(input@, pos), len as nat)
                == Ok::<nat, Error>((end - pos) as nat),
            Err(e) => parse_skip(rest(input@, pos), len as nat) == Err::<nat, Error>(e),
        },
{
    if len == 0 {
        return Ok(pos);
    }
    if pos > input.len() || ((input.len() - pos) as u64) < len {
        return Err(Error::UnexpectedEof);
    }
    Ok(pos + len as usize)
}

/// Reads a null-terminated string at `pos` and decodes it as UTF-8 text.
pub fn read_cstring(input: &[u8], pos: usize) -> (r: Result<(String, usize), Error>)
    ensures
        match r {
            Ok((v, end)) => within(input@, pos, end) && parse_text(rest(input@, pos)) == Ok::<
                (Seq<char>, nat),
                Error,
            >((v@, (end - pos) as nat)),
            Err(e) => parse_text(rest(input@, pos)) == Err::<(Seq<char>, nat), Error>(e),
        },
{
    if pos > input.len() {
        proof {
            lemma_parse_cstring_none(rest(input@, pos));
        }
        return Err(Error::UnexpectedEof);
    }
    let ghost s = input@.skip(pos as int);
    let mut i: usize = pos;
    while i < input.len() && input[i] != 0
        invariant
            pos <= i <= input@.len(),
            s == input@.skip(pos as int),
            forall|k: int| 0 <= k < i - pos ==> s[k] != 0,
        decreases input@.len() - i,
    {
        i += 1;
    }
    if i >= input.len() {
        proof {
            lemma_parse_cstring_none(s);
        }
        return Err(Error::UnexpectedEof);
    }
    proof {
        lemma_parse_cstring(s, i - pos);
    }
    let raw = slice_to_vec(slice_subrange(input, pos, i));
    assert(raw@ =~= s.take(i - pos));
    match text_from_utf8(raw) {
        Some(text) => Ok((text, i + 1)),
        None => Err(Error::InvalidText),
    }
}

/// Appends a 32-bit word in little-endian order.
pub fn write_u32(out: &mut Vec<u8>, n: u32)
    ensures
        final(out)@ == old(out)@ + u32_le(n),
{
    let b = encode_u32(n);
    out.push(b[0]);
    out.push(b[1]);
    out.push(b[2]);
    out.push(b[3]);
    assert(out@ =~= old(out)@ + u32_le(n));
}

/// Appends the bytes of `data`.
pub fn write_bytes(out: &mut Vec<u8>, data: &[u8])
    ensures
        final(out)@ == old(out)@ + data@,
{
    out.extend_from_slice(data);
    assert(out@ =~= old(out)@ + data@);
}

/// Appends a text as a null-terminated string.
pub fn write_cstring(out: &mut Vec<u8>, text: &str)
    ensures
        final(out)@ == old(out)@ + text_bytes(text@),
{
    out.extend_from_slice(text.as_bytes());
    out.push(0u8);
    assert(out@ =~= old(out)@ + text_bytes(text@));
}

} // verus!
