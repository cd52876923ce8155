//! Reading one wire value from the front of a byte buffer.
//!
//! The reader works at a cursor and reports where the value ended, so that an
//! array's elements follow one another exactly and bytes after the value are
//! left for the next call.

use vstd::prelude::*;
use vstd::utf8::{decode_utf8, encode_utf8, valid_utf8};
use crate::resp::{lemma_msgs_of, msg_of, msgs_of, Msg, RespError, RespValue};
use crate::buf::copy_range;
use crate::text::{i64_value, parse_i64};

verus! {

/// What reading from a position gives: a value and the position just after it,
/// a buffer that ends too soon, or bytes that no value starts with.
pub enum Parsed<T> {
    Done(T, int),
    Incomplete,
    Invalid,
}

/// The position of the first carriage return at or after `i`.
pub open spec fn find_cr(b: Seq<u8>, i: int) -> Option<int>
    decreases b.len() - i,
{
    if i < 0 || i >= b.len() {
        None
    } else if b[i] == 13 {
        Some(i)
    } else {
        find_cr(b, i + 1)
    }
}

/// The line that starts at `i`: the bytes up to the first carriage return,
/// which a line feed must follow.
pub open spec fn parse_line(b: Seq<u8>, i: int) -> Parsed<Seq<u8>> {
    match find_cr(b, i) {
        None => Parsed::Incomplete,
        Some(j) => if j + 1 >= b.len() {
            Parsed::Incomplete
        } else if b[j + 1] != 10 {
            Parsed::Invalid
        } else {
            Parsed::Done(b.subrange(i, j), j + 2)
        },
    }
}

/// The body of a bulk string of declared length `n` whose data starts at `e`.
pub open spec fn parse_bulk(b: Seq<u8>, n: int, e: int) -> Parsed<Msg> {
    if n == -1 {
        Parsed::Done(Msg::Bulk(None), e)
    } else if n < 0 {
        Parsed::Invalid
    } else if e + n + 2 > b.len() {
        Parsed::Incomplete
    } else if b[e + n] == 13 && b[e + n + 1] == 10 {
        Parsed::Done(Msg::Bulk(Some(b.subrange(e, e + n))), e + n + 2)
    } else {
        Parsed::Invalid
    }
}

/// The value whose bytes start at `i`.
pub open spec fn parse_msg(b: Seq<u8>, i: int) -> Parsed<Msg>
    decreases b.len() - i, 1nat, 0nat,
{
    if i < 0 || i >= b.len() {
        Parsed::Incomplete
    } else {
        let tag = b[i];
        if tag == 43 || tag == 45 || tag == 58 || tag == 36 || tag == 42 {
            match parse_line(b, i + 1) {
                Parsed::Done(line, e) => {
                    if tag == 43 || tag == 45 {
                        if valid_utf8(line) {
                            let t = decode_utf8(line);
                            Parsed::Done(
                                if tag == 43 {
                                    Msg::Simple(t)
                                } else {
                                    Msg::Error(t)
                                },
                                e,
                            )
                        } else {
                            Parsed::Invalid
                        }
                    } else {
                        match i64_value(line) {
                            None => Parsed::Invalid,
                            Some(n) => if tag == 58 {
                                Parsed::Done(Msg::Integer(n), e)
                            } else if tag == 36 {
                                parse_bulk(b, n, e)
                            } else if n < 0 || e <= i || e > b.len() {
                                Parsed::Invalid
                            } else {
                                match parse_items(b, e, n as nat) {
                                    Parsed::Done(items, end) => Parsed::Done(Msg::Array(items), end),
                                    Parsed::Incomplete => Parsed::Incomplete,
                                    Parsed::Invalid => Parsed::Invalid,
                                }
                            },
                        }
                    }
                },
                Parsed::Incomplete => Parsed::Incomplete,
                Parsed::Invalid => Parsed::Invalid,
            }
        } else {
            Parsed::Invalid
        }
    }
}

/// `ms` put before the values that `p` read.
pub open spec fn prepend(ms: Seq<Msg>, p: Parsed<Seq<Msg>>) -> Parsed<Seq<Msg>> {
    match p {
        Parsed::Done(rest, e) => Parsed::Done(ms + rest, e),
        Parsed::Incomplete => Parsed::Incomplete,
        Parsed::Invalid => Parsed::Invalid,
    }
}

/// `n` values, one after another, starting at `i`.
pub open spec fn parse_items(b: Seq<u8>, i: int, n: nat) -> Parsed<Seq<Msg>>
    decreases b.len() - i, 2nat, n,
{
    if n == 0 {
        Parsed::Done(Seq::empty(), i)
    } else if i < 0 || i >= b.len() {
        Parsed::Incomplete
    } else {
        match parse_msg(b, i) {
            Parsed::Done(m, e) => if e <= i || e > b.len() {
                Parsed::Invalid
            } else {
                prepend(seq![m], parse_items(b, e, (n - 1) as nat))
            },
            Parsed::Incomplete => Parsed::Incomplete,
            Parsed::Invalid => Parsed::Invalid,
        }
    }
}

/// What decoding `b` from `i` returns, stated over the model.
pub open spec fn decoded_at(b: Seq<u8>, i: int, r: Result<(RespValue, usize), RespError>) -> bool {
    match parse_msg(b, i) {
        Parsed::Done(m, e) => r matches Ok((v, j)) && v@ == m && j == e,
        Parsed::Incomplete => r == Err::<(RespValue, usize), RespError>(RespError::Incomplete),
        Parsed::Invalid => r matches Err(RespError::Parse(_)),
    }
}

/// Relies on std's `String::from_utf8`: it succeeds exactly on valid UTF-8,
/// and the string it gives holds those bytes.
#[verifier::external_body]
fn utf8_text(b: &[u8]) -> (r: Option<String>)
    ensures
        r is Some <==> valid_utf8(b@),
        r matches Some(s) ==> encode_utf8(s@) == b@,
{
    String::from_utf8(b.to_vec()).ok()
}

fn parse_error(why: &str) -> (r: RespError)
    ensures
        r matches RespError::Parse(_),
{
    RespError::Parse(why.to_owned())
}

/// The first carriage return at or after `i`.
fn find_cr_from(b: &[u8], i: usize) -> (r: Option<usize>)
    ensures
        r matches Some(j) ==> find_cr(b@, i as int) == Some(j as int) && i <= j < b@.len(),
        r is None ==> find_cr(b@, i as int) is None,
{
    let mut j: usize = i;
    while j < b.len()
        invariant
            i <= j,
            find_cr(b@, i as int) == find_cr(b@, j as int),
        decreases b@.len() - j,
    {
        if b[j] == 13u8 {
            return Some(j);
        }
        j = j + 1;
    }
    None
}

/// The line at `i`, as the position of its carriage return and the position after its line feed.
fn line_at(b: &[u8], i: usize) -> (r: Result<(usize, usize), RespError>)
    ensures
        match parse_line(b@, i as int) {
            Parsed::Done(line, e) => r matches Ok((j, k)) && line == b@.subrange(i as int, j as int)
                && k == e && i <= j < k <= b@.len(),
            Parsed::Incomplete => r == Err::<(usize, usize), RespError>(RespError::Incomplete),
            Parsed::Invalid => r matches Err(RespError::Parse(_)),
        },
{
    match find_cr_from(b, i) {
        None => Err(RespError::Incomplete),
        Some(j) => {
            if b.len() - j < 2 {
                Err(RespError::Incomplete)
            } else if b[j + 1] != 10u8 {
                Err(parse_error("line without a line feed after its carriage return"))
            } else {
                Ok((j, j + 2))
            }
        },
    }
}

/// Decodes the value whose bytes start at `i`.
pub fn decode_at(b: &[u8], i: usize) -> (r: Result<(RespValue, usize), RespError>)
    ensures
        decoded_at(b@, i as int, r),
        r matches Ok((_, e)) ==> i < e <= b@.len(),
    decreases b@.len() - i, 1nat,
{
    if i >= b.len() {
        return Err(RespError::Incomplete);
    }
    let tag = b[i];
    if !(tag == 43u8 || tag == 45u8 || tag == 58u8 || tag == 36u8 || tag == 42u8) {
        return Err(parse_error("unknown type byte"));
    }
    let (j, e) = match line_at(b, i + 1) {
        Ok(p) => p,
        Err(err) => {
            return Err(err);
        },
    };
    let ghost line = b@.subrange(i + 1, j as int);
    if tag == 43u8 || tag == 45u8 {
        match utf8_text(&b[i + 1..j]) {
            Some(t) => {
                proof {
                    vstd::utf8::encode_utf8_decode_utf8(t@);
                }
                if tag == 43u8 {
                    Ok((RespValue::SimpleString(t), e))
                } else {
                    Ok((RespValue::Error(t), e))
                }
            },
            None => Err(parse_error("text that is not UTF-8")),
        }
    } else {
        let n = match parse_i64(b, i + 1, j) {
            Some(n) => n,
            None => {
                return Err(parse_error("malformed number"));
            },
        };
        if tag == 58u8 {
            Ok((RespValue::Integer(n), e))
        } else if tag == 36u8 {
            decode_bulk(b, n, e)
        } else if n < 0 {
            Err(parse_error("negative array length"))
        } else {
            match decode_items(b, e, n as u64) {
                Ok((items, end)) => Ok((RespValue::Array(items), end)),
                Err(err) => Err(err),
            }
        }
    }
}

fn decode_bulk(b: &[u8], n: i64, e: usize) -> (r: Result<(RespValue, usize), RespError>)
    requires
        e <= b@.len(),
    ensures
        match parse_bulk(b@, n as int, e as int) {
            Parsed::Done(m, k) => r matches Ok((v, j)) && v@ == m && j == k && e <= j <= b@.len(),
            Parsed::Incomplete => r == Err::<(RespValue, usize), RespError>(RespError::Incomplete),
            Parsed::Invalid => r matches Err(RespError::Parse(_)),
        },
{
    if n == -1 {
        // the null bulk string ends with its header; `e` is past it
        return Ok((RespValue::BulkString(None), e));
    }
    if n < 0 {
        return Err(parse_error("negative bulk string length"));
    }
    let avail: usize = b.len() - e;
    if (n as u64) > (avail as u64) || avail - (n as usize) < 2 {
        return Err(RespError::Incomplete);
    }
    let end: usize = e + n as usize;
    if b[end] != 13u8 || b[end + 1] != 10u8 {
        return Err(parse_error("bulk string without its terminator"));
    }
    let data = copy_range(b, e, end);
    Ok((RespValue::BulkString(Some(data)), end + 2))
}

/// Decodes `n` values one after another, starting at `i`.
fn decode_items(b: &[u8], i: usize, n: u64) -> (r: Result<(Vec<RespValue>, usize), RespError>)
    requires
        i <= b@.len(),
    ensures
        match parse_items(b@, i as int, n as nat) {
            Parsed::Done(ms, k) => r matches Ok((items, j)) && msgs_of(items, items.len() as nat)
                == ms && j == k && i <= j <= b@.len(),
            Parsed::Incomplete => r == Err::<(Vec<RespValue>, usize), RespError>(
                RespError::Incomplete,
            ),
            Parsed::Invalid => r matches Err(RespError::Parse(_)),
        },
    decreases b@.len() - i, 2nat,
{
    let mut items: Vec<RespValue> = Vec::new();
    let mut pos: usize = i;
    let mut k: u64 = 0;
    while k < n
        invariant
            i <= pos <= b@.len(),
            k <= n,
            items@.len() == k,
            parse_items(b@, i as int, n as nat) == prepend(
                msgs_of(items, items.len() as nat),
                parse_items(b@, pos as int, (n - k) as nat),
            ),
        decreases n - k,
    {
        if pos >= b.len() {
            return Err(RespError::Incomplete);
        }
        match decode_at(b, pos) {
            Ok((v, e)) => {
                let ghost before = items;
                items.push(v);
                proof {
                    lemma_msgs_of(before, before.len() as nat);
                    lemma_msgs_of(items, items.len() as nat);
                    assert(msgs_of(items, items.len() as nat) =~= msgs_of(
                        before,
                        before.len() as nat,
                    ).push(msg_of(v)));
                    let rest = parse_items(b@, e as int, (n - k - 1) as nat);
                    match rest {
                        Parsed::Done(tail, _) => {
                            assert(msgs_of(before, before.len() as nat) + (seq![msg_of(v)] + tail)
                                =~= msgs_of(items, items.len() as nat) + tail);
                        },
                        _ => {},
                    }
                }
                pos = e;
                k = k + 1;
            },
            Err(err) => {
                return Err(err);
            },
        }
    }
    proof {
        assert(msgs_of(items, items.len() as nat) + Seq::<Msg>::empty() =~= msgs_of(
            items,
            items.len() as nat,
        ));
    }
    Ok((items, pos))
}

impl RespValue {
    /// Decodes the value at the front of `b`, and reports how many bytes it took.
    /// Bytes after those are left for the caller.
    pub fn decode(b: &[u8]) -> (r: Result<(RespValue, usize), RespError>)
        ensures
            decoded_at(b@, 0, r),
            r matches Ok((_, n)) ==> 0 < n <= b@.len(),
    {
        decode_at(b, 0)
    }
}

} // verus!
