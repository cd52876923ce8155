//! The wire value: a recursive tagged tree, its mathematical model, and its encoding.

use vstd::prelude::*;
use vstd::utf8::encode_utf8;
use crate::buf::push_bytes;
use crate::text::{int_text, push_digits, push_int};

verus! {

/// A value on the wire.
#[derive(Debug, PartialEq)]
pub enum RespValue {
    SimpleString(String),
    Error(String),
    Integer(i64),
    BulkString(Option<Vec<u8>>),
    Array(Vec<RespValue>),
}

/// Why bytes could not be read as a value.
#[derive(Debug, PartialEq)]
pub enum RespError {
    /// The bytes end before one complete value.
    Incomplete,
    /// The bytes cannot start any value; the text says what was wrong.
    Parse(String),
}

/// The mathematical model of a wire value.
pub enum Msg {
    Simple(Seq<char>),
    Error(Seq<char>),
    Integer(int),
    Bulk(Option<Seq<u8>>),
    Array(Seq<Msg>),
}

/// The model of a wire value.
pub open spec fn msg_of(v: RespValue) -> Msg
    decreases v, 1nat,
{
    match v {
        RespValue::SimpleString(s) => Msg::Simple(s@),
        RespValue::Error(s) => Msg::Error(s@),
        RespValue::Integer(n) => Msg::Integer(n as int),
        RespValue::BulkString(b) => Msg::Bulk(
            match b {
                Some(bytes) => Some(bytes@),
                None => None,
            },
        ),
        RespValue::Array(items) => Msg::Array(msgs_of(items, items.len() as nat)),
    }
}

/// The models of the first `n` values of `items`.
pub open spec fn msgs_of(items: Vec<RespValue>, n: nat) -> Seq<Msg>
    decreases items, 0nat, n,
{
    if n == 0 || n > items.len() {
        Seq::empty()
    } else {
        msgs_of(items, (n - 1) as nat).push(msg_of(items[n - 1]))
    }
}

pub proof fn lemma_msgs_of(items: Vec<RespValue>, n: nat)
    requires
        n <= items.len(),
    ensures
        msgs_of(items, n).len() == n,
        forall|j: int| 0 <= j < n ==> #[trigger] msgs_of(items, n)[j] == msg_of(items[j]),
    decreases n,
{
    if n > 0 {
        lemma_msgs_of(items, (n - 1) as nat);
    }
}

impl View for RespValue {
    type V = Msg;

    open spec fn view(&self) -> Msg {
        msg_of(*self)
    }
}

pub open spec fn crlf() -> Seq<u8> {
    seq![13u8, 10u8]
}

/// The bytes of one value on the wire.
pub open spec fn encode_msg(m: Msg) -> Seq<u8>
    decreases m,
{
    match m {
        Msg::Simple(t) => seq![43u8] + encode_utf8(t) + crlf(),
        Msg::Error(t) => seq![45u8] + encode_utf8(t) + crlf(),
        Msg::Integer(n) => seq![58u8] + int_text(n) + crlf(),
        Msg::Bulk(None) => seq![36u8, 45u8, 49u8, 13u8, 10u8],
        Msg::Bulk(Some(b)) => seq![36u8] + int_text(b.len() as int) + crlf() + b + crlf(),
        Msg::Array(items) => seq![42u8] + int_text(items.len() as int) + crlf() + encode_items(
            items,
            items.len(),
        ),
    }
}

/// The bytes of the first `n` values of `items`, one after another.
pub open spec fn encode_items(items: Seq<Msg>, n: nat) -> Seq<u8>
    decreases items, n,
{
    if n == 0 || n > items.len() {
        Seq::empty()
    } else {
        encode_items(items, (n - 1) as nat) + encode_msg(items[n - 1])
    }
}

fn push_crlf(out: &mut Vec<u8>)
    ensures
        final(out)@ == old(out)@ + crlf(),
{
    out.push(13u8);
    out.push(10u8);
    assert(out@ =~= old(out)@ + crlf());
}

impl RespValue {
    /// Appends the wire bytes of this value to `out`.
    pub fn encode_into(&self, out: &mut Vec<u8>)
        ensures
            final(out)@ == old(out)@ + encode_msg(self@),
        decreases self,
    {
        match self {
            RespValue::SimpleString(s) => {
                out.push(43u8);
                push_bytes(out, s.as_str().as_bytes());
                push_crlf(out);
                assert(out@ =~= old(out)@ + encode_msg(self@));
            },
            RespValue::Error(s) => {
                out.push(45u8);
                push_bytes(out, s.as_str().as_bytes());
                push_crlf(out);
                assert(out@ =~= old(out)@ + encode_msg(self@));
            },
            RespValue::Integer(n) => {
                out.push(58u8);
                push_int(out, *n);
                push_crlf(out);
                assert(out@ =~= old(out)@ + encode_msg(self@));
            },
            RespValue::BulkString(None) => {
                out.push(36u8);
                out.push(45u8);
                out.push(49u8);
                push_crlf(out);
                assert(out@ =~= old(out)@ + encode_msg(self@));
            },
            RespValue::BulkString(Some(data)) => {
                out.push(36u8);
                push_digits(out, data.len() as u64);
                push_crlf(out);
                push_bytes(out, data.as_slice());
                push_crlf(out);
                assert(out@ =~= old(out)@ + encode_msg(self@));
            },
            RespValue::Array(items) => {
                out.push(42u8);
                push_digits(out, items.len() as u64);
                push_crlf(out);
                let ghost head = out@;
                let ghost ms = self@->Array_0;
                proof {
                    lemma_msgs_of(*items, items.len() as nat);
                }
                let mut k: usize = 0;
                while k < items.len()
                    invariant
                        *self == RespValue::Array(*items),
                        k <= items@.len(),
                        ms.len() == items@.len(),
                        forall|j: int| 0 <= j < items@.len() ==> ms[j] == #[trigger] items@[j]@,
                        out@ == head + encode_items(ms, k as nat),
                    decreases items@.len() - k,
                {
                    proof {
                        vstd::std_specs::vec::axiom_vec_index_decreases(*items, k as int);
                        assert(decreases_to!(*self => (*self)->Array_0));
                    }
                    items[k].encode_into(out);
                    k = k + 1;
                    assert(out@ =~= head + encode_items(ms, k as nat));
                }
                assert(out@ =~= old(out)@ + encode_msg(self@));
            },
        }
    }

    /// The wire bytes of this value.
    pub fn encode(&self) -> (r: Vec<u8>)
        ensures
            r@ == encode_msg(self@),
    {
        let mut out: Vec<u8> = Vec::new();
        self.encode_into(&mut out);
        assert(out@ =~= encode_msg(self@));
        out
    }
}

} // verus!
