//! The command dispatcher: a decoded request names one of four verbs, which
//! reads or writes the store and gives exactly one reply.

use vstd::prelude::*;
use crate::buf::copy_range;
use crate::resp::{lemma_msgs_of, msgs_of, Msg, RespError, RespValue};
use crate::store::{after_lookup, lookup, Rec, Store};
use crate::text::{parse_u64, u64_value};

verus! {

/// A request that names a verb and carries its arguments.
#[derive(Debug, PartialEq)]
pub enum Command {
    Ping(Option<Vec<u8>>),
    Echo(Vec<u8>),
    Get(Vec<u8>),
    /// Key, value, and the lifetime in milliseconds given by `PX`.
    SetKey(Vec<u8>, Vec<u8>, Option<u64>),
}

/// The model of a command.
pub enum Cmd {
    Ping(Option<Seq<u8>>),
    Echo(Seq<u8>),
    Get(Seq<u8>),
    SetKey(Seq<u8>, Seq<u8>, Option<u64>),
}

impl View for Command {
    type V = Cmd;

    open spec fn view(&self) -> Cmd {
        match self {
            Command::Ping(a) => Cmd::Ping(
                match a {
                    Some(b) => Some(b@),
                    None => None,
                },
            ),
            Command::Echo(a) => Cmd::Echo(a@),
            Command::Get(k) => Cmd::Get(k@),
            Command::SetKey(k, v, px) => Cmd::SetKey(k@, v@, *px),
        }
    }
}

/// The bytes of the `i`-th element, when it is a present bulk string.
pub open spec fn bulk_at(items: Seq<Msg>, i: int) -> Option<Seq<u8>> {
    if 0 <= i < items.len() {
        match items[i] {
            Msg::Bulk(Some(b)) => Some(b),
            _ => None,
        }
    } else {
        None
    }
}

pub open spec fn ascii_lower(c: u8) -> u8 {
    if 65 <= c <= 90 {
        (c + 32) as u8
    } else {
        c
    }
}

/// `verb` spells the lower-case `word`, in any case.
pub open spec fn spells(verb: Seq<u8>, word: Seq<u8>) -> bool {
    verb.len() == word.len() && forall|i: int| 0 <= i < verb.len() ==> ascii_lower(verb[i]) == word[i]
}

pub open spec fn word_ping() -> Seq<u8> {
    seq![112u8, 105u8, 110u8, 103u8]
}

pub open spec fn word_echo() -> Seq<u8> {
    seq![101u8, 99u8, 104u8, 111u8]
}

pub open spec fn word_get() -> Seq<u8> {
    seq![103u8, 101u8, 116u8]
}

pub open spec fn word_set() -> Seq<u8> {
    seq![115u8, 101u8, 116u8]
}

pub open spec fn word_px() -> Seq<u8> {
    seq![112u8, 120u8]
}

/// The arguments of `SET`: key and value, then optionally `PX` and milliseconds.
pub open spec fn set_request(items: Seq<Msg>) -> Result<Cmd, Seq<char>> {
    if items.len() == 3 && bulk_at(items, 1) is Some && bulk_at(items, 2) is Some {
        Ok(Cmd::SetKey(bulk_at(items, 1)->0, bulk_at(items, 2)->0, None))
    } else if items.len() == 5 && bulk_at(items, 1) is Some && bulk_at(items, 2) is Some
        && bulk_at(items, 3) is Some && spells(bulk_at(items, 3)->0, word_px())
        && bulk_at(items, 4) is Some {
        match u64_value(bulk_at(items, 4)->0) {
            Some(ms) => Ok(Cmd::SetKey(bulk_at(items, 1)->0, bulk_at(items, 2)->0, Some(ms as u64))),
            None => Err("Invalid PX value"@),
        }
    } else {
        Err("Invalid SET command format"@)
    }
}

/// What a request asks for, or the text of the error it is answered with.
pub open spec fn request_of(m: Msg) -> Result<Cmd, Seq<char>> {
    match m {
        Msg::Array(items) => match bulk_at(items, 0) {
            None => Err("Invalid command format"@),
            Some(verb) => if spells(verb, word_ping()) {
                Ok(Cmd::Ping(bulk_at(items, 1)))
            } else if spells(verb, word_echo()) {
                if items.len() == 2 && bulk_at(items, 1) is Some {
                    Ok(Cmd::Echo(bulk_at(items, 1)->0))
                } else {
                    Err("Invalid ECHO command format"@)
                }
            } else if spells(verb, word_get()) {
                if items.len() == 2 && bulk_at(items, 1) is Some {
                    Ok(Cmd::Get(bulk_at(items, 1)->0))
                } else {
                    Err("Invalid GET command format"@)
                }
            } else if spells(verb, word_set()) {
                set_request(items)
            } else {
                Err("Unknown command"@)
            },
        },
        _ => Err("Invalid request format"@),
    }
}

/// The absolute expiry of a record written at `now` to live `px` milliseconds;
/// past the clock's range it is the clock's last value.
pub open spec fn expiry_at(now: u64, px: Option<u64>) -> Option<u64> {
    match px {
        Some(ms) => Some(
            if now + ms > u64::MAX {
                u64::MAX
            } else {
                (now + ms) as u64
            },
        ),
        None => None,
    }
}

/// What running a command at `now` does to the store, and its reply.
pub open spec fn execute_spec(m: Map<Seq<u8>, Rec>, c: Cmd, now: u64) -> (Map<Seq<u8>, Rec>, Msg) {
    match c {
        Cmd::Ping(None) => (m, Msg::Simple("PONG"@)),
        Cmd::Ping(Some(a)) => (m, Msg::Bulk(Some(a))),
        Cmd::Echo(a) => (m, Msg::Bulk(Some(a))),
        Cmd::Get(k) => (after_lookup(m, k, now), Msg::Bulk(lookup(m, k, now))),
        Cmd::SetKey(k, v, px) => (
            m.insert(k, Rec { value: v, expiry: expiry_at(now, px) }),
            Msg::Simple("OK"@),
        ),
    }
}

/// What handling a request at `now` does to the store, and its reply.
pub open spec fn dispatch_spec(m: Map<Seq<u8>, Rec>, req: Msg, now: u64) -> (Map<Seq<u8>, Rec>, Msg) {
    match request_of(req) {
        Ok(c) => execute_spec(m, c, now),
        Err(t) => (m, Msg::Error(t)),
    }
}

fn bulk_arg(items: &Vec<RespValue>, i: usize) -> (r: Option<&Vec<u8>>)
    ensures
        r matches Some(b) ==> bulk_at(msgs_of(*items, items.len() as nat), i as int) == Some(b@),
        r is None ==> bulk_at(msgs_of(*items, items.len() as nat), i as int) is None,
{
    proof {
        lemma_msgs_of(*items, items.len() as nat);
    }
    if i < items.len() {
        match &items[i] {
            RespValue::BulkString(Some(b)) => Some(b),
            _ => None,
        }
    } else {
        None
    }
}

fn spells_word(verb: &[u8], word: &[u8]) -> (r: bool)
    ensures
        r == spells(verb@, word@),
{
    if verb.len() != word.len() {
        return false;
    }
    let mut i: usize = 0;
    while i < verb.len()
        invariant
            verb@.len() == word@.len(),
            i <= verb@.len(),
            forall|k: int| 0 <= k < i ==> ascii_lower(verb@[k]) == word@[k],
        decreases verb@.len() - i,
    {
        let c = verb[i];
        let lower: u8 = if 65u8 <= c && c <= 90u8 {
            c + 32
        } else {
            c
        };
        if lower != word[i] {
            return false;
        }
        i = i + 1;
    }
    true
}

fn copy_bytes(b: &Vec<u8>) -> (r: Vec<u8>)
    ensures
        r@ == b@,
{
    let r = copy_range(b.as_slice(), 0, b.len());
    assert(r@ =~= b@);
    r
}

fn error_value(text: &str) -> (r: RespValue)
    ensures
        r@ == Msg::Error(text@),
{
    RespValue::Error(text.to_owned())
}

/// Reads what a request asks for; a request that names no command correctly
/// is answered at once with an error.
pub fn interpret(req: &RespValue) -> (r: Result<Command, RespValue>)
    ensures
        match request_of(req@) {
            Ok(c) => r matches Ok(cmd) && cmd@ == c,
            Err(t) => r matches Err(v) && v@ == Msg::Error(t),
        },
{
    let items = match req {
        RespValue::Array(items) => items,
        _ => {
            return Err(error_value("Invalid request format"));
        },
    };
    let ghost ms = msgs_of(*items, items.len() as nat);
    assert(req@ == Msg::Array(ms));
    proof {
        lemma_msgs_of(*items, items.len() as nat);
    }
    let verb = match bulk_arg(items, 0) {
        Some(v) => v,
        None => {
            return Err(error_value("Invalid command format"));
        },
    };
    let ping: Vec<u8> = vec![112u8, 105u8, 110u8, 103u8];
    let echo: Vec<u8> = vec![101u8, 99u8, 104u8, 111u8];
    let get: Vec<u8> = vec![103u8, 101u8, 116u8];
    let set: Vec<u8> = vec![115u8, 101u8, 116u8];
    assert(ping@ =~= word_ping());
    assert(echo@ =~= word_echo());
    assert(get@ =~= word_get());
    assert(set@ =~= word_set());
    if spells_word(verb.as_slice(), ping.as_slice()) {
        match bulk_arg(items, 1) {
            Some(a) => Ok(Command::Ping(Some(copy_bytes(a)))),
            None => Ok(Command::Ping(None)),
        }
    } else if spells_word(verb.as_slice(), echo.as_slice()) {
        match bulk_arg(items, 1) {
            Some(a) => if items.len() == 2 {
                Ok(Command::Echo(copy_bytes(a)))
            } else {
                Err(error_value("Invalid ECHO command format"))
            },
            None => Err(error_value("Invalid ECHO command format")),
        }
    } else if spells_word(verb.as_slice(), get.as_slice()) {
        match bulk_arg(items, 1) {
            Some(k) => if items.len() == 2 {
                Ok(Command::Get(copy_bytes(k)))
            } else {
                Err(error_value("Invalid GET command format"))
            },
            None => Err(error_value("Invalid GET command format")),
        }
    } else if spells_word(verb.as_slice(), set.as_slice()) {
        interpret_set(items)
    } else {
        Err(error_value("Unknown command"))
    }
}

fn interpret_set(items: &Vec<RespValue>) -> (r: Result<Command, RespValue>)
    ensures
        match set_request(msgs_of(*items, items.len() as nat)) {
            Ok(c) => r matches Ok(cmd) && cmd@ == c,
            Err(t) => r matches Err(v) && v@ == Msg::Error(t),
        },
{
    proof {
        lemma_msgs_of(*items, items.len() as nat);
    }
    let n = items.len();
    if n != 3 && n != 5 {
        return Err(error_value("Invalid SET command format"));
    }
    let (key, value) = match (bulk_arg(items, 1), bulk_arg(items, 2)) {
        (Some(k), Some(v)) => (k, v),
        _ => {
            return Err(error_value("Invalid SET command format"));
        },
    };
    if n == 3 {
        return Ok(Command::SetKey(copy_bytes(key), copy_bytes(value), None));
    }
    let px: Vec<u8> = vec![112u8, 120u8];
    assert(px@ =~= word_px());
    let (opt, ms) = match (bulk_arg(items, 3), bulk_arg(items, 4)) {
        (Some(o), Some(m)) => (o, m),
        _ => {
            return Err(error_value("Invalid SET command format"));
        },
    };
    if !spells_word(opt.as_slice(), px.as_slice()) {
        return Err(error_value("Invalid SET command format"));
    }
    match parse_u64(ms.as_slice(), 0, ms.len()) {
        Some(t) => {
            assert(ms@.subrange(0, ms@.len() as int) =~= ms@);
            Ok(Command::SetKey(copy_bytes(key), copy_bytes(value), Some(t)))
        },
        None => {
            assert(ms@.subrange(0, ms@.len() as int) =~= ms@);
            Err(error_value("Invalid PX value"))
        },
    }
}

/// Runs a command against the store at time `now`, and gives its reply.
pub fn execute(store: &mut Store, cmd: Command, now: u64) -> (r: RespValue)
    requires
        old(store).wf(),
    ensures
        final(store).wf(),
        (final(store)@, r@) == execute_spec(old(store)@, cmd@, now),
{
    match cmd {
        Command::Ping(None) => RespValue::SimpleString("PONG".to_owned()),
        Command::Ping(Some(a)) => RespValue::BulkString(Some(a)),
        Command::Echo(a) => RespValue::BulkString(Some(a)),
        Command::Get(k) => RespValue::BulkString(store.get(k.as_slice(), now)),
        Command::SetKey(k, v, px) => {
            let expiry = match px {
                Some(ms) => Some(now.saturating_add(ms)),
                None => None,
            };
            store.set(k, v, expiry);
            RespValue::SimpleString("OK".to_owned())
        },
    }
}

/// Handles one request at time `now`: the reply, and the store read or written.
pub fn dispatch(store: &mut Store, req: &RespValue, now: u64) -> (r: RespValue)
    requires
        old(store).wf(),
    ensures
        final(store).wf(),
        (final(store)@, r@) == dispatch_spec(old(store)@, req@, now),
{
    match interpret(req) {
        Ok(cmd) => execute(store, cmd, now),
        Err(reply) => reply,
    }
}

/// The reply to bytes that could not be read as a request.
pub fn error_reply(e: RespError) -> (r: RespValue)
    ensures
        r@ == match e {
            RespError::Parse(t) => Msg::Error(t@),
            RespError::Incomplete => Msg::Error("Parse error: incomplete value"@),
        },
{
    match e {
        RespError::Parse(t) => RespValue::Error(t),
        RespError::Incomplete => error_value("Parse error: incomplete value"),
    }
}

} // verus!
