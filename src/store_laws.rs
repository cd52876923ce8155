//! Laws of the store and the dispatcher, stated over the models that
//! `execute` and `dispatch` are proved against.

use vstd::prelude::*;
use crate::command::{
    dispatch_spec, execute_spec, expiry_at, request_of, spells, word_echo, word_get, word_ping,
    word_set, Cmd,
};
use crate::resp::Msg;
use crate::store::{live, lookup, Rec};

verus! {

/// Reading a key that was never written gives the null bulk string and
/// leaves the store as it was.
pub proof fn lemma_get_unwritten(m: Map<Seq<u8>, Rec>, k: Seq<u8>, now: u64)
    requires
        !m.contains_key(k),
    ensures
        execute_spec(m, Cmd::Get(k), now) == (m, Msg::Bulk(None)),
{
}

/// After `SET k v`, `GET k` gives `v`, whenever it comes.
pub proof fn lemma_set_then_get(m: Map<Seq<u8>, Rec>, k: Seq<u8>, v: Seq<u8>, t1: u64, t2: u64)
    ensures
        execute_spec(execute_spec(m, Cmd::SetKey(k, v, None), t1).0, Cmd::Get(k), t2).1
            == Msg::Bulk(Some(v)),
{
}

/// After `SET k v PX ms` at `t1`, `GET k` at `t2` gives `v` up to and
/// including `t1 + ms`, and the null bulk string after it.
pub proof fn lemma_set_px_then_get(
    m: Map<Seq<u8>, Rec>,
    k: Seq<u8>,
    v: Seq<u8>,
    ms: u64,
    t1: u64,
    t2: u64,
)
    requires
        t1 + ms <= u64::MAX,
    ensures
        t2 <= t1 + ms ==> execute_spec(
            execute_spec(m, Cmd::SetKey(k, v, Some(ms)), t1).0,
            Cmd::Get(k),
            t2,
        ).1 == Msg::Bulk(Some(v)),
        t2 > t1 + ms ==> execute_spec(
            execute_spec(m, Cmd::SetKey(k, v, Some(ms)), t1).0,
            Cmd::Get(k),
            t2,
        ).1 == Msg::Bulk(None),
{
}

/// A `SET` without `PX` replaces the record whole: an expiry that an
/// earlier `SET` gave the key is gone, and the new value reads back at any time.
pub proof fn lemma_set_clears_expiry(
    m: Map<Seq<u8>, Rec>,
    k: Seq<u8>,
    v1: Seq<u8>,
    px: Option<u64>,
    v2: Seq<u8>,
    t1: u64,
    t2: u64,
    t3: u64,
)
    ensures
        ({
            let m2 = execute_spec(
                execute_spec(m, Cmd::SetKey(k, v1, px), t1).0,
                Cmd::SetKey(k, v2, None),
                t2,
            ).0;
            &&& m2[k] == Rec { value: v2, expiry: None }
            &&& execute_spec(m2, Cmd::Get(k), t3).1 == Msg::Bulk(Some(v2))
        }),
{
}

/// Writes to two distinct keys keep both values, in whichever order they run.
pub proof fn lemma_distinct_keys_both_kept(
    m: Map<Seq<u8>, Rec>,
    k1: Seq<u8>,
    v1: Seq<u8>,
    k2: Seq<u8>,
    v2: Seq<u8>,
    t1: u64,
    t2: u64,
    t3: u64,
)
    requires
        k1 != k2,
    ensures
        ({
            let a = execute_spec(
                execute_spec(m, Cmd::SetKey(k1, v1, None), t1).0,
                Cmd::SetKey(k2, v2, None),
                t2,
            ).0;
            let b = execute_spec(
                execute_spec(m, Cmd::SetKey(k2, v2, None), t1).0,
                Cmd::SetKey(k1, v1, None),
                t2,
            ).0;
            &&& a == b
            &&& lookup(a, k1, t3) == Some(v1)
            &&& lookup(a, k2, t3) == Some(v2)
        }),
{
    let a = execute_spec(
        execute_spec(m, Cmd::SetKey(k1, v1, None), t1).0,
        Cmd::SetKey(k2, v2, None),
        t2,
    ).0;
    let b = execute_spec(
        execute_spec(m, Cmd::SetKey(k2, v2, None), t1).0,
        Cmd::SetKey(k1, v1, None),
        t2,
    ).0;
    assert(a =~= b);
}

/// A read after a write of `k` sees that write whole: its value exactly when
/// that write's own expiry has not passed, and never a value with another
/// write's expiry, whatever the store held before.
pub proof fn lemma_no_torn_record(
    m: Map<Seq<u8>, Rec>,
    k: Seq<u8>,
    v: Seq<u8>,
    px: Option<u64>,
    t: u64,
    now: u64,
)
    ensures
        ({
            let r = Rec { value: v, expiry: expiry_at(t, px) };
            let m1 = execute_spec(m, Cmd::SetKey(k, v, px), t).0;
            &&& m1[k] == r
            &&& execute_spec(m1, Cmd::Get(k), now).1 == Msg::Bulk(
                if live(r, now) {
                    Some(v)
                } else {
                    None
                },
            )
        }),
{
}

/// A request that is rejected gets an error reply and leaves the store as it
/// was, so the requests after it are handled as if it had not come.
pub proof fn lemma_rejected_request(m: Map<Seq<u8>, Rec>, req: Msg, now: u64)
    requires
        request_of(req) is Err,
    ensures
        dispatch_spec(m, req, now) == (m, Msg::Error(request_of(req)->Err_0)),
{
}

/// `ECHO` without its argument is rejected.
pub proof fn lemma_echo_without_argument(m: Map<Seq<u8>, Rec>, verb: Seq<u8>, now: u64)
    requires
        spells(verb, word_echo()),
    ensures
        dispatch_spec(m, Msg::Array(seq![Msg::Bulk(Some(verb))]), now) == (
            m,
            Msg::Error("Invalid ECHO command format"@),
        ),
{
    assert(!spells(verb, word_ping())) by {
        if spells(verb, word_ping()) {
            assert(verb[0] == word_ping()[0]);
        }
    }
}

/// A verb that is none of the four is rejected as unknown, whatever follows it.
pub proof fn lemma_unknown_verb(m: Map<Seq<u8>, Rec>, items: Seq<Msg>, verb: Seq<u8>, now: u64)
    requires
        items.len() > 0,
        items[0] == Msg::Bulk(Some(verb)),
        !spells(verb, word_ping()),
        !spells(verb, word_echo()),
        !spells(verb, word_get()),
        !spells(verb, word_set()),
    ensures
        dispatch_spec(m, Msg::Array(items), now) == (m, Msg::Error("Unknown command"@)),
{
}

} // verus!
