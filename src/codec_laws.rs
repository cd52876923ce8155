//! Laws of the codec: decoding an encoding gives the value back, and
//! malformed or cut-off input is reported, never misread.

use vstd::prelude::*;
use vstd::utf8::*;
use crate::parse::{find_cr, parse_bulk, parse_items, parse_line, parse_msg, Parsed};
use crate::resp::{crlf, encode_items, encode_msg, Msg};
use crate::text::{i64_value, int_text, lemma_int_text_value, lemma_nat_digits, nat_digits, numeral_value};

verus! {

/// Text with neither a carriage return nor a line feed.
pub open spec fn no_line_break(t: Seq<char>) -> bool {
    forall|k: int| 0 <= k < t.len() ==> #[trigger] t[k] != '\r' && t[k] != '\n'
}

/// A value that the wire can carry: its texts hold no line break and its
/// lengths can be written as an `i64`.
pub open spec fn representable(m: Msg) -> bool
    decreases m, 0nat,
{
    match m {
        Msg::Simple(t) => no_line_break(t),
        Msg::Error(t) => no_line_break(t),
        Msg::Integer(n) => i64::MIN <= n <= i64::MAX,
        Msg::Bulk(Some(d)) => d.len() <= i64::MAX,
        Msg::Bulk(None) => true,
        Msg::Array(items) => items.len() <= i64::MAX && all_representable(items, items.len()),
    }
}

/// The first `n` of `items` are representable.
pub open spec fn all_representable(items: Seq<Msg>, n: nat) -> bool
    decreases items, n,
{
    if n == 0 || n > items.len() {
        true
    } else {
        all_representable(items, (n - 1) as nat) && representable(items[n - 1])
    }
}

pub proof fn lemma_all_representable(items: Seq<Msg>, n: nat)
    requires
        n <= items.len(),
    ensures
        all_representable(items, n) <==> forall|j: int| 0 <= j < n ==> #[trigger] representable(
            items[j],
        ),
    decreases n,
{
    if n > 0 {
        lemma_all_representable(items, (n - 1) as nat);
        assert(representable(items[n - 1]) ==> (all_representable(items, (n - 1) as nat)
            <==> all_representable(items, n)));
        if forall|j: int| 0 <= j < n ==> #[trigger] representable(items[j]) {
            assert(representable(items[n - 1]));
        }
    }
}

/// `b` holds `s` from position `p` on.
pub open spec fn holds_at(b: Seq<u8>, p: int, s: Seq<u8>) -> bool {
    0 <= p && p + s.len() <= b.len() && b.subrange(p, p + s.len()) == s
}

pub open spec fn no_cr(s: Seq<u8>) -> bool {
    forall|k: int| 0 <= k < s.len() ==> #[trigger] s[k] != 13
}

proof fn lemma_holds_split(b: Seq<u8>, p: int, s1: Seq<u8>, s2: Seq<u8>)
    requires
        holds_at(b, p, s1 + s2),
    ensures
        holds_at(b, p, s1),
        holds_at(b, p + s1.len(), s2),
{
    let whole = b.subrange(p, p + s1.len() + s2.len());
    assert(whole == s1 + s2);
    assert(b.subrange(p, p + s1.len()) =~= whole.subrange(0, s1.len() as int));
    assert(whole.subrange(0, s1.len() as int) =~= s1);
    assert(b.subrange(p + s1.len(), p + s1.len() + s2.len()) =~= whole.subrange(
        s1.len() as int,
        whole.len() as int,
    ));
    assert(whole.subrange(s1.len() as int, whole.len() as int) =~= s2);
}

proof fn lemma_find_cr_at(b: Seq<u8>, i: int, j: int)
    requires
        0 <= i <= j < b.len(),
        b[j] == 13,
        forall|k: int| i <= k < j ==> b[k] != 13,
    ensures
        find_cr(b, i) == Some(j),
    decreases j - i,
{
    if i < j {
        lemma_find_cr_at(b, i + 1, j);
    }
}

/// A line written as its text and a line break reads back as that text.
proof fn lemma_line(b: Seq<u8>, p: int, t: Seq<u8>)
    requires
        holds_at(b, p, t + crlf()),
        no_cr(t),
    ensures
        parse_line(b, p) == Parsed::Done(t, p + t.len() + 2),
{
    lemma_holds_split(b, p, t, crlf());
    let j = p + t.len();
    assert(b[j] == crlf()[0]);
    assert(b[j + 1] == crlf()[1]);
    assert forall|k: int| p <= k < j implies b[k] != 13 by {
        assert(b[k] == b.subrange(p, j)[k - p]);
    }
    lemma_find_cr_at(b, p, j);
}

proof fn lemma_int_text_no_cr(n: int)
    ensures
        no_cr(int_text(n)),
{
    if n < 0 {
        lemma_nat_digits((-n) as nat);
        let d = nat_digits((-n) as nat);
        assert forall|k: int| 0 <= k < int_text(n).len() implies #[trigger] int_text(n)[k] != 13 by {
            if k > 0 {
                assert(int_text(n)[k] == d[k - 1]);
            }
        }
    } else {
        lemma_nat_digits(n as nat);
    }
}

proof fn lemma_scalar_no_cr(c: char)
    requires
        c != '\r',
    ensures
        no_cr(encode_scalar(c as u32)),
{
    let v = c as u32;
    char_is_scalar(c);
    assert(((0xC0u8 | ((v >> 6u32) & 0x1Fu32) as u8)) != 13u8) by (bit_vector);
    assert(((0xE0u8 | ((v >> 12u32) & 0x0Fu32) as u8)) != 13u8) by (bit_vector);
    assert(((0xF0u8 | ((v >> 18u32) & 0x7u32) as u8)) != 13u8) by (bit_vector);
    assert(((0x80u8 | (v & 0x3Fu32) as u8)) != 13u8) by (bit_vector);
    assert(((0x80u8 | ((v >> 6u32) & 0x3Fu32) as u8)) != 13u8) by (bit_vector);
    assert(((0x80u8 | ((v >> 12u32) & 0x3Fu32) as u8)) != 13u8) by (bit_vector);
    if has_width_1_encoding(v) {
        assert(((v & 0x7Fu32) as u8) != 13u8) by (bit_vector)
            requires
                v <= 0x7Fu32,
                v != 13u32,
        ;
    }
}

proof fn lemma_utf8_no_cr(t: Seq<char>)
    requires
        no_line_break(t),
    ensures
        no_cr(encode_utf8(t)),
    decreases t.len(),
{
    if t.len() > 0 {
        assert(t[0] != '\r');
        lemma_scalar_no_cr(t[0]);
        let rest = t.drop_first();
        assert forall|k: int| 0 <= k < rest.len() implies #[trigger] rest[k] != '\r' && rest[k]
            != '\n' by {
            assert(rest[k] == t[k + 1]);
        }
        lemma_utf8_no_cr(rest);
        let head = encode_scalar(t[0] as u32);
        let tail = encode_utf8(rest);
        assert forall|k: int| 0 <= k < (head + tail).len() implies #[trigger] (head + tail)[k]
            != 13 by {
            if k >= head.len() {
                assert((head + tail)[k] == tail[k - head.len()]);
            }
        }
    }
}

proof fn lemma_i64_text(n: int)
    requires
        i64::MIN <= n <= i64::MAX,
    ensures
        i64_value(int_text(n)) == Some(n),
        no_cr(int_text(n)),
{
    lemma_int_text_value(n);
    lemma_int_text_no_cr(n);
}

/// A value's encoding, found at position `i`, reads back as that value and
/// ends where the encoding ends.
#[verifier::rlimit(40)]
pub proof fn lemma_parse_encoded(m: Msg, b: Seq<u8>, i: int)
    requires
        representable(m),
        holds_at(b, i, encode_msg(m)),
    ensures
        parse_msg(b, i) == Parsed::Done(m, i + encode_msg(m).len()),
    decreases m, 0nat,
{
    let enc = encode_msg(m);
    assert(b[i] == enc[0]);
    match m {
        Msg::Simple(t) => {
            lemma_utf8_no_cr(t);
            encode_utf8_valid_utf8(t);
            encode_utf8_decode_utf8(t);
            assert(enc =~= seq![43u8] + (encode_utf8(t) + crlf()));
            lemma_holds_split(b, i, seq![43u8], encode_utf8(t) + crlf());
            lemma_line(b, i + 1, encode_utf8(t));
        },
        Msg::Error(t) => {
            lemma_utf8_no_cr(t);
            encode_utf8_valid_utf8(t);
            encode_utf8_decode_utf8(t);
            assert(enc =~= seq![45u8] + (encode_utf8(t) + crlf()));
            lemma_holds_split(b, i, seq![45u8], encode_utf8(t) + crlf());
            lemma_line(b, i + 1, encode_utf8(t));
        },
        Msg::Integer(n) => {
            lemma_i64_text(n);
            assert(enc =~= seq![58u8] + (int_text(n) + crlf()));
            lemma_holds_split(b, i, seq![58u8], int_text(n) + crlf());
            lemma_line(b, i + 1, int_text(n));
        },
        Msg::Bulk(None) => {
            lemma_i64_text(-1);
            assert(nat_digits(1) =~= seq![49u8]);
            assert(int_text(-1) =~= seq![45u8, 49u8]);
            assert(enc =~= seq![36u8] + (int_text(-1) + crlf()));
            lemma_holds_split(b, i, seq![36u8], int_text(-1) + crlf());
            lemma_line(b, i + 1, int_text(-1));
        },
        Msg::Bulk(Some(d)) => {
            let len = d.len() as int;
            lemma_i64_text(len);
            let head = int_text(len) + crlf();
            assert(enc =~= seq![36u8] + (head + (d + crlf())));
            lemma_holds_split(b, i, seq![36u8], head + (d + crlf()));
            lemma_holds_split(b, i + 1, head, d + crlf());
            lemma_line(b, i + 1, int_text(len));
            let e = i + 1 + head.len();
            lemma_holds_split(b, e, d, crlf());
            assert(b[e + len] == crlf()[0]);
            assert(b[e + len + 1] == crlf()[1]);
        },
        Msg::Array(items) => {
            let len = items.len() as int;
            lemma_i64_text(len);
            let head = int_text(len) + crlf();
            let body = encode_items(items, items.len());
            assert(enc =~= seq![42u8] + (head + body));
            lemma_holds_split(b, i, seq![42u8], head + body);
            lemma_holds_split(b, i + 1, head, body);
            lemma_line(b, i + 1, int_text(len));
            let e = i + 1 + head.len();
            lemma_all_representable(items, items.len());
            lemma_parse_encoded_items(items, b, e, 0);
            assert(items.subrange(0, len) =~= items);
        },
    }
}

proof fn lemma_encode_items_prefix(items: Seq<Msg>, k: nat, n: nat)
    requires
        k <= n <= items.len(),
    ensures
        encode_items(items, n) =~= encode_items(items, k) + encode_items(items, n).subrange(
            encode_items(items, k).len() as int,
            encode_items(items, n).len() as int,
        ),
        encode_items(items, k).len() <= encode_items(items, n).len(),
    decreases n,
{
    if k < n {
        lemma_encode_items_prefix(items, k, (n - 1) as nat);
    }
}

/// The encodings of `items[k..]`, laid one after another, read back as those values.
proof fn lemma_parse_encoded_items(items: Seq<Msg>, b: Seq<u8>, i: int, k: nat)
    requires
        k <= items.len(),
        forall|j: int| 0 <= j < items.len() ==> #[trigger] representable(items[j]),
        holds_at(b, i, encode_items(items, items.len())),
    ensures
        parse_items(b, i + encode_items(items, k).len(), (items.len() - k) as nat) == Parsed::Done(
            items.subrange(k as int, items.len() as int),
            i + encode_items(items, items.len()).len(),
        ),
    decreases items, items.len() - k,
{
    let all = encode_items(items, items.len());
    let p = i + encode_items(items, k).len();
    if k == items.len() {
        assert(items.subrange(k as int, items.len() as int) =~= Seq::<Msg>::empty());
    } else {
        let next = encode_items(items, (k + 1) as nat);
        let one = encode_msg(items[k as int]);
        assert(next == encode_items(items, k) + one);
        lemma_encode_items_prefix(items, (k + 1) as nat, items.len());
        let after = all.subrange(next.len() as int, all.len() as int);
        assert(all =~= encode_items(items, k) + (one + after));
        lemma_holds_split(b, i, encode_items(items, k), one + after);
        lemma_holds_split(b, p, one, after);
        lemma_parse_encoded(items[k as int], b, p);
        lemma_parse_encoded_items(items, b, i, (k + 1) as nat);
        assert(seq![items[k as int]] + items.subrange(k + 1int, items.len() as int) =~= items.subrange(
            k as int,
            items.len() as int,
        ));
    }
}

/// Decoding the encoding of a representable value gives the value back, and
/// reads exactly the encoding: whatever follows it is left for the next value.
pub proof fn lemma_decode_encode(m: Msg, rest: Seq<u8>)
    requires
        representable(m),
    ensures
        parse_msg(encode_msg(m) + rest, 0) == Parsed::Done(m, encode_msg(m).len() as int),
{
    let b = encode_msg(m) + rest;
    assert(b.subrange(0, encode_msg(m).len() as int) =~= encode_msg(m));
    lemma_parse_encoded(m, b, 0);
}

proof fn lemma_find_cr_none(b: Seq<u8>, i: int)
    requires
        0 <= i,
        forall|k: int| i <= k < b.len() ==> b[k] != 13,
    ensures
        find_cr(b, i) is None,
    decreases b.len() - i,
{
    if i < b.len() {
        lemma_find_cr_none(b, i + 1);
    }
}

/// Input whose first byte is no type tag is malformed.
pub proof fn lemma_unknown_type_byte(b: Seq<u8>)
    requires
        b.len() > 0,
        b[0] != 43 && b[0] != 45 && b[0] != 58 && b[0] != 36 && b[0] != 42,
    ensures
        parse_msg(b, 0) == Parsed::<Msg>::Invalid,
{
}

/// A bulk string or array whose length header is complete but is not a
/// number is malformed.
pub proof fn lemma_non_numeric_header(b: Seq<u8>)
    requires
        b.len() > 0,
        b[0] == 36 || b[0] == 42,
        parse_line(b, 1) matches Parsed::Done(line, _) && numeral_value(line) is None,
    ensures
        parse_msg(b, 0) == Parsed::<Msg>::Invalid,
{
}

/// A bulk string cut short anywhere is reported as incomplete: its bytes so
/// far are never taken for a value.
pub proof fn lemma_truncated_bulk(d: Seq<u8>, k: int)
    requires
        d.len() <= i64::MAX,
        0 <= k < encode_msg(Msg::Bulk(Some(d))).len(),
    ensures
        parse_msg(encode_msg(Msg::Bulk(Some(d))).subrange(0, k), 0) == Parsed::<Msg>::Incomplete,
{
    let enc = encode_msg(Msg::Bulk(Some(d)));
    let t = enc.subrange(0, k);
    let n = d.len() as int;
    let h = int_text(n);
    let hl = h.len() as int;
    lemma_i64_text(n);
    assert(enc =~= seq![36u8] + (h + crlf()) + (d + crlf()));
    if k == 0 {
    } else if k <= 1 + h.len() {
        assert forall|j: int| 1 <= j < t.len() implies t[j] != 13 by {
            assert(t[j] == h[j - 1]);
        }
        lemma_find_cr_none(t, 1);
    } else if k == 2 + h.len() {
        assert forall|j: int| 1 <= j < 1 + h.len() implies t[j] != 13 by {
            assert(t[j] == h[j - 1]);
        }
        assert(t[1 + hl] == 13);
        lemma_find_cr_at(t, 1, 1 + hl);
    } else {
        assert(t.subrange(1, 1 + hl + 2) =~= h + crlf());
        lemma_line(t, 1, h);
        assert(parse_bulk(t, n, 3 + hl) == Parsed::<Msg>::Incomplete);
    }
}

/// Two requests that arrive together are read one after the other: the first
/// is decoded, and what is left starts with the second.
pub proof fn lemma_pipelined(m1: Msg, m2: Msg, rest: Seq<u8>)
    requires
        representable(m1),
        representable(m2),
    ensures
        ({
            let b = encode_msg(m1) + encode_msg(m2) + rest;
            let n = encode_msg(m1).len() as int;
            &&& parse_msg(b, 0) == Parsed::Done(m1, n)
            &&& b.subrange(n, b.len() as int) == encode_msg(m2) + rest
            &&& parse_msg(b.subrange(n, b.len() as int), 0) == Parsed::Done(
                m2,
                encode_msg(m2).len() as int,
            )
        }),
{
    let b = encode_msg(m1) + encode_msg(m2) + rest;
    let n = encode_msg(m1).len() as int;
    assert(b =~= encode_msg(m1) + (encode_msg(m2) + rest));
    lemma_decode_encode(m1, encode_msg(m2) + rest);
    assert(b.subrange(n, b.len() as int) =~= encode_msg(m2) + rest);
    lemma_decode_encode(m2, rest);
}

} // verus!
