//! Reading canonical output back: the canonical form of a value is JSON
//! text that denotes the value (with every object's members in key order).
//!
//! The reader accepts JSON text without whitespace whose numbers are
//! integers, the only numbers canonical form writes.

use vstd::prelude::*;
use crate::canonical::{
    canonical_json, enclose, escape_char, escape_chars, join_parts, lemma_render_items_index,
    lemma_render_members_index, member_part, quoted, render_items, render_members,
};
use crate::json::Json;
use crate::keysort::{insert_by_key, sort_by_key};
use crate::literal::{escaped_text, lemma_escaped_text_bytes, lemma_unescape_escaped, unescape};
use crate::text::{decimal, lemma_decimal_digits, signed_decimal};

verus! {

/// A decimal digit byte.
pub open spec fn is_digit_byte(x: u8) -> bool {
    ('0' as u8) <= x && x <= ('9' as u8)
}

/// The text goes on with a byte that ends a value in canonical text (or
/// ends there).
pub open spec fn value_follows(rest: Seq<u8>) -> bool {
    rest.len() == 0 || rest[0] == (',' as u8) || rest[0] == (']' as u8) || rest[0] == ('}' as u8)
}

/// The number of digits at the start of `d`.
pub open spec fn digit_run(d: Seq<u8>) -> nat
    decreases d.len(),
{
    if d.len() > 0 && is_digit_byte(d[0]) {
        1 + digit_run(d.drop_first())
    } else {
        0
    }
}

/// The value of a run of digits.
pub open spec fn digits_value(d: Seq<u8>) -> nat
    decreases d.len(),
{
    if d.len() == 0 {
        0
    } else {
        digits_value(d.drop_last()) * 10 + (d.last() - ('0' as u8)) as nat
    }
}

/// An integer at the start of `b` (an optional minus, then `0` or digits
/// without a leading zero) and the text after it.
pub open spec fn read_integer(b: Seq<u8>) -> Option<(Json, Seq<u8>)> {
    let neg = b.len() > 0 && b[0] == ('-' as u8);
    let d = if neg { b.drop_first() } else { b };
    let n = digit_run(d);
    if n == 0 || (n > 1 && d[0] == ('0' as u8)) {
        None
    } else {
        let v = digits_value(d.take(n as int));
        Some((Json::Int(if neg { -v } else { v as int }), d.skip(n as int)))
    }
}

/// The position of the quote that closes a string whose contents start
/// `b`: an escaping backslash hides the byte after it.
pub open spec fn string_end(b: Seq<u8>) -> Option<int>
    decreases b.len(),
{
    if b.len() == 0 {
        None
    } else if b[0] == ('"' as u8) {
        Some(0)
    } else if b[0] == ('\\' as u8) {
        if b.len() < 2 {
            None
        } else {
            match string_end(b.skip(2)) {
                Some(e) => Some(e + 2),
                None => None,
            }
        }
    } else {
        match string_end(b.drop_first()) {
            Some(e) => Some(e + 1),
            None => None,
        }
    }
}

/// The characters that the bytes between a string's quotes stand for.
pub open spec fn string_contents(b: Seq<u8>) -> Option<Seq<char>> {
    if vstd::utf8::valid_utf8(b) {
        unescape(vstd::utf8::decode_utf8(b))
    } else {
        None
    }
}

/// A string literal at the start of `b` and the text after it.
pub open spec fn read_string(b: Seq<u8>) -> Option<(Seq<char>, Seq<u8>)> {
    if b.len() == 0 || b[0] != ('"' as u8) {
        None
    } else {
        match string_end(b.drop_first()) {
            None => None,
            Some(e) => match string_contents(b.drop_first().take(e)) {
                None => None,
                Some(s) => Some((s, b.skip(e + 2))),
            },
        }
    }
}

/// `b` starts with the bytes of `word`.
pub open spec fn starts_with(b: Seq<u8>, word: Seq<u8>) -> bool {
    b.len() >= word.len() && b.take(word.len() as int) == word
}

/// A JSON value at the start of `b`, and the text after it.
pub open spec fn read_value(b: Seq<u8>) -> Option<(Json, Seq<u8>)>
    decreases b.len(), 0nat,
{
    if b.len() == 0 {
        None
    } else if starts_with(b, seq!['n' as u8, 'u' as u8, 'l' as u8, 'l' as u8]) {
        Some((Json::Null, b.skip(4)))
    } else if starts_with(b, seq!['t' as u8, 'r' as u8, 'u' as u8, 'e' as u8]) {
        Some((Json::Bool(true), b.skip(4)))
    } else if starts_with(b, seq!['f' as u8, 'a' as u8, 'l' as u8, 's' as u8, 'e' as u8]) {
        Some((Json::Bool(false), b.skip(5)))
    } else if b[0] == ('"' as u8) {
        match read_string(b) {
            Some((s, rest)) => Some((Json::Str(s), rest)),
            None => None,
        }
    } else if b[0] == ('[' as u8) {
        match read_items(b.drop_first()) {
            Some((items, rest)) => Some((Json::Array(items), rest)),
            None => None,
        }
    } else if b[0] == ('{' as u8) {
        match read_members(b.drop_first()) {
            Some((ms, rest)) => Some((Json::Object(ms), rest)),
            None => None,
        }
    } else {
        read_integer(b)
    }
}

/// The elements of an array after its `[`, up to and past its `]`.
pub open spec fn read_items(b: Seq<u8>) -> Option<(Seq<Json>, Seq<u8>)>
    decreases b.len(), 2nat,
{
    if b.len() > 0 && b[0] == (']' as u8) {
        Some((seq![], b.drop_first()))
    } else {
        read_elements(b)
    }
}

/// One or more elements separated by commas, up to and past the `]`.
pub open spec fn read_elements(b: Seq<u8>) -> Option<(Seq<Json>, Seq<u8>)>
    decreases b.len(), 1nat,
{
    match read_value(b) {
        None => None,
        Some((v, rest)) => if rest.len() > 0 && rest.len() < b.len() && rest[0] == (',' as u8) {
            match read_elements(rest.drop_first()) {
                Some((more, after)) => Some((seq![v] + more, after)),
                None => None,
            }
        } else if rest.len() > 0 && rest[0] == (']' as u8) {
            Some((seq![v], rest.drop_first()))
        } else {
            None
        },
    }
}

/// The members of an object after its `{`, up to and past its `}`.
pub open spec fn read_members(b: Seq<u8>) -> Option<(Seq<(Seq<char>, Json)>, Seq<u8>)>
    decreases b.len(), 2nat,
{
    if b.len() > 0 && b[0] == ('}' as u8) {
        Some((seq![], b.drop_first()))
    } else {
        read_member_list(b)
    }
}

/// One or more `key:value` members separated by commas, up to and past the
/// `}`.
pub open spec fn read_member_list(b: Seq<u8>) -> Option<(Seq<(Seq<char>, Json)>, Seq<u8>)>
    decreases b.len(), 1nat,
{
    match read_string(b) {
        None => None,
        Some((k, r1)) => if r1.len() > 0 && r1.len() < b.len() && r1[0] == (':' as u8) {
            match read_value(r1.drop_first()) {
                None => None,
                Some((v, rest)) => if rest.len() > 0 && rest.len() < b.len() && rest[0] == (',' as u8) {
                    match read_member_list(rest.drop_first()) {
                        Some((more, after)) => Some((seq![(k, v)] + more, after)),
                        None => None,
                    }
                } else if rest.len() > 0 && rest[0] == ('}' as u8) {
                    Some((seq![(k, v)], rest.drop_first()))
                } else {
                    None
                },
            }
        } else {
            None
        },
    }
}

/// The value a whole text denotes, if it is one JSON value.
pub open spec fn read_json(b: Seq<u8>) -> Option<Json> {
    match read_value(b) {
        Some((v, rest)) => if rest.len() == 0 {
            Some(v)
        } else {
            None
        },
        None => None,
    }
}

} // verus!

verus! {

proof fn lemma_digit_run(d: Seq<u8>, rest: Seq<u8>)
    requires
        forall|i: int| 0 <= i < d.len() ==> is_digit_byte(#[trigger] d[i]),
        !(rest.len() > 0 && is_digit_byte(rest[0])),
    ensures
        digit_run(d + rest) == d.len(),
    decreases d.len(),
{
    if d.len() == 0 {
        assert(d + rest =~= rest);
    } else {
        assert((d + rest).drop_first() =~= d.drop_first() + rest);
        assert((d + rest)[0] == d[0]);
        assert forall|i: int| 0 <= i < d.drop_first().len() implies is_digit_byte(#[trigger] d.drop_first()[i]) by {
            assert(d.drop_first()[i] == d[i + 1]);
        }
        lemma_digit_run(d.drop_first(), rest);
    }
}

proof fn lemma_digits_value_decimal(n: nat)
    ensures
        digits_value(decimal(n)) == n,
        n >= 1 ==> decimal(n)[0] != ('0' as u8),
        decimal(n).len() > 1 ==> n >= 10,
    decreases n,
{
    let d = decimal(n);
    if n < 10 {
        assert(d.drop_last() =~= Seq::<u8>::empty());
        assert(digits_value(d.drop_last()) == 0);
        assert(d.last() == (('0' as u8) + n) as u8);
    } else {
        lemma_digits_value_decimal(n / 10);
        lemma_decimal_digits(n / 10);
        assert(d.drop_last() =~= decimal(n / 10));
        assert(d[0] == decimal(n / 10)[0]);
        assert(d.last() == (('0' as u8) + n % 10) as u8);
        assert(digits_value(d) == digits_value(decimal(n / 10)) * 10 + (d.last() - ('0' as u8)) as nat);
        assert((n / 10) * 10 + n % 10 == n);
    }
}

proof fn lemma_read_integer(i: int, rest: Seq<u8>)
    requires
        value_follows(rest),
    ensures
        read_value(signed_decimal(i) + rest) == Some((Json::Int(i), rest)),
{
    let b = signed_decimal(i) + rest;
    let n: nat = if i < 0 { (-i) as nat } else { i as nat };
    let d = decimal(n);
    lemma_decimal_digits(n);
    lemma_digits_value_decimal(n);
    if i < 0 {
        assert(b =~= seq!['-' as u8] + (d + rest));
        assert(b.drop_first() =~= d + rest);
    } else {
        assert(b =~= d + rest);
    }
    assert(b[0] == ('-' as u8) || is_digit_byte(b[0]));
    if b.len() >= 4 {
        assert(b.take(4)[0] == b[0]);
    }
    if b.len() >= 5 {
        assert(b.take(5)[0] == b[0]);
    }
    lemma_digit_run(d, rest);
    assert((d + rest).take(d.len() as int) =~= d);
    assert((d + rest).skip(d.len() as int) =~= rest);
    assert((d + rest)[0] == d[0]);
}

proof fn lemma_plain_string_end(p: Seq<u8>, t: Seq<u8>)
    requires
        forall|i: int| 0 <= i < p.len() ==> #[trigger] p[i] != ('"' as u8) && p[i] != ('\\' as u8),
    ensures
        string_end(p + t) == match string_end(t) {
            Some(e) => Some(e + p.len()),
            None => None,
        },
    decreases p.len(),
{
    if p.len() == 0 {
        assert(p + t =~= t);
    } else {
        assert((p + t).drop_first() =~= p.drop_first() + t);
        assert((p + t)[0] == p[0]);
        assert forall|i: int| 0 <= i < p.drop_first().len() implies #[trigger] p.drop_first()[i] != ('"' as u8)
            && p.drop_first()[i] != ('\\' as u8) by {
            assert(p.drop_first()[i] == p[i + 1]);
        }
        lemma_plain_string_end(p.drop_first(), t);
    }
}

proof fn lemma_scalar_bytes_plain(v: u32)
    requires
        vstd::utf8::is_scalar(v),
        v != 34,
        v != 92,
    ensures
        forall|i: int| 0 <= i < vstd::utf8::encode_scalar(v).len() ==> #[trigger] vstd::utf8::encode_scalar(v)[i]
            != ('"' as u8) && vstd::utf8::encode_scalar(v)[i] != ('\\' as u8),
{
    let e = vstd::utf8::encode_scalar(v);
    if vstd::utf8::has_width_1_encoding(v) {
        assert((v & 0x7F) as u8 == v as u8) by (bit_vector)
            requires
                v < 0x80,
        ;
        assert(e =~= seq![v as u8]);
    } else {
        let a = vstd::utf8::leading_byte_width_2(v);
        let b = vstd::utf8::leading_byte_width_3(v);
        let c = vstd::utf8::leading_byte_width_4(v);
        let d = vstd::utf8::last_continuation_byte(v);
        let f = vstd::utf8::second_last_continuation_byte(v);
        let g = vstd::utf8::third_last_continuation_byte(v);
        assert(a >= 0x80 && b >= 0x80 && c >= 0x80 && d >= 0x80 && f >= 0x80 && g >= 0x80) by (bit_vector)
            requires
                a == 0xC0 | ((v >> 6) & 0x1F) as u8,
                b == 0xE0 | ((v >> 12) & 0x0F) as u8,
                c == 0xF0 | ((v >> 18) & 0x7) as u8,
                d == 0x80 | (v & 0x3F) as u8,
                f == 0x80 | ((v >> 6) & 0x3F) as u8,
                g == 0x80 | ((v >> 12) & 0x3F) as u8,
        ;
    }
}

proof fn lemma_escape_char_end(c: char, t: Seq<u8>)
    ensures
        string_end(escape_char(c) + t) == match string_end(t) {
            Some(e) => Some(e + escape_char(c).len()),
            None => None,
        },
{
    broadcast use vstd::utf8::char_is_scalar;
    let b = escape_char(c) + t;
    let v = c as u32;
    if c == '"' || c == '\\' || c == '\u{08}' || c == '\u{0c}' || c == '\n' || c == '\r' || c == '\t' {
        assert(b[0] == ('\\' as u8));
        assert(b.skip(2) =~= t);
    } else if v < 0x20 {
        let p = escape_char(c).skip(2);
        assert(b[0] == ('\\' as u8));
        assert(b.skip(2) =~= p + t);
        assert(crate::canonical::hex_digit_lower(v as nat / 16) >= 0x30);
        assert(crate::canonical::hex_digit_lower(v as nat % 16) >= 0x30);
        assert forall|i: int| 0 <= i < p.len() implies #[trigger] p[i] != ('"' as u8) && p[i] != ('\\' as u8) by {
        }
        lemma_plain_string_end(p, t);
    } else {
        assert(v != 34 && v != 92) by {
            vstd::utf8::char_u32_cast(c, v);
        }
        vstd::utf8::char_is_scalar(c);
        lemma_scalar_bytes_plain(v);
        lemma_plain_string_end(escape_char(c), t);
    }
}

proof fn lemma_escape_chars_end(s: Seq<char>, t: Seq<u8>)
    ensures
        string_end(escape_chars(s) + t) == match string_end(t) {
            Some(e) => Some(e + escape_chars(s).len()),
            None => None,
        },
    decreases s.len(),
{
    if s.len() == 0 {
        assert(escape_chars(s) + t =~= t);
    } else {
        lemma_escape_chars_end(s.drop_first(), t);
        lemma_escape_char_end(s[0], escape_chars(s.drop_first()) + t);
        assert(escape_chars(s) + t =~= escape_char(s[0]) + (escape_chars(s.drop_first()) + t));
    }
}

/// A canonical string literal, followed by anything, reads back as the
/// same string.
proof fn lemma_read_quoted(s: Seq<char>, rest: Seq<u8>)
    ensures
        read_string(quoted(s) + rest) == Some((s, rest)),
{
    let e = escape_chars(s);
    let b = quoted(s) + rest;
    let q = seq!['"' as u8];
    assert(b.drop_first() =~= e + (q + rest));
    lemma_escape_chars_end(s, q + rest);
    assert((q + rest)[0] == ('"' as u8));
    assert(b.drop_first().take(e.len() as int) =~= e);
    assert(b.skip(e.len() as int + 2) =~= rest);
    lemma_escaped_text_bytes(s);
    lemma_unescape_escaped(s);
    vstd::utf8::encode_utf8_valid_utf8(escaped_text(s));
    vstd::utf8::encode_utf8_decode_utf8(escaped_text(s));
}

} // verus!

verus! {

/// The value with every object's members put in key order, at any depth.
pub open spec fn normalize(j: Json) -> Json
    decreases j,
{
    match j {
        Json::Array(items) => Json::Array(normalize_items(items)),
        Json::Object(ms) => Json::Object(sort_by_key(normalize_members(ms))),
        _ => j,
    }
}

/// Each element, normalized.
pub open spec fn normalize_items(s: Seq<Json>) -> Seq<Json>
    decreases s,
{
    if s.len() == 0 {
        seq![]
    } else {
        seq![normalize(s[0])] + normalize_items(s.drop_first())
    }
}

/// Each member's value, normalized.
pub open spec fn normalize_members(s: Seq<(Seq<char>, Json)>) -> Seq<(Seq<char>, Json)>
    decreases s,
{
    if s.len() == 0 {
        seq![]
    } else {
        seq![(s[0].0, normalize(s[0].1))] + normalize_members(s.drop_first())
    }
}

/// What canonical form writes of `j` reads back, followed by anything
/// that can follow a value, as the normalized `j`.
pub open spec fn reads_back(j: Json) -> bool {
    forall|rest: Seq<u8>|
        #[trigger] value_follows(rest) ==> (canonical_json(j) matches Ok(b) ==> read_value(b + rest) == Some(
            (normalize(j), rest),
        ))
}

pub proof fn lemma_normalize_items_index(s: Seq<Json>)
    ensures
        normalize_items(s).len() == s.len(),
        forall|i: int| 0 <= i < s.len() ==> normalize_items(s)[i] == normalize(#[trigger] s[i]),
    decreases s.len(),
{
    if s.len() > 0 {
        lemma_normalize_items_index(s.drop_first());
        assert forall|i: int| 0 <= i < s.len() implies normalize_items(s)[i] == normalize(#[trigger] s[i]) by {
            if i > 0 {
                assert(s.drop_first()[i - 1] == s[i]);
            }
        }
    }
}

pub proof fn lemma_normalize_members_index(s: Seq<(Seq<char>, Json)>)
    ensures
        normalize_members(s).len() == s.len(),
        forall|i: int| 0 <= i < s.len() ==> normalize_members(s)[i] == (s[i].0, normalize(#[trigger] s[i].1)),
    decreases s.len(),
{
    if s.len() > 0 {
        lemma_normalize_members_index(s.drop_first());
        assert forall|i: int| 0 <= i < s.len() implies normalize_members(s)[i] == (s[i].0, normalize(#[trigger] s[i].1)) by {
            if i > 0 {
                assert(s.drop_first()[i - 1] == s[i]);
            }
        }
    }
}

proof fn lemma_insert_pointwise<T, U>(
    ss: Seq<(Seq<char>, T)>,
    tt: Seq<(Seq<char>, U)>,
    e: (Seq<char>, T),
    f: spec_fn(T) -> U,
)
    requires
        tt.len() == ss.len(),
        forall|i: int| 0 <= i < ss.len() ==> #[trigger] tt[i] == (ss[i].0, f(ss[i].1)),
    ensures
        insert_by_key(tt, (e.0, f(e.1))).len() == insert_by_key(ss, e).len(),
        forall|k: int|
            0 <= k < insert_by_key(ss, e).len() ==> #[trigger] insert_by_key(tt, (e.0, f(e.1)))[k] == (
                insert_by_key(ss, e)[k].0,
                f(insert_by_key(ss, e)[k].1),
            ),
    decreases ss.len(),
{
    if ss.len() > 0 {
        let n = ss.len() - 1;
        assert(tt.last() == tt[n as int] && ss.last() == ss[n as int]);
        if crate::order::utf16_less(e.0, ss.last().0) {
            assert forall|i: int| 0 <= i < ss.drop_last().len() implies #[trigger] tt.drop_last()[i] == (
                ss.drop_last()[i].0,
                f(ss.drop_last()[i].1),
            ) by {
                assert(tt.drop_last()[i] == tt[i]);
            }
            lemma_insert_pointwise(ss.drop_last(), tt.drop_last(), e, f);
        }
    }
}

proof fn lemma_sort_pointwise<T, U>(s: Seq<(Seq<char>, T)>, t: Seq<(Seq<char>, U)>, f: spec_fn(T) -> U)
    requires
        t.len() == s.len(),
        forall|i: int| 0 <= i < s.len() ==> #[trigger] t[i] == (s[i].0, f(s[i].1)),
    ensures
        sort_by_key(t).len() == sort_by_key(s).len(),
        forall|k: int|
            0 <= k < sort_by_key(s).len() ==> #[trigger] sort_by_key(t)[k] == (
                sort_by_key(s)[k].0,
                f(sort_by_key(s)[k].1),
            ),
    decreases s.len(),
{
    if s.len() > 0 {
        let n = s.len() - 1;
        assert forall|i: int| 0 <= i < s.drop_last().len() implies #[trigger] t.drop_last()[i] == (
            s.drop_last()[i].0,
            f(s.drop_last()[i].1),
        ) by {
            assert(t.drop_last()[i] == t[i]);
        }
        lemma_sort_pointwise(s.drop_last(), t.drop_last(), f);
        assert(t.last() == t[n as int]);
        lemma_insert_pointwise(sort_by_key(s.drop_last()), sort_by_key(t.drop_last()), s.last(), f);
    }
}

/// Joining parts that all succeeded, from the front.
proof fn lemma_join_front(parts: Seq<Result<Seq<u8>, Seq<char>>>)
    requires
        parts.len() >= 1,
        forall|i: int| 0 <= i < parts.len() ==> #[trigger] parts[i] is Ok,
    ensures
        join_parts(parts) is Ok,
        parts.len() == 1 ==> join_parts(parts) == parts[0],
        parts.len() >= 2 ==> join_parts(parts.drop_first()) is Ok && join_parts(parts)->Ok_0 == parts[0]->Ok_0
            + seq![',' as u8] + join_parts(parts.drop_first())->Ok_0,
    decreases parts.len(),
{
    crate::refusal::lemma_join_parts_ok(parts);
    let init = parts.drop_last();
    if parts.len() == 1 {
        assert(init =~= Seq::<Result<Seq<u8>, Seq<char>>>::empty());
        assert(parts.last() == parts[0]);
    } else {
        assert forall|i: int| 0 <= i < init.len() implies #[trigger] init[i] is Ok by {
            assert(init[i] == parts[i]);
        }
        lemma_join_front(init);
        let rest = parts.drop_first();
        assert forall|i: int| 0 <= i < rest.len() implies #[trigger] rest[i] is Ok by {
            assert(rest[i] == parts[i + 1]);
        }
        crate::refusal::lemma_join_parts_ok(rest);
        assert(parts.last() == parts[parts.len() - 1]);
        assert(init[0] == parts[0]);
        if parts.len() == 2 {
            assert(init.len() == 1);
            assert(rest.drop_last() =~= Seq::<Result<Seq<u8>, Seq<char>>>::empty());
            assert(rest.last() == parts.last());
            assert(join_parts(rest) == rest.last());
        } else {
            assert(rest.drop_last() =~= init.drop_first());
            assert(rest.last() == parts.last());
            let p0 = parts[0]->Ok_0;
            let mid = join_parts(init.drop_first())->Ok_0;
            let l = parts.last()->Ok_0;
            assert(join_parts(parts)->Ok_0 == join_parts(init)->Ok_0 + seq![',' as u8] + l);
            assert(join_parts(rest)->Ok_0 == mid + seq![',' as u8] + l);
            assert(join_parts(parts)->Ok_0 =~= p0 + seq![',' as u8] + join_parts(rest)->Ok_0);
        }
    }
}

/// Canonical output is never empty.
proof fn lemma_canonical_nonempty(j: Json)
    ensures
        canonical_json(j) matches Ok(b) ==> b.len() >= 1,
{
    match j {
        Json::Int(i) => {
            if i < 0 {
                lemma_decimal_digits((-i) as nat);
            } else {
                lemma_decimal_digits(i as nat);
            }
        },
        _ => {},
    }
}

} // verus!

verus! {

/// One or more elements written canonically, joined by commas and closed
/// by `]`, read back as the normalized elements.
#[verifier::spinoff_prover]
#[verifier::rlimit(40)]
proof fn lemma_read_elements(
    s: Seq<Json>,
    parts: Seq<Result<Seq<u8>, Seq<char>>>,
    target: Seq<Json>,
    rest: Seq<u8>,
)
    requires
        s.len() >= 1,
        parts.len() == s.len(),
        target.len() == s.len(),
        forall|i: int| 0 <= i < s.len() ==> #[trigger] parts[i] == canonical_json(s[i]),
        forall|i: int| 0 <= i < s.len() ==> #[trigger] target[i] == normalize(s[i]),
        forall|i: int| 0 <= i < s.len() ==> canonical_json(#[trigger] s[i]) is Ok,
        forall|i: int| 0 <= i < s.len() ==> reads_back(#[trigger] s[i]),
    ensures
        join_parts(parts) matches Ok(jb) && read_elements(jb + seq![']' as u8] + rest) == Some((target, rest)),
    decreases s.len(),
{
    assert forall|i: int| 0 <= i < parts.len() implies #[trigger] parts[i] is Ok by {
        assert(canonical_json(s[i]) is Ok);
    }
    lemma_join_front(parts);
    let b0 = parts[0]->Ok_0;
    lemma_canonical_nonempty(s[0]);
    assert(reads_back(s[0]));
    if s.len() == 1 {
        let r = seq![']' as u8] + rest;
        assert(value_follows(r));
        assert(b0 + seq![']' as u8] + rest =~= b0 + r);
        assert(target =~= seq![normalize(s[0])]);
    } else {
        let s1 = s.drop_first();
        let p1 = parts.drop_first();
        let t1 = target.drop_first();
        assert forall|i: int| 0 <= i < s1.len() implies #[trigger] p1[i] == canonical_json(s1[i]) by {
            assert(p1[i] == parts[i + 1] && s1[i] == s[i + 1]);
        }
        assert forall|i: int| 0 <= i < s1.len() implies #[trigger] t1[i] == normalize(s1[i]) by {
            assert(t1[i] == target[i + 1] && s1[i] == s[i + 1]);
        }
        assert forall|i: int| 0 <= i < s1.len() implies canonical_json(#[trigger] s1[i]) is Ok by {
            assert(s1[i] == s[i + 1]);
        }
        assert forall|i: int| 0 <= i < s1.len() implies reads_back(#[trigger] s1[i]) by {
            assert(s1[i] == s[i + 1]);
        }
        lemma_read_elements(s1, p1, t1, rest);
        let j1 = join_parts(p1)->Ok_0;
        let r = seq![',' as u8] + (j1 + seq![']' as u8] + rest);
        assert(value_follows(r));
        assert(join_parts(parts)->Ok_0 + seq![']' as u8] + rest =~= b0 + r);
        assert(r.drop_first() =~= j1 + seq![']' as u8] + rest);
        assert(seq![normalize(s[0])] + t1 =~= target);
    }
}

/// One or more members written canonically, joined by commas and closed
/// by `}`, read back as the members with normalized values.
#[verifier::spinoff_prover]
#[verifier::rlimit(40)]
proof fn lemma_read_member_list(
    ms: Seq<(Seq<char>, Json)>,
    parts: Seq<Result<Seq<u8>, Seq<char>>>,
    target: Seq<(Seq<char>, Json)>,
    rest: Seq<u8>,
)
    requires
        ms.len() >= 1,
        parts.len() == ms.len(),
        target.len() == ms.len(),
        forall|i: int| 0 <= i < ms.len() ==> #[trigger] parts[i] == member_part((ms[i].0, canonical_json(ms[i].1))),
        forall|i: int| 0 <= i < ms.len() ==> #[trigger] target[i] == (ms[i].0, normalize(ms[i].1)),
        forall|i: int| 0 <= i < ms.len() ==> canonical_json(#[trigger] ms[i].1) is Ok,
        forall|i: int| 0 <= i < ms.len() ==> reads_back(#[trigger] ms[i].1),
    ensures
        join_parts(parts) matches Ok(jb) && read_member_list(jb + seq!['}' as u8] + rest) == Some((target, rest)),
    decreases ms.len(),
{
    assert forall|i: int| 0 <= i < parts.len() implies #[trigger] parts[i] is Ok by {
        assert(canonical_json(ms[i].1) is Ok);
    }
    lemma_join_front(parts);
    let k0 = ms[0].0;
    let v0 = ms[0].1;
    let b0 = canonical_json(v0)->Ok_0;
    assert(parts[0] == member_part((k0, canonical_json(v0))));
    lemma_canonical_nonempty(v0);
    assert(reads_back(v0));
    let tail = if ms.len() == 1 {
        seq!['}' as u8] + rest
    } else {
        seq![',' as u8] + (join_parts(parts.drop_first())->Ok_0 + seq!['}' as u8] + rest)
    };
    let whole = join_parts(parts)->Ok_0 + seq!['}' as u8] + rest;
    assert(whole =~= quoted(k0) + (seq![':' as u8] + (b0 + tail)));
    lemma_read_quoted(k0, seq![':' as u8] + (b0 + tail));
    let r1 = seq![':' as u8] + (b0 + tail);
    assert(r1.drop_first() =~= b0 + tail);
    assert(value_follows(tail));
    if ms.len() == 1 {
        assert(target =~= seq![(k0, normalize(v0))]);
    } else {
        let m1 = ms.drop_first();
        let p1 = parts.drop_first();
        let t1 = target.drop_first();
        assert forall|i: int| 0 <= i < m1.len() implies #[trigger] p1[i] == member_part((m1[i].0, canonical_json(m1[i].1))) by {
            assert(p1[i] == parts[i + 1] && m1[i] == ms[i + 1]);
        }
        assert forall|i: int| 0 <= i < m1.len() implies #[trigger] t1[i] == (m1[i].0, normalize(m1[i].1)) by {
            assert(t1[i] == target[i + 1] && m1[i] == ms[i + 1]);
        }
        assert forall|i: int| 0 <= i < m1.len() implies canonical_json(#[trigger] m1[i].1) is Ok by {
            assert(m1[i] == ms[i + 1]);
        }
        assert forall|i: int| 0 <= i < m1.len() implies reads_back(#[trigger] m1[i].1) by {
            assert(m1[i] == ms[i + 1]);
        }
        lemma_read_member_list(m1, p1, t1, rest);
        assert(tail.drop_first() =~= join_parts(p1)->Ok_0 + seq!['}' as u8] + rest);
        assert(seq![(k0, normalize(v0))] + t1 =~= target);
    }
}

} // verus!

verus! {

/// A value that is neither an array nor an object reads back.
proof fn lemma_reads_back_scalar(j: Json)
    requires
        !(j is Array),
        !(j is Object),
    ensures
        reads_back(j),
{
    assert forall|rest: Seq<u8>| #[trigger] value_follows(rest) implies (canonical_json(j) matches Ok(b) ==> read_value(b + rest)
        == Some((normalize(j), rest))) by {
        match j {
            Json::Null => {
                let b = seq!['n' as u8, 'u' as u8, 'l' as u8, 'l' as u8];
                assert((b + rest).take(4) =~= b);
                assert((b + rest).skip(4) =~= rest);
            },
            Json::Bool(x) => {
                if x {
                    let b = seq!['t' as u8, 'r' as u8, 'u' as u8, 'e' as u8];
                    assert((b + rest).take(4) =~= b);
                    assert((b + rest).take(4) != seq!['n' as u8, 'u' as u8, 'l' as u8, 'l' as u8]);
                    assert((b + rest).skip(4) =~= rest);
                } else {
                    let b = seq!['f' as u8, 'a' as u8, 'l' as u8, 's' as u8, 'e' as u8];
                    assert((b + rest).take(5) =~= b);
                    assert((b + rest).take(4)[0] == ('f' as u8));
                    assert((b + rest).skip(5) =~= rest);
                }
            },
            Json::Int(i) => {
                lemma_read_integer(i, rest);
            },
            Json::Str(s) => {
                let b = quoted(s);
                lemma_read_quoted(s, rest);
                assert((b + rest)[0] == ('"' as u8));
                if (b + rest).len() >= 4 {
                    assert((b + rest).take(4)[0] == ('"' as u8));
                }
                if (b + rest).len() >= 5 {
                    assert((b + rest).take(5)[0] == ('"' as u8));
                }
            },
            _ => {},
        }
    }
}

/// An array whose elements read back reads back.
#[verifier::spinoff_prover]
proof fn lemma_reads_back_array(items: Seq<Json>)
    requires
        forall|i: int| 0 <= i < items.len() ==> reads_back(#[trigger] items[i]),
    ensures
        reads_back(Json::Array(items)),
{
    let j = Json::Array(items);
    assert forall|rest: Seq<u8>| #[trigger] value_follows(rest) implies (canonical_json(j) matches Ok(b) ==> read_value(b + rest)
        == Some((normalize(j), rest))) by {
        if let Ok(b) = canonical_json(j) {
            let parts = render_items(items);
            lemma_render_items_index(items);
            lemma_normalize_items_index(items);
            crate::refusal::lemma_join_parts_ok(parts);
            assert forall|i: int| 0 <= i < items.len() implies canonical_json(#[trigger] items[i]) is Ok by {
                assert(parts[i] is Ok);
            }
            let jb = join_parts(parts)->Ok_0;
            let whole = b + rest;
            assert(whole =~= seq!['[' as u8] + (jb + seq![']' as u8] + rest));
            assert(whole.drop_first() =~= jb + seq![']' as u8] + rest);
            if whole.len() >= 4 {
                assert(whole.take(4)[0] == ('[' as u8));
            }
            if whole.len() >= 5 {
                assert(whole.take(5)[0] == ('[' as u8));
            }
            if items.len() == 0 {
                assert(parts =~= Seq::<Result<Seq<u8>, Seq<char>>>::empty());
                assert(jb =~= Seq::<u8>::empty());
                assert(normalize_items(items) =~= Seq::<Json>::empty());
                assert(whole.drop_first()[0] == (']' as u8));
                assert(whole.drop_first().drop_first() =~= rest);
            } else {
                lemma_read_elements(items, parts, normalize_items(items), rest);
                lemma_join_front(parts);
                lemma_first_byte(items[0]);
                let c0 = parts[0]->Ok_0;
                if parts.len() == 1 {
                    assert(jb == c0);
                } else {
                    assert(jb =~= c0 + seq![',' as u8] + join_parts(parts.drop_first())->Ok_0);
                }
                assert(jb[0] == c0[0]);
                assert(whole.drop_first()[0] != (']' as u8));
            }
        }
    }
}

/// The sorted members of an object: each member's value reads back, and
/// its canonical part and its normalized member stand at the same place.
#[verifier::spinoff_prover]
proof fn lemma_sorted_members(ms: Seq<(Seq<char>, Json)>)
    requires
        forall|i: int| 0 <= i < ms.len() ==> reads_back(#[trigger] ms[i].1),
        canonical_json(Json::Object(ms)) is Ok,
    ensures
        ({
            let sorted = sort_by_key(ms);
            let parts = sort_by_key(render_members(ms)).map_values(
                |p: (Seq<char>, Result<Seq<u8>, Seq<char>>)| member_part(p),
            );
            let target = sort_by_key(normalize_members(ms));
            &&& sorted.len() == ms.len()
            &&& parts.len() == ms.len()
            &&& target.len() == ms.len()
            &&& forall|k: int| 0 <= k < sorted.len() ==> reads_back(#[trigger] sorted[k].1)
            &&& forall|k: int| 0 <= k < sorted.len() ==> canonical_json(#[trigger] sorted[k].1) is Ok
            &&& forall|k: int| 0 <= k < sorted.len() ==> #[trigger] parts[k] == member_part(
                (sorted[k].0, canonical_json(sorted[k].1)),
            )
            &&& forall|k: int| 0 <= k < sorted.len() ==> #[trigger] target[k] == (sorted[k].0, normalize(sorted[k].1))
        }),
{
    let rendered = render_members(ms);
    let sorted = sort_by_key(ms);
    lemma_render_members_index(ms);
    lemma_normalize_members_index(ms);
    lemma_sort_by_key_elements(ms);
    lemma_sort_pointwise(ms, rendered, |v: Json| canonical_json(v));
    lemma_sort_pointwise(ms, normalize_members(ms), |v: Json| normalize(v));
    let parts = sort_by_key(rendered).map_values(|p: (Seq<char>, Result<Seq<u8>, Seq<char>>)| member_part(p));
    crate::refusal::lemma_join_parts_ok(parts);
    assert forall|k: int| 0 <= k < sorted.len() implies reads_back(#[trigger] sorted[k].1) by {
        let i = choose|i: int| 0 <= i < ms.len() && ms[i] == sorted[k];
        assert(reads_back(ms[i].1));
    }
    assert forall|k: int| 0 <= k < sorted.len() implies canonical_json(#[trigger] sorted[k].1) is Ok by {
        assert(parts[k] is Ok);
        assert(sort_by_key(rendered)[k] == (sorted[k].0, canonical_json(sorted[k].1)));
    }
    assert forall|k: int| 0 <= k < sorted.len() implies #[trigger] parts[k] == member_part(
        (sorted[k].0, canonical_json(sorted[k].1)),
    ) by {
        assert(sort_by_key(rendered)[k] == (sorted[k].0, canonical_json(sorted[k].1)));
    }
}

#[verifier::spinoff_prover]
#[verifier::rlimit(40)]
proof fn lemma_object_read(ms: Seq<(Seq<char>, Json)>, rest: Seq<u8>)
    requires
        forall|i: int| 0 <= i < ms.len() ==> reads_back(#[trigger] ms[i].1),
        value_follows(rest),
        canonical_json(Json::Object(ms)) is Ok,
    ensures
        read_value(canonical_json(Json::Object(ms))->Ok_0 + rest) == Some((normalize(Json::Object(ms)), rest)),
{
    let j = Json::Object(ms);
    let b = canonical_json(j)->Ok_0;
    lemma_sorted_members(ms);
    let sorted = sort_by_key(ms);
    let parts = sort_by_key(render_members(ms)).map_values(
        |p: (Seq<char>, Result<Seq<u8>, Seq<char>>)| member_part(p),
    );
    let target = sort_by_key(normalize_members(ms));
    let jb = join_parts(parts)->Ok_0;
    let whole = b + rest;
    assert(whole =~= seq!['{' as u8] + (jb + seq!['}' as u8] + rest));
    assert(whole.drop_first() =~= jb + seq!['}' as u8] + rest);
    if whole.len() >= 4 {
        assert(whole.take(4)[0] == ('{' as u8));
    }
    if whole.len() >= 5 {
        assert(whole.take(5)[0] == ('{' as u8));
    }
    if ms.len() == 0 {
        assert(parts =~= Seq::<Result<Seq<u8>, Seq<char>>>::empty());
        assert(jb =~= Seq::<u8>::empty());
        assert(target =~= Seq::<(Seq<char>, Json)>::empty());
        assert(whole.drop_first()[0] == ('}' as u8));
        assert(whole.drop_first().drop_first() =~= rest);
    } else {
        lemma_read_member_list(sorted, parts, target, rest);
        lemma_join_front(parts);
        let c0 = parts[0]->Ok_0;
        if parts.len() == 1 {
            assert(jb == c0);
        } else {
            assert(jb =~= c0 + seq![',' as u8] + join_parts(parts.drop_first())->Ok_0);
        }
        assert(c0[0] == ('"' as u8));
        assert(jb[0] == c0[0]);
        assert(whole.drop_first()[0] != ('}' as u8));
    }
}

/// An object whose member values read back reads back.
proof fn lemma_reads_back_object(ms: Seq<(Seq<char>, Json)>)
    requires
        forall|i: int| 0 <= i < ms.len() ==> reads_back(#[trigger] ms[i].1),
    ensures
        reads_back(Json::Object(ms)),
{
    let j = Json::Object(ms);
    assert forall|rest: Seq<u8>| #[trigger] value_follows(rest) implies (canonical_json(j) matches Ok(b) ==> read_value(b + rest)
        == Some((normalize(j), rest))) by {
        if canonical_json(j) is Ok {
            lemma_object_read(ms, rest);
        }
    }
}

/// What canonical form writes of a value reads back, followed by anything
/// that can follow a value, as the value with its objects' members in key
/// order.
pub proof fn lemma_reads_back(j: Json)
    ensures
        reads_back(j),
    decreases j,
{
    match j {
        Json::Array(items) => {
            assert forall|i: int| 0 <= i < items.len() implies reads_back(#[trigger] items[i]) by {
                assert(decreases_to!(j => items));
                assert(decreases_to!(items => items[i]));
                lemma_reads_back(items[i]);
            }
            lemma_reads_back_array(items);
        },
        Json::Object(ms) => {
            assert forall|i: int| 0 <= i < ms.len() implies reads_back(#[trigger] ms[i].1) by {
                assert(decreases_to!(j => ms));
                assert(decreases_to!(ms => ms[i]));
                assert(decreases_to!(ms[i] => ms[i].1));
                lemma_reads_back(ms[i].1);
            }
            lemma_reads_back_object(ms);
        },
        _ => {
            lemma_reads_back_scalar(j);
        },
    }
}

/// The first byte of a value's canonical form.
proof fn lemma_first_byte(j: Json)
    ensures
        canonical_json(j) matches Ok(b) ==> b.len() >= 1 && b[0] != (']' as u8),
{
    lemma_canonical_nonempty(j);
    if let Json::Int(i) = j {
        if i < 0 {
        } else {
            lemma_decimal_digits(i as nat);
        }
    }
}

/// Sorting keeps the members, each from the original list.
proof fn lemma_sort_by_key_elements(ms: Seq<(Seq<char>, Json)>)
    ensures
        sort_by_key(ms).len() == ms.len(),
        forall|k: int| 0 <= k < sort_by_key(ms).len() ==> exists|i: int| 0 <= i < ms.len() && ms[i] == #[trigger] sort_by_key(ms)[k],
{
    broadcast use vstd::seq_lib::group_to_multiset_ensures;
    crate::properties::lemma_sort_by_key(ms);
    assert(sort_by_key(ms).len() == sort_by_key(ms).to_multiset().len());
    assert(ms.len() == ms.to_multiset().len());
    assert forall|k: int| 0 <= k < sort_by_key(ms).len() implies exists|i: int| 0 <= i < ms.len() && ms[i] == #[trigger] sort_by_key(ms)[k] by {
        let x = sort_by_key(ms)[k];
        assert(sort_by_key(ms).contains(x));
        assert(ms.to_multiset().count(x) > 0);
        assert(ms.contains(x));
    }
}

/// The canonical form of a value is JSON text that denotes the value: read
/// back, it gives the value with every object's members in key order.
pub proof fn canonical_output_reads_back(j: Json)
    ensures
        canonical_json(j) matches Ok(b) ==> read_json(b) == Some(normalize(j)),
{
    lemma_reads_back(j);
    let rest = Seq::<u8>::empty();
    assert(value_follows(rest));
    if let Ok(b) = canonical_json(j) {
        assert(b + rest =~= b);
    }
}

} // verus!

verus! {

/// Sorting members whose keys are already in order changes nothing.
proof fn lemma_sort_sorted<T>(s: Seq<(Seq<char>, T)>)
    requires
        crate::properties::key_sorted(s),
    ensures
        sort_by_key(s) == s,
    decreases s.len(),
{
    if s.len() > 0 {
        let init = s.drop_last();
        assert(crate::properties::key_sorted(init)) by {
            assert forall|i: int, j: int| 0 <= i < j < init.len() implies !crate::order::utf16_less(
                #[trigger] init[j].0,
                #[trigger] init[i].0,
            ) by {
                assert(init[i] == s[i] && init[j] == s[j]);
            }
        }
        lemma_sort_sorted(init);
        if init.len() > 0 {
            assert(init.last() == s[s.len() - 2]);
            assert(s.last() == s[s.len() - 1]);
        }
        assert(init.push(s.last()) =~= s);
    }
}

proof fn lemma_canonical_normalize_items(items: Seq<Json>)
    requires
        forall|i: int| 0 <= i < items.len() ==> canonical_json(normalize(#[trigger] items[i])) == canonical_json(items[i]),
    ensures
        render_items(normalize_items(items)) == render_items(items),
{
    lemma_normalize_items_index(items);
    lemma_render_items_index(items);
    lemma_render_items_index(normalize_items(items));
    assert forall|i: int| 0 <= i < items.len() implies #[trigger] render_items(normalize_items(items))[i]
        == render_items(items)[i] by {
        assert(normalize_items(items)[i] == normalize(items[i]));
        assert(render_items(normalize_items(items))[i] == canonical_json(normalize_items(items)[i]));
        assert(canonical_json(normalize(items[i])) == canonical_json(items[i]));
    }
    assert(render_items(normalize_items(items)) =~= render_items(items));
}

#[verifier::spinoff_prover]
proof fn lemma_canonical_normalize_members(ms: Seq<(Seq<char>, Json)>)
    requires
        forall|i: int| 0 <= i < ms.len() ==> canonical_json(normalize(#[trigger] ms[i].1)) == canonical_json(ms[i].1),
    ensures
        sort_by_key(render_members(sort_by_key(normalize_members(ms)))) == sort_by_key(render_members(ms)),
{
    let nm = normalize_members(ms);
    let sn = sort_by_key(nm);
    let r = render_members(ms);
    lemma_normalize_members_index(ms);
    lemma_render_members_index(ms);
    lemma_render_members_index(sn);
    lemma_sort_pointwise(ms, nm, |v: Json| normalize(v));
    lemma_sort_pointwise(ms, r, |v: Json| canonical_json(v));
    assert(render_members(sn) =~= sort_by_key(r)) by {
        lemma_sort_by_key_elements(ms);
        assert forall|k: int| 0 <= k < sn.len() implies #[trigger] render_members(sn)[k] == sort_by_key(r)[k] by {
            let x = sort_by_key(ms)[k];
            assert(exists|i: int| 0 <= i < ms.len() && ms[i] == x);
            let i = choose|i: int| 0 <= i < ms.len() && ms[i] == x;
            assert(canonical_json(normalize(ms[i].1)) == canonical_json(ms[i].1));
            assert(sn[k] == (x.0, normalize(x.1)));
            assert(render_members(sn)[k] == (sn[k].0, canonical_json(sn[k].1)));
            assert(sort_by_key(r)[k] == (x.0, canonical_json(x.1)));
        }
    }
    crate::properties::lemma_sort_by_key(r);
    lemma_sort_sorted(sort_by_key(r));
}

/// Putting every object's members in key order does not change the
/// canonical form.
pub proof fn lemma_canonical_normalize(j: Json)
    ensures
        canonical_json(normalize(j)) == canonical_json(j),
    decreases j,
{
    match j {
        Json::Array(items) => {
            assert forall|i: int| 0 <= i < items.len() implies canonical_json(normalize(#[trigger] items[i]))
                == canonical_json(items[i]) by {
                assert(decreases_to!(j => items));
                assert(decreases_to!(items => items[i]));
                lemma_canonical_normalize(items[i]);
            }
            lemma_canonical_normalize_items(items);
        },
        Json::Object(ms) => {
            assert forall|i: int| 0 <= i < ms.len() implies canonical_json(normalize(#[trigger] ms[i].1))
                == canonical_json(ms[i].1) by {
                assert(decreases_to!(j => ms));
                assert(decreases_to!(ms => ms[i]));
                assert(decreases_to!(ms[i] => ms[i].1));
                lemma_canonical_normalize(ms[i].1);
            }
            lemma_canonical_normalize_members(ms);
        },
        _ => {},
    }
}

/// Canonical form is a fixed point: reading canonical output back and
/// writing it canonically again gives the same bytes.
pub proof fn canonical_output_is_a_fixed_point(j: Json)
    ensures
        canonical_json(j) matches Ok(b) ==> (read_json(b) matches Some(v) && canonical_json(v) == Ok::<Seq<u8>, Seq<char>>(b)),
{
    canonical_output_reads_back(j);
    lemma_canonical_normalize(j);
}

} // verus!
