//! Canonical output holds no layout: never a tab, newline or carriage
//! return byte, and a space only where a string of the value holds one.

use vstd::prelude::*;
use crate::canonical::{
    canonical_json, enclose, escape_char, escape_chars, hex_digit_lower, join_parts,
    lemma_render_items_index, lemma_render_members_index, member_part, quoted, render_items,
    render_members,
};
use crate::json::Json;
use crate::keysort::sort_by_key;
use crate::properties::lemma_sort_by_key;
use crate::text::{decimal, lemma_decimal_digits, signed_decimal};

verus! {

broadcast use vstd::seq_lib::group_to_multiset_ensures;

/// Some string of the value, a key or a string value at any depth, holds a
/// space.
pub open spec fn has_space(j: Json) -> bool
    decreases j,
{
    match j {
        Json::Str(s) => s.contains(' '),
        Json::Array(items) => items_have_space(items),
        Json::Object(members) => members_have_space(members),
        _ => false,
    }
}

/// Some element holds a space in one of its strings.
pub open spec fn items_have_space(s: Seq<Json>) -> bool
    decreases s,
{
    if s.len() == 0 {
        false
    } else {
        has_space(s[0]) || items_have_space(s.drop_first())
    }
}

/// Some member holds a space in its key or in one of its value's strings.
pub open spec fn members_have_space(s: Seq<(Seq<char>, Json)>) -> bool
    decreases s,
{
    if s.len() == 0 {
        false
    } else {
        s[0].0.contains(' ') || has_space(s[0].1) || members_have_space(s.drop_first())
    }
}

/// No byte is a tab, a newline or a carriage return, and a byte is a space
/// only when `spaces` allows it.
pub open spec fn layout_free(b: Seq<u8>, spaces: bool) -> bool {
    forall|k: int|
        0 <= k < b.len() ==> {
            let x = #[trigger] b[k];
            x != 9 && x != 10 && x != 13 && (x == 32 ==> spaces)
        }
}

proof fn lemma_layout_free_concat(a: Seq<u8>, b: Seq<u8>, spaces: bool)
    requires
        layout_free(a, spaces),
        layout_free(b, spaces),
    ensures
        layout_free(a + b, spaces),
{
    assert forall|k: int| 0 <= k < (a + b).len() implies {
        let x = #[trigger] (a + b)[k];
        x != 9 && x != 10 && x != 13 && (x == 32 ==> spaces)
    } by {
        if k < a.len() {
            assert((a + b)[k] == a[k]);
        } else {
            assert((a + b)[k] == b[k - a.len()]);
        }
    }
}

proof fn lemma_layout_free_weaken(b: Seq<u8>, s: bool, t: bool)
    requires
        layout_free(b, s),
        s ==> t,
    ensures
        layout_free(b, t),
{
}

proof fn lemma_items_have_space(s: Seq<Json>)
    ensures
        items_have_space(s) <==> exists|i: int| 0 <= i < s.len() && #[trigger] has_space(s[i]),
    decreases s.len(),
{
    if s.len() > 0 {
        lemma_items_have_space(s.drop_first());
        if has_space(s[0]) {
            assert(0 <= 0 < s.len() && has_space(s[0]));
        }
        if items_have_space(s.drop_first()) {
            let i = choose|i: int| 0 <= i < s.drop_first().len() && #[trigger] has_space(s.drop_first()[i]);
            assert(has_space(s[i + 1]));
        }
        if exists|i: int| 0 <= i < s.len() && #[trigger] has_space(s[i]) {
            let i = choose|i: int| 0 <= i < s.len() && #[trigger] has_space(s[i]);
            if i > 0 {
                assert(has_space(s.drop_first()[i - 1]));
            }
        }
    }
}

/// Member `i` of an object with a space in its key or value puts a space
/// into the object.
proof fn lemma_member_space(s: Seq<(Seq<char>, Json)>, i: int)
    requires
        0 <= i < s.len(),
        s[i].0.contains(' ') || has_space(s[i].1),
    ensures
        members_have_space(s),
    decreases i,
{
    if i > 0 {
        assert(s.drop_first()[i - 1] == s[i]);
        lemma_member_space(s.drop_first(), i - 1);
    }
}

proof fn lemma_layout_free_join(parts: Seq<Result<Seq<u8>, Seq<char>>>, spaces: bool)
    requires
        forall|i: int| 0 <= i < parts.len() ==> (#[trigger] parts[i] matches Ok(b) ==> layout_free(b, spaces)),
    ensures
        join_parts(parts) matches Ok(b) ==> layout_free(b, spaces),
    decreases parts.len(),
{
    if parts.len() > 0 {
        let init = parts.drop_last();
        assert forall|i: int| 0 <= i < init.len() implies (#[trigger] init[i] matches Ok(b) ==> layout_free(b, spaces)) by {
            assert(init[i] == parts[i]);
        }
        lemma_layout_free_join(init, spaces);
        if let Ok(pre) = join_parts(init) {
            if let Ok(b) = parts.last() {
                assert(parts[parts.len() - 1] == parts.last());
                if parts.len() > 1 {
                    lemma_layout_free_concat(pre, seq![',' as u8], spaces);
                    lemma_layout_free_concat(pre + seq![',' as u8], b, spaces);
                }
            }
        }
    }
}

proof fn lemma_encode_scalar_layout(v: u32)
    requires
        vstd::utf8::is_scalar(v),
        v >= 0x20,
    ensures
        layout_free(vstd::utf8::encode_scalar(v), v == 32),
{
    let e = vstd::utf8::encode_scalar(v);
    if vstd::utf8::has_width_1_encoding(v) {
        assert((v & 0x7F) as u8 == v as u8) by (bit_vector)
            requires
                v < 0x80,
        ;
        assert(e =~= seq![v as u8]);
    } else {
        assert forall|k: int| 0 <= k < e.len() implies #[trigger] e[k] >= 0x80 by {
            let a = vstd::utf8::leading_byte_width_2(v);
            let b = vstd::utf8::leading_byte_width_3(v);
            let c = vstd::utf8::leading_byte_width_4(v);
            let d = vstd::utf8::last_continuation_byte(v);
            let f = vstd::utf8::second_last_continuation_byte(v);
            let g = vstd::utf8::third_last_continuation_byte(v);
            assert(a >= 0x80 && b >= 0x80 && c >= 0x80 && d >= 0x80 && f >= 0x80 && g >= 0x80) by (bit_vector)
                requires
                    a == 0xC0 | ((v >> 6) & 0x1F) as u8,
                    b == 0xE0 | ((v >> 12) & 0x0F) as u8,
                    c == 0xF0 | ((v >> 18) & 0x7) as u8,
                    d == 0x80 | (v & 0x3F) as u8,
                    f == 0x80 | ((v >> 6) & 0x3F) as u8,
                    g == 0x80 | ((v >> 12) & 0x3F) as u8,
            ;
        }
    }
}

proof fn lemma_escape_char_layout(c: char)
    ensures
        layout_free(escape_char(c), c == ' '),
{
    broadcast use vstd::utf8::char_is_scalar;
    let v = c as u32;
    if c == '"' || c == '\\' || c == '\u{08}' || c == '\u{0c}' || c == '\n' || c == '\r' || c == '\t' {
    } else if v < 0x20 {
        let e = escape_char(c);
        assert(hex_digit_lower(v as nat / 16) >= 0x30);
        assert(hex_digit_lower(v as nat % 16) >= 0x30);
        assert forall|k: int| 0 <= k < e.len() implies #[trigger] e[k] >= 0x30 by {
        }
    } else {
        vstd::utf8::char_is_scalar(c);
        lemma_encode_scalar_layout(v);
        assert((v == 32) == (c == ' ')) by {
            vstd::utf8::char_u32_cast(c, v);
            vstd::utf8::char_u32_cast(' ', 32);
        }
    }
}

proof fn lemma_escape_chars_layout(s: Seq<char>)
    ensures
        layout_free(escape_chars(s), s.contains(' ')),
    decreases s.len(),
{
    if s.len() > 0 {
        lemma_escape_chars_layout(s.drop_first());
        lemma_escape_char_layout(s[0]);
        let sp = s.contains(' ');
        if s[0] == ' ' {
            assert(sp);
        }
        if s.drop_first().contains(' ') {
            let k = choose|k: int| 0 <= k < s.drop_first().len() && s.drop_first()[k] == ' ';
            assert(s[k + 1] == ' ');
        }
        lemma_layout_free_weaken(escape_char(s[0]), s[0] == ' ', sp);
        lemma_layout_free_weaken(escape_chars(s.drop_first()), s.drop_first().contains(' '), sp);
        lemma_layout_free_concat(escape_char(s[0]), escape_chars(s.drop_first()), sp);
    }
}

proof fn lemma_quoted_layout(s: Seq<char>)
    ensures
        layout_free(quoted(s), s.contains(' ')),
{
    let q = seq!['"' as u8];
    lemma_escape_chars_layout(s);
    lemma_layout_free_concat(q, escape_chars(s), s.contains(' '));
    lemma_layout_free_concat(q + escape_chars(s), q, s.contains(' '));
}

proof fn lemma_signed_decimal_layout(i: int)
    ensures
        layout_free(signed_decimal(i), false),
{
    if i < 0 {
        lemma_decimal_digits((-i) as nat);
        lemma_layout_free_concat(seq!['-' as u8], decimal((-i) as nat), false);
    } else {
        lemma_decimal_digits(i as nat);
    }
}

proof fn lemma_enclose_layout(open: u8, body: Result<Seq<u8>, Seq<char>>, close: u8, spaces: bool)
    requires
        open != 9 && open != 10 && open != 13 && open != 32,
        close != 9 && close != 10 && close != 13 && close != 32,
        body matches Ok(b) ==> layout_free(b, spaces),
    ensures
        enclose(open, body, close) matches Ok(b) ==> layout_free(b, spaces),
{
    if let Ok(b) = body {
        lemma_layout_free_concat(seq![open], b, spaces);
        lemma_layout_free_concat(seq![open] + b, seq![close], spaces);
    }
}

/// Canonical output holds no layout: no tab, newline or carriage-return
/// byte at all, and a space byte only where some string of the value (a key
/// or a string value, at any depth) holds a space.
pub proof fn canonical_output_has_no_layout(j: Json)
    ensures
        canonical_json(j) matches Ok(b) ==> layout_free(b, has_space(j)),
    decreases j,
{
    match j {
        Json::Null => {},
        Json::Bool(_) => {},
        Json::Int(i) => {
            lemma_signed_decimal_layout(i);
        },
        Json::Float(_) => {},
        Json::Str(s) => {
            lemma_quoted_layout(s);
        },
        Json::Array(items) => {
            let parts = render_items(items);
            let sp = has_space(j);
            lemma_render_items_index(items);
            lemma_items_have_space(items);
            assert forall|i: int| 0 <= i < parts.len() implies (#[trigger] parts[i] matches Ok(b) ==> layout_free(b, sp)) by {
                assert(decreases_to!(j => items));
                assert(decreases_to!(items => items[i]));
                canonical_output_has_no_layout(items[i]);
                if has_space(items[i]) {
                    assert(sp);
                }
                if let Ok(b) = parts[i] {
                    lemma_layout_free_weaken(b, has_space(items[i]), sp);
                }
            }
            lemma_layout_free_join(parts, sp);
            lemma_enclose_layout('[' as u8, join_parts(parts), ']' as u8, sp);
        },
        Json::Object(ms) => {
            let rendered = render_members(ms);
            let sorted = sort_by_key(rendered);
            let parts = sorted.map_values(|p: (Seq<char>, Result<Seq<u8>, Seq<char>>)| member_part(p));
            let sp = has_space(j);
            lemma_render_members_index(ms);
            lemma_sort_by_key(rendered);
            assert forall|k: int| 0 <= k < parts.len() implies (#[trigger] parts[k] matches Ok(b) ==> layout_free(b, sp)) by {
                let x = sorted[k];
                assert(sorted.contains(x));
                assert(rendered.to_multiset().count(x) > 0);
                assert(rendered.contains(x));
                let i = choose|i: int| 0 <= i < rendered.len() && rendered[i] == x;
                assert(x == (ms[i].0, canonical_json(ms[i].1)));
                assert(decreases_to!(j => ms));
                assert(decreases_to!(ms => ms[i]));
                assert(decreases_to!(ms[i] => ms[i].1));
                canonical_output_has_no_layout(ms[i].1);
                if ms[i].0.contains(' ') || has_space(ms[i].1) {
                    lemma_member_space(ms, i);
                }
                if let Ok(b) = x.1 {
                    lemma_quoted_layout(ms[i].0);
                    lemma_layout_free_weaken(quoted(ms[i].0), ms[i].0.contains(' '), sp);
                    lemma_layout_free_weaken(b, has_space(ms[i].1), sp);
                    lemma_layout_free_concat(quoted(ms[i].0), seq![':' as u8], sp);
                    lemma_layout_free_concat(quoted(ms[i].0) + seq![':' as u8], b, sp);
                }
            }
            lemma_layout_free_join(parts, sp);
            lemma_enclose_layout('{' as u8, join_parts(parts), '}' as u8, sp);
        },
    }
}

} // verus!
