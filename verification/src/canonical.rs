//! Canonical serialization (JCS, RFC 8785) and content-address derivation.
//!
//! All hashes and signatures over a mandate use the same *canonical body*:
//! the mandate, JCS-canonicalized, with the identifier, the signature
//! values, the attestation report and VCEK chain, and the merchant binding
//! set to `null`. The mandate id is `mandate://b3:` followed by the
//! lower-case, unpadded base32 form of the BLAKE3 hash of that body.

use vstd::prelude::*;
use crate::error::Error;
use crate::json::{Json, Number, Value, items_view, members_view, number_view, value_view, lemma_items_view_index, lemma_members_view_index};
use crate::keysort::{lemma_sorted_indices_select, member_keys, member_order, sort_by_key};
use crate::text::{decimal, push_bytes, push_decimal, push_signed_decimal, signed_decimal};

verus! {

/// The lower-case hexadecimal digit of a value below 16.
pub open spec fn hex_digit_lower(d: nat) -> u8 {
    if d < 10 {
        (('0' as u8) + d) as u8
    } else {
        (('a' as u8) + d - 10) as u8
    }
}

/// The bytes that stand for one character inside a canonical JSON string:
/// the two-character escapes for `"`, `\`, backspace, form feed, newline,
/// carriage return and tab; `\u00XX` for the other control characters; the
/// character's UTF-8 encoding otherwise.
pub open spec fn escape_char(c: char) -> Seq<u8> {
    let bs = '\\' as u8;
    if c == '"' {
        seq![bs, '"' as u8]
    } else if c == '\\' {
        seq![bs, bs]
    } else if c == '\u{08}' {
        seq![bs, 'b' as u8]
    } else if c == '\u{0c}' {
        seq![bs, 'f' as u8]
    } else if c == '\n' {
        seq![bs, 'n' as u8]
    } else if c == '\r' {
        seq![bs, 'r' as u8]
    } else if c == '\t' {
        seq![bs, 't' as u8]
    } else if (c as u32) < 0x20 {
        seq![
            bs,
            'u' as u8,
            '0' as u8,
            '0' as u8,
            hex_digit_lower((c as u32) as nat / 16),
            hex_digit_lower((c as u32) as nat % 16),
        ]
    } else {
        vstd::utf8::encode_scalar(c as u32)
    }
}

/// The escaped bytes of a character sequence.
pub open spec fn escape_chars(s: Seq<char>) -> Seq<u8>
    decreases s.len(),
{
    if s.len() == 0 {
        seq![]
    } else {
        escape_char(s[0]) + escape_chars(s.drop_first())
    }
}

/// A canonical JSON string literal.
pub open spec fn quoted(s: Seq<char>) -> Seq<u8> {
    seq!['"' as u8] + escape_chars(s) + seq!['"' as u8]
}

/// Joins rendered parts with commas; the first part that failed decides the
/// failure.
pub open spec fn join_parts(parts: Seq<Result<Seq<u8>, Seq<char>>>) -> Result<Seq<u8>, Seq<char>>
    decreases parts.len(),
{
    if parts.len() == 0 {
        Ok(seq![])
    } else {
        match join_parts(parts.drop_last()) {
            Err(t) => Err(t),
            Ok(pre) => match parts.last() {
                Err(t) => Err(t),
                Ok(b) => Ok(
                    if parts.len() == 1 {
                        b
                    } else {
                        pre + seq![',' as u8] + b
                    },
                ),
            },
        }
    }
}

/// Wraps a rendered body in delimiters.
pub open spec fn enclose(open: u8, body: Result<Seq<u8>, Seq<char>>, close: u8) -> Result<Seq<u8>, Seq<char>> {
    match body {
        Ok(b) => Ok(seq![open] + b + seq![close]),
        Err(t) => Err(t),
    }
}

/// One rendered object member: key, colon, value.
pub open spec fn member_part(p: (Seq<char>, Result<Seq<u8>, Seq<char>>)) -> Result<Seq<u8>, Seq<char>> {
    match p.1 {
        Ok(b) => Ok(quoted(p.0) + seq![':' as u8] + b),
        Err(t) => Err(t),
    }
}

/// The JCS-canonical bytes of a JSON value: no whitespace, object members in
/// the UTF-16 order of their keys, array elements in order, integers in
/// decimal. A number with a fraction or exponent is refused: the error is
/// the text of the first such number in output order.
pub open spec fn canonical_json(j: Json) -> Result<Seq<u8>, Seq<char>>
    decreases j,
{
    match j {
        Json::Null => Ok(seq!['n' as u8, 'u' as u8, 'l' as u8, 'l' as u8]),
        Json::Bool(b) => Ok(
            if b {
                seq!['t' as u8, 'r' as u8, 'u' as u8, 'e' as u8]
            } else {
                seq!['f' as u8, 'a' as u8, 'l' as u8, 's' as u8, 'e' as u8]
            },
        ),
        Json::Int(i) => Ok(signed_decimal(i)),
        Json::Float(t) => Err(t),
        Json::Str(s) => Ok(quoted(s)),
        Json::Array(items) => enclose('[' as u8, join_parts(render_items(items)), ']' as u8),
        Json::Object(members) => enclose(
            '{' as u8,
            join_parts(sort_by_key(render_members(members)).map_values(|p| member_part(p))),
            '}' as u8,
        ),
    }
}

/// The canonical rendering of each array element.
pub open spec fn render_items(s: Seq<Json>) -> Seq<Result<Seq<u8>, Seq<char>>>
    decreases s,
{
    if s.len() == 0 {
        seq![]
    } else {
        seq![canonical_json(s[0])] + render_items(s.drop_first())
    }
}

/// Each object member's key beside the canonical rendering of its value.
pub open spec fn render_members(s: Seq<(Seq<char>, Json)>) -> Seq<(Seq<char>, Result<Seq<u8>, Seq<char>>)>
    decreases s,
{
    if s.len() == 0 {
        seq![]
    } else {
        seq![(s[0].0, canonical_json(s[0].1))] + render_members(s.drop_first())
    }
}

/// The message of the error for a number with a fraction or exponent.
pub open spec fn float_message(t: Seq<char>) -> Seq<char> {
    "non-integer numbers are not allowed in mandate v0: "@ + t
}

/// How a canonical serialization result is reported.
pub open spec fn canonical_outcome(r: Result<Vec<u8>, Error>, expected: Result<Seq<u8>, Seq<char>>) -> bool {
    match expected {
        Ok(b) => r matches Ok(out) && out@ == b,
        Err(t) => r matches Err(Error::Canonical(m)) && m@ == float_message(t),
    }
}

} // verus!

verus! {

proof fn lemma_escape_chars_append(a: Seq<char>, b: Seq<char>)
    ensures
        escape_chars(a + b) == escape_chars(a) + escape_chars(b),
    decreases a.len(),
{
    if a.len() == 0 {
        assert(a + b =~= b);
    } else {
        assert((a + b).drop_first() =~= a.drop_first() + b);
        lemma_escape_chars_append(a.drop_first(), b);
    }
}

/// Element `i` of an array is rendered as its canonical form.
pub proof fn lemma_render_items_index(s: Seq<Json>)
    ensures
        render_items(s).len() == s.len(),
        forall|i: int| 0 <= i < s.len() ==> render_items(s)[i] == canonical_json(#[trigger] s[i]),
    decreases s.len(),
{
    if s.len() > 0 {
        lemma_render_items_index(s.drop_first());
        assert forall|i: int| 0 <= i < s.len() implies render_items(s)[i] == canonical_json(#[trigger] s[i]) by {
            if i > 0 {
                assert(s.drop_first()[i - 1] == s[i]);
            }
        }
    }
}

/// Member `i` is rendered as its key beside its value's canonical form.
pub proof fn lemma_render_members_index(s: Seq<(Seq<char>, Json)>)
    ensures
        render_members(s).len() == s.len(),
        forall|i: int| 0 <= i < s.len() ==> render_members(s)[i] == (s[i].0, canonical_json(#[trigger] s[i].1)),
    decreases s.len(),
{
    if s.len() > 0 {
        lemma_render_members_index(s.drop_first());
        assert forall|i: int| 0 <= i < s.len() implies render_members(s)[i] == (s[i].0, canonical_json(#[trigger] s[i].1)) by {
            if i > 0 {
                assert(s.drop_first()[i - 1] == s[i]);
            }
        }
    }
}

/// Once a prefix of the parts has failed, the whole join fails the same way.
proof fn lemma_join_parts_err(parts: Seq<Result<Seq<u8>, Seq<char>>>, k: int)
    requires
        0 <= k <= parts.len(),
        join_parts(parts.take(k)) is Err,
    ensures
        join_parts(parts) == join_parts(parts.take(k)),
    decreases parts.len() - k,
{
    if k < parts.len() {
        assert(parts.take(k + 1).drop_last() =~= parts.take(k));
        lemma_join_parts_err(parts, k + 1);
    } else {
        assert(parts.take(k) =~= parts);
    }
}

fn hex_digit(d: u32) -> (r: u8)
    requires
        d < 16,
    ensures
        r == hex_digit_lower(d as nat),
{
    if d < 10 {
        ('0' as u8) + (d as u8)
    } else {
        ('a' as u8) + (d as u8) - 10
    }
}

fn push_escaped_char(out: &mut Vec<u8>, c: char)
    ensures
        final(out)@ == old(out)@ + escape_char(c),
{
    let bs = '\\' as u8;
    if c == '"' {
        out.push(bs);
        out.push('"' as u8);
    } else if c == '\\' {
        out.push(bs);
        out.push(bs);
    } else if c == '\u{08}' {
        out.push(bs);
        out.push('b' as u8);
    } else if c == '\u{0c}' {
        out.push(bs);
        out.push('f' as u8);
    } else if c == '\n' {
        out.push(bs);
        out.push('n' as u8);
    } else if c == '\r' {
        out.push(bs);
        out.push('r' as u8);
    } else if c == '\t' {
        out.push(bs);
        out.push('t' as u8);
    } else if (c as u32) < 0x20 {
        let v = c as u32;
        out.push(bs);
        out.push('u' as u8);
        out.push('0' as u8);
        out.push('0' as u8);
        out.push(hex_digit(v / 16));
        out.push(hex_digit(v % 16));
    } else {
        crate::unicode::push_utf8_char(out, c);
    }
    assert(final(out)@ =~= old(out)@ + escape_char(c));
}

/// Appends `s` as a canonical JSON string literal.
pub fn write_string(out: &mut Vec<u8>, s: &str)
    ensures
        final(out)@ == old(out)@ + quoted(s@),
        crate::literal::string_literal_value(final(out)@.skip(old(out)@.len() as int)) == Some(s@),
{
    let cs = crate::unicode::chars_of(s);
    out.push('"' as u8);
    let mut i: usize = 0;
    while i < cs.len()
        invariant
            i <= cs.len(),
            out@ == old(out)@ + seq!['"' as u8] + escape_chars(cs@.take(i as int)),
        decreases cs.len() - i,
    {
        proof {
            lemma_escape_chars_append(cs@.take(i as int), seq![cs@[i as int]]);
            assert(cs@.take(i as int + 1) =~= cs@.take(i as int) + seq![cs@[i as int]]);
            assert(escape_chars(seq![cs@[i as int]]) =~= escape_char(cs@[i as int])) by {
                assert(seq![cs@[i as int]].drop_first() =~= Seq::<char>::empty());
                reveal_with_fuel(escape_chars, 2);
            }
        }
        push_escaped_char(out, cs[i]);
        i = i + 1;
    }
    out.push('"' as u8);
    assert(cs@.take(cs.len() as int) =~= s@);
    assert(final(out)@ =~= old(out)@ + quoted(s@));
    proof {
        assert(final(out)@.skip(old(out)@.len() as int) =~= quoted(s@));
        crate::literal::string_literal_roundtrip(s@);
    }
}

fn canonical_error(t: &String) -> (e: Error)
    ensures
        e matches Error::Canonical(m) && m@ == float_message(t@),
{
    let mut m = String::from_str("non-integer numbers are not allowed in mandate v0: ");
    m.append(t.as_str());
    Error::Canonical(m)
}

/// A prefix of a prefix is a prefix.
proof fn lemma_prefix_extend(a: Seq<u8>, b: Seq<u8>, c: Seq<u8>)
    requires
        a.is_prefix_of(b),
        b.is_prefix_of(c),
    ensures
        a.is_prefix_of(c),
{
    assert(a =~= c.subrange(0, a.len() as int)) by {
        assert forall|k: int| 0 <= k < a.len() implies a[k] == c.subrange(0, a.len() as int)[k] by {
            assert(a[k] == b.subrange(0, a.len() as int)[k]);
            assert(b[k] == c.subrange(0, b.len() as int)[k]);
        }
    }
}

/// Appends an integer in decimal; refuses a number with a fraction or an
/// exponent.
fn write_number(out: &mut Vec<u8>, n: &Number) -> (r: Result<(), Error>)
    ensures
        match canonical_json(number_view(*n)) {
            Ok(b) => r is Ok && final(out)@ == old(out)@ + b,
            Err(t) => r matches Err(Error::Canonical(m)) && m@ == float_message(t) && final(out)@
                == old(out)@,
        },
{
    match n {
        Number::PosInt(u) => {
            push_decimal(out, *u);
            Ok(())
        },
        Number::NegInt(i) => {
            push_signed_decimal(out, *i);
            Ok(())
        },
        Number::Float(t) => Err(canonical_error(t)),
    }
}

/// Appends the canonical bytes of `v` to `out`; fails on the first number
/// with a fraction or exponent.
fn write_canonical(out: &mut Vec<u8>, v: &Value) -> (r: Result<(), Error>)
    ensures
        match canonical_json(v@) {
            Ok(b) => r is Ok && final(out)@ == old(out)@ + b,
            Err(t) => r matches Err(Error::Canonical(m)) && m@ == float_message(t)
                && old(out)@.is_prefix_of(final(out)@),
        },
    decreases v,
{
    match v {
        Value::Null => {
            push_bytes(out, &['n' as u8, 'u' as u8, 'l' as u8, 'l' as u8]);
        },
        Value::Bool(b) => {
            if *b {
                push_bytes(out, &['t' as u8, 'r' as u8, 'u' as u8, 'e' as u8]);
            } else {
                push_bytes(out, &['f' as u8, 'a' as u8, 'l' as u8, 's' as u8, 'e' as u8]);
            }
        },
        Value::Number(n) => {
            match write_number(out, n) {
                Ok(()) => {},
                Err(e) => {
                    assert(old(out)@ =~= final(out)@.subrange(0, old(out)@.len() as int));
                    return Err(e);
                },
            }
        },
        Value::String(s) => {
            write_string(out, s.as_str());
        },
        Value::Array(a) => {
            let ghost parts = render_items(items_view(a@));
            proof {
                lemma_items_view_index(a@);
                lemma_render_items_index(items_view(a@));
            }
            out.push('[' as u8);
            let mut i: usize = 0;
            while i < a.len()
                invariant
                    i <= a.len(),
                    *v == Value::Array(*a),
                    parts == render_items(items_view(a@)),
                    parts.len() == a.len(),
                    forall|k: int| 0 <= k < a.len() ==> parts[k] == canonical_json(value_view(#[trigger] a@[k])),
                    join_parts(parts.take(i as int)) matches Ok(b) && out@ == old(out)@ + seq!['[' as u8] + b,
                decreases a.len() - i,
            {
                let ghost before = out@;
                let ghost pre = join_parts(parts.take(i as int))->Ok_0;
                if i > 0 {
                    out.push(',' as u8);
                }
                let ghost mid = out@;
                proof {
                    assert(parts.take(i as int + 1).drop_last() =~= parts.take(i as int));
                    assert(parts.take(i as int + 1).last() == parts[i as int]);
                    if i == 0 {
                        assert(parts.take(0) =~= Seq::<Result<Seq<u8>, Seq<char>>>::empty());
                    }
                }
                proof {
                    assert(decreases_to!(*v => *a));
                    assert(decreases_to!(*a => a@));
                    assert(decreases_to!(a@ => a@[i as int]));
                }
                let r = write_canonical(out, &a[i]);
                match r {
                    Err(e) => {
                        proof {
                            assert(parts[i as int] is Err);
                            assert(join_parts(parts.take(i as int + 1)) == parts[i as int]);
                            lemma_join_parts_err(parts, i as int + 1);
                            assert(old(out)@ =~= mid.subrange(0, old(out)@.len() as int));
                            lemma_prefix_extend(old(out)@, mid, out@);
                        }
                        return Err(e);
                    },
                    Ok(()) => {},
                }
                proof {
                    let b = canonical_json(value_view(a@[i as int]))->Ok_0;
                    if i == 0 {
                        assert(out@ =~= old(out)@ + seq!['[' as u8] + b);
                    } else {
                        assert(out@ =~= old(out)@ + seq!['[' as u8] + (pre + seq![',' as u8] + b));
                    }
                }
                i = i + 1;
            }
            out.push(']' as u8);
            assert(parts.take(a.len() as int) =~= parts);
        },
        Value::Object(m) => {
            let ghost ms = members_view(m@);
            let ghost rendered = render_members(ms);
            let ghost parts = sort_by_key(rendered).map_values(|p| member_part(p));
            let order = member_order(m);
            proof {
                lemma_members_view_index(m@);
                lemma_render_members_index(ms);
                assert forall|i: int| 0 <= i < m.len() implies #[trigger] rendered[i] == (m@[i].0@, canonical_json(value_view(m@[i].1))) by {
                    assert(rendered[i] == (ms[i].0, canonical_json(ms[i].1)));
                    assert(ms[i] == (m@[i].0@, value_view(m@[i].1)));
                }
                assert forall|i: int| 0 <= i < rendered.len() implies member_keys(m@)[i] == #[trigger] rendered[i].0 by {
                    assert(rendered[i] == (m@[i].0@, canonical_json(value_view(m@[i].1))));
                }
                lemma_sorted_indices_select(member_keys(m@), rendered, m.len() as nat);
                assert(rendered.take(m.len() as int) =~= rendered);
            }
            let ghost sel = order@.map_values(|x: usize| x as int).map_values(|i: int| rendered[i]);
            assert(sel == sort_by_key(rendered));
            out.push('{' as u8);
            let mut k: usize = 0;
            while k < order.len()
                invariant
                    k <= order.len(),
                    *v == Value::Object(*m),
                    parts == sort_by_key(rendered).map_values(|p| member_part(p)),
                    order.len() == m.len(),
                    ms == members_view(m@),
                    rendered == render_members(ms),
                    rendered.len() == m.len(),
                    forall|i: int| 0 <= i < m.len() ==> rendered[i] == (m@[i].0@, canonical_json(value_view(#[trigger] m@[i].1))),
                    forall|j: int| 0 <= j < order.len() ==> #[trigger] order@[j] < m.len(),
                    sel == order@.map_values(|x: usize| x as int).map_values(|i: int| rendered[i]),
                    parts == sel.map_values(|p| member_part(p)),
                    join_parts(parts.take(k as int)) matches Ok(b) && out@ == old(out)@ + seq!['{' as u8] + b,
                decreases order.len() - k,
            {
                let idx = order[k];
                let ghost pre = join_parts(parts.take(k as int))->Ok_0;
                proof {
                    assert(sel[k as int] == rendered[idx as int]);
                    assert(parts[k as int] == member_part(rendered[idx as int]));
                    assert(parts.take(k as int + 1).drop_last() =~= parts.take(k as int));
                    assert(parts.take(k as int + 1).last() == parts[k as int]);
                    if k == 0 {
                        assert(parts.take(0) =~= Seq::<Result<Seq<u8>, Seq<char>>>::empty());
                    }
                }
                if k > 0 {
                    out.push(',' as u8);
                }
                write_string(out, m[idx].0.as_str());
                out.push(':' as u8);
                proof {
                    assert(decreases_to!(*v => *m));
                    assert(decreases_to!(*m => m@));
                    assert(decreases_to!(m@ => m@[idx as int]));
                    assert(decreases_to!(m@[idx as int] => m@[idx as int].1));
                }
                let ghost mid = out@;
                proof {
                    assert(old(out)@ =~= mid.subrange(0, old(out)@.len() as int));
                }
                let r = write_canonical(out, &m[idx].1);
                match r {
                    Err(e) => {
                        proof {
                            assert(parts[k as int] is Err);
                            assert(join_parts(parts.take(k as int + 1)) == parts[k as int]);
                            lemma_join_parts_err(parts, k as int + 1);
                            lemma_prefix_extend(old(out)@, mid, out@);
                        }
                        return Err(e);
                    },
                    Ok(()) => {},
                }
                proof {
                    let b = canonical_json(value_view(m@[idx as int].1))->Ok_0;
                    let part = quoted(m@[idx as int].0@) + seq![':' as u8] + b;
                    if k == 0 {
                        assert(out@ =~= old(out)@ + seq!['{' as u8] + part);
                    } else {
                        assert(out@ =~= old(out)@ + seq!['{' as u8] + (pre + seq![',' as u8] + part));
                    }
                }
                k = k + 1;
            }
            out.push('}' as u8);
            assert(parts.take(order.len() as int) =~= parts);
        },
    }
    Ok(())
}

/// JCS-canonical serialization of a JSON value (RFC 8785). Numbers must be
/// integers: the first number with a fraction or exponent, in output order,
/// is refused with a `Canonical` error that quotes it.
pub fn canonical_value(v: &Value) -> (r: Result<Vec<u8>, Error>)
    ensures
        canonical_outcome(r, canonical_json(v@)),
        r matches Ok(b) ==> crate::reader::read_json(b@) == Some(crate::reader::normalize(v@)),
{
    proof {
        crate::reader::canonical_output_reads_back(v@);
    }
    let mut buf: Vec<u8> = Vec::new();
    match write_canonical(&mut buf, v) {
        Ok(()) => {
            assert(buf@ =~= Seq::<u8>::empty() + canonical_json(v@)->Ok_0);
            Ok(buf)
        },
        Err(e) => Err(e),
    }
}

} // verus!

verus! {

/// Bit `k` (0 = most significant) of a byte.
pub open spec fn byte_bit(b: u8, k: int) -> u32 {
    ((b as u32) >> ((7 - k) as u32)) & 1
}

/// Bit `j` of the big-endian bit stream of `data`; zero past its end.
pub open spec fn stream_bit(data: Seq<u8>, j: int) -> u32 {
    if 0 <= j < 8 * data.len() {
        byte_bit(data[j / 8], j % 8)
    } else {
        0
    }
}

/// The value of the `i`-th group of five bits of the stream.
pub open spec fn quintet(data: Seq<u8>, i: int) -> u32 {
    (16 * stream_bit(data, 5 * i) + 8 * stream_bit(data, 5 * i + 1) + 4 * stream_bit(data, 5 * i + 2)
        + 2 * stream_bit(data, 5 * i + 3) + stream_bit(data, 5 * i + 4)) as u32
}

/// The character for a five-bit value in the lower-case RFC 4648 base32
/// alphabet `abcdefghijklmnopqrstuvwxyz234567`.
pub open spec fn base32_symbol(v: u32) -> char {
    if v < 26 {
        (('a' as u32) + v) as char
    } else {
        (('2' as u32) + v - 26) as char
    }
}

/// Lower-case base32 without padding: one symbol per five bits of the
/// input, the last group filled with zero bits.
pub open spec fn base32_lower(data: Seq<u8>) -> Seq<char> {
    Seq::new(((8 * data.len() + 4) / 5) as nat, |i: int| base32_symbol(quintet(data, i)))
}

proof fn lemma_window_bits(w: u32, o: u32)
    by (bit_vector)
    requires
        w < 0x10000,
        o < 8,
    ensures
        (w >> ((11 - o) as u32)) & 31 == 16 * ((w >> ((15 - o) as u32)) & 1) + 8 * ((w >> ((14 - o) as u32)) & 1) + 4 * ((w
            >> ((13 - o) as u32)) & 1) + 2 * ((w >> ((12 - o) as u32)) & 1) + ((w >> ((11 - o) as u32)) & 1),
{
}

proof fn lemma_window_bit(hi: u8, lo: u8, k: u32)
    by (bit_vector)
    requires
        k < 16,
    ensures
        ((((hi as u32) << 8) | (lo as u32)) >> ((15 - k) as u32)) & 1 == if k < 8 {
            ((hi as u32) >> ((7 - k) as u32)) & 1
        } else {
            ((lo as u32) >> ((15 - k) as u32)) & 1
        },
{
}

proof fn lemma_zero_bits(x: u32)
    by (bit_vector)
    ensures
        (0u32 >> x) & 1 == 0,
{
}

/// A character of the lower-case base32 alphabet: `a`-`z` or `2`-`7`.
pub open spec fn is_base32_lower_char(c: char) -> bool {
    ('a' <= c && c <= 'z') || ('2' <= c && c <= '7')
}

proof fn lemma_bit_at_most_one(b: u8, k: u32)
    by (bit_vector)
    ensures
        ((b as u32) >> k) & 1 <= 1,
{
}

/// Every symbol of lower-case base32 is in its alphabet, and there is one
/// symbol per five bits of input, rounded up.
pub proof fn lemma_base32_lower_shape(data: Seq<u8>)
    ensures
        base32_lower(data).len() == (8 * data.len() + 4) / 5,
        forall|i: int| 0 <= i < base32_lower(data).len() ==> is_base32_lower_char(#[trigger] base32_lower(data)[i]),
{
    assert forall|i: int| 0 <= i < base32_lower(data).len() implies is_base32_lower_char(#[trigger] base32_lower(data)[i]) by {
        assert forall|j: int| #![trigger stream_bit(data, j)] stream_bit(data, j) <= 1 by {
            if 0 <= j < 8 * data.len() {
                lemma_bit_at_most_one(data[j / 8], (7 - j % 8) as u32);
            }
        }
        let q = quintet(data, i);
        assert(stream_bit(data, 5 * i) <= 1);
        assert(stream_bit(data, 5 * i + 1) <= 1);
        assert(stream_bit(data, 5 * i + 2) <= 1);
        assert(stream_bit(data, 5 * i + 3) <= 1);
        assert(stream_bit(data, 5 * i + 4) <= 1);
        assert(q < 32);
    }
}

fn base32_symbol_exec(v: u32) -> (c: char)
    requires
        v < 32,
    ensures
        c == base32_symbol(v),
{
    if v < 26 {
        (('a' as u8) + (v as u8)) as char
    } else {
        (('2' as u8) + (v as u8) - 26) as char
    }
}

/// Lower-case, unpadded base32 (RFC 4648 alphabet) of `bytes`.
pub fn base32_lower_no_pad(bytes: &[u8]) -> (r: String)
    requires
        8 * bytes.len() + 4 <= usize::MAX,
    ensures
        r@ == base32_lower(bytes@),
{
    let n = bytes.len();
    let count: usize = (8 * n + 4) / 5;
    let mut out = String::new();
    let mut i: usize = 0;
    while i < count
        invariant
            i <= count,
            count == (8 * n + 4) / 5,
            n == bytes.len(),
            8 * n + 4 <= usize::MAX,
            out@ == base32_lower(bytes@).take(i as int),
        decreases count - i,
    {
        let p: usize = 5 * i;
        let b: usize = p / 8;
        let o: usize = p % 8;
        let hi: u8 = bytes[b];
        let lo: u8 = if b + 1 < n { bytes[b + 1] } else { 0 };
        let w: u32 = ((hi as u32) << 8) | (lo as u32);
        let idx: u32 = (w >> ((11 - o) as u32)) & 31;
        proof {
            let ou = o as u32;
            assert(w < 0x10000) by (bit_vector)
                requires w == ((hi as u32) << 8) | (lo as u32);
            lemma_window_bits(w, ou);
            assert forall|t: int| 0 <= t < 5 implies #[trigger] stream_bit(bytes@, 5 * i + t) == (w >> ((15 - ou - t) as u32)) & 1 by {
                lemma_window_bit(hi, lo, (ou + t) as u32);
                let j = 5 * i + t;
                if o + t < 8 {
                    assert(j / 8 == b as int);
                    assert(j % 8 == o + t);
                } else {
                    assert(j / 8 == b + 1);
                    assert(j % 8 == o + t - 8);
                    if b + 1 >= n {
                        assert(lo == 0);
                        lemma_zero_bits((15 - (ou + t)) as u32);
                    }
                }
            }
            assert(stream_bit(bytes@, 5 * i + 0) == (w >> ((15 - ou) as u32)) & 1);
            assert(stream_bit(bytes@, 5 * i + 1) == (w >> ((14 - ou) as u32)) & 1);
            assert(stream_bit(bytes@, 5 * i + 2) == (w >> ((13 - ou) as u32)) & 1);
            assert(stream_bit(bytes@, 5 * i + 3) == (w >> ((12 - ou) as u32)) & 1);
            assert(stream_bit(bytes@, 5 * i + 4) == (w >> ((11 - ou) as u32)) & 1);
            assert(idx == quintet(bytes@, i as int));
            assert(idx < 32) by (bit_vector)
                requires idx == (w >> ((11 - ou) as u32)) & 31;
        }
        let c = base32_symbol_exec(idx);
        crate::text::push_char(&mut out, c);
        assert(out@ =~= base32_lower(bytes@).take(i as int + 1));
        i = i + 1;
    }
    assert(base32_lower(bytes@).take(count as int) =~= base32_lower(bytes@));
    out
}

} // verus!

verus! {

/// The mandate id of a canonical body: `mandate://b3:` and the lower-case
/// unpadded base32 form of the body's BLAKE3 hash.
pub open spec fn mandate_id_text(canonical: Seq<u8>) -> Seq<char> {
    "mandate://b3:"@ + base32_lower(crate::digest::blake3_digest(canonical))
}

/// Compute a mandate id from already-canonical body bytes.
pub fn mandate_id(canonical: &[u8]) -> (r: String)
    ensures
        r@ == mandate_id_text(canonical@),
        r@.len() == 65,
        forall|i: int| 13 <= i < 65 ==> is_base32_lower_char(#[trigger] r@[i]),
{
    let h = crate::digest::blake3_hash(canonical);
    let suffix = base32_lower_no_pad(&h);
    proof {
        lemma_base32_lower_shape(h@);
    }
    let mut id = String::from_str("mandate://b3:");
    id.append(suffix.as_str());
    proof {
        reveal_strlit("mandate://b3:");
        assert forall|i: int| 13 <= i < 65 implies is_base32_lower_char(#[trigger] id@[i]) by {
            assert(id@[i] == suffix@[i - 13]);
        }
    }
    id
}

} // verus!


verus! {

/// The position of the first member with key `k`, if any.
pub open spec fn key_position(ms: Seq<(Seq<char>, Json)>, k: Seq<char>) -> Option<int>
    decreases ms.len(),
{
    if ms.len() == 0 {
        None
    } else if ms[0].0 == k {
        Some(0)
    } else {
        match key_position(ms.drop_first(), k) {
            Some(i) => Some(i + 1),
            None => None,
        }
    }
}

/// `j` with the value at `path` (a list of object keys) replaced by `null`;
/// unchanged when the path leads through a missing key or a non-object, or
/// is empty.
pub open spec fn null_path_json(j: Json, path: Seq<Seq<char>>) -> Json
    decreases path.len(),
{
    match j {
        Json::Object(ms) => {
            if path.len() == 0 {
                j
            } else {
                match key_position(ms, path[0]) {
                    None => j,
                    Some(i) => Json::Object(
                        ms.update(
                            i,
                            (
                                ms[i].0,
                                if path.len() == 1 {
                                    Json::Null
                                } else {
                                    null_path_json(ms[i].1, path.drop_first())
                                },
                            ),
                        ),
                    ),
                }
            }
        },
        _ => j,
    }
}

/// The keys of a path given as string slices.
pub open spec fn path_view(p: Seq<&str>) -> Seq<Seq<char>> {
    Seq::new(p.len(), |i: int| p[i]@)
}

/// When no member before `i` has key `k`, the first member with key `k` is
/// at `i` if member `i` has it, and there is none if `i` is the end.
pub proof fn lemma_key_position(ms: Seq<(Seq<char>, Json)>, k: Seq<char>, i: int)
    requires
        0 <= i <= ms.len(),
        forall|j: int| 0 <= j < i ==> (#[trigger] ms[j]).0 != k,
    ensures
        i < ms.len() && ms[i].0 == k ==> key_position(ms, k) == Some(i),
        i == ms.len() ==> key_position(ms, k) is None,
    decreases i,
{
    if i > 0 {
        assert forall|j: int| 0 <= j < i - 1 implies (#[trigger] ms.drop_first()[j]).0 != k by {
            assert(ms.drop_first()[j] == ms[j + 1]);
        }
        assert(ms[0].0 != k);
        lemma_key_position(ms.drop_first(), k, i - 1);
    }
}

proof fn lemma_key_position_bound(ms: Seq<(Seq<char>, Json)>, k: Seq<char>)
    ensures
        key_position(ms, k) matches Some(i) ==> 0 <= i < ms.len() && ms[i].0 == k,
    decreases ms.len(),
{
    if ms.len() > 0 && ms[0].0 != k {
        lemma_key_position_bound(ms.drop_first(), k);
    }
}

proof fn lemma_members_view_update(s: Seq<(String, Value)>, i: int, e: (String, Value))
    requires
        0 <= i < s.len(),
    ensures
        members_view(s.update(i, e)) == members_view(s).update(i, (e.0@, value_view(e.1))),
{
    lemma_members_view_index(s);
    lemma_members_view_index(s.update(i, e));
    assert forall|j: int| 0 <= j < s.len() implies #[trigger] members_view(s.update(i, e))[j] == members_view(s).update(i, (e.0@, value_view(e.1)))[j] by {
        assert(s.update(i, e)[j].1 == (if j == i { e.1 } else { s[j].1 }));
        assert(s[j].1 == s[j].1);
    }
    assert(members_view(s.update(i, e)) =~= members_view(s).update(i, (e.0@, value_view(e.1))));
}

/// The position of the first member of `map` whose key is `key`.
fn find_key(map: &Vec<(String, Value)>, key: &str) -> (r: Option<usize>)
    ensures
        r matches Some(i) ==> key_position(members_view(map@), key@) == Some(i as int),
        r is None ==> key_position(members_view(map@), key@) is None,
{
    let k = String::from_str(key);
    proof {
        lemma_members_view_index(map@);
    }
    let mut i: usize = 0;
    while i < map.len()
        invariant
            i <= map.len(),
            k@ == key@,
            members_view(map@).len() == map.len(),
            forall|j: int| 0 <= j < map.len() ==> #[trigger] members_view(map@)[j] == (map@[j].0@, value_view(map@[j].1)),
            forall|j: int| 0 <= j < i ==> (#[trigger] members_view(map@)[j]).0 != key@,
        decreases map.len() - i,
    {
        if map[i].0 == k {
            proof {
                lemma_key_position(members_view(map@), key@, i as int);
            }
            return Some(i);
        }
        assert(members_view(map@)[i as int].0 != key@);
        i = i + 1;
    }
    proof {
        lemma_key_position(members_view(map@), key@, i as int);
    }
    None
}

fn null_path_from(v: &mut Value, path: &[&str], start: usize)
    requires
        start <= path.len(),
    ensures
        final(v)@ == null_path_json(old(v)@, path_view(path@).skip(start as int)),
    decreases path.len() - start,
{
    let ghost p = path_view(path@).skip(start as int);
    match v {
        Value::Object(map) => {
            if start >= path.len() {
                return;
            }
            let head = path[start];
            assert(p[0] == head@);
            let found = find_key(map, head);
            match found {
                None => {},
                Some(i) => {
                    let ghost before = map@;
                    proof {
                        lemma_key_position_bound(members_view(before), head@);
                        lemma_members_view_index(before);
                    }
                    let mut entry = map.remove(i);
                    if start + 1 == path.len() {
                        entry.1 = Value::Null;
                    } else {
                        assert(p.drop_first() =~= path_view(path@).skip(start as int + 1));
                        null_path_from(&mut entry.1, path, start + 1);
                    }
                    map.insert(i, entry);
                    proof {
                        assert(map@ =~= before.update(i as int, entry));
                        lemma_members_view_update(before, i as int, entry);
                        let ms = members_view(before);
                        assert(old(v)@ == Json::Object(ms));
                        assert(key_position(ms, p[0]) == Some(i as int));
                        assert(ms[i as int].0 == entry.0@);
                        if start + 1 == path.len() {
                            assert(p.len() == 1);
                            assert(value_view(entry.1) == Json::Null);
                        } else {
                            assert(ms[i as int].1 == value_view(before[i as int].1));
                            assert(value_view(entry.1) == null_path_json(ms[i as int].1, p.drop_first()));
                        }
                    }
                },
            }
        },
        _ => {},
    }
}

/// Sets the value at `path` (a list of object keys) to `null`. Does nothing
/// when the path leads through a missing key or a non-object, or is empty.
pub fn null_path(v: &mut Value, path: &[&str])
    ensures
        final(v)@ == null_path_json(old(v)@, path_view(path@)),
{
    null_path_from(v, path, 0);
    assert(path_view(path@).skip(0) =~= path_view(path@));
}

} // verus!

verus! {

/// The JSON form with every field that hashing and signing leave out set to
/// `null`: `id`, `buyer.sig.value`, `approval.approval_sig`,
/// `agent.attestation.report`, `agent.attestation.vcek_chain` and
/// `lifecycle.bound_to_merchant`.
pub open spec fn hashing_mask(j: Json) -> Json {
    let j1 = null_path_json(j, seq!["id"@]);
    let j2 = null_path_json(j1, seq!["buyer"@, "sig"@, "value"@]);
    let j3 = null_path_json(j2, seq!["approval"@, "approval_sig"@]);
    let j4 = null_path_json(j3, seq!["agent"@, "attestation"@, "report"@]);
    let j5 = null_path_json(j4, seq!["agent"@, "attestation"@, "vcek_chain"@]);
    null_path_json(j5, seq!["lifecycle"@, "bound_to_merchant"@])
}

/// The canonical body of a mandate as a serialization result.
pub open spec fn canonical_body_of(m: crate::types::Mandate) -> Result<Seq<u8>, Seq<char>> {
    canonical_json(hashing_mask(crate::types::mandate_json(m)))
}

/// Serialize a mandate to JCS-canonical bytes with hashing/signing paths
/// nulled. Fails only when `intent.structured` holds a non-integer number.
pub fn canonical_body(m: &crate::types::Mandate) -> (r: Result<Vec<u8>, Error>)
    ensures
        canonical_outcome(r, canonical_body_of(*m)),
{
    let mut v = crate::types::mandate_value(m);
    let p1: [&str; 1] = ["id"];
    let p2: [&str; 3] = ["buyer", "sig", "value"];
    let p3: [&str; 2] = ["approval", "approval_sig"];
    let p4: [&str; 3] = ["agent", "attestation", "report"];
    let p5: [&str; 3] = ["agent", "attestation", "vcek_chain"];
    let p6: [&str; 2] = ["lifecycle", "bound_to_merchant"];
    assert(path_view(p1@) =~= seq!["id"@]);
    assert(path_view(p2@) =~= seq!["buyer"@, "sig"@, "value"@]);
    assert(path_view(p3@) =~= seq!["approval"@, "approval_sig"@]);
    assert(path_view(p4@) =~= seq!["agent"@, "attestation"@, "report"@]);
    assert(path_view(p5@) =~= seq!["agent"@, "attestation"@, "vcek_chain"@]);
    assert(path_view(p6@) =~= seq!["lifecycle"@, "bound_to_merchant"@]);
    null_path(&mut v, &p1);
    null_path(&mut v, &p2);
    null_path(&mut v, &p3);
    null_path(&mut v, &p4);
    null_path(&mut v, &p5);
    null_path(&mut v, &p6);
    canonical_value(&v)
}

/// The id of a mandate as a computation result.
pub open spec fn mandate_id_of(m: crate::types::Mandate) -> Result<Seq<char>, Seq<char>> {
    match canonical_body_of(m) {
        Ok(b) => Ok(mandate_id_text(b)),
        Err(t) => Err(t),
    }
}

/// Compute a mandate's id from its current value.
pub fn mandate_id_for(m: &crate::types::Mandate) -> (r: Result<String, Error>)
    ensures
        match mandate_id_of(*m) {
            Ok(id) => r matches Ok(s) && s@ == id,
            Err(t) => r matches Err(Error::Canonical(msg)) && msg@ == float_message(t),
        },
{
    let body = canonical_body(m)?;
    Ok(mandate_id(body.as_slice()))
}

} // verus!
