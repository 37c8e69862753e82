//! Reading a JSON string literal (RFC 8259) back: what `write_string`
//! writes decodes to the string it was given.

use vstd::prelude::*;
use crate::canonical::{escape_char, escape_chars, hex_digit_lower, quoted};

verus! {

broadcast use {vstd::utf8::encode_utf8_decode_utf8, vstd::utf8::encode_utf8_valid_utf8};

/// The value of a hexadecimal digit character (either case).
pub open spec fn hex_char_value(c: char) -> Option<nat> {
    if '0' <= c && c <= '9' {
        Some(((c as u32) - ('0' as u32)) as nat)
    } else if 'a' <= c && c <= 'f' {
        Some(((c as u32) - ('a' as u32) + 10) as nat)
    } else if 'A' <= c && c <= 'F' {
        Some(((c as u32) - ('A' as u32) + 10) as nat)
    } else {
        None
    }
}

/// The value of the four hexadecimal digits at the start of `t`.
pub open spec fn hex4_value(t: Seq<char>) -> Option<nat> {
    if t.len() < 4 {
        None
    } else {
        match (hex_char_value(t[0]), hex_char_value(t[1]), hex_char_value(t[2]), hex_char_value(t[3])) {
            (Some(a), Some(b), Some(c), Some(d)) => Some(((a * 16 + b) * 16 + c) * 16 + d),
            _ => None,
        }
    }
}

/// The character a short escape (the letter after `\`) stands for.
pub open spec fn short_escape(e: char) -> Option<char> {
    if e == '"' {
        Some('"')
    } else if e == '\\' {
        Some('\\')
    } else if e == '/' {
        Some('/')
    } else if e == 'b' {
        Some('\u{08}')
    } else if e == 'f' {
        Some('\u{0c}')
    } else if e == 'n' {
        Some('\n')
    } else if e == 'r' {
        Some('\r')
    } else if e == 't' {
        Some('\t')
    } else {
        None
    }
}

/// `c` before the rest, if the rest was read.
pub open spec fn prepend(c: char, rest: Option<Seq<char>>) -> Option<Seq<char>> {
    match rest {
        Some(r) => Some(seq![c] + r),
        None => None,
    }
}

/// The characters that the text between the quotes of a JSON string
/// literal stands for: escapes are read (a `\u` escape of a high surrogate
/// must be followed by one of a low surrogate); a bare `"` or `\`, or a
/// control character, makes the text not a string's contents.
pub open spec fn unescape(t: Seq<char>) -> Option<Seq<char>>
    decreases t.len(),
{
    if t.len() == 0 {
        Some(seq![])
    } else if t[0] == '\\' {
        if t.len() < 2 {
            None
        } else {
            match short_escape(t[1]) {
                Some(c) => prepend(c, unescape(t.skip(2))),
                None => if t[1] != 'u' {
                    None
                } else {
                    match hex4_value(t.skip(2)) {
                        None => None,
                        Some(v) => if v < 0xD800 || 0xE000 <= v {
                            prepend(v as char, unescape(t.skip(6)))
                        } else if v < 0xDC00 && t.len() >= 12 && t[6] == '\\' && t[7] == 'u' {
                            match hex4_value(t.skip(8)) {
                                Some(w) => if 0xDC00 <= w && w < 0xE000 {
                                    prepend(
                                        (0x10000 + (v - 0xD800) * 0x400 + (w - 0xDC00)) as char,
                                        unescape(t.skip(12)),
                                    )
                                } else {
                                    None
                                },
                                None => None,
                            }
                        } else {
                            None
                        },
                    }
                },
            }
        }
    } else if t[0] == '"' || (t[0] as u32) < 0x20 {
        None
    } else {
        prepend(t[0], unescape(t.drop_first()))
    }
}

/// The string a byte sequence spells as a JSON string literal: valid
/// UTF-8, a quote, the string's escaped contents, a quote.
pub open spec fn string_literal_value(b: Seq<u8>) -> Option<Seq<char>> {
    if !vstd::utf8::valid_utf8(b) {
        None
    } else {
        let t = vstd::utf8::decode_utf8(b);
        if t.len() >= 2 && t[0] == '"' && t[t.len() - 1] == '"' {
            unescape(t.subrange(1, t.len() - 1))
        } else {
            None
        }
    }
}

/// The characters of one escaped character, as text.
pub open spec fn escape_char_text(c: char) -> Seq<char> {
    if c == '"' {
        seq!['\\', '"']
    } else if c == '\\' {
        seq!['\\', '\\']
    } else if c == '\u{08}' {
        seq!['\\', 'b']
    } else if c == '\u{0c}' {
        seq!['\\', 'f']
    } else if c == '\n' {
        seq!['\\', 'n']
    } else if c == '\r' {
        seq!['\\', 'r']
    } else if c == '\t' {
        seq!['\\', 't']
    } else if (c as u32) < 0x20 {
        seq![
            '\\',
            'u',
            '0',
            '0',
            hex_digit_lower((c as u32) as nat / 16) as char,
            hex_digit_lower((c as u32) as nat % 16) as char,
        ]
    } else {
        seq![c]
    }
}

/// The escaped text of a character sequence.
pub open spec fn escaped_text(s: Seq<char>) -> Seq<char>
    decreases s.len(),
{
    if s.len() == 0 {
        seq![]
    } else {
        escape_char_text(s[0]) + escaped_text(s.drop_first())
    }
}

proof fn lemma_encode_utf8_append(a: Seq<char>, b: Seq<char>)
    ensures
        vstd::utf8::encode_utf8(a + b) == vstd::utf8::encode_utf8(a) + vstd::utf8::encode_utf8(b),
    decreases a.len(),
{
    if a.len() == 0 {
        assert(a + b =~= b);
    } else {
        assert((a + b).drop_first() =~= a.drop_first() + b);
        assert((a + b)[0] == a[0]);
        lemma_encode_utf8_append(a.drop_first(), b);
    }
}

proof fn lemma_escape_char_text_bytes(c: char)
    ensures
        vstd::utf8::encode_utf8(escape_char_text(c)) == escape_char(c),
{
    let t = escape_char_text(c);
    if (c as u32) < 0x20 || c == '"' || c == '\\' {
        assert forall|i: int| 0 <= i < t.len() implies (#[trigger] t[i] as u32) < 0x80 by {
        }
        crate::text::lemma_encode_utf8_ascii(t);
        assert(vstd::utf8::encode_utf8(t) =~= escape_char(c));
    } else {
        assert(t =~= seq![c]);
        assert(t[0] == c);
        assert(t.drop_first() =~= Seq::<char>::empty());
        assert(vstd::utf8::encode_utf8(t.drop_first()) =~= Seq::<u8>::empty());
        assert(vstd::utf8::encode_utf8(t) == vstd::utf8::encode_scalar(c as u32) + vstd::utf8::encode_utf8(t.drop_first()));
        assert(vstd::utf8::encode_utf8(t) =~= escape_char(c));
    }
}

/// The escaped text, encoded in UTF-8, is the escaped bytes.
pub proof fn lemma_escaped_text_bytes(s: Seq<char>)
    ensures
        vstd::utf8::encode_utf8(escaped_text(s)) == escape_chars(s),
    decreases s.len(),
{
    if s.len() > 0 {
        lemma_escaped_text_bytes(s.drop_first());
        lemma_escape_char_text_bytes(s[0]);
        lemma_encode_utf8_append(escape_char_text(s[0]), escaped_text(s.drop_first()));
    }
}

proof fn lemma_unescape_char(c: char, rest: Seq<char>)
    ensures
        unescape(escape_char_text(c) + rest) == prepend(c, unescape(rest)),
{
    broadcast use vstd::utf8::char_is_scalar;
    let t = escape_char_text(c) + rest;
    let v = c as u32;
    if c == '"' || c == '\\' || c == '\u{08}' || c == '\u{0c}' || c == '\n' || c == '\r' || c == '\t' {
        assert(t.skip(2) =~= rest);
    } else if v < 0x20 {
        let h1 = hex_digit_lower(v as nat / 16) as char;
        let h2 = hex_digit_lower(v as nat % 16) as char;
        assert(t[0] == '\\' && t[1] == 'u');
        assert(short_escape(t[1]) is None);
        assert(t.skip(2)[0] == '0' && t.skip(2)[1] == '0' && t.skip(2)[2] == h1 && t.skip(2)[3] == h2);
        assert(hex_char_value(h1) == Some(v as nat / 16));
        assert(hex_char_value(h2) == Some(v as nat % 16));
        assert(hex4_value(t.skip(2)) == Some(v as nat));
        assert(t.skip(6) =~= rest);
        assert((v as nat) as char == c) by {
            vstd::utf8::char_u32_cast(c, v);
        }
    } else {
        assert(t[0] == c);
        assert(t.drop_first() =~= rest);
    }
}

/// Reading the escaped text gives the characters back.
pub proof fn lemma_unescape_escaped(s: Seq<char>)
    ensures
        unescape(escaped_text(s)) == Some(s),
    decreases s.len(),
{
    if s.len() == 0 {
        assert(escaped_text(s) =~= Seq::<char>::empty());
        assert(s =~= Seq::<char>::empty());
    } else {
        lemma_unescape_escaped(s.drop_first());
        lemma_unescape_char(s[0], escaped_text(s.drop_first()));
        assert(seq![s[0]] + s.drop_first() =~= s);
    }
}

/// A string written as a canonical JSON string literal reads back as the
/// same string.
pub proof fn string_literal_roundtrip(s: Seq<char>)
    ensures
        string_literal_value(quoted(s)) == Some(s),
{
    let q = seq!['"'];
    let text = q + escaped_text(s) + q;
    lemma_escaped_text_bytes(s);
    lemma_encode_utf8_append(q + escaped_text(s), q);
    lemma_encode_utf8_append(q, escaped_text(s));
    assert(vstd::utf8::encode_utf8(q) =~= seq!['"' as u8]) by {
        assert(('"' as u32) < 0x80);
        crate::text::lemma_encode_utf8_ascii(q);
    }
    assert(vstd::utf8::encode_utf8(text) =~= quoted(s));
    assert(vstd::utf8::decode_utf8(quoted(s)) == text);
    assert(text.subrange(1, text.len() - 1) =~= escaped_text(s));
    lemma_unescape_escaped(s);
}

} // verus!
