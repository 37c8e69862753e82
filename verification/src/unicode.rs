//! Character-level helpers: walking the characters of a string, and the
//! UTF-16 encoding of a character sequence.

use vstd::prelude::*;

verus! {

/// The UTF-16 code units of one character: one unit inside the Basic
/// Multilingual Plane, a high/low surrogate pair above it.
pub open spec fn utf16_char(c: char) -> Seq<u16> {
    let v = c as u32;
    if v < 0x10000 {
        seq![v as u16]
    } else {
        seq![(0xD800 + (v - 0x10000) / 0x400) as u16, (0xDC00 + (v - 0x10000) % 0x400) as u16]
    }
}

/// The UTF-16 encoding of a character sequence.
pub open spec fn utf16_encode(s: Seq<char>) -> Seq<u16>
    decreases s.len(),
{
    if s.len() == 0 {
        seq![]
    } else {
        utf16_char(s[0]) + utf16_encode(s.drop_first())
    }
}

/// The characters of `s`, in order.
pub fn chars_of(s: &str) -> (r: Vec<char>)
    ensures
        r@ == s@,
{
    broadcast use vstd::string::group_string_axioms;
    let mut r: Vec<char> = Vec::new();
    for c in it: s.chars()
        invariant
            r@ == it.seq().take(it.index() as int),
    {
        r.push(c);
    }
    r
}

} // verus!

verus! {

/// The encoding of a concatenation is the concatenation of the encodings.
pub proof fn lemma_utf16_encode_append(a: Seq<char>, b: Seq<char>)
    ensures
        utf16_encode(a + b) == utf16_encode(a) + utf16_encode(b),
    decreases a.len(),
{
    if a.len() == 0 {
        assert(a + b =~= b);
    } else {
        assert((a + b).drop_first() =~= a.drop_first() + b);
        lemma_utf16_encode_append(a.drop_first(), b);
    }
}

/// Distinct character sequences have distinct UTF-16 encodings.
pub proof fn lemma_utf16_encode_injective(a: Seq<char>, b: Seq<char>)
    requires
        utf16_encode(a) == utf16_encode(b),
    ensures
        a == b,
    decreases a.len(),
{
    broadcast use vstd::utf8::char_is_scalar;
    if a.len() == 0 {
        if b.len() != 0 {
            assert(utf16_encode(b).len() > 0);
        }
        assert(a =~= b);
    } else if b.len() == 0 {
        assert(utf16_encode(a).len() > 0);
    } else {
        let e = utf16_encode(a);
        let ca = a[0];
        let cb = b[0];
        vstd::utf8::char_is_scalar(ca);
        vstd::utf8::char_is_scalar(cb);
        let ua = utf16_char(ca);
        let ub = utf16_char(cb);
        assert(e == ua + utf16_encode(a.drop_first()));
        assert(e == ub + utf16_encode(b.drop_first()));
        assert(e[0] == ua[0]);
        assert(e[0] == ub[0]);
        if (ca as u32) < 0x10000 {
            assert((cb as u32) < 0x10000);
            assert(ca as u32 == cb as u32);
            assert(ua == ub);
        } else {
            assert((cb as u32) >= 0x10000);
            assert(e[1] == ua[1]);
            assert(e[1] == ub[1]);
            assert(ca as u32 == cb as u32);
            assert(ua == ub);
        }
        vstd::utf8::char_u32_cast(ca, ca as u32);
        vstd::utf8::char_u32_cast(cb, cb as u32);
        assert(ca == cb);
        assert(utf16_encode(a.drop_first()) =~= e.skip(ua.len() as int));
        assert(utf16_encode(b.drop_first()) =~= e.skip(ub.len() as int));
        lemma_utf16_encode_injective(a.drop_first(), b.drop_first());
        assert(a =~= seq![ca] + a.drop_first());
        assert(b =~= seq![cb] + b.drop_first());
    }
}

/// The UTF-16 code units of `s`.
pub fn utf16_units(s: &str) -> (r: Vec<u16>)
    ensures
        r@ == utf16_encode(s@),
{
    broadcast use vstd::utf8::char_is_scalar;
    let cs = chars_of(s);
    let mut r: Vec<u16> = Vec::new();
    let mut i: usize = 0;
    while i < cs.len()
        invariant
            i <= cs.len(),
            r@ == utf16_encode(cs@.take(i as int)),
        decreases cs.len() - i,
    {
        let c = cs[i];
        let v: u32 = c as u32;
        proof {
            vstd::utf8::char_is_scalar(c);
            lemma_utf16_encode_append(cs@.take(i as int), seq![c]);
            assert(cs@.take(i as int + 1) =~= cs@.take(i as int) + seq![c]);
            assert(utf16_encode(seq![c]) =~= utf16_char(c)) by {
                assert(seq![c].drop_first() =~= Seq::<char>::empty());
                reveal_with_fuel(utf16_encode, 2);
            }
        }
        let ghost before = r@;
        if v < 0x10000 {
            r.push(v as u16);
            assert(r@ =~= before + utf16_char(c));
        } else {
            let w: u32 = v - 0x10000;
            r.push((0xD800 + w / 0x400) as u16);
            r.push((0xDC00 + w % 0x400) as u16);
            assert(r@ =~= before + utf16_char(c));
        }
        i = i + 1;
    }
    assert(cs@.take(cs.len() as int) =~= cs@);
    r
}

} // verus!

verus! {

/// Appends the UTF-8 encoding of `c` to `out`.
pub fn push_utf8_char(out: &mut Vec<u8>, c: char)
    ensures
        final(out)@ == old(out)@ + vstd::utf8::encode_scalar(c as u32),
{
    broadcast use vstd::utf8::char_is_scalar;
    let v: u32 = c as u32;
    proof {
        vstd::utf8::char_is_scalar(c);
    }
    if v <= 0x7F {
        out.push((v & 0x7F) as u8);
        assert(final(out)@ =~= old(out)@ + vstd::utf8::encode_scalar(v));
    } else if v <= 0x7FF {
        out.push(0xC0 | ((v >> 6) & 0x1F) as u8);
        out.push(0x80 | (v & 0x3F) as u8);
        assert(final(out)@ =~= old(out)@ + vstd::utf8::encode_scalar(v));
    } else if v <= 0xFFFF {
        out.push(0xE0 | ((v >> 12) & 0x0F) as u8);
        out.push(0x80 | ((v >> 6) & 0x3F) as u8);
        out.push(0x80 | (v & 0x3F) as u8);
        assert(final(out)@ =~= old(out)@ + vstd::utf8::encode_scalar(v));
    } else {
        out.push(0xF0 | ((v >> 18) & 0x7) as u8);
        out.push(0x80 | ((v >> 12) & 0x3F) as u8);
        out.push(0x80 | ((v >> 6) & 0x3F) as u8);
        out.push(0x80 | (v & 0x3F) as u8);
        assert(final(out)@ =~= old(out)@ + vstd::utf8::encode_scalar(v));
    }
}

} // verus!
