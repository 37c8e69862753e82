//! The key order of canonical JSON: lexicographic order of UTF-16 code units.

use vstd::prelude::*;
use std::cmp::Ordering;

verus! {

/// Lexicographic "strictly less" on sequences of code units.
pub open spec fn units_less(a: Seq<u16>, b: Seq<u16>) -> bool
    decreases a.len(),
{
    if a.len() == 0 {
        b.len() > 0
    } else if b.len() == 0 {
        false
    } else if a[0] != b[0] {
        a[0] < b[0]
    } else {
        units_less(a.drop_first(), b.drop_first())
    }
}

} // verus!

verus! {

/// `a` comes strictly before `b` when both are compared by their UTF-16
/// code units (the key order of RFC 8785).
pub open spec fn utf16_less(a: Seq<char>, b: Seq<char>) -> bool {
    units_less(crate::unicode::utf16_encode(a), crate::unicode::utf16_encode(b))
}

/// No sequence is less than itself.
pub proof fn lemma_units_less_irreflexive(a: Seq<u16>)
    ensures
        !units_less(a, a),
    decreases a.len(),
{
    if a.len() > 0 {
        lemma_units_less_irreflexive(a.drop_first());
    }
}

/// Of two distinct sequences, exactly one is less than the other.
pub proof fn lemma_units_less_total(a: Seq<u16>, b: Seq<u16>)
    ensures
        a != b ==> (units_less(a, b) || units_less(b, a)),
        !(units_less(a, b) && units_less(b, a)),
    decreases a.len(),
{
    if a.len() == 0 {
        if b.len() == 0 {
            assert(a =~= b);
        }
    } else if b.len() > 0 {
        lemma_units_less_total(a.drop_first(), b.drop_first());
        if a[0] == b[0] && a.drop_first() == b.drop_first() {
            assert(a =~= seq![a[0]] + a.drop_first());
            assert(b =~= seq![b[0]] + b.drop_first());
        }
    }
}

/// The order is transitive.
pub proof fn lemma_units_less_transitive(a: Seq<u16>, b: Seq<u16>, c: Seq<u16>)
    requires
        units_less(a, b),
        units_less(b, c),
    ensures
        units_less(a, c),
    decreases a.len(),
{
    if a.len() > 0 && b.len() > 0 && c.len() > 0 {
        if a[0] == b[0] && b[0] == c[0] {
            lemma_units_less_transitive(a.drop_first(), b.drop_first(), c.drop_first());
        }
    }
}

/// The key order is a strict total order on character sequences: never
/// reflexive, never both ways, and one way for any two distinct sequences.
pub proof fn lemma_utf16_less_total(a: Seq<char>, b: Seq<char>)
    ensures
        !utf16_less(a, a),
        !(utf16_less(a, b) && utf16_less(b, a)),
        a != b ==> (utf16_less(a, b) || utf16_less(b, a)),
{
    let ea = crate::unicode::utf16_encode(a);
    let eb = crate::unicode::utf16_encode(b);
    lemma_units_less_irreflexive(ea);
    lemma_units_less_total(ea, eb);
    if ea == eb {
        crate::unicode::lemma_utf16_encode_injective(a, b);
    }
}

/// The key order is transitive.
pub proof fn lemma_utf16_less_transitive(a: Seq<char>, b: Seq<char>, c: Seq<char>)
    requires
        utf16_less(a, b),
        utf16_less(b, c),
    ensures
        utf16_less(a, c),
{
    lemma_units_less_transitive(
        crate::unicode::utf16_encode(a),
        crate::unicode::utf16_encode(b),
        crate::unicode::utf16_encode(c),
    );
}

/// "Not after" is transitive: `a <= b <= c` gives `a <= c`.
pub proof fn lemma_utf16_not_after_transitive(a: Seq<char>, b: Seq<char>, c: Seq<char>)
    requires
        !utf16_less(b, a),
        !utf16_less(c, b),
    ensures
        !utf16_less(c, a),
{
    lemma_utf16_less_total(a, b);
    lemma_utf16_less_total(b, c);
    if utf16_less(c, a) {
        if a == b {
        } else if b == c {
        } else {
            lemma_utf16_less_transitive(a, b, c);
            lemma_utf16_less_total(a, c);
        }
    }
}

/// Comparing from position `i` on, when the first `i` units agree.
proof fn lemma_units_less_from(a: Seq<u16>, b: Seq<u16>, i: int)
    requires
        0 <= i <= a.len(),
        i <= b.len(),
        a.take(i) == b.take(i),
    ensures
        units_less(a, b) == units_less(a.skip(i), b.skip(i)),
        (a == b) == (a.skip(i) == b.skip(i)),
    decreases i,
{
    if i > 0 {
        assert(a[0] == a.take(i)[0]);
        assert(b[0] == b.take(i)[0]);
        assert(a.drop_first().take(i - 1) =~= a.take(i).drop_first());
        assert(b.drop_first().take(i - 1) =~= b.take(i).drop_first());
        lemma_units_less_from(a.drop_first(), b.drop_first(), i - 1);
        assert(a.drop_first().skip(i - 1) =~= a.skip(i));
        assert(b.drop_first().skip(i - 1) =~= b.skip(i));
        assert(a =~= seq![a[0]] + a.drop_first());
        assert(b =~= seq![b[0]] + b.drop_first());
    } else {
        assert(a.skip(0) =~= a);
        assert(b.skip(0) =~= b);
    }
}

/// Three-way comparison of code-unit sequences: negative, zero or
/// positive as `a` sorts before, equal to, or after `b`.
fn units_order(ua: &Vec<u16>, ub: &Vec<u16>) -> (r: i8)
    ensures
        (r < 0) == units_less(ua@, ub@),
        (r == 0) == (ua@ == ub@),
        (r > 0) == units_less(ub@, ua@),
{
    proof {
        lemma_units_less_total(ua@, ub@);
        lemma_units_less_irreflexive(ua@);
    }
    let mut i: usize = 0;
    loop
        invariant
            i <= ua.len(),
            i <= ub.len(),
            ua@.take(i as int) == ub@.take(i as int),
        decreases ua.len() - i,
    {
        proof {
            lemma_units_less_from(ua@, ub@, i as int);
            lemma_units_less_from(ub@, ua@, i as int);
        }
        if i == ua.len() {
            if i == ub.len() {
                assert(ua@.skip(i as int) =~= ub@.skip(i as int));
                return 0;
            } else {
                return -1;
            }
        } else if i == ub.len() {
            return 1;
        }
        let x = ua[i];
        let y = ub[i];
        assert(ua@.skip(i as int)[0] == x);
        assert(ub@.skip(i as int)[0] == y);
        if x < y {
            return -1;
        } else if y < x {
            return 1;
        }
        assert(ua@.take(i as int + 1) =~= ua@.take(i as int).push(x));
        assert(ub@.take(i as int + 1) =~= ub@.take(i as int).push(y));
        i = i + 1;
    }
}

/// Compares two strings by their UTF-16 code units: `Less` when `a` sorts
/// first, `Equal` when they are the same string, `Greater` otherwise.
pub fn utf16_cmp(a: &str, b: &str) -> (r: Ordering)
    ensures
        (r == Ordering::Less) == utf16_less(a@, b@),
        (r == Ordering::Equal) == (a@ == b@),
        (r == Ordering::Greater) == utf16_less(b@, a@),
{
    let ua = crate::unicode::utf16_units(a);
    let ub = crate::unicode::utf16_units(b);
    proof {
        if ua@ == ub@ {
            crate::unicode::lemma_utf16_encode_injective(a@, b@);
        }
    }
    let d = units_order(&ua, &ub);
    if d < 0 {
        Ordering::Less
    } else if d == 0 {
        Ordering::Equal
    } else {
        Ordering::Greater
    }
}

} // verus!

verus! {

/// `true` when `a` sorts strictly before `b` by UTF-16 code units.
pub fn utf16_lt(a: &str, b: &str) -> (r: bool)
    ensures
        r == utf16_less(a@, b@),
{
    match utf16_cmp(a, b) {
        Ordering::Less => true,
        _ => false,
    }
}

} // verus!

verus! {

/// Lexicographic order of character sequences by code point (the order of
/// `str`'s own comparison, which compares UTF-8 bytes).
pub open spec fn codepoint_less(a: Seq<char>, b: Seq<char>) -> bool
    decreases a.len(),
{
    if a.len() == 0 {
        b.len() > 0
    } else if b.len() == 0 {
        false
    } else if a[0] != b[0] {
        (a[0] as u32) < (b[0] as u32)
    } else {
        codepoint_less(a.drop_first(), b.drop_first())
    }
}

/// No character lies in `U+E000..=U+FFFF`, the one range where UTF-16
/// order and code-point order part.
pub open spec fn outside_upper_bmp(s: Seq<char>) -> bool {
    forall|i: int| 0 <= i < s.len() ==> !(0xE000 <= (#[trigger] s[i] as u32) && (s[i] as u32) <= 0xFFFF)
}

proof fn lemma_units_less_common_prefix(p: Seq<u16>, x: Seq<u16>, y: Seq<u16>)
    ensures
        units_less(p + x, p + y) == units_less(x, y),
    decreases p.len(),
{
    if p.len() == 0 {
        assert(p + x =~= x);
        assert(p + y =~= y);
    } else {
        assert((p + x).drop_first() =~= p.drop_first() + x);
        assert((p + y).drop_first() =~= p.drop_first() + y);
        assert((p + x)[0] == p[0]);
        assert((p + y)[0] == p[0]);
        lemma_units_less_common_prefix(p.drop_first(), x, y);
    }
}

proof fn lemma_units_less_two(h: u16, l1: u16, l2: u16, x: Seq<u16>, y: Seq<u16>)
    requires
        l1 != l2,
    ensures
        units_less(seq![h, l1] + x, seq![h, l2] + y) == (l1 < l2),
{
    let a = seq![h, l1] + x;
    let b = seq![h, l2] + y;
    assert(a[0] == h && b[0] == h);
    assert(a.drop_first()[0] == l1 && b.drop_first()[0] == l2);
    assert(a.len() >= 2 && b.len() >= 2);
    assert(units_less(a, b) == units_less(a.drop_first(), b.drop_first()));
    assert(units_less(a.drop_first(), b.drop_first()) == (l1 < l2));
}

/// Two different characters outside `U+E000..=U+FFFF`, each followed by
/// anything, compare by UTF-16 units as they compare by code point.
proof fn lemma_units_less_first_char(c1: char, c2: char, x: Seq<u16>, y: Seq<u16>)
    requires
        c1 != c2,
        !(0xE000 <= (c1 as u32) && (c1 as u32) <= 0xFFFF),
        !(0xE000 <= (c2 as u32) && (c2 as u32) <= 0xFFFF),
    ensures
        units_less(
            crate::unicode::utf16_char(c1) + x,
            crate::unicode::utf16_char(c2) + y,
        ) == ((c1 as u32) < (c2 as u32)),
{
    broadcast use vstd::utf8::char_is_scalar;
    vstd::utf8::char_is_scalar(c1);
    vstd::utf8::char_is_scalar(c2);
    let v1 = c1 as u32;
    let v2 = c2 as u32;
    assert(v1 != v2) by {
        vstd::utf8::char_u32_cast(c1, v1);
        vstd::utf8::char_u32_cast(c2, v2);
    }
    let a = crate::unicode::utf16_char(c1) + x;
    let b = crate::unicode::utf16_char(c2) + y;
    if v1 < 0x10000 && v2 < 0x10000 {
        assert(v1 < 0xD800 && v2 < 0xD800);
        assert(a[0] == v1 as u16 && b[0] == v2 as u16);
    } else if v1 < 0x10000 {
        assert(v1 < 0xD800);
        assert(a[0] == v1 as u16);
        assert(b[0] == (0xD800 + (v2 - 0x10000) / 0x400) as u16);
    } else if v2 < 0x10000 {
        assert(v2 < 0xD800);
        assert(b[0] == v2 as u16);
        assert(a[0] == (0xD800 + (v1 - 0x10000) / 0x400) as u16);
    } else {
        let h1 = (0xD800 + (v1 - 0x10000) / 0x400) as u16;
        let h2 = (0xD800 + (v2 - 0x10000) / 0x400) as u16;
        let l1 = (0xDC00 + (v1 - 0x10000) % 0x400) as u16;
        let l2 = (0xDC00 + (v2 - 0x10000) % 0x400) as u16;
        assert(a[0] == h1 && b[0] == h2);
        if h1 == h2 {
            assert((v1 - 0x10000) / 0x400 == (v2 - 0x10000) / 0x400);
            assert(l1 != l2);
            assert((l1 < l2) == (v1 < v2));
            assert(crate::unicode::utf16_char(c1) =~= seq![h1, l1]);
            assert(crate::unicode::utf16_char(c2) =~= seq![h2, l2]);
            lemma_units_less_two(h1, l1, l2, x, y);
        } else {
            assert((h1 < h2) == (v1 < v2));
        }
    }
}

/// Outside `U+E000..=U+FFFF`, comparing by UTF-16 code units agrees with
/// comparing by code point, that is with `str`'s own order.
pub proof fn utf16_order_agrees_with_code_points(a: Seq<char>, b: Seq<char>)
    requires
        outside_upper_bmp(a),
        outside_upper_bmp(b),
    ensures
        utf16_less(a, b) == codepoint_less(a, b),
    decreases a.len(),
{
    let ea = crate::unicode::utf16_encode(a);
    let eb = crate::unicode::utf16_encode(b);
    if a.len() == 0 {
        assert(ea =~= Seq::<u16>::empty());
        if b.len() > 0 {
            assert(eb.len() >= crate::unicode::utf16_char(b[0]).len());
        } else {
            assert(eb =~= Seq::<u16>::empty());
        }
    } else if b.len() == 0 {
        assert(eb =~= Seq::<u16>::empty());
        assert(ea.len() > 0);
    } else {
        assert(!(0xE000 <= (a[0] as u32) && (a[0] as u32) <= 0xFFFF));
        assert(!(0xE000 <= (b[0] as u32) && (b[0] as u32) <= 0xFFFF));
        if a[0] == b[0] {
            let a1 = a.drop_first();
            let b1 = b.drop_first();
            assert(outside_upper_bmp(a1)) by {
                assert forall|i: int| 0 <= i < a1.len() implies !(0xE000 <= (#[trigger] a1[i] as u32) && (a1[i] as u32) <= 0xFFFF) by {
                    assert(a1[i] == a[i + 1]);
                }
            }
            assert(outside_upper_bmp(b1)) by {
                assert forall|i: int| 0 <= i < b1.len() implies !(0xE000 <= (#[trigger] b1[i] as u32) && (b1[i] as u32) <= 0xFFFF) by {
                    assert(b1[i] == b[i + 1]);
                }
            }
            lemma_units_less_common_prefix(
                crate::unicode::utf16_char(a[0]),
                crate::unicode::utf16_encode(a1),
                crate::unicode::utf16_encode(b1),
            );
            utf16_order_agrees_with_code_points(a1, b1);
        } else {
            lemma_units_less_first_char(
                a[0],
                b[0],
                crate::unicode::utf16_encode(a.drop_first()),
                crate::unicode::utf16_encode(b.drop_first()),
            );
        }
    }
}

} // verus!
