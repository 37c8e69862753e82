//! Small text-building helpers: byte buffers, decimal digits, strings.

use vstd::prelude::*;

verus! {

/// Appends the bytes of `bytes` to `out`.
pub fn push_bytes(out: &mut Vec<u8>, bytes: &[u8])
    ensures
        final(out)@ == old(out)@ + bytes@,
{
    let mut i: usize = 0;
    while i < bytes.len()
        invariant
            i <= bytes.len(),
            out@ == old(out)@ + bytes@.take(i as int),
        decreases bytes.len() - i,
    {
        assert(bytes@.take(i as int + 1) =~= bytes@.take(i as int).push(bytes@[i as int]));
        out.push(bytes[i]);
        i = i + 1;
    }
    assert(bytes@.take(bytes.len() as int) =~= bytes@);
}

/// The ASCII decimal digits of a natural number, most significant first,
/// without leading zeros.
pub open spec fn decimal(n: nat) -> Seq<u8>
    decreases n,
{
    if n < 10 {
        seq![(('0' as u8) + n) as u8]
    } else {
        decimal(n / 10).push((('0' as u8) + n % 10) as u8)
    }
}

/// The ASCII decimal form of an integer: a `-` before the digits of a
/// negative number.
pub open spec fn signed_decimal(i: int) -> Seq<u8> {
    if i < 0 {
        seq![('-' as u8)] + decimal((-i) as nat)
    } else {
        decimal(i as nat)
    }
}

/// Appends the decimal digits of `n` to `out`.
pub fn push_decimal(out: &mut Vec<u8>, n: u64)
    ensures
        final(out)@ == old(out)@ + decimal(n as nat),
    decreases n,
{
    if n >= 10 {
        push_decimal(out, n / 10);
    }
    out.push(('0' as u8) + (n % 10) as u8);
    proof {
        if n >= 10 {
            assert(decimal(n as nat) == decimal((n / 10) as nat).push((('0' as u8) + n % 10) as u8));
        }
    }
}

/// Appends the decimal form of `i` to `out`.
pub fn push_signed_decimal(out: &mut Vec<u8>, i: i64)
    ensures
        final(out)@ == old(out)@ + signed_decimal(i as int),
{
    if i < 0 {
        out.push(('-' as u8));
        let magnitude: u64 = ((-(i + 1)) as u64) + 1;
        push_decimal(out, magnitude);
        assert(final(out)@ =~= old(out)@ + (seq![('-' as u8)] + decimal((-i) as nat)));
    } else {
        push_decimal(out, i as u64);
    }
}

} // verus!

verus! {

/// Appends one character to a string (`String::push`).
#[verifier::external_body]
pub(crate) fn push_char(s: &mut String, c: char)
    ensures
        final(s)@ == old(s)@.push(c),
{
    s.push(c);
}

} // verus!

verus! {

/// ASCII bytes read as characters.
pub open spec fn ascii_chars(b: Seq<u8>) -> Seq<char> {
    b.map_values(|x: u8| x as char)
}

/// The decimal digits of `n` as text.
pub open spec fn decimal_text(n: nat) -> Seq<char> {
    ascii_chars(decimal(n))
}

/// Appends the decimal digits of `n` to a string.
pub fn push_decimal_text(s: &mut String, n: u64)
    ensures
        final(s)@ == old(s)@ + decimal_text(n as nat),
    decreases n,
{
    if n >= 10 {
        push_decimal_text(s, n / 10);
    }
    let d: u8 = ('0' as u8) + (n % 10) as u8;
    push_char(s, d as char);
    proof {
        if n >= 10 {
            assert(decimal(n as nat) == decimal((n / 10) as nat).push(d));
            assert(ascii_chars(decimal((n / 10) as nat).push(d)) =~= ascii_chars(decimal((n / 10) as nat)).push(d as char));
        } else {
            assert(ascii_chars(decimal(n as nat)) =~= seq![d as char]);
        }
    }
}

/// A string holding the given characters.
pub fn string_of(cs: &[char]) -> (s: String)
    ensures
        s@ == cs@,
{
    let mut s = String::new();
    let mut i: usize = 0;
    while i < cs.len()
        invariant
            i <= cs.len(),
            s@ == cs@.take(i as int),
        decreases cs.len() - i,
    {
        push_char(&mut s, cs[i]);
        assert(cs@.take(i as int + 1) =~= cs@.take(i as int).push(cs@[i as int]));
        i = i + 1;
    }
    assert(cs@.take(cs.len() as int) =~= cs@);
    s
}

/// The pieces of `s` between occurrences of `sep` (`str::split` with a
/// character pattern): one more piece than there are separators.
pub open spec fn split_on(s: Seq<char>, sep: char) -> Seq<Seq<char>>
    decreases s.len(),
{
    if s.len() == 0 {
        seq![seq![]]
    } else {
        let rest = split_on(s.drop_first(), sep);
        if s[0] == sep {
            seq![seq![]] + rest
        } else {
            rest.update(0, seq![s[0]] + rest[0])
        }
    }
}

proof fn lemma_split_on_nonempty(s: Seq<char>, sep: char)
    ensures
        split_on(s, sep).len() >= 1,
    decreases s.len(),
{
    if s.len() > 0 {
        lemma_split_on_nonempty(s.drop_first(), sep);
    }
}

/// The pieces of `s` between occurrences of `sep`.
pub fn split_chars(s: &str, sep: char) -> (r: Vec<String>)
    ensures
        r@.len() == split_on(s@, sep).len(),
        forall|i: int| 0 <= i < r@.len() ==> #[trigger] r@[i]@ == split_on(s@, sep)[i],
{
    let cs = crate::unicode::chars_of(s);
    let mut done: Vec<String> = Vec::new();
    let mut cur: Vec<char> = Vec::new();
    let mut i: usize = 0;
    proof {
        assert(cs@.skip(0) =~= cs@);
        lemma_split_on_nonempty(s@, sep);
        let r = split_on(s@, sep);
        assert(Seq::new(done@.len(), |k: int| done@[k]@) =~= Seq::<Seq<char>>::empty());
        assert(cur@ + r[0] =~= r[0]);
        assert(Seq::<Seq<char>>::empty().push(r[0]) + r.drop_first() =~= r);
    }
    while i < cs.len()
        invariant
            i <= cs.len(),
            cs@ == s@,
            ({
                let rest = split_on(cs@.skip(i as int), sep);
                split_on(s@, sep) == Seq::new(done@.len(), |k: int| done@[k]@).push(cur@ + rest[0])
                    + rest.drop_first()
            }),
        decreases cs.len() - i,
    {
        let c = cs[i];
        let ghost rest = cs@.skip(i as int);
        let ghost tail = cs@.skip(i as int + 1);
        proof {
            assert(rest.drop_first() =~= tail);
            assert(rest[0] == c);
            lemma_split_on_nonempty(tail, sep);
        }
        if c == sep {
            let piece = string_of(cur.as_slice());
            let ghost old_done = done@;
            done.push(piece);
            cur = Vec::new();
            proof {
                let t = split_on(tail, sep);
                assert(split_on(rest, sep) == seq![Seq::<char>::empty()] + t);
                assert(Seq::new(done@.len(), |k: int| done@[k]@) =~= Seq::new(old_done.len(), |k: int| old_done[k]@).push(piece@));
                assert(cur@ + t[0] =~= t[0]);
                assert((seq![Seq::<char>::empty()] + t).drop_first() =~= t);
                assert((seq![Seq::<char>::empty()] + t)[0] == Seq::<char>::empty());
                assert(piece@ + Seq::<char>::empty() =~= piece@);
                assert(Seq::new(old_done.len(), |k: int| old_done[k]@).push(piece@).push(t[0]) + t.drop_first()
                    =~= Seq::new(old_done.len(), |k: int| old_done[k]@).push(piece@) + t);
            }
        } else {
            let ghost old_cur = cur@;
            cur.push(c);
            proof {
                let t = split_on(tail, sep);
                assert(split_on(rest, sep) == t.update(0, seq![c] + t[0]));
                assert(t.update(0, seq![c] + t[0]).drop_first() =~= t.drop_first());
                assert(cur@ + t[0] =~= old_cur + (seq![c] + t[0]));
            }
        }
        i = i + 1;
    }
    let last = string_of(cur.as_slice());
    let ghost old_done = done@;
    done.push(last);
    proof {
        let e = cs@.skip(cs.len() as int);
        assert(e =~= Seq::<char>::empty());
        assert(split_on(e, sep) == seq![Seq::<char>::empty()]);
        assert(cur@ + Seq::<char>::empty() =~= cur@);
        assert(Seq::new(done@.len(), |k: int| done@[k]@) =~= split_on(s@, sep));
    }
    done
}

/// Whether the text begins with `0x`, and what follows it.
pub open spec fn strip_0x(s: Seq<char>) -> Option<Seq<char>> {
    if s.len() >= 2 && s[0] == '0' && s[1] == 'x' {
        Some(s.skip(2))
    } else {
        None
    }
}

/// Removes a leading `0x`, if there is one.
pub fn strip_prefix_0x(s: &str) -> (r: Option<String>)
    ensures
        match strip_0x(s@) {
            Some(t) => r matches Some(u) && u@ == t,
            None => r is None,
        },
{
    let cs = crate::unicode::chars_of(s);
    if cs.len() >= 2 && cs[0] == '0' && cs[1] == 'x' {
        let mut rest: Vec<char> = Vec::new();
        let mut i: usize = 2;
        while i < cs.len()
            invariant
                2 <= i <= cs.len(),
                rest@ == cs@.subrange(2, i as int),
            decreases cs.len() - i,
        {
            rest.push(cs[i]);
            assert(cs@.subrange(2, i as int + 1) =~= cs@.subrange(2, i as int).push(cs@[i as int]));
            i = i + 1;
        }
        assert(cs@.subrange(2, cs.len() as int) =~= s@.skip(2));
        Some(string_of(rest.as_slice()))
    } else {
        None
    }
}

} // verus!

verus! {

/// Why text is not a `u64` (the kinds of `std::num::ParseIntError` that an
/// unsigned decimal parse can give).
#[derive(Debug, PartialEq)]
pub enum IntErrorKind {
    Empty,
    InvalidDigit,
    PosOverflow,
}

pub open spec fn is_digit(c: char) -> bool {
    '0' <= c <= '9'
}

pub open spec fn digit_value(c: char) -> nat {
    ((c as u32) - ('0' as u32)) as nat
}

/// Reads decimal digits left to right; the first character that is not a
/// digit, or the first digit that takes the value past `u64::MAX`, decides
/// the failure.
pub open spec fn scan_digits(d: Seq<char>) -> Result<nat, IntErrorKind>
    decreases d.len(),
{
    if d.len() == 0 {
        Ok(0)
    } else {
        match scan_digits(d.drop_last()) {
            Err(e) => Err(e),
            Ok(v) => if !is_digit(d.last()) {
                Err(IntErrorKind::InvalidDigit)
            } else if v * 10 + digit_value(d.last()) > u64::MAX {
                Err(IntErrorKind::PosOverflow)
            } else {
                Ok(v * 10 + digit_value(d.last()))
            },
        }
    }
}

/// `u64::from_str`: an optional `+`, then decimal digits.
pub open spec fn parse_u64_text(s: Seq<char>) -> Result<u64, IntErrorKind> {
    if s.len() == 0 {
        Err(IntErrorKind::Empty)
    } else if (s[0] == '+' || s[0] == '-') && s.len() == 1 {
        Err(IntErrorKind::InvalidDigit)
    } else {
        match scan_digits(if s[0] == '+' { s.skip(1) } else { s }) {
            Ok(v) => Ok(v as u64),
            Err(e) => Err(e),
        }
    }
}

/// The message of a failed integer parse.
pub open spec fn int_error_text(k: IntErrorKind) -> Seq<char> {
    match k {
        IntErrorKind::Empty => "cannot parse integer from empty string"@,
        IntErrorKind::InvalidDigit => "invalid digit found in string"@,
        IntErrorKind::PosOverflow => "number too large to fit in target type"@,
    }
}

/// Parses unsigned decimal text, as `str::parse::<u64>` does.
pub fn parse_u64(s: &str) -> (r: Result<u64, IntErrorKind>)
    ensures
        r == parse_u64_text(s@),
{
    let cs = crate::unicode::chars_of(s);
    if cs.len() == 0 {
        return Err(IntErrorKind::Empty);
    }
    if (cs[0] == '+' || cs[0] == '-') && cs.len() == 1 {
        return Err(IntErrorKind::InvalidDigit);
    }
    let start: usize = if cs[0] == '+' { 1 } else { 0 };
    let ghost d = if s@[0] == '+' { s@.skip(1) } else { s@ };
    assert(d =~= cs@.skip(start as int));
    let mut acc: u64 = 0;
    let mut i: usize = start;
    while i < cs.len()
        invariant
            start <= i <= cs.len(),
            cs@ == s@,
            s@.len() > 0,
            !((s@[0] == '+' || s@[0] == '-') && s@.len() == 1),
            d == (if s@[0] == '+' { s@.skip(1) } else { s@ }),
            start == (if s@[0] == '+' { 1int } else { 0int }),
            d == cs@.skip(start as int),
            scan_digits(cs@.subrange(start as int, i as int)) == Ok::<nat, IntErrorKind>(acc as nat),
        decreases cs.len() - i,
    {
        let c = cs[i];
        let ghost pre = cs@.subrange(start as int, i as int);
        let ghost next = cs@.subrange(start as int, i as int + 1);
        assert(next.drop_last() =~= pre);
        assert(next.last() == c);
        assert(d.take(i - start + 1) =~= next);
        if !('0' <= c && c <= '9') {
            proof {
                lemma_scan_prefix_err(d, (i - start) as int);
            }
            return Err(IntErrorKind::InvalidDigit);
        }
        let dv: u64 = ((c as u32) - ('0' as u32)) as u64;
        let m = acc.checked_mul(10);
        match m {
            None => {
                proof {
                    lemma_scan_prefix_err(d, (i - start) as int);
                }
                return Err(IntErrorKind::PosOverflow);
            },
            Some(m) => {
                let t = m.checked_add(dv);
                match t {
                    None => {
                        proof {
                            lemma_scan_prefix_err(d, (i - start) as int);
                        }
                        return Err(IntErrorKind::PosOverflow);
                    },
                    Some(t) => {
                        acc = t;
                    },
                }
            },
        }
        i = i + 1;
    }
    assert(cs@.subrange(start as int, cs.len() as int) =~= d);
    Ok(acc)
}

proof fn lemma_scan_prefix_err(d: Seq<char>, k: int)
    requires
        0 <= k < d.len(),
        scan_digits(d.take(k + 1)) is Err,
    ensures
        scan_digits(d) == scan_digits(d.take(k + 1)),
    decreases d.len() - k,
{
    if k + 1 < d.len() {
        assert(d.take(k + 2).drop_last() =~= d.take(k + 1));
        lemma_scan_prefix_err(d, k + 1);
    } else {
        assert(d.take(k + 1) =~= d);
    }
}

/// The message of a failed integer parse.
pub fn int_error_message(k: &IntErrorKind) -> (m: String)
    ensures
        m@ == int_error_text(*k),
{
    match k {
        IntErrorKind::Empty => String::from_str("cannot parse integer from empty string"),
        IntErrorKind::InvalidDigit => String::from_str("invalid digit found in string"),
        IntErrorKind::PosOverflow => String::from_str("number too large to fit in target type"),
    }
}

} // verus!

verus! {

/// `prefix` followed by `detail`.
pub fn joined(prefix: &str, detail: &str) -> (m: String)
    ensures
        m@ == prefix@ + detail@,
{
    let mut m = String::from_str(prefix);
    m.append(detail);
    m
}

/// Whether two byte strings are equal.
pub fn bytes_equal(a: &[u8], b: &[u8]) -> (r: bool)
    ensures
        r == (a@ == b@),
{
    if a.len() != b.len() {
        return false;
    }
    let mut i: usize = 0;
    while i < a.len()
        invariant
            i <= a.len(),
            a.len() == b.len(),
            forall|k: int| 0 <= k < i ==> a@[k] == b@[k],
        decreases a.len() - i,
    {
        if a[i] != b[i] {
            return false;
        }
        i = i + 1;
    }
    assert(a@ =~= b@);
    true
}

} // verus!

verus! {

/// Characters below `0x80` are encoded in UTF-8 as one byte each, their
/// own value.
pub proof fn lemma_encode_utf8_ascii(cs: Seq<char>)
    requires
        forall|i: int| 0 <= i < cs.len() ==> (#[trigger] cs[i] as u32) < 0x80,
    ensures
        vstd::utf8::encode_utf8(cs) == cs.map_values(|c: char| (c as u32) as u8),
    decreases cs.len(),
{
    if cs.len() > 0 {
        assert forall|i: int| 0 <= i < cs.drop_first().len() implies (#[trigger] cs.drop_first()[i] as u32) < 0x80 by {
            assert(cs.drop_first()[i] == cs[i + 1]);
        }
        lemma_encode_utf8_ascii(cs.drop_first());
        let v = cs[0] as u32;
        assert(v < 0x80);
        assert((v & 0x7F) as u8 == v as u8) by (bit_vector)
            requires
                v < 0x80,
        ;
        assert(vstd::utf8::encode_scalar(v) =~= seq![v as u8]);
        assert(vstd::utf8::encode_utf8(cs) =~= cs.map_values(|c: char| (c as u32) as u8));
    }
}

/// Splitting `a`, a separator, then `b`, where `a` holds no separator,
/// gives `a` and then the pieces of `b`.
pub proof fn lemma_split_on_prefix(a: Seq<char>, b: Seq<char>, sep: char)
    requires
        !a.contains(sep),
    ensures
        split_on(a + seq![sep] + b, sep) == seq![a] + split_on(b, sep),
    decreases a.len(),
{
    let s = a + seq![sep] + b;
    if a.len() == 0 {
        assert(s.drop_first() =~= b);
        assert(s[0] == sep);
        assert(a =~= Seq::<char>::empty());
    } else {
        assert(!a.drop_first().contains(sep)) by {
            if a.drop_first().contains(sep) {
                let k = choose|k: int| 0 <= k < a.drop_first().len() && a.drop_first()[k] == sep;
                assert(a[k + 1] == sep);
            }
        }
        assert(s.drop_first() =~= a.drop_first() + seq![sep] + b);
        lemma_split_on_prefix(a.drop_first(), b, sep);
        assert(s[0] == a[0]);
        assert(a[0] != sep);
        let rest = split_on(s.drop_first(), sep);
        assert(rest == seq![a.drop_first()] + split_on(b, sep));
        assert(seq![a[0]] + a.drop_first() =~= a);
        assert(rest.update(0, seq![s[0]] + rest[0]) =~= seq![a] + split_on(b, sep));
    }
}

/// Text without the separator is one piece.
pub proof fn lemma_split_on_whole(s: Seq<char>, sep: char)
    requires
        !s.contains(sep),
    ensures
        split_on(s, sep) == seq![s],
    decreases s.len(),
{
    if s.len() > 0 {
        assert(!s.drop_first().contains(sep)) by {
            if s.drop_first().contains(sep) {
                let k = choose|k: int| 0 <= k < s.drop_first().len() && s.drop_first()[k] == sep;
                assert(s[k + 1] == sep);
            }
        }
        lemma_split_on_whole(s.drop_first(), sep);
        assert(s[0] != sep);
        assert(seq![s[0]] + s.drop_first() =~= s);
        assert(seq![s.drop_first()].update(0, seq![s[0]] + s.drop_first()) =~= seq![s]);
    } else {
        assert(s =~= Seq::<char>::empty());
    }
}

/// Every byte of a decimal form is a digit, and there is at least one.
pub proof fn lemma_decimal_digits(n: nat)
    ensures
        decimal(n).len() >= 1,
        forall|i: int| 0 <= i < decimal(n).len() ==> ('0' as u8) <= #[trigger] decimal(n)[i] <= ('9' as u8),
    decreases n,
{
    if n >= 10 {
        lemma_decimal_digits(n / 10);
    }
}

/// Reading the decimal digits of `n` gives `n` back.
pub proof fn lemma_scan_decimal(n: nat)
    requires
        n <= u64::MAX,
    ensures
        scan_digits(decimal_text(n)) == Ok::<nat, IntErrorKind>(n),
    decreases n,
{
    let d = decimal_text(n);
    if n < 10 {
        let c = (('0' as u8) + n) as u8;
        assert(d =~= seq![c as char]);
        assert(d.drop_last() =~= Seq::<char>::empty());
        assert(d.last() == c as char);
        assert((c as char) as u32 == c as u32);
        assert(is_digit(d.last()));
        assert(digit_value(d.last()) == n);
        assert(scan_digits(d.drop_last()) == Ok::<nat, IntErrorKind>(0));
    } else {
        lemma_scan_decimal(n / 10);
        let c = (('0' as u8) + n % 10) as u8;
        assert(d =~= decimal_text(n / 10).push(c as char));
        assert(d.drop_last() =~= decimal_text(n / 10));
        assert(d.last() == c as char);
        assert((c as char) as u32 == c as u32);
        assert(is_digit(d.last()));
        assert(digit_value(d.last()) == n % 10);
        assert(scan_digits(d.drop_last()) == Ok::<nat, IntErrorKind>(n / 10));
        assert((n / 10) * 10 + n % 10 == n);
    }
}

/// Parsing the decimal text of a `u64` gives it back.
pub proof fn lemma_parse_decimal_text(n: u64)
    ensures
        parse_u64_text(decimal_text(n as nat)) == Ok::<u64, IntErrorKind>(n),
{
    lemma_decimal_digits(n as nat);
    lemma_scan_decimal(n as nat);
    let d = decimal_text(n as nat);
    assert(d[0] == decimal(n as nat)[0] as char);
}


/// The number that ASCII decimal digits stand for, most significant first.
pub open spec fn digits_value(d: Seq<u8>) -> nat
    decreases d.len(),
{
    if d.len() == 0 {
        0
    } else {
        digits_value(d.drop_last()) * 10 + (d.last() - ('0' as u8)) as nat
    }
}

/// The digits of `decimal(n)` stand for `n`.
pub proof fn lemma_digits_value_decimal(n: nat)
    ensures
        digits_value(decimal(n)) == n,
    decreases n,
{
    let d = decimal(n);
    if n < 10 {
        assert(d.drop_last() =~= Seq::<u8>::empty());
        assert(d.last() == (('0' as u8) + n) as u8);
        assert(digits_value(d.drop_last()) == 0);
        assert(digits_value(d) == digits_value(d.drop_last()) * 10 + (d.last() - ('0' as u8)) as nat);
    } else {
        lemma_digits_value_decimal(n / 10);
        assert(d.drop_last() =~= decimal(n / 10));
        assert(d.last() == (('0' as u8) + n % 10) as u8);
        assert((d.last() - ('0' as u8)) as nat == n % 10);
        assert((n / 10) * 10 + n % 10 == n);
        assert(digits_value(d) == digits_value(d.drop_last()) * 10 + (d.last() - ('0' as u8)) as nat);
    }
}

/// A larger number never has fewer decimal digits.
pub proof fn lemma_decimal_len_mono(a: nat, b: nat)
    requires
        a <= b,
    ensures
        decimal(a).len() <= decimal(b).len(),
    decreases b,
{
    if b >= 10 {
        if a < 10 {
            lemma_decimal_digits(b / 10);
        } else {
            assert(a / 10 <= b / 10) by (nonlinear_arith)
                requires
                    a <= b,
            ;
            lemma_decimal_len_mono(a / 10, b / 10);
        }
    }
}

} // verus!
