//! Texts: what occurs in them, the fields, lines and numbers that they hold.
use crate::text;
use vstd::prelude::*;

verus! {

/// A text starts with another when something follows that makes it whole.
pub proof fn law_prefix(s: Seq<char>, p: Seq<char>)
    ensures
        text::starts_with(p + s, p),
        text::starts_with(s, p) ==> p.len() <= s.len() && s == p + s.skip(p.len() as int),
{
    assert((p + s).subrange(0, p.len() as int) =~= p);
    if text::starts_with(s, p) {
        assert(s.subrange(0, p.len() as int) + s.skip(p.len() as int) =~= s);
    }
}

/// A text ends with another when something in front of that makes it whole.
pub proof fn law_suffix(s: Seq<char>, p: Seq<char>)
    ensures
        text::ends_with(s + p, p),
        text::ends_with(s, p) ==> p.len() <= s.len() && s == s.take(s.len() - p.len()) + p,
{
    let t = s + p;
    assert(t.subrange(t.len() - p.len(), t.len() as int) =~= p);
    if text::ends_with(s, p) {
        assert(s.take(s.len() - p.len()) + s.subrange(s.len() - p.len(), s.len() as int) =~= s);
    }
}

/// A text contains another wherever that stands in it.
pub proof fn law_inside(a: Seq<char>, p: Seq<char>, b: Seq<char>)
    ensures
        text::contains(a + p + b, p),
{
    let s = a + p + b;
    assert(s.subrange(a.len() as int, a.len() as int + p.len()) =~= p);
    assert(text::occurs_at(s, p, a.len() as int));
}

/// A text that contains another consists of it and what stands around it.
pub proof fn law_contained(s: Seq<char>, p: Seq<char>) -> (r: (Seq<char>, Seq<char>))
    requires
        text::contains(s, p),
    ensures
        s == r.0 + p + r.1,
{
    let i = choose|i: int| text::occurs_at(s, p, i);
    let a = s.take(i);
    let b = s.skip(i + p.len());
    assert(s =~= a + s.subrange(i, i + p.len()) + b);
    (a, b)
}

/// A suffix is taken off once, and a text without it stays whole.
pub proof fn law_suffix_is_taken_off(s: Seq<char>, p: Seq<char>)
    ensures
        text::without_suffix(s + p, p) == s,
        text::without_suffix(s, p) == s || text::without_suffix(s, p) + p == s,
        (forall|t: Seq<char>| #[trigger] (t + p) != s) ==> text::without_suffix(s, p) == s,
{
    law_suffix(s, p);
    assert((s + p).take(s.len() as int) =~= s);
    if text::ends_with(s, p) {
        assert(s.take(s.len() - p.len()) + p == s);
    }
}

/// The characters that separate fields are those that Unicode calls white space.
pub proof fn law_white_space(c: char)
    ensures
        text::is_white(c) <==> seq![
            '\u{9}',
            '\u{a}',
            '\u{b}',
            '\u{c}',
            '\u{d}',
            '\u{20}',
            '\u{85}',
            '\u{a0}',
            '\u{1680}',
            '\u{2000}',
            '\u{2001}',
            '\u{2002}',
            '\u{2003}',
            '\u{2004}',
            '\u{2005}',
            '\u{2006}',
            '\u{2007}',
            '\u{2008}',
            '\u{2009}',
            '\u{200a}',
            '\u{2028}',
            '\u{2029}',
            '\u{202f}',
            '\u{205f}',
            '\u{3000}',
        ].contains(c),
{
    let all = seq![
        '\u{9}',
        '\u{a}',
        '\u{b}',
        '\u{c}',
        '\u{d}',
        '\u{20}',
        '\u{85}',
        '\u{a0}',
        '\u{1680}',
        '\u{2000}',
        '\u{2001}',
        '\u{2002}',
        '\u{2003}',
        '\u{2004}',
        '\u{2005}',
        '\u{2006}',
        '\u{2007}',
        '\u{2008}',
        '\u{2009}',
        '\u{200a}',
        '\u{2028}',
        '\u{2029}',
        '\u{202f}',
        '\u{205f}',
        '\u{3000}',
    ];
    if '\u{9}' <= c <= '\u{d}' {
        assert(all[c as int - 9] == c);
    }
    if '\u{2000}' <= c <= '\u{200a}' {
        assert(all[c as int - 0x2000 + 9] == c);
    }
    assert(all[5] == ' ' && all[6] == '\u{85}' && all[7] == '\u{a0}' && all[8] == '\u{1680}');
    assert(all[20] == '\u{2028}' && all[21] == '\u{2029}' && all[22] == '\u{202f}');
    assert(all[23] == '\u{205f}' && all[24] == '\u{3000}');
}

/// Whether a text is a word: it is not empty and holds no white space.
pub open spec fn is_word(w: Seq<char>) -> bool {
    w.len() > 0 && forall|k: int| 0 <= k < w.len() ==> !text::is_white(#[trigger] w[k])
}

/// A word is one field, and an empty text has none.
pub proof fn law_word_is_a_field(w: Seq<char>)
    ensures
        is_word(w) ==> text::fields(w) == seq![w],
        w.len() == 0 ==> text::fields(w).len() == 0,
{
    if is_word(w) {
        let n = w.len() as int;
        assert(!text::is_white(w[0]));
        text::lemma_word_ends_at(w, 0, n);
        assert(w.subrange(0, n) =~= w);
        assert(text::fields_from(w, n) =~= Seq::<Seq<char>>::empty());
        assert(text::fields_from(w, 0) =~= seq![w]);
    }
}

proof fn lemma_white_end_shift(s: Seq<char>, k: int, i: int)
    requires
        0 <= k <= s.len(),
        0 <= i,
    ensures
        text::white_end(s, k + i) == k + text::white_end(s.skip(k), i),
    decreases s.len() - i,
{
    if k + i < s.len() && text::is_white(s[k + i]) {
        lemma_white_end_shift(s, k, i + 1);
    }
}

proof fn lemma_word_end_shift(s: Seq<char>, k: int, i: int)
    requires
        0 <= k <= s.len(),
        0 <= i,
    ensures
        text::word_end(s, k + i) == k + text::word_end(s.skip(k), i),
    decreases s.len() - i,
{
    if k + i < s.len() && !text::is_white(s[k + i]) {
        lemma_word_end_shift(s, k, i + 1);
    }
}

proof fn lemma_fields_shift(s: Seq<char>, k: int, i: int)
    requires
        0 <= k <= s.len(),
        0 <= i,
    ensures
        text::fields_from(s, k + i) == text::fields_from(s.skip(k), i),
    decreases s.len() - i,
{
    let t = s.skip(k);
    let a = text::white_end(t, i);
    lemma_white_end_shift(s, k, i);
    text::lemma_white_end(t, i);
    if a < t.len() {
        text::lemma_word_end(t, a);
        lemma_word_end_shift(s, k, a);
        let b = text::word_end(t, a);
        lemma_fields_shift(s, k, b);
        assert(s.subrange(k + a, k + b) =~= t.subrange(a, b));
    }
}

proof fn lemma_white_end_front(a: Seq<char>, rest: Seq<char>, i: int)
    requires
        0 <= i <= a.len(),
    ensures
        text::white_end(a, i) < a.len() ==> text::white_end(a + rest, i) == text::white_end(a, i),
        text::white_end(a, i) >= a.len() ==> text::white_end(a + rest, i) == text::white_end(
            a + rest,
            a.len() as int,
        ),
    decreases a.len() - i,
{
    if i < a.len() {
        assert((a + rest)[i] == a[i]);
        if text::is_white(a[i]) {
            lemma_white_end_front(a, rest, i + 1);
        }
    }
}

proof fn lemma_word_end_front(a: Seq<char>, rest: Seq<char>, i: int)
    requires
        0 <= i <= a.len(),
        rest.len() > 0,
        text::is_white(rest[0]),
    ensures
        text::word_end(a + rest, i) == text::word_end(a, i),
    decreases a.len() - i,
{
    if i < a.len() {
        assert((a + rest)[i] == a[i]);
        if !text::is_white(a[i]) {
            lemma_word_end_front(a, rest, i + 1);
        }
    } else {
        assert((a + rest)[i] == rest[0]);
    }
}

proof fn lemma_fields_front(a: Seq<char>, c: char, b: Seq<char>, i: int)
    requires
        text::is_white(c),
        0 <= i <= a.len(),
    ensures
        text::fields_from(a + seq![c] + b, i) == text::fields_from(a, i) + text::fields(b),
    decreases a.len() - i,
{
    let rest = seq![c] + b;
    let s = a + seq![c] + b;
    assert(s =~= a + rest);
    let n = a.len() as int;
    let x = text::white_end(a, i);
    lemma_white_end_front(a, rest, i);
    text::lemma_white_end(a, i);
    if x < n {
        text::lemma_word_end(a, x);
        lemma_word_end_front(a, rest, x);
        let y = text::word_end(a, x);
        lemma_fields_front(a, c, b, y);
        assert(s.subrange(x, y) =~= a.subrange(x, y));
        assert(text::fields_from(s, i) == seq![a.subrange(x, y)] + text::fields_from(s, y));
        assert(text::fields_from(s, i) =~= text::fields_from(a, i) + text::fields(b));
    } else {
        assert(s[n] == c);
        assert(text::white_end(s, n) == text::white_end(s, n + 1));
        assert(text::fields_from(s, i) == text::fields_from(s, n + 1));
        lemma_fields_shift(s, n + 1, 0);
        assert(s.skip(n + 1) =~= b);
        assert(text::fields_from(a, i) + text::fields(b) =~= text::fields(b));
    }
}

/// White space parts fields, wherever it stands: the fields of a text are those in
/// front of it and those behind it. With [`law_word_is_a_field`] this fixes the
/// fields of every text.
pub proof fn law_white_space_parts_fields(a: Seq<char>, c: char, b: Seq<char>)
    requires
        text::is_white(c),
    ensures
        text::fields(a + seq![c] + b) == text::fields(a) + text::fields(b),
{
    lemma_fields_front(a, c, b, 0);
}

/// A line feed parts lines: the lines of a text are the one in front of its first
/// line feed, without a carriage return at its end, and those behind it. A text
/// without a line feed is one line, unless it is empty.
pub proof fn law_line_feed_parts_lines(a: Seq<char>, b: Seq<char>)
    requires
        !a.contains('\n'),
    ensures
        text::lines(a + seq!['\n'] + b) == seq![
            if a.len() > 0 && a.last() == '\r' {
                a.drop_last()
            } else {
                a
            },
        ] + text::lines(b),
        a.len() > 0 ==> text::lines(a) == seq![a],
        a.len() == 0 ==> text::lines(a).len() == 0,
{
    let s = a + seq!['\n'] + b;
    let n = a.len() as int;
    assert forall|k: int| 0 <= k < n implies #[trigger] s[k] != '\n' by {
        assert(s[k] == a[k]);
        assert(a.contains(a[k]));
    }
    assert(s[n] == '\n');
    text::lemma_line_ends_at(s, 0, n);
    assert(s.subrange(0, n) =~= a);
    if n > 0 {
        assert(s[n - 1] == a.last());
        assert(s.subrange(0, n - 1) =~= a.drop_last());
    }
    text::lemma_lines_shift(s, n + 1, n + 1);
    assert(s.skip(n + 1) =~= b);
    if n > 0 {
        lemma_no_line_feed(a, 0);
        assert(a.subrange(0, n) =~= a);
        assert(text::lines_from(a, n + 1) =~= Seq::<Seq<char>>::empty());
        assert(text::lines(a) =~= seq![a]);
    }
}

proof fn lemma_no_line_feed(a: Seq<char>, i: int)
    requires
        !a.contains('\n'),
        0 <= i <= a.len(),
    ensures
        text::line_end(a, i) == a.len(),
    decreases a.len() - i,
{
    if i < a.len() {
        assert(a.contains(a[i]));
        lemma_no_line_feed(a, i + 1);
    }
}

/// The digits, in the order of their values.
pub open spec fn digits() -> Seq<char> {
    seq!['0', '1', '2', '3', '4', '5', '6', '7', '8', '9', 'a', 'b', 'c', 'd', 'e', 'f']
}

/// The digits in capitals, in the order of their values.
pub open spec fn capital_digits() -> Seq<char> {
    seq!['0', '1', '2', '3', '4', '5', '6', '7', '8', '9', 'A', 'B', 'C', 'D', 'E', 'F']
}

/// A digit stands for its place among the digits, in small letters or capitals, and
/// no other character is a digit.
pub proof fn law_digits(c: char, d: int)
    ensures
        0 <= d < 16 ==> text::digit(digits()[d]) == d && text::digit(capital_digits()[d]) == d
            && text::digit_char(d) == digits()[d],
        !digits().contains(c) && !capital_digits().contains(c) ==> text::digit(c) >= 16,
{
    let v = text::digit(c);
    if v < 16 {
        if '0' <= c <= '9' || 'a' <= c <= 'f' {
            assert(digits()[v] == c);
        } else {
            assert(capital_digits()[v] == c);
        }
    }
}

/// A digit counts as often as its place says: the first of a number is worth a power
/// of the radix for each digit behind it.
pub proof fn law_places_count(c: char, rest: Seq<char>, radix: int)
    ensures
        text::number(Seq::<char>::empty(), radix) == 0,
        text::number(seq![c] + rest, radix) == text::digit(c) * vstd::arithmetic::power::pow(
            radix,
            rest.len(),
        ) + text::number(rest, radix),
    decreases rest.len(),
{
    let s = seq![c] + rest;
    if rest.len() == 0 {
        vstd::arithmetic::power::lemma_pow0(radix);
        assert(s.drop_last() =~= Seq::<char>::empty());
        assert(s.last() == c);
        assert(text::number(s.drop_last(), radix) * radix == 0) by (nonlinear_arith)
            requires
                text::number(s.drop_last(), radix) == 0,
        ;
        assert(text::digit(c) * 1 == text::digit(c));
    } else {
        let t = rest.drop_last();
        law_places_count(c, t, radix);
        assert(s.drop_last() =~= seq![c] + t);
        assert(s.last() == rest.last());
        vstd::arithmetic::power::lemma_pow_adds(radix, t.len(), 1);
        vstd::arithmetic::power::lemma_pow1(radix);
        let d = text::digit(c);
        let p = vstd::arithmetic::power::pow(radix, t.len());
        let m = text::number(t, radix);
        assert((d * p + m) * radix == d * (p * radix) + m * radix) by (nonlinear_arith);
    }
}

/// A text of digits is the number that they make, with or without a plus sign, as
/// long as that is not too large.
pub proof fn law_digits_parse(d: Seq<char>, radix: int, max: int)
    requires
        d.len() > 0,
        forall|i: int| 0 <= i < d.len() ==> text::digit(#[trigger] d[i]) < radix <= 16,
        max <= u64::MAX,
    ensures
        text::number(d, radix) <= max ==> text::parsed(d, radix, max) == Some(
            text::number(d, radix) as u64,
        ) && text::parsed(seq!['+'] + d, radix, max) == Some(text::number(d, radix) as u64),
        text::number(d, radix) > max ==> text::parsed(d, radix, max) is None && text::parsed(
            seq!['+'] + d,
            radix,
            max,
        ) is None,
{
    assert(text::digit('+') == 16);
    assert(d[0] != '+') by {
        assert(text::digit(d[0]) < 16);
    }
    assert((seq!['+'] + d).drop_first() =~= d);
}

/// A text that is no plus sign and digits is no number, nor is one without digits.
pub proof fn law_other_texts_do_not_parse(s: Seq<char>, radix: int, max: int)
    requires
        ({
            let d = if s.len() > 0 && s[0] == '+' {
                s.drop_first()
            } else {
                s
            };
            d.len() == 0 || exists|i: int| 0 <= i < d.len() && text::digit(#[trigger] d[i]) >= radix
        }),
    ensures
        text::parsed(s, radix, max) is None,
{
}

/// A number is spelled in the small digits of its radix, without a zero in front,
/// and the digits make that number.
pub proof fn law_numbers_are_spelled_plainly(n: int, radix: int)
    requires
        0 <= n,
        2 <= radix <= 16,
    ensures
        ({
            let s = text::spelled(n, radix);
            &&& s.len() > 0
            &&& text::number(s, radix) == n
            &&& n > 0 ==> s[0] != '0'
            &&& n == 0 ==> s == seq!['0']
            &&& forall|i: int|
                0 <= i < s.len() ==> digits().take(radix).contains(#[trigger] s[i])
        }),
    decreases n,
{
    text::law_number_spelled(n, radix);
    let s = text::spelled(n, radix);
    let few = digits().take(radix);
    if n < radix {
        law_digits('0', n);
        assert(few[n] == s[0]);
        if n > 0 {
            law_digits('0', 0);
        }
    } else {
        let q = n / radix;
        let r = n % radix;
        assert(0 < q < n && 0 <= r < radix) by (nonlinear_arith)
            requires
                n >= radix,
                radix >= 2,
                q == n / radix,
                r == n % radix,
        ;
        law_numbers_are_spelled_plainly(q, radix);
        let p = text::spelled(q, radix);
        assert(s == p.push(text::digit_char(r)));
        law_digits('0', r);
        assert forall|i: int| 0 <= i < s.len() implies few.contains(#[trigger] s[i]) by {
            if i < p.len() {
                assert(s[i] == p[i]);
            } else {
                assert(few[r] == s[i]);
            }
        }
    }
}

} // verus!
