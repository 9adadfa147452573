//! Text as sequences of characters: searching, splitting, numbers.
use vstd::prelude::*;
use vstd::slice::slice_subrange;

verus! {

/// Trusted: `String::push` appends the character to the string.
pub assume_specification[ String::push ](s: &mut String, c: char)
    ensures
        final(s)@ == old(s)@.push(c),
;

/// The characters of a string.
pub fn chars_of(s: &str) -> (r: Vec<char>)
    ensures
        r@ == s@,
{
    let mut r: Vec<char> = Vec::new();
    for c in it: s.chars()
        invariant
            r@ == s@.take(it.index()),
            it.seq() == s@,
    {
        r.push(c);
    }
    r
}

/// The string made of some characters.
pub fn string_of(chars: &[char]) -> (r: String)
    ensures
        r@ == chars@,
{
    let mut r = String::new();
    let mut i: usize = 0;
    assert(r@ =~= chars@.take(0));
    while i < chars.len()
        invariant
            i <= chars.len(),
            r@ == chars@.take(i as int),
        decreases chars.len() - i,
    {
        r.push(chars[i]);
        i += 1;
        assert(r@ =~= chars@.take(i as int));
    }
    assert(chars@.take(i as int) =~= chars@);
    r
}

/// Whether `p` occurs in `s` at `i`.
pub open spec fn occurs_at(s: Seq<char>, p: Seq<char>, i: int) -> bool {
    0 <= i && i + p.len() <= s.len() && s.subrange(i, i + p.len()) == p
}

/// Whether `s` starts with `p`.
pub open spec fn starts_with(s: Seq<char>, p: Seq<char>) -> bool {
    occurs_at(s, p, 0)
}

/// Whether `s` ends with `p`.
pub open spec fn ends_with(s: Seq<char>, p: Seq<char>) -> bool {
    occurs_at(s, p, s.len() - p.len())
}

/// Whether `p` occurs in `s`.
pub open spec fn contains(s: Seq<char>, p: Seq<char>) -> bool {
    exists|i: int| occurs_at(s, p, i)
}

pub fn is_at(s: &[char], p: &[char], i: usize) -> (r: bool)
    requires
        i + p@.len() <= s@.len(),
    ensures
        r == occurs_at(s@, p@, i as int),
{
    let mut k: usize = 0;
    assert(s.len() == s@.len());
    while k < p.len()
        invariant
            k <= p.len(),
            i + p@.len() <= s@.len(),
            s@.len() == s.len(),
            forall|j: int| 0 <= j < k ==> s@[i + j] == p@[j],
        decreases p.len() - k,
    {
        if s[i + k] != p[k] {
            assert(s@.subrange(i as int, i + p@.len())[k as int] != p@[k as int]);
            return false;
        }
        k += 1;
    }
    assert(s@.subrange(i as int, i + p@.len()) =~= p@);
    true
}

pub fn is_prefix(s: &[char], p: &[char]) -> (r: bool)
    ensures
        r == starts_with(s@, p@),
{
    p.len() <= s.len() && is_at(s, p, 0)
}

pub fn is_suffix(s: &[char], p: &[char]) -> (r: bool)
    ensures
        r == ends_with(s@, p@),
{
    p.len() <= s.len() && is_at(s, p, s.len() - p.len())
}

pub fn is_inside(s: &[char], p: &[char]) -> (r: bool)
    ensures
        r == contains(s@, p@),
{
    if p.len() > s.len() {
        return false;
    }
    let last: usize = s.len() - p.len();
    let mut i: usize = 0;
    while i <= last
        invariant
            i <= last + 1,
            last + p@.len() == s@.len(),
            s@.len() == s.len(),
            forall|j: int| 0 <= j < i ==> !#[trigger] occurs_at(s@, p@, j),
        decreases last + 1 - i,
    {
        if is_at(s, p, i) {
            return true;
        }
        if i == last {
            assert forall|j: int| !occurs_at(s@, p@, j) by {
                if 0 <= j < i {
                }
            }
            return false;
        }
        i += 1;
    }
    false
}

/// `s` without the suffix `p`, or `s` itself when it has no such suffix.
pub open spec fn without_suffix(s: Seq<char>, p: Seq<char>) -> Seq<char> {
    if ends_with(s, p) {
        s.take(s.len() - p.len())
    } else {
        s
    }
}

pub fn strip_suffix<'a>(s: &'a [char], p: &[char]) -> (r: &'a [char])
    ensures
        r@ == without_suffix(s@, p@),
{
    if is_suffix(s, p) {
        slice_subrange(s, 0, s.len() - p.len())
    } else {
        s
    }
}

/// The characters with the Unicode property White_Space.
pub open spec fn is_white(c: char) -> bool {
    ||| '\u{9}' <= c <= '\u{d}'
    ||| c == ' '
    ||| c == '\u{85}'
    ||| c == '\u{a0}'
    ||| c == '\u{1680}'
    ||| '\u{2000}' <= c <= '\u{200a}'
    ||| c == '\u{2028}'
    ||| c == '\u{2029}'
    ||| c == '\u{202f}'
    ||| c == '\u{205f}'
    ||| c == '\u{3000}'
}

pub fn white(c: char) -> (r: bool)
    ensures
        r == is_white(c),
{
    ('\u{9}' <= c && c <= '\u{d}') || c == ' ' || c == '\u{85}' || c == '\u{a0}' || c == '\u{1680}'
        || ('\u{2000}' <= c && c <= '\u{200a}') || c == '\u{2028}' || c == '\u{2029}' || c
        == '\u{202f}' || c == '\u{205f}' || c == '\u{3000}'
}

/// The first position from `i` on that does not hold white space.
pub open spec fn white_end(s: Seq<char>, i: int) -> int
    decreases s.len() - i,
{
    if i < s.len() && is_white(s[i]) {
        white_end(s, i + 1)
    } else {
        i
    }
}

/// The first position from `i` on that holds white space, or the length.
pub open spec fn word_end(s: Seq<char>, i: int) -> int
    decreases s.len() - i,
{
    if i < s.len() && !is_white(s[i]) {
        word_end(s, i + 1)
    } else {
        i
    }
}

pub proof fn lemma_white_end(s: Seq<char>, i: int)
    ensures
        i <= white_end(s, i),
        i <= s.len() ==> white_end(s, i) <= s.len(),
        white_end(s, i) < s.len() ==> !is_white(s[white_end(s, i)]),
    decreases s.len() - i,
{
    if i < s.len() && is_white(s[i]) {
        lemma_white_end(s, i + 1);
    }
}

pub proof fn lemma_word_end(s: Seq<char>, i: int)
    ensures
        i <= word_end(s, i),
        i <= s.len() ==> word_end(s, i) <= s.len(),
        i < s.len() && !is_white(s[i]) ==> i < word_end(s, i),
    decreases s.len() - i,
{
    if i < s.len() && !is_white(s[i]) {
        lemma_word_end(s, i + 1);
    }
}

/// The maximal runs of `s` without white space, from position `i` on.
pub open spec fn fields_from(s: Seq<char>, i: int) -> Seq<Seq<char>>
    decreases s.len() - i,
{
    let a = white_end(s, i);
    if a >= s.len() {
        Seq::empty()
    } else {
        proof {
            lemma_white_end(s, i);
            lemma_word_end(s, a);
        }
        let b = word_end(s, a);
        seq![s.subrange(a, b)] + fields_from(s, b)
    }
}

/// The fields of `s` that white space separates.
pub open spec fn fields(s: Seq<char>) -> Seq<Seq<char>> {
    fields_from(s, 0)
}

/// The texts that a vector of character vectors stands for.
pub open spec fn text_views(v: Seq<Vec<char>>) -> Seq<Seq<char>> {
    Seq::new(v.len(), |i: int| v[i]@)
}

/// A copy of `s[a..b]`.
pub fn copy_range(s: &[char], a: usize, b: usize) -> (r: Vec<char>)
    requires
        a <= b <= s@.len(),
    ensures
        r@ == s@.subrange(a as int, b as int),
{
    let mut r: Vec<char> = Vec::new();
    let mut i: usize = a;
    while i < b
        invariant
            a <= i <= b <= s@.len(),
            r@ == s@.subrange(a as int, i as int),
        decreases b - i,
    {
        r.push(s[i]);
        i += 1;
        assert(r@ =~= s@.subrange(a as int, i as int));
    }
    r
}

pub fn split_fields(s: &[char]) -> (r: Vec<Vec<char>>)
    ensures
        text_views(r@) == fields(s@),
{
    let mut r: Vec<Vec<char>> = Vec::new();
    let mut i: usize = 0;
    assert(text_views(r@) + fields_from(s@, 0) =~= fields(s@));
    loop
        invariant
            i <= s@.len(),
            s@.len() == s.len(),
            text_views(r@) + fields_from(s@, i as int) == fields(s@),
        decreases s.len() - i,
    {
        let ghost start = i as int;
        proof {
            lemma_white_end(s@, start);
        }
        while i < s.len() && white(s[i])
            invariant
                start <= i <= s@.len(),
                s@.len() == s.len(),
                white_end(s@, i as int) == white_end(s@, start),
            decreases s.len() - i,
        {
            i += 1;
        }
        if i >= s.len() {
            assert(text_views(r@) + fields_from(s@, start) =~= text_views(r@));
            return r;
        }
        let a: usize = i;
        assert(a == white_end(s@, start));
        proof {
            lemma_word_end(s@, a as int);
        }
        while i < s.len() && !white(s[i])
            invariant
                a <= i <= s@.len(),
                s@.len() == s.len(),
                word_end(s@, i as int) == word_end(s@, a as int),
            decreases s.len() - i,
        {
            i += 1;
        }
        let ghost before = text_views(r@);
        r.push(copy_range(s, a, i));
        proof {
            let word = s@.subrange(a as int, i as int);
            assert(text_views(r@) =~= before.push(word));
            assert(fields_from(s@, start) == seq![word] + fields_from(s@, i as int));
            assert(before.push(word) + fields_from(s@, i as int) =~= before + fields_from(
                s@,
                start,
            ));
        }
    }
}

/// The position of the first line feed from `i` on, or the length.
pub open spec fn line_end(s: Seq<char>, i: int) -> int
    decreases s.len() - i,
{
    if i < s.len() && s[i] != '\n' {
        line_end(s, i + 1)
    } else {
        i
    }
}

pub proof fn lemma_line_end(s: Seq<char>, i: int)
    ensures
        i <= line_end(s, i),
        i <= s.len() ==> line_end(s, i) <= s.len(),
    decreases s.len() - i,
{
    if i < s.len() && s[i] != '\n' {
        lemma_line_end(s, i + 1);
    }
}

/// The line that starts at `i`, without its line feed and without a carriage
/// return right before that.
pub open spec fn line_at(s: Seq<char>, i: int) -> Seq<char> {
    let j = line_end(s, i);
    if j < s.len() && j > i && s[j - 1] == '\r' {
        s.subrange(i, j - 1)
    } else {
        s.subrange(i, j)
    }
}

/// The lines of `s` from position `i` on.
pub open spec fn lines_from(s: Seq<char>, i: int) -> Seq<Seq<char>>
    decreases s.len() + 1 - i,
{
    if i >= s.len() {
        Seq::empty()
    } else {
        proof {
            lemma_line_end(s, i);
        }
        seq![line_at(s, i)] + lines_from(s, line_end(s, i) + 1)
    }
}

/// The lines of `s`.
pub open spec fn lines(s: Seq<char>) -> Seq<Seq<char>> {
    lines_from(s, 0)
}

pub fn split_lines(s: &[char]) -> (r: Vec<Vec<char>>)
    ensures
        text_views(r@) == lines(s@),
{
    let mut r: Vec<Vec<char>> = Vec::new();
    let mut i: usize = 0;
    assert(text_views(r@) + lines_from(s@, 0) =~= lines(s@));
    while i < s.len()
        invariant
            i <= s@.len(),
            s@.len() == s.len(),
            text_views(r@) + lines_from(s@, i as int) == lines(s@),
        decreases s.len() - i,
    {
        let mut j: usize = i;
        proof {
            lemma_line_end(s@, i as int);
        }
        while j < s.len() && s[j] != '\n'
            invariant
                i <= j <= s@.len(),
                s@.len() == s.len(),
                line_end(s@, j as int) == line_end(s@, i as int),
            decreases s.len() - j,
        {
            j += 1;
        }
        let mut end: usize = j;
        if j < s.len() && j > i && s[j - 1] == '\r' {
            end = j - 1;
        }
        let ghost before = text_views(r@);
        r.push(copy_range(s, i, end));
        let next: usize = if j < s.len() {
            j + 1
        } else {
            j
        };
        proof {
            let line = line_at(s@, i as int);
            assert(text_views(r@) =~= before.push(line));
            assert(lines_from(s@, j + 1) == lines_from(s@, next as int));
            assert(before.push(line) + lines_from(s@, next as int) =~= before + lines_from(
                s@,
                i as int,
            ));
        }
        i = next;
    }
    assert(text_views(r@) + lines_from(s@, i as int) =~= text_views(r@));
    r
}

/// The value of a digit in bases up to 16, 16 or more for any other character.
pub open spec fn digit(c: char) -> int {
    if '0' <= c <= '9' {
        c as int - '0' as int
    } else if 'a' <= c <= 'f' {
        c as int - 'a' as int + 10
    } else if 'A' <= c <= 'F' {
        c as int - 'A' as int + 10
    } else {
        16
    }
}

pub fn digit_of(c: char) -> (r: u64)
    ensures
        r == digit(c),
{
    if '0' <= c && c <= '9' {
        c as u64 - '0' as u64
    } else if 'a' <= c && c <= 'f' {
        c as u64 - 'a' as u64 + 10
    } else if 'A' <= c && c <= 'F' {
        c as u64 - 'A' as u64 + 10
    } else {
        16
    }
}

/// Whether `s` consists of digits of `radix`.
pub open spec fn all_digits(s: Seq<char>, radix: int) -> bool {
    forall|i: int| 0 <= i < s.len() ==> digit(#[trigger] s[i]) < radix
}

/// The number that the digits of `s` stand for.
pub open spec fn number(s: Seq<char>, radix: int) -> int
    decreases s.len(),
{
    if s.len() == 0 {
        0
    } else {
        number(s.drop_last(), radix) * radix + digit(s.last())
    }
}

/// `s` without a leading plus sign.
pub open spec fn without_plus(s: Seq<char>) -> Seq<char> {
    if s.len() > 0 && s[0] == '+' {
        s.drop_first()
    } else {
        s
    }
}

/// The unsigned number that `s` spells in `radix`: an optional plus sign and at
/// least one digit, with a value of at most `max`.
pub open spec fn parsed(s: Seq<char>, radix: int, max: int) -> Option<u64> {
    let d = without_plus(s);
    if d.len() > 0 && all_digits(d, radix) && number(d, radix) <= max {
        Some(number(d, radix) as u64)
    } else {
        None
    }
}

proof fn lemma_number_bounds(s: Seq<char>, radix: int, i: int)
    requires
        0 <= i <= s.len(),
        radix >= 1,
    ensures
        0 <= number(s.take(i), radix) <= number(s, radix),
    decreases s.len(),
{
    if s.len() == 0 {
        assert(s.take(i) =~= s);
    } else if i == s.len() {
        assert(s.take(i) =~= s);
        lemma_number_bounds(s.drop_last(), radix, s.len() - 1);
        let n = number(s.drop_last().take(s.len() - 1), radix);
        assert(s.drop_last().take(s.len() - 1) =~= s.drop_last());
        assert(n * radix >= 0) by (nonlinear_arith)
            requires
                n >= 0,
                radix >= 1,
        ;
    } else {
        lemma_number_bounds(s.drop_last(), radix, i);
        assert(s.drop_last().take(i) =~= s.take(i));
        let n = number(s.drop_last(), radix);
        assert(n * radix >= n) by (nonlinear_arith)
            requires
                n >= 0,
                radix >= 1,
        ;
    }
}

pub fn parse_number(s: &[char], radix: u64, max: u64) -> (r: Option<u64>)
    requires
        1 <= radix <= 16,
    ensures
        r == parsed(s@, radix as int, max as int),
        r matches Some(v) ==> v <= max,
{
    let start: usize = if s.len() > 0 && s[0] == '+' {
        1
    } else {
        0
    };
    let ghost d = without_plus(s@);
    assert(d =~= s@.subrange(start as int, s@.len() as int));
    if start == s.len() {
        return None;
    }
    let mut value: u64 = 0;
    let mut i: usize = start;
    assert(d.take(0) =~= Seq::<char>::empty());
    while i < s.len()
        invariant
            start <= i <= s.len(),
            s@.len() == s.len(),
            1 <= radix <= 16,
            d == s@.subrange(start as int, s@.len() as int),
            d == without_plus(s@),
            all_digits(d.take(i - start), radix as int),
            value == number(d.take(i - start), radix as int),
            value <= max,
        decreases s.len() - i,
    {
        let v: u64 = digit_of(s[i]);
        let ghost k = i - start;
        assert(d[k] == s@[i as int]);
        if v >= radix {
            assert(!all_digits(d, radix as int));
            return None;
        }
        proof {
            assert(d.take(k + 1).drop_last() =~= d.take(k));
            assert(d.take(k + 1).last() == d[k]);
            lemma_number_bounds(d, radix as int, k + 1);
            assert(value * radix <= u64::MAX * 16) by (nonlinear_arith)
                requires
                    value <= u64::MAX,
                    radix <= 16,
                    value >= 0,
                    radix >= 1,
            ;
        }
        let next: u128 = value as u128 * radix as u128 + v as u128;
        if next > max as u128 {
            return None;
        }
        value = next as u64;
        i += 1;
        proof {
            assert forall|j: int| 0 <= j < k + 1 implies digit(#[trigger] d.take(k + 1)[j])
                < radix by {
                if j < k {
                    assert(d.take(k)[j] == d[j]);
                }
            }
        }
    }
    assert(d.take(i - start) =~= d);
    Some(value)
}

/// The digit character for a value below 16.
pub open spec fn digit_char(v: int) -> char {
    if v < 10 {
        ('0' as int + v) as char
    } else {
        ('a' as int + v - 10) as char
    }
}

pub fn char_of_digit(v: u64) -> (r: char)
    requires
        v < 16,
    ensures
        r == digit_char(v as int),
{
    if v < 10 {
        (48u8 + v as u8) as char
    } else {
        (87u8 + v as u8) as char
    }
}

/// The digits of `n` in `radix`, without leading zeros.
pub open spec fn spelled(n: int, radix: int) -> Seq<char>
    decreases n,
{
    if n < radix || radix < 2 {
        seq![digit_char(n)]
    } else {
        proof {
            assert(n / radix < n) by (nonlinear_arith)
                requires
                    n >= radix,
                    radix >= 2,
            ;
            assert(n / radix >= 0) by (nonlinear_arith)
                requires
                    n >= radix,
                    radix >= 2,
            ;
        }
        spelled(n / radix, radix).push(digit_char(n % radix))
    }
}

/// Appends the digits of `n`.
pub fn push_number(out: &mut Vec<char>, n: u64, radix: u64)
    requires
        2 <= radix <= 16,
    ensures
        final(out)@ == old(out)@ + spelled(n as int, radix as int),
    decreases n,
{
    if n < radix {
        out.push(char_of_digit(n));
        assert(out@ =~= old(out)@ + spelled(n as int, radix as int));
    } else {
        assert(n / radix < n) by (nonlinear_arith)
            requires
                n >= radix,
                radix >= 2,
        ;
        push_number(out, n / radix, radix);
        out.push(char_of_digit(n % radix));
        assert(out@ =~= old(out)@ + spelled(n as int, radix as int));
    }
}

/// Appends the characters of `s`.
pub fn push_chars(out: &mut Vec<char>, s: &[char])
    ensures
        final(out)@ == old(out)@ + s@,
{
    let mut i: usize = 0;
    assert(out@ =~= old(out)@ + s@.take(0));
    while i < s.len()
        invariant
            i <= s.len(),
            out@ == old(out)@ + s@.take(i as int),
        decreases s.len() - i,
    {
        out.push(s[i]);
        i += 1;
        assert(out@ =~= old(out)@ + s@.take(i as int));
    }
    assert(s@.take(i as int) =~= s@);
}

/// Appends the characters of a string.
pub fn push_str(out: &mut Vec<char>, s: &str)
    ensures
        final(out)@ == old(out)@ + s@,
{
    let chars = chars_of(s);
    push_chars(out, chars.as_slice());
}

pub proof fn lemma_word_ends_at(s: Seq<char>, i: int, end: int)
    requires
        0 <= i <= end <= s.len(),
        forall|k: int| i <= k < end ==> !is_white(#[trigger] s[k]),
        end < s.len() ==> is_white(s[end]),
    ensures
        word_end(s, i) == end,
    decreases end - i,
{
    if i < end {
        lemma_word_ends_at(s, i + 1, end);
    }
}

/// Two words with a space between them are two fields.
pub proof fn law_words_are_fields(a: Seq<char>, b: Seq<char>)
    requires
        a.len() > 0,
        b.len() > 0,
        forall|k: int| 0 <= k < a.len() ==> !is_white(#[trigger] a[k]),
        forall|k: int| 0 <= k < b.len() ==> !is_white(#[trigger] b[k]),
    ensures
        fields(a + seq![' '] + b) == seq![a, b],
{
    let s = a + seq![' '] + b;
    let m = a.len() as int;
    let n = s.len() as int;
    assert(forall|k: int| 0 <= k < m ==> s[k] == a[k]);
    assert(forall|k: int| m < k < n ==> s[k] == b[k - m - 1]);
    assert(s[m] == ' ');
    assert(!is_white(s[0]) && !is_white(s[m + 1]));
    lemma_word_ends_at(s, 0, m);
    lemma_word_ends_at(s, m + 1, n);
    assert(white_end(s, 0) == 0);
    assert(white_end(s, m + 1) == m + 1);
    assert(white_end(s, m) == m + 1);
    assert(white_end(s, n) == n);
    assert(s.subrange(0, m) =~= a);
    assert(s.subrange(m + 1, n) =~= b);
    assert(fields_from(s, n) =~= Seq::<Seq<char>>::empty());
    assert(fields_from(s, m) =~= seq![b]);
    assert(fields_from(s, 0) =~= seq![a, b]);
}

/// White space at the end of a text does not move the start of its first word.
pub proof fn lemma_white_end_take(s: Seq<char>, i: int, n: int)
    requires
        0 <= i <= n <= s.len(),
    ensures
        white_end(s.take(n), i) == if white_end(s, i) < n {
            white_end(s, i)
        } else {
            n
        },
    decreases n - i,
{
    lemma_white_end(s, i);
    if i < n && is_white(s[i]) {
        lemma_white_end_take(s, i + 1, n);
    }
}

/// `line` without a carriage return at its end.
pub open spec fn without_return(line: Seq<char>) -> Seq<char> {
    if line.len() > 0 && line.last() == '\r' {
        line.drop_last()
    } else {
        line
    }
}

/// The text that ends each of some lines with a line feed.
pub open spec fn lined(rows: Seq<Seq<char>>) -> Seq<char>
    decreases rows.len(),
{
    if rows.len() == 0 {
        Seq::empty()
    } else {
        rows[0] + seq!['\n'] + lined(rows.drop_first())
    }
}

pub proof fn lemma_line_ends_at(s: Seq<char>, i: int, end: int)
    requires
        0 <= i <= end < s.len(),
        forall|k: int| i <= k < end ==> #[trigger] s[k] != '\n',
        s[end] == '\n',
    ensures
        line_end(s, i) == end,
    decreases end - i,
{
    if i < end {
        lemma_line_ends_at(s, i + 1, end);
    }
}

proof fn lemma_line_end_shift(s: Seq<char>, k: int, i: int)
    requires
        0 <= k <= i,
        k <= s.len(),
    ensures
        line_end(s, i) == k + line_end(s.skip(k), i - k),
    decreases s.len() - i,
{
    if i < s.len() && s[i] != '\n' {
        lemma_line_end_shift(s, k, i + 1);
    }
}

/// The lines of a text from a position on are those of the rest of the text.
pub proof fn lemma_lines_shift(s: Seq<char>, k: int, i: int)
    requires
        0 <= k <= i,
        k <= s.len(),
    ensures
        lines_from(s, i) == lines_from(s.skip(k), i - k),
    decreases s.len() + 1 - i,
{
    if i < s.len() {
        let t = s.skip(k);
        lemma_line_end(s, i);
        lemma_line_end_shift(s, k, i);
        let j = line_end(s, i);
        lemma_lines_shift(s, k, j + 1);
        assert(t.subrange(i - k, j - k) =~= s.subrange(i, j));
        if j > i {
            assert(t.subrange(i - k, j - k - 1) =~= s.subrange(i, j - 1));
        }
        assert(line_at(t, i - k) == line_at(s, i));
    }
}

/// Lines that were written one after the other are read back, each without a
/// carriage return at its end.
pub proof fn law_lines_read_back(rows: Seq<Seq<char>>)
    requires
        forall|i: int| 0 <= i < rows.len() ==> !(#[trigger] rows[i]).contains('\n'),
    ensures
        lines(lined(rows)) == rows.map_values(|row: Seq<char>| without_return(row)),
    decreases rows.len(),
{
    let f = |row: Seq<char>| without_return(row);
    let s = lined(rows);
    if rows.len() > 0 {
        let row = rows[0];
        let rest = rows.drop_first();
        let n = row.len() as int;
        assert forall|i: int| 0 <= i < rest.len() implies !(#[trigger] rest[i]).contains('\n') by {
            assert(rest[i] == rows[i + 1]);
        }
        law_lines_read_back(rest);
        assert(s == row + seq!['\n'] + lined(rest));
        assert forall|k: int| 0 <= k < n implies #[trigger] s[k] != '\n' by {
            assert(s[k] == row[k]);
            assert(row.contains(row[k]));
        }
        assert(s[n] == '\n');
        lemma_line_ends_at(s, 0, n);
        assert(s.subrange(0, n) =~= row);
        if n > 0 {
            assert(s[n - 1] == row.last());
            assert(s.subrange(0, n - 1) =~= row.drop_last());
        }
        assert(line_at(s, 0) == without_return(row));
        lemma_lines_shift(s, n + 1, n + 1);
        assert(s.skip(n + 1) =~= lined(rest));
        assert(lines(s) == seq![without_return(row)] + lines(lined(rest)));
        assert(seq![without_return(row)] + rest.map_values(f) =~= rows.map_values(f));
    } else {
        assert(lines(s) =~= rows.map_values(f));
    }
}

/// Reading a spelled number gives the number back.
pub proof fn law_number_spelled(n: int, radix: int)
    requires
        0 <= n,
        2 <= radix <= 16,
    ensures
        all_digits(spelled(n, radix), radix),
        spelled(n, radix).len() > 0,
        number(spelled(n, radix), radix) == n,
    decreases n,
{
    let s = spelled(n, radix);
    if n < radix {
        assert(s.drop_last() =~= Seq::<char>::empty());
        assert(digit(digit_char(n)) == n);
        assert(number(s.drop_last(), radix) * radix == 0) by (nonlinear_arith)
            requires
                number(s.drop_last(), radix) == 0,
        ;
    } else {
        let q = n / radix;
        let r = n % radix;
        assert(q < n && q >= 0 && q * radix + r == n && 0 <= r < radix) by (nonlinear_arith)
            requires
                n >= radix,
                radix >= 2,
                q == n / radix,
                r == n % radix,
        ;
        law_number_spelled(q, radix);
        let p = spelled(q, radix);
        assert(s == p.push(digit_char(r)));
        assert(s.drop_last() =~= p);
        assert(digit(digit_char(r)) == r);
        assert forall|i: int| 0 <= i < s.len() implies digit(#[trigger] s[i]) < radix by {
            if i < p.len() {
                assert(s[i] == p[i]);
            }
        }
    }
}

/// A spelled number that is at most `max` parses to itself.
pub proof fn law_parse_spelled(n: int, radix: int, max: int)
    requires
        0 <= n <= max <= u64::MAX,
        2 <= radix <= 16,
    ensures
        parsed(spelled(n, radix), radix, max) == Some(n as u64),
{
    law_number_spelled(n, radix);
    let s = spelled(n, radix);
    assert(digit(s[0]) < radix);
    assert(s[0] != '+');
}

} // verus!
