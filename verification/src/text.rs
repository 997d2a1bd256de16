//! Character-level operations on strings: copying a string into its
//! characters, suffix and substring tests, ASCII case folding and decimal
//! rendering of numbers.

use vstd::prelude::*;

verus! {

/// `String::push` (std): appends `ch` to the end of the string. The contract
/// claims that the new text is the old one followed by `ch`; it is taken on
/// trust, as std's documentation states it.
pub assume_specification[ String::push ](s: &mut String, ch: char)
    ensures
        final(s)@ == old(s)@.push(ch),
;

/// `s` ends with `suffix`.
pub open spec fn has_suffix(s: Seq<char>, suffix: Seq<char>) -> bool {
    suffix.len() <= s.len() && s.subrange(s.len() - suffix.len(), s.len() as int) == suffix
}

/// `pattern` occurs in `s` starting at position `i`.
pub open spec fn occurs_at(s: Seq<char>, pattern: Seq<char>, i: int) -> bool {
    0 <= i && i + pattern.len() <= s.len() && s.subrange(i, i + pattern.len()) == pattern
}

/// `pattern` occurs somewhere in `s`.
pub open spec fn has_substring(s: Seq<char>, pattern: Seq<char>) -> bool {
    exists|i: int| occurs_at(s, pattern, i)
}

/// The code of `c` with ASCII upper-case letters mapped to lower case.
pub open spec fn ascii_lower(c: char) -> int {
    if 'A' <= c <= 'Z' {
        c as int + 32
    } else {
        c as int
    }
}

/// `a` and `b` are equal when ASCII letters are compared without case.
pub open spec fn equal_ignoring_ascii_case(a: Seq<char>, b: Seq<char>) -> bool {
    a.len() == b.len() && forall|i: int| 0 <= i < a.len() ==> ascii_lower(a[i]) == ascii_lower(b[i])
}

/// The decimal digit character of `d`, for `d < 10`.
pub open spec fn digit_char(d: nat) -> char {
    ('0' as nat + d) as char
}

/// The decimal representation of `n`, without sign or leading zeros.
pub open spec fn decimal(n: nat) -> Seq<char>
    decreases n,
{
    if n < 10 {
        seq![digit_char(n)]
    } else {
        decimal(n / 10).push(digit_char(n % 10))
    }
}

/// The characters of `s`, in order.
pub fn chars_of(s: &str) -> (v: Vec<char>)
    ensures
        v@ == s@,
{
    let mut v: Vec<char> = Vec::new();
    for c in it: s.chars()
        invariant
            v@ == it.seq().take(it.index() as int),
    {
        v.push(c);
    }
    v
}

/// Whether `s` ends with `suffix`.
pub fn ends_with(s: &[char], suffix: &[char]) -> (b: bool)
    ensures
        b == has_suffix(s@, suffix@),
{
    if suffix.len() > s.len() {
        return false;
    }
    let offset = s.len() - suffix.len();
    let mut i: usize = 0;
    while i < suffix.len()
        invariant
            offset + suffix.len() == s.len(),
            i <= suffix.len(),
            forall|j: int| 0 <= j < i ==> s@[offset + j] == suffix@[j],
        decreases suffix.len() - i,
    {
        if s[offset + i] != suffix[i] {
            assert(s@.subrange(offset as int, s.len() as int)[i as int] != suffix@[i as int]);
            return false;
        }
        i = i + 1;
    }
    assert(s@.subrange(offset as int, s.len() as int) =~= suffix@);
    true
}

/// Whether `pattern` occurs in `s` at position `start`.
fn matches_at(s: &[char], pattern: &[char], start: usize) -> (b: bool)
    requires
        start + pattern.len() <= s.len(),
    ensures
        b == occurs_at(s@, pattern@, start as int),
{
    let mut i: usize = 0;
    while i < pattern.len()
        invariant
            start + pattern.len() <= s.len(),
            i <= pattern.len(),
            forall|j: int| 0 <= j < i ==> s@[start + j] == pattern@[j],
        decreases pattern.len() - i,
    {
        if s[start + i] != pattern[i] {
            assert(s@.subrange(start as int, start + pattern.len())[i as int] != pattern@[i as int]);
            return false;
        }
        i = i + 1;
    }
    assert(s@.subrange(start as int, start + pattern.len()) =~= pattern@);
    true
}

/// Whether `pattern` occurs anywhere in `s`.
pub fn contains(s: &[char], pattern: &[char]) -> (b: bool)
    ensures
        b == has_substring(s@, pattern@),
{
    if pattern.len() > s.len() {
        return false;
    }
    if pattern.len() == 0 {
        assert(occurs_at(s@, pattern@, 0)) by {
            assert(s@.subrange(0, 0) =~= pattern@);
        }
        return true;
    }
    let last = s.len() - pattern.len();
    let mut start: usize = 0;
    while start <= last
        invariant
            last + pattern.len() == s.len(),
            pattern.len() > 0,
            start <= last + 1,
            forall|j: int| 0 <= j < start ==> !occurs_at(s@, pattern@, j),
        decreases last + 1 - start,
    {
        if matches_at(s, pattern, start) {
            return true;
        }
        start = start + 1;
    }
    false
}

/// `ascii_lower` on one character.
fn lower_code(c: char) -> (r: u32)
    ensures
        r == ascii_lower(c),
{
    if 'A' <= c && c <= 'Z' {
        c as u32 + 32
    } else {
        c as u32
    }
}

/// Whether `a` and `b` are equal when ASCII letters are compared without case.
pub fn eq_ignore_ascii_case(a: &[char], b: &[char]) -> (r: bool)
    ensures
        r == equal_ignoring_ascii_case(a@, b@),
{
    if a.len() != b.len() {
        return false;
    }
    let mut i: usize = 0;
    while i < a.len()
        invariant
            a.len() == b.len(),
            i <= a.len(),
            forall|j: int| 0 <= j < i ==> ascii_lower(a@[j]) == ascii_lower(b@[j]),
        decreases a.len() - i,
    {
        if lower_code(a[i]) != lower_code(b[i]) {
            return false;
        }
        i = i + 1;
    }
    true
}

/// The digit character for `d`.
fn digit(d: u64) -> (c: char)
    requires
        d < 10,
    ensures
        c == digit_char(d as nat),
{
    let b: u8 = 48u8 + d as u8;
    b as char
}

/// Appends the decimal representation of `n` to `s`.
pub fn push_decimal(s: &mut String, n: u64)
    ensures
        final(s)@ == old(s)@ + decimal(n as nat),
    decreases n,
{
    if n >= 10 {
        push_decimal(s, n / 10);
    }
    s.push(digit(n % 10));
    assert(final(s)@ =~= old(s)@ + decimal(n as nat));
}

/// Appends all of `chars` to `s`.
pub fn push_chars(s: &mut String, chars: &[char])
    ensures
        final(s)@ == old(s)@ + chars@,
{
    let mut i: usize = 0;
    while i < chars.len()
        invariant
            i <= chars.len(),
            s@ == old(s)@ + chars@.take(i as int),
        decreases chars.len() - i,
    {
        s.push(chars[i]);
        i = i + 1;
        assert(s@ =~= old(s)@ + chars@.take(i as int));
    }
    assert(chars@.take(chars.len() as int) =~= chars@);
}

/// A string made of `chars`.
pub fn string_of(chars: &[char]) -> (s: String)
    ensures
        s@ == chars@,
{
    let mut s = String::new();
    push_chars(&mut s, chars);
    assert(s@ =~= chars@);
    s
}

/// `c` has the Unicode White_Space property (the characters that
/// `char::is_whitespace` and `str::trim` treat as whitespace): tab, line feed,
/// vertical tab, form feed, carriage return, space, next line, no-break space,
/// ogham space mark, the spaces U+2000 to U+200A, line and paragraph
/// separators, narrow no-break space, medium mathematical space and
/// ideographic space.
pub open spec fn is_white_space(c: char) -> bool {
    ||| '\u{9}' <= c <= '\u{d}'
    ||| c == ' '
    ||| c == '\u{85}'
    ||| c == '\u{a0}'
    ||| c == '\u{1680}'
    ||| '\u{2000}' <= c <= '\u{200a}'
    ||| c == '\u{2028}'
    ||| c == '\u{2029}'
    ||| c == '\u{202f}'
    ||| c == '\u{205f}'
    ||| c == '\u{3000}'
}

/// `s` without its leading whitespace.
pub open spec fn trim_start(s: Seq<char>) -> Seq<char>
    decreases s.len(),
{
    if s.len() > 0 && is_white_space(s[0]) {
        trim_start(s.drop_first())
    } else {
        s
    }
}

/// `s` without its trailing whitespace.
pub open spec fn trim_end(s: Seq<char>) -> Seq<char>
    decreases s.len(),
{
    if s.len() > 0 && is_white_space(s.last()) {
        trim_end(s.drop_last())
    } else {
        s
    }
}

/// `s` without leading and trailing whitespace.
pub open spec fn trimmed(s: Seq<char>) -> Seq<char> {
    trim_end(trim_start(s))
}

/// Whether `c` has the Unicode White_Space property.
pub fn is_whitespace(c: char) -> (b: bool)
    ensures
        b == is_white_space(c),
{
    ('\u{9}' <= c && c <= '\u{d}') || c == ' ' || c == '\u{85}' || c == '\u{a0}' || c == '\u{1680}'
        || ('\u{2000}' <= c && c <= '\u{200a}') || c == '\u{2028}' || c == '\u{2029}' || c
        == '\u{202f}' || c == '\u{205f}' || c == '\u{3000}'
}

/// `s` without leading and trailing whitespace.
pub fn trim(s: &[char]) -> (t: Vec<char>)
    ensures
        t@ == trimmed(s@),
{
    let mut start: usize = 0;
    assert(s@.skip(0) =~= s@);
    while start < s.len() && is_whitespace(s[start])
        invariant
            start <= s.len(),
            trim_start(s@) == trim_start(s@.skip(start as int)),
        decreases s.len() - start,
    {
        assert(s@.skip(start as int).drop_first() =~= s@.skip(start + 1));
        start = start + 1;
    }
    let ghost head = s@.skip(start as int);
    assert(trim_start(head) == head);
    let mut end: usize = s.len();
    assert(s@.subrange(start as int, end as int) =~= head);
    while end > start && is_whitespace(s[end - 1])
        invariant
            start <= end <= s.len(),
            trim_end(head) == trim_end(s@.subrange(start as int, end as int)),
        decreases end - start,
    {
        assert(s@.subrange(start as int, end as int).drop_last() =~= s@.subrange(
            start as int,
            end - 1,
        ));
        end = end - 1;
    }
    let ghost middle = s@.subrange(start as int, end as int);
    assert(trim_end(middle) == middle);
    let mut t: Vec<char> = Vec::new();
    let mut i: usize = start;
    while i < end
        invariant
            start <= i <= end <= s.len(),
            t@ == s@.subrange(start as int, i as int),
        decreases end - i,
    {
        t.push(s[i]);
        i = i + 1;
        assert(t@ =~= s@.subrange(start as int, i as int));
    }
    t
}

/// Two texts equal ignoring ASCII case have the same length, and at each
/// position characters with the same code, or an upper-case ASCII letter and
/// its lower-case form.
pub proof fn law_equal_ignoring_case(a: Seq<char>, b: Seq<char>)
    ensures
        equal_ignoring_ascii_case(a, b) <==> (a.len() == b.len() && forall|i: int|
            0 <= i < a.len() ==> (#[trigger] a[i] as int == b[i] as int || ('A' <= a[i] <= 'Z' && a[i] as int
                + 32 == b[i] as int) || ('A' <= b[i] <= 'Z' && b[i] as int + 32 == a[i] as int))),
{
    if a.len() == b.len() {
        assert forall|i: int| 0 <= i < a.len() implies (ascii_lower(a[i]) == ascii_lower(b[i]) <==> (
        a[i] as int == b[i] as int || ('A' <= a[i] <= 'Z' && a[i] as int + 32 == b[i] as int) || (
        'A' <= b[i] <= 'Z' && b[i] as int + 32 == a[i] as int))) by {
            let x = a[i];
            let y = b[i];
            assert(('A' <= x) == (65 <= (x as int)));
            assert((x <= 'Z') == ((x as int) <= 90));
            assert(('A' <= y) == (65 <= (y as int)));
            assert((y <= 'Z') == ((y as int) <= 90));
        }
    }
}

proof fn lemma_trim_start_offset(s: Seq<char>) -> (i: int)
    ensures
        0 <= i <= s.len(),
        trim_start(s) == s.skip(i),
        forall|k: int| 0 <= k < i ==> is_white_space(#[trigger] s[k]),
        i < s.len() ==> !is_white_space(s[i]),
    decreases s.len(),
{
    if s.len() > 0 && is_white_space(s[0]) {
        let j = lemma_trim_start_offset(s.drop_first());
        assert(s.drop_first().skip(j) =~= s.skip(j + 1));
        assert forall|k: int| 0 <= k < j + 1 implies is_white_space(#[trigger] s[k]) by {
            if k > 0 {
                assert(s[k] == s.drop_first()[k - 1]);
            }
        }
        j + 1
    } else {
        assert(s.skip(0) =~= s);
        0
    }
}

proof fn lemma_trim_end_offset(s: Seq<char>) -> (j: int)
    ensures
        0 <= j <= s.len(),
        trim_end(s) == s.take(j),
        forall|k: int| j <= k < s.len() ==> is_white_space(#[trigger] s[k]),
        j > 0 ==> !is_white_space(s[j - 1]),
    decreases s.len(),
{
    if s.len() > 0 && is_white_space(s.last()) {
        let j = lemma_trim_end_offset(s.drop_last());
        assert(s.drop_last().take(j) =~= s.take(j));
        assert forall|k: int| j <= k < s.len() implies is_white_space(#[trigger] s[k]) by {
            if k < s.len() - 1 {
                assert(s[k] == s.drop_last()[k]);
            }
        }
        j
    } else {
        assert(s.take(s.len() as int) =~= s);
        s.len() as int
    }
}

/// Trimming keeps a contiguous part of the text: everything removed before
/// and after it is whitespace, and the part neither starts nor ends with
/// whitespace. Space, tab, line feed and carriage return are whitespace.
pub proof fn law_trimmed(s: Seq<char>)
    ensures
        exists|i: int, j: int|
            0 <= i <= j <= s.len() && trimmed(s) == s.subrange(i, j) && (forall|k: int|
                0 <= k < i ==> is_white_space(#[trigger] s[k])) && (forall|k: int|
                j <= k < s.len() ==> is_white_space(#[trigger] s[k])) && (i < j ==> !is_white_space(
                s[i]) && !is_white_space(s[j - 1])),
        is_white_space(' ') && is_white_space('\t') && is_white_space('\n') && is_white_space('\r'),
{
    let i = lemma_trim_start_offset(s);
    let t = s.skip(i);
    let m = lemma_trim_end_offset(t);
    let j = i + m;
    assert(t.take(m) =~= s.subrange(i, j));
    assert forall|k: int| j <= k < s.len() implies is_white_space(#[trigger] s[k]) by {
        assert(s[k] == t[k - i]);
    }
    if i < j {
        assert(s[i] == t[0]);
        assert(s[j - 1] == t[m - 1]);
        if i < s.len() {
        }
    }
    assert(0 <= i <= j <= s.len() && trimmed(s) == s.subrange(i, j) && (forall|k: int|
        0 <= k < i ==> is_white_space(#[trigger] s[k])) && (forall|k: int|
        j <= k < s.len() ==> is_white_space(#[trigger] s[k])) && (i < j ==> !is_white_space(s[i])
        && !is_white_space(s[j - 1])));
}

} // verus!
