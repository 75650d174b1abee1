//! Texts as sequences of characters: searching, cutting, trimming,
//! replacing and reading numbers, each with the sequence that it returns.

use vstd::prelude::*;
use vstd::std_specs::iter::IteratorSpec;

verus! {

/// `String::push` of std: the character is appended at the end of the
/// string and nothing else changes.
pub assume_specification[ String::push ](s: &mut String, c: char)
    ensures
        final(s)@ == old(s)@.push(c),
;

/// The characters that count as whitespace between the parts of a tag and
/// in front of text: the space and the line feed.
pub open spec fn is_blank(c: char) -> bool {
    c == ' ' || c == '\n'
}

/// The letters `a` to `z` and `A` to `Z`.
pub open spec fn is_letter(c: char) -> bool {
    ('a' <= c && c <= 'z') || ('A' <= c && c <= 'Z')
}

/// Tells whether `c` is a space or a line feed.
pub fn blank(c: char) -> (yes: bool)
    ensures
        yes == is_blank(c),
{
    c == ' ' || c == '\n'
}

/// Tells whether `c` is an ASCII letter.
pub fn letter(c: char) -> (yes: bool)
    ensures
        yes == is_letter(c),
{
    (c >= 'a' && c <= 'z') || (c >= 'A' && c <= 'Z')
}

/// The characters of `s`, in order.
pub fn to_chars(s: &str) -> (chars: Vec<char>)
    ensures
        chars@ == s@,
{
    let mut chars: Vec<char> = Vec::new();
    let source = s.chars();
    for c in it: source
        invariant
            chars@ == it.seq().take(it.index()),
            it.seq() == s@,
    {
        chars.push(c);
    }
    chars
}

/// The string made of `chars`.
pub fn string_of(chars: &Vec<char>) -> (s: String)
    ensures
        s@ == chars@,
{
    let mut s = String::new();
    let mut i: usize = 0;
    while i < chars.len()
        invariant
            i <= chars.len(),
            s@ == chars@.take(i as int),
        decreases chars.len() - i,
    {
        s.push(chars[i]);
        assert(chars@.take(i + 1) =~= chars@.take(i as int).push(chars@[i as int]));
        i += 1;
    }
    assert(chars@.take(chars.len() as int) =~= chars@);
    s
}

/// Tells whether `chars` spells the string `word`. Meant for short words:
/// the time taken grows with the square of the length of `word`.
pub fn spells(chars: &Vec<char>, word: &str) -> (yes: bool)
    ensures
        yes == (chars@ == word@),
{
    let n = word.unicode_len();
    if chars.len() != n {
        return false;
    }
    let mut i: usize = 0;
    while i < n
        invariant
            i <= n,
            n == chars.len(),
            n == word@.len(),
            forall|j: int| 0 <= j < i ==> chars[j] == word@[j],
        decreases n - i,
    {
        if chars[i] != word.get_char(i) {
            return false;
        }
        i += 1;
    }
    assert(chars@ =~= word@);
    true
}

/// Whether `pattern` stands in `text` at the place `at`.
pub open spec fn occurs_at(text: Seq<char>, pattern: Seq<char>, at: int) -> bool {
    0 <= at && at + pattern.len() <= text.len() && text.subrange(at, at + pattern.len())
        == pattern
}

/// The first place at or behind `from` at which `pattern` stands in `text`.
pub open spec fn find_from(text: Seq<char>, pattern: Seq<char>, from: int) -> Option<int>
    decreases text.len() - from + 1,
{
    if from < 0 || from + pattern.len() > text.len() {
        None
    } else if occurs_at(text, pattern, from) {
        Some(from)
    } else {
        find_from(text, pattern, from + 1)
    }
}

/// The first place at which `pattern` stands in `text`.
pub open spec fn find(text: Seq<char>, pattern: Seq<char>) -> Option<int> {
    find_from(text, pattern, 0)
}

/// What stands before and what stands behind the first `pattern` in
/// `text`, or `None` where `text` holds no `pattern`.
pub open spec fn split_once(text: Seq<char>, pattern: Seq<char>) -> Option<
    (Seq<char>, Seq<char>),
> {
    match find(text, pattern) {
        Some(at) => Some((text.take(at), text.skip(at + pattern.len()))),
        None => None,
    }
}

/// What stands before the first `pattern` in `text`; all of `text` where
/// it holds no `pattern`.
pub open spec fn before(text: Seq<char>, pattern: Seq<char>) -> Seq<char> {
    match split_once(text, pattern) {
        Some((head, _)) => head,
        None => text,
    }
}

/// What stands behind the first `pattern` in `text`.
pub open spec fn after(text: Seq<char>, pattern: Seq<char>) -> Option<Seq<char>> {
    match split_once(text, pattern) {
        Some((_, tail)) => Some(tail),
        None => None,
    }
}

/// The parts into which the occurrences of `pattern` cut `text`, read from
/// the left. A text without `pattern` is one part. An empty pattern cuts
/// nothing.
pub open spec fn split(text: Seq<char>, pattern: Seq<char>) -> Seq<Seq<char>>
    decreases text.len(),
{
    if pattern.len() == 0 {
        seq![text]
    } else {
        match split_once(text, pattern) {
            Some((head, tail)) => {
                proof {
                    lemma_find_from(text, pattern, 0);
                }
                seq![head] + split(tail, pattern)
            },
            None => seq![text],
        }
    }
}

/// What `find_from` finds is the first occurrence at or behind `from`.
pub proof fn lemma_find_from(text: Seq<char>, pattern: Seq<char>, from: int)
    requires
        0 <= from,
    ensures
        match find_from(text, pattern, from) {
            Some(at) => from <= at && occurs_at(text, pattern, at) && forall|k: int|
                from <= k < at ==> !occurs_at(text, pattern, k),
            None => forall|k: int| from <= k ==> !occurs_at(text, pattern, k),
        },
    decreases text.len() - from + 1,
{
    if from + pattern.len() <= text.len() && !occurs_at(text, pattern, from) {
        lemma_find_from(text, pattern, from + 1);
    }
}

/// Tells whether `pattern` stands in `text` at the place `at`.
pub fn stands_at(text: &Vec<char>, pattern: &Vec<char>, at: usize) -> (yes: bool)
    ensures
        yes == occurs_at(text@, pattern@, at as int),
{
    let n = pattern.len();
    if n > text.len() || at > text.len() - n {
        return false;
    }
    let mut i: usize = 0;
    while i < n
        invariant
            i <= n,
            n == pattern.len(),
            at + n <= text.len(),
            forall|j: int| 0 <= j < i ==> text[at + j] == pattern[j],
        decreases n - i,
    {
        if text[at + i] != pattern[i] {
            assert(text@.subrange(at as int, at + n)[i as int] != pattern@[i as int]);
            return false;
        }
        i += 1;
    }
    assert(text@.subrange(at as int, at + n) =~= pattern@);
    true
}

/// The first place at or behind `from` at which `pattern` stands in `text`.
pub fn find_in(text: &Vec<char>, pattern: &Vec<char>, from: usize) -> (place: Option<usize>)
    ensures
        find_from(text@, pattern@, from as int) == match place {
            Some(at) => Some(at as int),
            None => None,
        },
{
    let n = pattern.len();
    if n > text.len() {
        return None;
    }
    let last = text.len() - n;
    let mut at: usize = from;
    while at <= last
        invariant
            n == pattern.len(),
            last + n == text.len(),
            from <= at,
            find_from(text@, pattern@, from as int) == find_from(text@, pattern@, at as int),
        decreases text.len() - at,
    {
        if stands_at(text, pattern, at) {
            return Some(at);
        }
        if at == last {
            assert(find_from(text@, pattern@, at + 1) is None);
            return None;
        }
        at += 1;
    }
    None
}

/// The characters `text[from..to]`.
pub fn part(text: &Vec<char>, from: usize, to: usize) -> (chars: Vec<char>)
    requires
        from <= to <= text.len(),
    ensures
        chars@ == text@.subrange(from as int, to as int),
{
    let mut chars: Vec<char> = Vec::new();
    let mut i: usize = from;
    while i < to
        invariant
            from <= i <= to <= text.len(),
            chars@ == text@.subrange(from as int, i as int),
        decreases to - i,
    {
        chars.push(text[i]);
        i += 1;
    }
    chars
}

/// Cuts `text` at the first `pattern`.
pub fn cut_once(text: &Vec<char>, pattern: &str) -> (parts: Option<(Vec<char>, Vec<char>)>)
    ensures
        split_once(text@, pattern@) == match parts {
            Some((head, tail)) => Some((head@, tail@)),
            None => None,
        },
{
    let pattern = to_chars(pattern);
    match find_in(text, &pattern, 0) {
        Some(at) => {
            proof {
                lemma_find_from(text@, pattern@, 0);
                assert(find_from(text@, pattern@, 0) == Some(at as int));
                assert(occurs_at(text@, pattern@, at as int));
            }
            let head = part(text, 0, at);
            let tail = part(text, at + pattern.len(), text.len());
            Some((head, tail))
        },
        None => None,
    }
}

/// What stands before the first `pattern` in `text`; all of `text` where
/// it holds no `pattern`.
pub fn up_to(text: Vec<char>, pattern: &str) -> (chars: Vec<char>)
    ensures
        chars@ == before(text@, pattern@),
{
    match cut_once(&text, pattern) {
        Some((head, _)) => head,
        None => text,
    }
}

/// Cuts `text` at every `pattern`, which is not empty.
pub fn cut(text: Vec<char>, pattern: &str) -> (parts: Vec<Vec<char>>)
    requires
        pattern@.len() > 0,
    ensures
        parts.len() == split(text@, pattern@).len(),
        forall|i: int| 0 <= i < parts.len() ==> (#[trigger] parts[i])@ == split(text@, pattern@)[i],
{
    let ghost whole = text@;
    let mut parts: Vec<Vec<char>> = Vec::new();
    let mut rest = text;
    loop
        invariant
            pattern@.len() > 0,
            whole == text@,
            split(whole, pattern@).len() == parts.len() + split(rest@, pattern@).len(),
            forall|i: int| 0 <= i < parts.len() ==> (#[trigger] parts[i])@ == split(whole, pattern@)[i],
            forall|i: int|
                0 <= i < split(rest@, pattern@).len() ==> #[trigger] split(rest@, pattern@)[i]
                    == split(whole, pattern@)[parts.len() + i],
        decreases rest.len(),
    {
        match cut_once(&rest, pattern) {
            Some((head, tail)) => {
                proof {
                    lemma_find_from(rest@, pattern@, 0);
                    let cut = split(rest@, pattern@);
                    assert(cut == seq![head@] + split(tail@, pattern@));
                    assert(cut[0] == head@);
                    assert forall|i: int| 0 <= i < split(tail@, pattern@).len() implies #[trigger] split(
                        tail@,
                        pattern@,
                    )[i] == split(whole, pattern@)[parts.len() + 1 + i] by {
                        assert(cut[i + 1] == split(tail@, pattern@)[i]);
                    }
                }
                parts.push(head);
                rest = tail;
            },
            None => {
                proof {
                    assert(split(rest@, pattern@) == seq![rest@]);
                    assert(split(rest@, pattern@)[0] == rest@);
                }
                parts.push(rest);
                return parts;
            },
        }
    }
}

/// The characters with the Unicode property `White_Space`.
pub open spec fn is_white_space(c: char) -> bool {
    ||| '\u{9}' <= c <= '\u{d}'
    ||| c == ' '
    ||| c == '\u{85}'
    ||| c == '\u{a0}'
    ||| c == '\u{1680}'
    ||| '\u{2000}' <= c <= '\u{200a}'
    ||| c == '\u{2028}'
    ||| c == '\u{2029}'
    ||| c == '\u{202f}'
    ||| c == '\u{205f}'
    ||| c == '\u{3000}'
}

/// Tells whether `c` has the Unicode property `White_Space`.
pub fn white_space(c: char) -> (yes: bool)
    ensures
        yes == is_white_space(c),
{
    (c >= '\u{9}' && c <= '\u{d}') || c == ' ' || c == '\u{85}' || c == '\u{a0}' || c
        == '\u{1680}' || (c >= '\u{2000}' && c <= '\u{200a}') || c == '\u{2028}' || c
        == '\u{2029}' || c == '\u{202f}' || c == '\u{205f}' || c == '\u{3000}'
}

/// `text` without the white space at its beginning.
pub open spec fn trim_start(text: Seq<char>) -> Seq<char>
    decreases text.len(),
{
    if text.len() > 0 && is_white_space(text[0]) {
        trim_start(text.drop_first())
    } else {
        text
    }
}

/// `text` without the white space at its end.
pub open spec fn trim_end(text: Seq<char>) -> Seq<char>
    decreases text.len(),
{
    if text.len() > 0 && is_white_space(text.last()) {
        trim_end(text.drop_last())
    } else {
        text
    }
}

/// `text` without the white space at its beginning and at its end.
pub open spec fn trim(text: Seq<char>) -> Seq<char> {
    trim_end(trim_start(text))
}

/// The place of the first character of `text` that is no white space, or
/// the length of `text` where all of it is white space.
fn first_black(text: &Vec<char>) -> (at: usize)
    ensures
        at <= text.len(),
        trim_start(text@) == text@.skip(at as int),
{
    let mut at: usize = 0;
    assert(text@.skip(0) =~= text@);
    while at < text.len() && white_space(text[at])
        invariant
            at <= text.len(),
            trim_start(text@) == trim_start(text@.skip(at as int)),
        decreases text.len() - at,
    {
        assert(text@.skip(at as int).drop_first() =~= text@.skip(at + 1));
        at += 1;
    }
    at
}

/// `text` without the white space at its beginning.
pub fn trimmed_start(text: &Vec<char>) -> (chars: Vec<char>)
    ensures
        chars@ == trim_start(text@),
{
    let from = first_black(text);
    part(text, from, text.len())
}

/// `text` without the white space at its beginning and at its end.
pub fn trimmed(text: &Vec<char>) -> (chars: Vec<char>)
    ensures
        chars@ == trim(text@),
{
    let from = first_black(text);
    let mut to: usize = text.len();
    while to > from && white_space(text[to - 1])
        invariant
            from <= to <= text.len(),
            trim(text@) == trim_end(text@.subrange(from as int, to as int)),
        decreases to,
    {
        assert(text@.subrange(from as int, to as int).drop_last() =~= text@.subrange(
            from as int,
            to - 1,
        ));
        to -= 1;
    }
    part(text, from, to)
}

/// `text` with `with` in the place of every `pattern`, read from the left.
/// An empty pattern changes nothing.
pub open spec fn replace_all(text: Seq<char>, pattern: Seq<char>, with: Seq<char>) -> Seq<char>
    decreases text.len(),
{
    if pattern.len() == 0 || text.len() == 0 {
        text
    } else if occurs_at(text, pattern, 0) {
        with + replace_all(text.skip(pattern.len() as int), pattern, with)
    } else {
        seq![text[0]] + replace_all(text.drop_first(), pattern, with)
    }
}

/// `text` with `with` in the place of every `pattern`, which is not empty.
pub fn replaced(text: &Vec<char>, pattern: &str, with: &str) -> (chars: Vec<char>)
    requires
        pattern@.len() > 0,
    ensures
        chars@ == replace_all(text@, pattern@, with@),
{
    let pattern = to_chars(pattern);
    let with = to_chars(with);
    let mut chars: Vec<char> = Vec::new();
    let mut at: usize = 0;
    assert(text@.skip(0) =~= text@);
    while at < text.len()
        invariant
            at <= text.len(),
            pattern.len() > 0,
            replace_all(text@, pattern@, with@) == chars@ + replace_all(
                text@.skip(at as int),
                pattern@,
                with@,
            ),
        decreases text.len() - at,
    {
        let ghost rest = text@.skip(at as int);
        let ghost done = chars@;
        if stands_at(text, &pattern, at) {
            assert(rest.subrange(0, pattern.len() as int) =~= text@.subrange(
                at as int,
                at + pattern.len(),
            ));
            assert(occurs_at(rest, pattern@, 0));
            assert(rest.skip(pattern.len() as int) =~= text@.skip(at + pattern.len()));
            let mut i: usize = 0;
            while i < with.len()
                invariant
                    i <= with.len(),
                    chars@ == done + with@.take(i as int),
                decreases with.len() - i,
            {
                chars.push(with[i]);
                assert(with@.take(i + 1) =~= with@.take(i as int).push(with@[i as int]));
                i += 1;
            }
            assert(with@.take(with.len() as int) =~= with@);
            at += pattern.len();
            assert(chars@ + replace_all(text@.skip(at as int), pattern@, with@) =~= done + (with@
                + replace_all(text@.skip(at as int), pattern@, with@)));
        } else {
            assert(!occurs_at(rest, pattern@, 0)) by {
                if occurs_at(rest, pattern@, 0) {
                    assert(rest.subrange(0, pattern.len() as int) =~= text@.subrange(
                        at as int,
                        at + pattern.len(),
                    ));
                }
            }
            assert(rest.drop_first() =~= text@.skip(at + 1));
            chars.push(text[at]);
            at += 1;
            assert(chars@ + replace_all(text@.skip(at as int), pattern@, with@) =~= done + (
            seq![rest[0]] + replace_all(text@.skip(at as int), pattern@, with@)));
        }
    }
    assert(chars@ + Seq::<char>::empty() =~= chars@);
    chars
}

/// The digit that `c` writes.
pub open spec fn digit_of(c: char) -> Option<nat> {
    if '0' <= c <= '9' {
        Some((c as nat - '0' as nat) as nat)
    } else {
        None
    }
}

/// The number that the decimal digits `digits` write. A character that is
/// no digit counts as zero.
pub open spec fn decimal(digits: Seq<char>) -> nat
    decreases digits.len(),
{
    if digits.len() == 0 {
        0
    } else {
        decimal(digits.drop_last()) * 10 + match digit_of(digits.last()) {
            Some(d) => d,
            None => 0,
        }
    }
}

/// The number that the digits `digits` write, where they are decimal
/// digits, at least one, and write a number that a `u32` holds.
pub open spec fn parse_digits(digits: Seq<char>) -> Option<u32> {
    if digits.len() > 0 && (forall|i: int|
        0 <= i < digits.len() ==> '0' <= #[trigger] digits[i] <= '9') && decimal(digits)
        <= u32::MAX {
        Some(decimal(digits) as u32)
    } else {
        None
    }
}

/// The number that `text` writes as a `u32` is read from a string:
/// decimal digits, with `+` in front of them or not.
pub open spec fn parse_u32(text: Seq<char>) -> Option<u32> {
    if text.len() > 0 && text[0] == '+' {
        parse_digits(text.drop_first())
    } else {
        parse_digits(text)
    }
}

/// The digit that `c` writes.
pub fn digit(c: char) -> (d: Option<u32>)
    ensures
        match d {
            Some(d) => digit_of(c) == Some(d as nat),
            None => digit_of(c) is None,
        },
{
    if c == '0' {
        Some(0)
    } else if c == '1' {
        Some(1)
    } else if c == '2' {
        Some(2)
    } else if c == '3' {
        Some(3)
    } else if c == '4' {
        Some(4)
    } else if c == '5' {
        Some(5)
    } else if c == '6' {
        Some(6)
    } else if c == '7' {
        Some(7)
    } else if c == '8' {
        Some(8)
    } else if c == '9' {
        Some(9)
    } else {
        None
    }
}

/// A number is not less than what its first digits write.
pub proof fn lemma_decimal_grows(digits: Seq<char>, n: int)
    requires
        0 <= n <= digits.len(),
    ensures
        decimal(digits.take(n)) <= decimal(digits),
    decreases digits.len() - n,
{
    if n < digits.len() {
        lemma_decimal_grows(digits, n + 1);
        assert(digits.take(n + 1).drop_last() =~= digits.take(n));
    } else {
        assert(digits.take(n) =~= digits);
    }
}

/// Reads `text` as a `u32`.
pub fn read_u32(text: &Vec<char>) -> (number: Option<u32>)
    ensures
        number == parse_u32(text@),
{
    let from: usize = if text.len() > 0 && text[0] == '+' {
        1
    } else {
        0
    };
    if from == text.len() {
        return None;
    }
    let ghost digits = text@.skip(from as int);
    let mut value: u32 = 0;
    let mut i: usize = from;
    assert(digits.take(0) =~= Seq::<char>::empty());
    assert(digits =~= if text@.len() > 0 && text@[0] == '+' {
        text@.drop_first()
    } else {
        text@
    });
    while i < text.len()
        invariant
            from <= i <= text.len(),
            digits == text@.skip(from as int),
            digits.len() > 0,
            parse_u32(text@) == parse_digits(digits),
            forall|j: int| 0 <= j < i - from ==> '0' <= #[trigger] digits[j] <= '9',
            value == decimal(digits.take(i - from)),
        decreases text.len() - i,
    {
        let ghost read = digits.take(i - from + 1);
        proof {
            assert(read.drop_last() =~= digits.take(i - from));
            assert(read.last() == text[i as int]);
            lemma_decimal_grows(digits, i - from + 1);
        }
        match digit(text[i]) {
            None => {
                assert(digits[i - from] == text[i as int]);
                return None;
            },
            Some(d) => {
                if value > (u32::MAX - d) / 10 {
                    return None;
                }
                value = value * 10 + d;
            },
        }
        i += 1;
    }
    assert(digits.take(i - from) =~= digits);
    Some(value)
}

} // verus!
