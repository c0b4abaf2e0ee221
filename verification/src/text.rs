//! Text as a sequence of characters: trimming, searching, splitting, numbers.
//!
//! The functions here work on slices of `char`; their contracts speak of
//! `Seq<char>`, the view that `str` and `String` have as well.

use vstd::prelude::*;
use vstd::slice::slice_subrange;

verus! {

/// `String::push` puts one character behind the text that is there.
pub assume_specification[ String::push ](s: &mut String, c: char)
    ensures
        final(s)@ == old(s)@.push(c),
;

/// The characters of a string, in order.
pub fn chars_of(text: &str) -> (chars: Vec<char>)
    ensures
        chars@ == text@,
{
    let mut chars: Vec<char> = Vec::new();
    for c in it: text.chars()
        invariant
            chars@ == it.seq().take(it.index() as int),
            it.seq() == text@,
    {
        chars.push(c);
    }
    chars
}

/// The string made of the given characters.
pub fn string_of(chars: &[char]) -> (text: String)
    ensures
        text@ == chars@,
{
    let mut text = String::new();
    let mut i: usize = 0;
    while i < chars.len()
        invariant
            i <= chars@.len(),
            text@ == chars@.take(i as int),
        decreases chars@.len() - i,
    {
        text.push(chars[i]);
        i = i + 1;
    }
    assert(chars@.take(i as int) == chars@);
    text
}

/// Unicode's `White_Space` property.
pub open spec fn is_white_space(c: char) -> bool {
    ||| '\u{9}' <= c <= '\u{d}'
    ||| c == ' '
    ||| c == '\u{85}'
    ||| c == '\u{a0}'
    ||| c == '\u{1680}'
    ||| '\u{2000}' <= c <= '\u{200a}'
    ||| c == '\u{2028}'
    ||| c == '\u{2029}'
    ||| c == '\u{202f}'
    ||| c == '\u{205f}'
    ||| c == '\u{3000}'
}

/// Whether `c` is white space.
pub fn white_space(c: char) -> (yes: bool)
    ensures
        yes == is_white_space(c),
{
    ('\u{9}' <= c && c <= '\u{d}') || c == ' ' || c == '\u{85}' || c == '\u{a0}' || c == '\u{1680}'
        || ('\u{2000}' <= c && c <= '\u{200a}') || c == '\u{2028}' || c == '\u{2029}' || c
        == '\u{202f}' || c == '\u{205f}' || c == '\u{3000}'
}

/// `s` without the white space it starts with.
pub open spec fn trim_start(s: Seq<char>) -> Seq<char>
    decreases s.len(),
{
    if s.len() > 0 && is_white_space(s[0]) {
        trim_start(s.drop_first())
    } else {
        s
    }
}

/// `s` without the white space it ends with.
pub open spec fn trim_end(s: Seq<char>) -> Seq<char>
    decreases s.len(),
{
    if s.len() > 0 && is_white_space(s.last()) {
        trim_end(s.drop_last())
    } else {
        s
    }
}

/// `s` without white space at either end.
pub open spec fn trim(s: Seq<char>) -> Seq<char> {
    trim_end(trim_start(s))
}

/// `s` without the run of `c` it ends with.
pub open spec fn trim_end_of(s: Seq<char>, c: char) -> Seq<char>
    decreases s.len(),
{
    if s.len() > 0 && s.last() == c {
        trim_end_of(s.drop_last(), c)
    } else {
        s
    }
}

/// `s` without the white space it starts with.
pub fn trimmed_start(s: &[char]) -> (t: &[char])
    ensures
        t@ == trim_start(s@),
{
    let mut i: usize = 0;
    assert(s@.skip(0) == s@);
    while i < s.len() && white_space(s[i])
        invariant
            i <= s@.len(),
            trim_start(s@.skip(i as int)) == trim_start(s@),
        decreases s@.len() - i,
    {
        assert(s@.skip(i as int).drop_first() == s@.skip(i + 1));
        i = i + 1;
    }
    slice_subrange(s, i, s.len())
}

/// `s` without the white space it ends with.
pub fn trimmed_end(s: &[char]) -> (t: &[char])
    ensures
        t@ == trim_end(s@),
{
    let mut n: usize = s.len();
    assert(s@.take(n as int) == s@);
    while n > 0 && white_space(s[n - 1])
        invariant
            n <= s@.len(),
            trim_end(s@.take(n as int)) == trim_end(s@),
        decreases n,
    {
        assert(s@.take(n as int).drop_last() == s@.take(n - 1));
        n = n - 1;
    }
    slice_subrange(s, 0, n)
}

/// `str::trim` on characters.
pub fn trimmed(s: &[char]) -> (t: &[char])
    ensures
        t@ == trim(s@),
{
    trimmed_end(trimmed_start(s))
}

/// `str::trim_end_matches` for a single character.
pub fn trimmed_end_of(s: &[char], c: char) -> (t: &[char])
    ensures
        t@ == trim_end_of(s@, c),
{
    let mut n: usize = s.len();
    assert(s@.take(n as int) == s@);
    while n > 0 && s[n - 1] == c
        invariant
            n <= s@.len(),
            trim_end_of(s@.take(n as int), c) == trim_end_of(s@, c),
        decreases n,
    {
        assert(s@.take(n as int).drop_last() == s@.take(n - 1));
        n = n - 1;
    }
    slice_subrange(s, 0, n)
}

/// Where the first character of `s` that satisfies `p` stands.
pub open spec fn position(s: Seq<char>, p: spec_fn(char) -> bool) -> Option<int>
    decreases s.len(),
{
    if s.len() == 0 {
        None
    } else if p(s[0]) {
        Some(0)
    } else {
        match position(s.drop_first(), p) {
            Some(i) => Some(i + 1),
            None => None,
        }
    }
}

/// What `position` promises: the first place where `p` holds, if there is one.
pub proof fn lemma_position(s: Seq<char>, p: spec_fn(char) -> bool)
    ensures
        match position(s, p) {
            Some(i) => 0 <= i < s.len() && p(s[i]) && forall|j: int|
                0 <= j < i ==> !p(#[trigger] s[j]),
            None => forall|j: int| 0 <= j < s.len() ==> !p(#[trigger] s[j]),
        },
    decreases s.len(),
{
    if s.len() > 0 && !p(s[0]) {
        let t = s.drop_first();
        lemma_position(t, p);
        assert forall|j: int| 0 < j < s.len() implies s[j] == t[j - 1] by {}
    }
}

/// The first place where `p` holds is what `position` gives.
pub proof fn lemma_position_is(s: Seq<char>, p: spec_fn(char) -> bool, i: int)
    requires
        0 <= i < s.len(),
        p(s[i]),
        forall|j: int| 0 <= j < i ==> !p(#[trigger] s[j]),
    ensures
        position(s, p) == Some(i),
{
    lemma_position(s, p);
}

/// The test for one character.
pub open spec fn is_char(c: char) -> spec_fn(char) -> bool {
    |x: char| x == c
}

/// Where `c` first stands in `s`.
pub open spec fn find(s: Seq<char>, c: char) -> Option<int> {
    position(s, is_char(c))
}

/// `str::find` for a character.
pub fn find_char(s: &[char], c: char) -> (at: Option<usize>)
    ensures
        match at {
            Some(i) => i < s@.len() && find(s@, c) == Some(i as int),
            None => find(s@, c) is None,
        },
{
    let mut i: usize = 0;
    while i < s.len()
        invariant
            i <= s@.len(),
            forall|j: int| 0 <= j < i ==> s@[j] != c,
        decreases s@.len() - i,
    {
        if s[i] == c {
            proof {
                lemma_position_is(s@, is_char(c), i as int);
            }
            return Some(i);
        }
        i = i + 1;
    }
    proof {
        lemma_position(s@, is_char(c));
    }
    None
}

/// Whether `s` holds `c`.
pub fn holds_char(s: &[char], c: char) -> (yes: bool)
    ensures
        yes == s@.contains(c),
{
    let mut i: usize = 0;
    while i < s.len()
        invariant
            i <= s@.len(),
            forall|j: int| 0 <= j < i ==> s@[j] != c,
        decreases s@.len() - i,
    {
        if s[i] == c {
            return true;
        }
        i = i + 1;
    }
    false
}

/// Where `pattern` first stands in `s`.
pub open spec fn find_text(s: Seq<char>, pattern: Seq<char>) -> Option<int>
    decreases s.len(),
{
    if s.len() < pattern.len() {
        None
    } else if s.take(pattern.len() as int) == pattern {
        Some(0)
    } else if s.len() == 0 {
        None
    } else {
        match find_text(s.drop_first(), pattern) {
            Some(i) => Some(i + 1),
            None => None,
        }
    }
}

/// Whether `pattern` stands in `s` from place `i` on.
pub open spec fn occurs(s: Seq<char>, i: int, pattern: Seq<char>) -> bool {
    0 <= i && i + pattern.len() <= s.len() && s.subrange(i, i + pattern.len()) == pattern
}

/// What `find_text` promises: the first place where the pattern stands.
pub proof fn lemma_find_text(s: Seq<char>, pattern: Seq<char>)
    ensures
        match find_text(s, pattern) {
            Some(i) => occurs(s, i, pattern) && forall|j: int| j < i ==> !occurs(s, j, pattern),
            None => forall|j: int| !occurs(s, j, pattern),
        },
    decreases s.len(),
{
    let n = pattern.len() as int;
    if s.len() >= n && s.take(n) != pattern && s.len() > 0 {
        let t = s.drop_first();
        lemma_find_text(t, pattern);
        assert forall|j: int| j != 0 implies #[trigger] occurs(s, j, pattern) == occurs(
            t,
            j - 1,
            pattern,
        ) by {
            if 0 < j && j + n <= s.len() {
                assert(s.subrange(j, j + n) =~= t.subrange(j - 1, j - 1 + n));
            }
        }
    }
}

/// Whether `s` starts with `prefix`.
pub open spec fn starts_with(s: Seq<char>, prefix: Seq<char>) -> bool {
    s.len() >= prefix.len() && s.take(prefix.len() as int) == prefix
}

/// Whether the text `pattern` stands at place `at` of `s`.
pub fn stands_at(s: &[char], at: usize, pattern: &[char]) -> (yes: bool)
    requires
        at <= s@.len(),
    ensures
        yes == occurs(s@, at as int, pattern@),
{
    let n: usize = s.len();
    if n - at < pattern.len() {
        return false;
    }
    let mut i: usize = 0;
    while i < pattern.len()
        invariant
            i <= pattern@.len(),
            at + pattern@.len() <= n == s@.len(),
            forall|j: int| 0 <= j < i ==> s@[at + j] == pattern@[j],
        decreases pattern@.len() - i,
    {
        if s[at + i] != pattern[i] {
            assert(s@.subrange(at as int, at + pattern@.len())[i as int] != pattern@[i as int]);
            return false;
        }
        i = i + 1;
    }
    assert(s@.subrange(at as int, at + pattern@.len()) =~= pattern@);
    true
}

/// `str::starts_with` on characters.
pub fn has_prefix(s: &[char], prefix: &str) -> (yes: bool)
    ensures
        yes == starts_with(s@, prefix@),
{
    let p = chars_of(prefix);
    stands_at(s, 0, p.as_slice())
}

/// Whether the characters are those of the string.
pub fn is_text(s: &[char], text: &str) -> (yes: bool)
    ensures
        yes == (s@ == text@),
{
    let t = chars_of(text);
    if s.len() != t.len() {
        return false;
    }
    let yes = stands_at(s, 0, t.as_slice());
    assert(s@.subrange(0, s@.len() as int) == s@);
    yes
}

/// Whether two strings hold the same characters.
pub fn same_text(a: &str, b: &str) -> (yes: bool)
    ensures
        yes == (a@ == b@),
{
    a.to_owned() == b.to_owned()
}

/// `str::find` for a text.
pub fn find_chars(s: &[char], pattern: &str) -> (at: Option<usize>)
    ensures
        match at {
            Some(i) => i + pattern@.len() <= s@.len() && find_text(s@, pattern@) == Some(i as int),
            None => find_text(s@, pattern@) is None,
        },
{
    let p = chars_of(pattern);
    proof {
        lemma_find_text(s@, p@);
    }
    if s.len() < p.len() {
        return None;
    }
    let last: usize = s.len() - p.len();
    let mut i: usize = 0;
    while i < last
        invariant
            i <= last,
            last == s@.len() - p@.len(),
            p@ == pattern@,
            forall|j: int| 0 <= j < i ==> !occurs(s@, j, p@),
            match find_text(s@, p@) {
                Some(i) => occurs(s@, i, p@) && forall|j: int| j < i ==> !occurs(s@, j, p@),
                None => forall|j: int| !occurs(s@, j, p@),
            },
        decreases last - i,
    {
        if stands_at(s, i, p.as_slice()) {
            return Some(i);
        }
        i = i + 1;
    }
    if stands_at(s, last, p.as_slice()) {
        Some(last)
    } else {
        None
    }
}

/// The test for white space.
pub open spec fn blank() -> spec_fn(char) -> bool {
    |c: char| is_white_space(c)
}

/// The test for a character that is no decimal digit.
pub open spec fn no_digit() -> spec_fn(char) -> bool {
    |c: char| !is_digit(c)
}

/// Where the first word of `s` ends, if `s` does not start with white space.
pub open spec fn word_end(s: Seq<char>) -> int {
    match position(s, blank()) {
        Some(i) => i,
        None => s.len() as int,
    }
}

/// The first run of characters other than white space; empty if there is none.
pub open spec fn first_word(s: Seq<char>) -> Seq<char> {
    trim_start(s).take(word_end(trim_start(s)))
}

/// What follows the first word.
pub open spec fn after_word(s: Seq<char>) -> Seq<char> {
    trim_start(s).skip(word_end(trim_start(s)))
}

/// The first word and what follows it.
pub fn next_word(s: &[char]) -> (split: (&[char], &[char]))
    ensures
        split.0@ == first_word(s@),
        split.1@ == after_word(s@),
{
    let t = trimmed_start(s);
    let n: usize = t.len();
    let mut i: usize = 0;
    while i < n && !white_space(t[i])
        invariant
            i <= n == t@.len(),
            forall|j: int| 0 <= j < i ==> !blank()(#[trigger] t@[j]),
        decreases n - i,
    {
        i = i + 1;
    }
    proof {
        lemma_position(t@, blank());
        if i < n {
            lemma_position_is(t@, blank(), i as int);
        }
    }
    (slice_subrange(t, 0, i), slice_subrange(t, i, n))
}

/// Where the first character stands that is no decimal digit.
pub fn find_no_digit(s: &[char]) -> (at: Option<usize>)
    ensures
        match at {
            Some(i) => i < s@.len() && position(s@, no_digit()) == Some(i as int),
            None => position(s@, no_digit()) is None,
        },
{
    let mut i: usize = 0;
    while i < s.len()
        invariant
            i <= s@.len(),
            forall|j: int| 0 <= j < i ==> !no_digit()(#[trigger] s@[j]),
        decreases s@.len() - i,
    {
        if !ascii_digit(s[i]) {
            proof {
                lemma_position_is(s@, no_digit(), i as int);
            }
            return Some(i);
        }
        i = i + 1;
    }
    proof {
        lemma_position(s@, no_digit());
    }
    None
}

/// `s` without any white space.
pub open spec fn without_white_space(s: Seq<char>) -> Seq<char>
    decreases s.len(),
{
    if s.len() == 0 {
        s
    } else if is_white_space(s.last()) {
        without_white_space(s.drop_last())
    } else {
        without_white_space(s.drop_last()).push(s.last())
    }
}

/// The words of a text with nothing between them.
pub fn squeezed(text: &str) -> (chars: Vec<char>)
    ensures
        chars@ == without_white_space(text@),
{
    let s = chars_of(text);
    let n: usize = s.len();
    let mut chars: Vec<char> = Vec::new();
    let mut i: usize = 0;
    while i < n
        invariant
            i <= n == s@.len(),
            chars@ == without_white_space(s@.take(i as int)),
        decreases n - i,
    {
        assert(s@.take(i + 1).drop_last() =~= s@.take(i as int));
        if !white_space(s[i]) {
            chars.push(s[i]);
        }
        i = i + 1;
    }
    assert(s@.take(i as int) =~= s@);
    chars
}

/// The pieces of `s` between the places where `c` stands.
pub open spec fn split(s: Seq<char>, c: char) -> Seq<Seq<char>>
    decreases s.len(),
    via split_shrinks
{
    match find(s, c) {
        None => seq![s],
        Some(i) => seq![s.take(i)] + split(s.skip(i + 1), c),
    }
}

#[via_fn]
proof fn split_shrinks(s: Seq<char>, c: char) {
    lemma_position(s, is_char(c));
}

/// `str::split` for a single character.
pub fn split_at_char(s: &[char], c: char) -> (pieces: Vec<Vec<char>>)
    ensures
        views(pieces@) == split(s@, c),
{
    let mut pieces: Vec<Vec<char>> = Vec::new();
    let mut rest: &[char] = s;
    let mut more: bool = true;
    while more
        invariant
            more ==> views(pieces@) + split(rest@, c) == split(s@, c),
            !more ==> views(pieces@) == split(s@, c),
        decreases rest@.len() + (if more { 1int } else { 0 }),
    {
        match find_char(rest, c) {
            Some(i) => {
                let ghost old_pieces = pieces@;
                pieces.push(vstd::slice::slice_to_vec(slice_subrange(rest, 0, i)));
                let ghost old_rest = rest@;
                let n: usize = rest.len();
                rest = slice_subrange(rest, i + 1, n);
                assert(views(pieces@) =~= views(old_pieces).push(old_rest.take(i as int)));
                assert(views(old_pieces) + split(old_rest, c) =~= views(pieces@) + split(rest@, c));
            },
            None => {
                let ghost old_pieces = pieces@;
                pieces.push(vstd::slice::slice_to_vec(rest));
                assert(views(pieces@) =~= views(old_pieces).push(rest@));
                more = false;
            },
        }
    }
    pieces
}

/// What the items of a sequence stand for.
pub open spec fn views<T: View>(s: Seq<T>) -> Seq<T::V> {
    s.map_values(|t: T| t@)
}

/// What an optional value stands for.
pub open spec fn view_of<T: View>(o: Option<T>) -> Option<T::V> {
    match o {
        Some(t) => Some(t@),
        None => None,
    }
}

/// The texts of `parts` with `separator` between each two.
pub open spec fn join(parts: Seq<Seq<char>>, separator: Seq<char>) -> Seq<char>
    decreases parts.len(),
{
    if parts.len() == 0 {
        Seq::empty()
    } else if parts.len() == 1 {
        parts[0]
    } else {
        join(parts.drop_last(), separator) + separator + parts.last()
    }
}

/// `[String]::join`.
pub fn joined(parts: &[String], separator: &str) -> (text: String)
    ensures
        text@ == join(views(parts@), separator@),
{
    let mut text = String::new();
    let mut i: usize = 0;
    while i < parts.len()
        invariant
            i <= parts@.len(),
            text@ == join(views(parts@).take(i as int), separator@),
        decreases parts@.len() - i,
    {
        if i > 0 {
            text.append(separator);
        }
        text.append(parts[i].as_str());
        proof {
            let shorter = views(parts@).take(i as int);
            let longer = views(parts@).take(i + 1);
            assert(longer.drop_last() =~= shorter);
            if i == 0 {
                assert(text@ =~= parts@[0]@);
            }
        }
        i = i + 1;
    }
    assert(views(parts@).take(i as int) =~= views(parts@));
    text
}

/// The decimal digits of a number.
pub open spec fn decimal(n: nat) -> Seq<char>
    decreases n,
{
    if n < 10 {
        seq![digit(n)]
    } else {
        decimal(n / 10).push(digit(n % 10))
    }
}

/// The character for a number below ten.
pub open spec fn digit(n: nat) -> char {
    (48 + n) as char
}

/// Whether `c` is one of the ten decimal digits.
pub open spec fn is_digit(c: char) -> bool {
    '0' <= c <= '9'
}

/// Whether `c` is a decimal digit.
pub fn ascii_digit(c: char) -> (yes: bool)
    ensures
        yes == is_digit(c),
{
    '0' <= c && c <= '9'
}

/// What a number displays as.
pub fn decimal_chars(n: u32) -> (chars: Vec<char>)
    ensures
        chars@ == decimal(n as nat),
    decreases n,
{
    if n < 10 {
        let c: char = (48 + n as u8) as char;
        let mut chars: Vec<char> = Vec::new();
        chars.push(c);
        assert(chars@ =~= decimal(n as nat));
        chars
    } else {
        let mut chars = decimal_chars(n / 10);
        chars.push((48 + (n % 10) as u8) as char);
        chars
    }
}

/// The value of a row of decimal digits.
pub open spec fn number(s: Seq<char>) -> nat
    decreases s.len(),
{
    if s.len() == 0 {
        0
    } else {
        number(s.drop_last()) * 10 + (s.last() as nat - 48) as nat
    }
}

/// Whether every character is a decimal digit.
pub open spec fn all_digits(s: Seq<char>) -> bool {
    forall|i: int| 0 <= i < s.len() ==> is_digit(#[trigger] s[i])
}

/// `s` without the plus sign it may start with.
pub open spec fn after_plus(s: Seq<char>) -> Seq<char> {
    if s.len() > 0 && s[0] == '+' {
        s.drop_first()
    } else {
        s
    }
}

/// The 32-bit number that a text denotes: an optional plus sign and at least one
/// decimal digit, nothing else, and no more than fits.
pub open spec fn unsigned(s: Seq<char>) -> Option<u32> {
    let digits = after_plus(s);
    if digits.len() > 0 && all_digits(digits) && number(digits) <= u32::MAX {
        Some(number(digits) as u32)
    } else {
        None
    }
}

/// `str::parse::<u32>`.
pub fn parse_unsigned(s: &[char]) -> (value: Option<u32>)
    ensures
        value == unsigned(s@),
{
    let digits = if s.len() > 0 && s[0] == '+' {
        slice_subrange(s, 1, s.len())
    } else {
        s
    };
    if digits.len() == 0 {
        return None;
    }
    let mut value: u32 = 0;
    let mut i: usize = 0;
    let mut fits: bool = true;
    while i < digits.len()
        invariant
            i <= digits@.len(),
            digits@ == after_plus(s@),
            all_digits(digits@.take(i as int)),
            fits ==> value == number(digits@.take(i as int)),
            !fits ==> number(digits@.take(i as int)) > u32::MAX,
        decreases digits@.len() - i,
    {
        let c: char = digits[i];
        if !ascii_digit(c) {
            assert(!is_digit(digits@[i as int]));
            return None;
        }
        assert(digits@.take(i + 1).drop_last() =~= digits@.take(i as int));
        let wide: u64 = value as u64 * 10 + (c as u64 - 48);
        if fits && wide <= 0xffff_ffff {
            value = wide as u32;
        } else {
            fits = false;
        }
        i = i + 1;
    }
    assert(digits@.take(i as int) =~= digits@);
    if fits {
        Some(value)
    } else {
        None
    }
}

/// A number reads back from its decimal digits.
pub proof fn law_decimal_reads_back(n: u32)
    ensures
        unsigned(decimal(n as nat)) == Some(n),
{
    lemma_decimal(n as nat);
}

proof fn lemma_decimal(n: nat)
    ensures
        decimal(n).len() > 0,
        all_digits(decimal(n)),
        number(decimal(n)) == n,
    decreases n,
{
    if n < 10 {
        assert(decimal(n).drop_last() =~= Seq::empty());
        assert(number(Seq::empty()) == 0);
    } else {
        lemma_decimal(n / 10);
        assert(decimal(n).drop_last() =~= decimal(n / 10));
    }
}

/// What is left without white space has none, so that taking it out again changes
/// nothing.
pub proof fn law_white_space_goes_once(s: Seq<char>)
    ensures
        forall|i: int|
            0 <= i < without_white_space(s).len() ==> !is_white_space(
                #[trigger] without_white_space(s)[i],
            ),
        without_white_space(without_white_space(s)) == without_white_space(s),
    decreases s.len(),
{
    if s.len() > 0 {
        law_white_space_goes_once(s.drop_last());
        let before = without_white_space(s.drop_last());
        if !is_white_space(s.last()) {
            assert(before.push(s.last()).drop_last() =~= before);
        }
    }
}

} // verus!
