//! White space, numbers and the pieces of a text.

use crate::text;
use vstd::prelude::*;

verus! {

/// The code points that are white space.
pub open spec fn blank(c: char) -> bool {
    let n = c as int;
    ||| 9 <= n <= 13
    ||| n == 32
    ||| n == 133
    ||| n == 160
    ||| n == 5760
    ||| 8192 <= n <= 8202
    ||| 8232 <= n <= 8233
    ||| n == 8239
    ||| n == 8287
    ||| n == 12288
}

/// Whether a text is nothing but white space.
pub open spec fn all_blank(s: Seq<char>) -> bool {
    forall|i: int| 0 <= i < s.len() ==> blank(#[trigger] s[i])
}

/// Whether no character of a text is white space.
pub open spec fn no_blank(s: Seq<char>) -> bool {
    forall|i: int| 0 <= i < s.len() ==> !blank(#[trigger] s[i])
}

/// The characters of a text that are no white space.
pub open spec fn solid(s: Seq<char>) -> Seq<char> {
    s.filter(|c: char| !blank(c))
}

/// Whether a text neither starts nor ends with white space.
pub open spec fn bounded(s: Seq<char>) -> bool {
    s.len() > 0 ==> !blank(s[0]) && !blank(s.last())
}

/// White space are the characters with these code points.
pub proof fn law_white_space(c: char)
    ensures
        text::is_white_space(c) <==> blank(c),
{
}

/// A text without white space has all its other characters, in their order, and no more.
pub proof fn law_only_white_space_is_left_out(s: Seq<char>)
    ensures
        text::without_white_space(s) == solid(s),
    decreases s.len(),
{
    reveal(Seq::filter);
    if s.len() > 0 {
        law_only_white_space_is_left_out(s.drop_last());
        law_white_space(s.last());
    }
}

pub proof fn lemma_trim_start(a: Seq<char>, s: Seq<char>)
    requires
        all_blank(a),
        s.len() > 0 ==> !blank(s[0]),
    ensures
        text::trim_start(a + s) == s,
    decreases a.len(),
{
    if a.len() == 0 {
        assert(a + s =~= s);
        if s.len() > 0 {
            law_white_space(s[0]);
        }
    } else {
        law_white_space(a[0]);
        assert(blank(a[0]));
        assert((a + s).drop_first() =~= a.drop_first() + s);
        assert forall|i: int| 0 <= i < a.drop_first().len() implies blank(
            #[trigger] a.drop_first()[i],
        ) by {
            assert(blank(a[i + 1]));
        }
        lemma_trim_start(a.drop_first(), s);
    }
}

pub proof fn lemma_trim_end(s: Seq<char>, b: Seq<char>)
    requires
        all_blank(b),
        s.len() > 0 ==> !blank(s.last()),
    ensures
        text::trim_end(s + b) == s,
    decreases b.len(),
{
    if b.len() == 0 {
        assert(s + b =~= s);
        if s.len() > 0 {
            law_white_space(s.last());
        }
    } else {
        law_white_space(b.last());
        assert(blank(b[b.len() - 1]));
        assert((s + b).drop_last() =~= s + b.drop_last());
        assert forall|i: int| 0 <= i < b.drop_last().len() implies blank(
            #[trigger] b.drop_last()[i],
        ) by {
            assert(blank(b[i]));
        }
        lemma_trim_end(s, b.drop_last());
    }
}

/// Trimming takes the white space at both ends, and nothing else.
pub proof fn law_trim(a: Seq<char>, s: Seq<char>, b: Seq<char>)
    requires
        all_blank(a),
        all_blank(b),
        bounded(s),
    ensures
        text::trim(a + s + b) == s,
{
    let none = Seq::<char>::empty();
    if s.len() == 0 {
        let all = a + s + b;
        assert(all =~= (a + b) + none);
        assert forall|i: int| 0 <= i < (a + b).len() implies blank(#[trigger] (a + b)[i]) by {
            if i < a.len() {
                assert(blank(a[i]));
            } else {
                assert(blank(b[i - a.len()]));
            }
        }
        lemma_trim_start(a + b, none);
        assert(text::trim(all) =~= none);
        assert(s =~= none);
    } else {
        assert(a + s + b =~= a + (s + b));
        assert((s + b)[0] == s[0]);
        lemma_trim_start(a, s + b);
        lemma_trim_end(s, b);
    }
}

/// A row of one character at the end of a text goes, and nothing else.
pub proof fn law_trim_end_of(s: Seq<char>, c: char, row: Seq<char>)
    requires
        s.len() > 0 ==> s.last() != c,
        forall|i: int| 0 <= i < row.len() ==> #[trigger] row[i] == c,
    ensures
        text::trim_end_of(s + row, c) == s,
    decreases row.len(),
{
    if row.len() == 0 {
        assert(s + row =~= s);
    } else {
        assert(row[row.len() - 1] == c);
        assert((s + row).last() == c);
        assert((s + row).drop_last() =~= s + row.drop_last());
        assert forall|i: int| 0 <= i < row.drop_last().len() implies #[trigger] row.drop_last()[i]
            == c by {
            assert(row[i] == c);
        }
        law_trim_end_of(s, c, row.drop_last());
    }
}

/// The first place of a character is the length of what stands before it.
pub proof fn law_find(a: Seq<char>, c: char, b: Seq<char>)
    requires
        !a.contains(c),
    ensures
        text::find(a + seq![c] + b, c) == Some(a.len() as int),
        text::find(a, c) is None,
{
    let s = a + seq![c] + b;
    assert(s[a.len() as int] == c);
    assert forall|j: int| 0 <= j < a.len() implies !text::is_char(c)(#[trigger] s[j]) by {
        assert(s[j] == a[j]);
        assert(a.contains(a[j]));
    }
    text::lemma_position_is(s, text::is_char(c), a.len() as int);
    text::lemma_position(a, text::is_char(c));
    if let Some(i) = text::find(a, c) {
        assert(a.contains(a[i]));
    }
}

/// The decimal digits of a number: the last one is what is over the tens, and those before
/// it are the digits of the tens.
pub proof fn law_decimal(n: nat)
    ensures
        n < 10 ==> text::decimal(n) == seq![(n + 48) as char],
        n >= 10 ==> text::decimal(n) == text::decimal(n / 10).push((n % 10 + 48) as char),
        forall|i: int|
            0 <= i < text::decimal(n).len() ==> 48 <= (#[trigger] text::decimal(n)[i]) as int <= 57,
        text::decimal(n).len() > 0,
    decreases n,
{
    if n >= 10 {
        law_decimal(n / 10);
    }
    let d = text::decimal(n);
    assert forall|i: int| 0 <= i < d.len() implies 48 <= (#[trigger] d[i]) as int <= 57 by {
        if i < d.len() - 1 {
            assert(d[i] == text::decimal(n / 10)[i]);
        }
    }
}

/// A row of zeros.
pub open spec fn zeros(k: nat) -> Seq<char> {
    Seq::new(k, |i: int| '0')
}

proof fn lemma_zeros(k: nat)
    ensures
        text::number(zeros(k)) == 0,
        text::all_digits(zeros(k)),
    decreases k,
{
    if k > 0 {
        lemma_zeros((k - 1) as nat);
        assert(zeros(k).drop_last() =~= zeros((k - 1) as nat));
    }
}

proof fn lemma_number_behind_zeros(k: nat, n: nat)
    ensures
        text::number(zeros(k) + text::decimal(n)) == n,
        text::all_digits(zeros(k) + text::decimal(n)),
    decreases n,
{
    law_decimal(n);
    lemma_zeros(k);
    let s = zeros(k) + text::decimal(n);
    assert forall|i: int| 0 <= i < s.len() implies text::is_digit(#[trigger] s[i]) by {
        if i >= k {
            assert(s[i] == text::decimal(n)[i - k]);
        }
    }
    if n < 10 {
        assert(s.drop_last() =~= zeros(k));
    } else {
        lemma_number_behind_zeros(k, n / 10);
        assert(s.drop_last() =~= zeros(k) + text::decimal(n / 10));
    }
}

/// A number is read from its decimal digits, with or without a plus sign and zeros in front,
/// if it fits into 32 bits; a greater one is not read.
pub proof fn law_numbers_read_back(k: nat, n: nat)
    ensures
        n <= u32::MAX ==> text::unsigned(zeros(k) + text::decimal(n)) == Some(n as u32),
        n <= u32::MAX ==> text::unsigned(seq!['+'] + (zeros(k) + text::decimal(n))) == Some(
            n as u32,
        ),
        n > u32::MAX ==> text::unsigned(zeros(k) + text::decimal(n)) is None,
{
    lemma_number_behind_zeros(k, n);
    law_decimal(n);
    let s = zeros(k) + text::decimal(n);
    assert(text::is_digit(s[0]));
    assert(text::after_plus(s) == s);
    assert((seq!['+'] + s).drop_first() =~= s);
}

proof fn lemma_digits_are_a_number(s: Seq<char>)
    requires
        s.len() > 0,
        text::all_digits(s),
    ensures
        exists|k: nat| s == #[trigger] zeros(k) + text::decimal(text::number(s)),
    decreases s.len(),
{
    let before = s.drop_last();
    let n = text::number(s);
    let m = text::number(before);
    assert(text::is_digit(s[s.len() - 1]));
    law_decimal(n);
    if before.len() == 0 {
        assert(text::number(before) == 0);
        assert(s =~= zeros(0) + text::decimal(n));
    } else {
        assert forall|i: int| 0 <= i < before.len() implies text::is_digit(
            #[trigger] before[i],
        ) by {
            assert(text::is_digit(s[i]));
        }
        lemma_digits_are_a_number(before);
        let k = choose|k: nat| before == #[trigger] zeros(k) + text::decimal(m);
        if m == 0 {
            law_decimal(m);
            assert(before =~= zeros(k + 1));
            assert(s =~= zeros(k + 1) + text::decimal(n));
        } else {
            assert(n / 10 == m);
            assert(n % 10 == s.last() as nat - 48);
            assert((n % 10 + 48) as char == s.last());
            assert(s =~= before.push(s.last()));
            assert(s =~= zeros(k) + text::decimal(n));
        }
    }
}

/// What is read as a number are its decimal digits, with or without a plus sign and zeros in
/// front, and nothing else.
pub proof fn law_only_numbers_are_read(s: Seq<char>)
    requires
        text::unsigned(s) is Some,
    ensures
        exists|k: nat|
            s == #[trigger] zeros(k) + text::decimal(text::unsigned(s)->0 as nat) || s == seq!['+']
                + (zeros(k) + text::decimal(text::unsigned(s)->0 as nat)),
{
    let digits = text::after_plus(s);
    lemma_digits_are_a_number(digits);
    let k = choose|k: nat| digits == #[trigger] zeros(k) + text::decimal(text::number(digits));
    if digits != s {
        assert(s =~= seq!['+'] + digits);
    }
    assert(s == zeros(k) + text::decimal(text::unsigned(s)->0 as nat) || s == seq!['+'] + (zeros(k)
        + text::decimal(text::unsigned(s)->0 as nat)));
}

/// Texts with a separator between them are taken apart at the separator.
pub proof fn law_split(a: Seq<char>, c: char, b: Seq<char>)
    requires
        !a.contains(c),
    ensures
        text::split(a, c) == seq![a],
        text::split(a + seq![c] + b, c) == seq![a] + text::split(b, c),
{
    let s = a + seq![c] + b;
    law_find(a, c, b);
    assert(s.take(a.len() as int) =~= a);
    assert(s.skip(a.len() as int + 1) =~= b);
}

/// Joined texts stand one behind the other, with the separator between each two.
pub proof fn law_join(parts: Seq<Seq<char>>, part: Seq<char>, separator: Seq<char>)
    ensures
        text::join(Seq::empty(), separator).len() == 0,
        text::join(seq![part], separator) == part,
        parts.len() > 0 ==> text::join(parts.push(part), separator) == text::join(parts, separator)
            + separator + part,
{
    assert(parts.push(part).drop_last() =~= parts);
}

} // verus!
