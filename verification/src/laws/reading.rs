//! What is read from a schema text.

use crate::laws::words;
use crate::parser;
use crate::schema::{FieldView, MethodView, NodeKind};
use crate::text;
use vstd::prelude::*;

verus! {

/// Whether a name, as it stands at the start of a statement, is one of the words that
/// declare something other than a field.
pub open spec fn is_keyword_start(s: Seq<char>) -> bool {
    ||| "using "@.is_prefix_of(s)
    ||| "const "@.is_prefix_of(s)
    ||| "annotation "@.is_prefix_of(s)
    ||| "union "@.is_prefix_of(s)
}

proof fn lemma_prefix(s: Seq<char>, prefix: Seq<char>)
    ensures
        text::starts_with(s, prefix) <==> prefix.is_prefix_of(s),
{
}

proof fn lemma_keywords(s: Seq<char>)
    ensures
        parser::declares_no_field(s) <==> is_keyword_start(s),
{
    lemma_prefix(s, "using "@);
    lemma_prefix(s, "const "@);
    lemma_prefix(s, "annotation "@);
    lemma_prefix(s, "union "@);
}

/// A row of semicolons.
pub open spec fn semicolons(k: nat) -> Seq<char> {
    Seq::new(k, |i: int| ';')
}

/// A member as it is written: a name, an ordinal, and what follows.
pub open spec fn written(
    name: Seq<char>,
    a: Seq<char>,
    b: Seq<char>,
    n: u32,
    rest: Seq<char>,
) -> Seq<char> {
    name + a + seq!['@'] + (b + text::decimal(n as nat) + rest)
}

proof fn lemma_written(name: Seq<char>, a: Seq<char>, b: Seq<char>, n: u32, rest: Seq<char>)
    requires
        name.len() > 0,
        words::bounded(name),
        !name.contains('@'),
        words::all_blank(a),
    ensures
        ({
            let s = written(name, a, b, n, rest);
            let at = (name.len() + a.len()) as int;
            &&& text::find(s, '@') == Some(at)
            &&& text::trim(s.take(at)) == name
            &&& s.skip(at + 1) == b + text::decimal(n as nat) + rest
        }),
{
    let s = written(name, a, b, n, rest);
    let front = name + a;
    let back = b + text::decimal(n as nat) + rest;
    assert(!front.contains('@')) by {
        if front.contains('@') {
            let i = choose|i: int| 0 <= i < front.len() && front[i] == '@';
            if i < name.len() {
                assert(name[i] == '@');
            } else {
                assert(words::blank(a[i - name.len()]));
            }
        }
    }
    words::law_find(front, '@', back);
    assert(s =~= front + seq!['@'] + back);
    assert(s.take(front.len() as int) =~= Seq::<char>::empty() + name + a);
    words::law_trim(Seq::empty(), name, a);
    assert(s.skip(front.len() as int + 1) =~= back);
}

proof fn lemma_ordinal(b: Seq<char>, n: u32, c: Seq<char>)
    requires
        words::all_blank(b),
        words::all_blank(c),
    ensures
        parser::ordinal_of(b + text::decimal(n as nat) + c) == Some(n),
{
    let d = text::decimal(n as nat);
    words::law_decimal(n as nat);
    words::law_trim(b, d, c);
    words::law_numbers_read_back(0, n as nat);
    assert(words::zeros(0) + d =~= d);
}

/// A value behind white space and before semicolons, as it is taken.
pub proof fn lemma_value(d: Seq<char>, value: Seq<char>, e: Seq<char>, k: nat)
    requires
        words::all_blank(d),
        words::all_blank(e),
        words::bounded(value),
        value.len() > 0,
        value.last() != ';',
    ensures
        text::trim(text::trim_end_of(text::trim(d + value + e + semicolons(k)), ';')) == value,
{
    let none = Seq::<char>::empty();
    let all = d + value + e + semicolons(k);
    if k == 0 {
        assert(all =~= d + value + e);
        words::law_trim(d, value, e);
        words::law_trim_end_of(value, ';', none);
        assert(value + none =~= value);
        words::law_trim(none, value, none);
        assert(none + value + none =~= value);
    } else {
        let body = value + e + semicolons(k);
        assert(body.last() == ';');
        assert(body[0] == value[0]);
        words::law_trim(d, body, none);
        assert(all =~= d + body + none);
        let inner = value + e;
        assert(inner.last() != ';') by {
            if e.len() > 0 {
                assert(words::blank(e[e.len() - 1]));
            }
        }
        words::law_trim_end_of(inner, ';', semicolons(k));
        words::law_trim(none, value, e);
        assert(none + value + e =~= inner);
    }
}

/// What stands behind the colon of a field: the type, and the default value if there is one.
pub open spec fn typed(ty: Seq<char>, default: Option<(Seq<char>, Seq<char>, Seq<char>)>) -> Seq<
    char,
> {
    match default {
        None => ty,
        Some((f, g, value)) => ty + f + seq!['='] + (g + value),
    }
}

/// A field is read from the way it is written, whatever white space stands between its
/// parts: its ordinal is the number written, its name, type and default value are the texts
/// written.
pub proof fn law_written_field_reads_back(
    name: Seq<char>,
    a: Seq<char>,
    b: Seq<char>,
    n: u32,
    c: Seq<char>,
    d: Seq<char>,
    ty: Seq<char>,
    default: Option<(Seq<char>, Seq<char>, Seq<char>)>,
    e: Seq<char>,
    k: nat,
)
    requires
        words::all_blank(a),
        words::all_blank(b),
        words::all_blank(c),
        words::all_blank(d),
        words::all_blank(e),
        name.len() > 0,
        words::bounded(name),
        !name.contains('@'),
        !is_keyword_start(
            written(name, a, b, n, c + seq![':'] + (d + typed(ty, default) + e + semicolons(k))),
        ),
        ty.len() > 0,
        words::bounded(ty),
        !ty.contains('='),
        match default {
            None => ty.last() != ';',
            Some((f, g, value)) => words::all_blank(f) && words::all_blank(g) && value.len() > 0
                && words::bounded(value) && value.last() != ';',
        },
    ensures
        parser::field_of(
            written(name, a, b, n, c + seq![':'] + (d + typed(ty, default) + e + semicolons(k))),
        ) == Some(
            (
                n,
                FieldView {
                    name,
                    ty,
                    default: match default {
                        None => None,
                        Some((f, g, value)) => Some(value),
                    },
                },
            ),
        ),
{
    let value = typed(ty, default);
    let tail = d + value + e + semicolons(k);
    let rest = c + seq![':'] + tail;
    let s = written(name, a, b, n, rest);
    let at = (name.len() + a.len()) as int;
    let digits = text::decimal(n as nat);
    lemma_written(name, a, b, n, rest);
    lemma_keywords(s);
    words::law_decimal(n as nat);
    let between = seq!['@'] + (b + digits + c);
    assert(!between.contains(':')) by {
        if between.contains(':') {
            let i = choose|i: int| 0 <= i < between.len() && between[i] == ':';
            if 0 < i <= b.len() {
                assert(words::blank(b[i - 1]));
            } else if b.len() < i <= b.len() + digits.len() {
                assert(48 <= digits[i - 1 - b.len()] as int <= 57);
            } else if i > 0 {
                assert(words::blank(c[i - 1 - b.len() - digits.len()]));
            }
        }
    }
    words::law_find(between, ':', tail);
    assert(s.skip(at) =~= between + seq![':'] + tail);
    let colon = at + between.len();
    assert(s.subrange(at + 1, colon) =~= b + digits + c);
    assert(s.skip(colon + 1) =~= tail);
    lemma_ordinal(b, n, c);
    assert(value[0] == ty[0]);
    assert(value.last() != ';' && !words::blank(value.last()));
    lemma_value(d, value, e, k);
    lemma_type(ty, default);
}

proof fn lemma_type(ty: Seq<char>, default: Option<(Seq<char>, Seq<char>, Seq<char>)>)
    requires
        words::bounded(ty),
        !ty.contains('='),
        match default {
            None => true,
            Some((f, g, value)) => words::all_blank(f) && words::all_blank(g) && value.len() > 0
                && words::bounded(value),
        },
    ensures
        parser::type_and_default(typed(ty, default)) == (
            ty,
            match default {
                None => None,
                Some((f, g, value)) => Some(value),
            },
        ),
{
    let none = Seq::<char>::empty();
    let whole = typed(ty, default);
    match default {
        None => {
            words::law_find(ty, '=', none);
            words::law_trim(none, ty, none);
            assert(none + ty + none =~= ty);
        },
        Some((f, g, value)) => {
            let front = ty + f;
            assert(!front.contains('=')) by {
                if front.contains('=') {
                    let i = choose|i: int| 0 <= i < front.len() && front[i] == '=';
                    if i < ty.len() {
                        assert(ty[i] == '=');
                    } else {
                        assert(words::blank(f[i - ty.len()]));
                    }
                }
            }
            words::law_find(front, '=', g + value);
            assert(whole =~= front + seq!['='] + (g + value));
            assert(whole.take(front.len() as int) =~= none + ty + f);
            assert(whole.skip(front.len() as int + 1) =~= g + value + none);
            words::law_trim(none, ty, f);
            words::law_trim(g, value, none);
        },
    }
}

/// A field that is written in the usual way, `name @ordinal :type;`, is read as written, for
/// every ordinal of 32 bits.
pub proof fn law_usual_field_reads_back(name: Seq<char>, n: u32, ty: Seq<char>)
    requires
        name.len() > 0,
        words::bounded(name),
        !name.contains('@'),
        !is_keyword_start(name + " "@),
        ty.len() > 0,
        words::bounded(ty),
        !ty.contains('='),
        ty.last() != ';',
    ensures
        parser::field_of(name + " @"@ + text::decimal(n as nat) + " :"@ + ty + ";"@) == Some(
            (n, FieldView { name, ty, default: None }),
        ),
{
    reveal_strlit(" ");
    reveal_strlit(" @");
    reveal_strlit(" :");
    reveal_strlit(";");
    reveal_strlit("using ");
    reveal_strlit("const ");
    reveal_strlit("annotation ");
    reveal_strlit("union ");
    let none = Seq::<char>::empty();
    let space = seq![' '];
    let s = name + " @"@ + text::decimal(n as nat) + " :"@ + ty + ";"@;
    let w = written(
        name,
        space,
        none,
        n,
        space + seq![':'] + (none + typed(ty, None) + none + semicolons(1)),
    );
    assert(s =~= w);
    assert(name + " "@ =~= name + space);
    assert((name + space).is_prefix_of(s)) by {
        assert(name + space =~= s.take(name.len() as int + 1));
    }
    assert(!is_keyword_start(s)) by {
        lemma_no_keyword(name, s, "using "@);
        lemma_no_keyword(name, s, "const "@);
        lemma_no_keyword(name, s, "annotation "@);
        lemma_no_keyword(name, s, "union "@);
    }
    law_written_field_reads_back(name, space, none, n, space, none, ty, None, none, 1);
}

/// A statement starts with a word and a space only if its name does.
proof fn lemma_no_keyword(name: Seq<char>, s: Seq<char>, word: Seq<char>)
    requires
        word.len() > 0,
        word.last() == ' ',
        forall|i: int| 0 <= i < word.len() - 1 ==> !words::blank(#[trigger] word[i]),
        (name + seq![' ']).is_prefix_of(s),
        name.len() > 0,
        words::bounded(name),
    ensures
        word.is_prefix_of(s) ==> word.is_prefix_of(name + seq![' ']),
{
    let front = name + seq![' '];
    if !word.is_prefix_of(s) {
    } else if word.len() > front.len() {
        assert(front[name.len() as int] == ' ');
        assert(s[name.len() as int] == ' ');
        assert(word[name.len() as int] == s[name.len() as int]);
        assert(words::blank(word[name.len() as int]));
    } else {
        assert forall|i: int| 0 <= i < word.len() implies word[i] == #[trigger] front[i] by {
            assert(word[i] == s[i]);
            assert(front[i] == s[i]);
        }
        assert(word =~= front.take(word.len() as int));
    }
}

/// An enum value is read from the way it is written, whatever white space stands between its
/// parts.
pub proof fn law_written_enum_value_reads_back(
    name: Seq<char>,
    a: Seq<char>,
    b: Seq<char>,
    n: u32,
    c: Seq<char>,
    k: nat,
)
    requires
        words::all_blank(a),
        words::all_blank(b),
        words::all_blank(c),
        name.len() > 0,
        words::bounded(name),
        !name.contains('@'),
    ensures
        parser::enum_value_of(written(name, a, b, n, c + semicolons(k))) == Some((n, name)),
{
    let digits = text::decimal(n as nat);
    let rest = c + semicolons(k);
    lemma_written(name, a, b, n, rest);
    words::law_decimal(n as nat);
    let body = b + digits + c;
    assert(body.last() != ';') by {
        if c.len() > 0 {
            assert(words::blank(c[c.len() - 1]));
        } else {
            assert(48 <= digits[digits.len() - 1] as int <= 57);
        }
    }
    words::law_trim_end_of(body, ';', semicolons(k));
    assert(b + digits + rest =~= body + semicolons(k));
    lemma_ordinal(b, n, c);
}

/// A method is read from the way it is written: its signature is all that follows the
/// ordinal, parameters and results alike.
pub proof fn law_written_method_reads_back(
    name: Seq<char>,
    a: Seq<char>,
    b: Seq<char>,
    n: u32,
    c: Seq<char>,
    signature: Seq<char>,
    e: Seq<char>,
    k: nat,
)
    requires
        words::all_blank(a),
        words::all_blank(b),
        words::all_blank(c),
        words::all_blank(e),
        name.len() > 0,
        words::bounded(name),
        !name.contains('@'),
        signature.len() > 0,
        words::bounded(signature),
        signature.last() != ';',
        c.len() > 0 || !(48 <= signature[0] as int <= 57),
    ensures
        parser::method_of(written(name, a, b, n, c + signature + e + semicolons(k))) == Some(
            (n, MethodView { name, signature }),
        ),
{
    let none = Seq::<char>::empty();
    let digits = text::decimal(n as nat);
    let rest = c + signature + e + semicolons(k);
    lemma_written(name, a, b, n, rest);
    words::law_decimal(n as nat);
    let inner = digits + c + signature;
    let body = b + inner + e;
    assert(body.last() != ';') by {
        if e.len() > 0 {
            assert(words::blank(e[e.len() - 1]));
        }
    }
    assert(b + digits + rest =~= body + semicolons(k));
    words::law_trim_end_of(body, ';', semicolons(k));
    words::law_trim(b, inner, e);
    let end = digits.len() as int;
    assert(text::no_digit()(inner[end])) by {
        if c.len() > 0 {
            assert(words::blank(c[0]));
            assert(inner[end] == c[0]);
        } else {
            assert(inner[end] == signature[0]);
        }
    }
    assert forall|j: int| 0 <= j < end implies !text::no_digit()(#[trigger] inner[j]) by {
        assert(48 <= digits[j] as int <= 57);
        assert(inner[j] == digits[j]);
    }
    text::lemma_position_is(inner, text::no_digit(), end);
    assert(inner.take(end) =~= none + digits + none);
    lemma_ordinal(none, n, none);
    assert(inner.skip(end) =~= c + signature + none);
    words::law_trim(c, signature, none);
}

/// What declares no field: a statement that starts with one of four words, one without an
/// ordinal, without a colon behind it, without a name, or without a type; and one whose
/// ordinal is no number.
pub proof fn law_no_field(s: Seq<char>)
    ensures
        is_keyword_start(s) ==> parser::field_of(s) is None,
        !s.contains('@') ==> parser::field_of(s) is None,
        !s.contains(':') ==> parser::field_of(s) is None,
        forall|a: Seq<char>, b: Seq<char>|
            words::all_blank(a) && s == #[trigger] (a + seq!['@'] + b) ==> parser::field_of(s)
                is None,
        forall|a: Seq<char>, b: Seq<char>, c: Seq<char>|
            !a.contains('@') && !b.contains(':') && text::unsigned(text::trim(b)) is None && s
                == #[trigger] (a + seq!['@'] + b + seq![':'] + c) ==> parser::field_of(s) is None,
{
    let none = Seq::<char>::empty();
    lemma_keywords(s);
    text::lemma_position(s, text::is_char('@'));
    if let Some(at) = text::find(s, '@') {
        assert(s.contains(s[at]));
        text::lemma_position(s.skip(at), text::is_char(':'));
        if let Some(offset) = text::find(s.skip(at), ':') {
            assert(s.contains(s[at + offset]));
        }
    }
    assert forall|a: Seq<char>, b: Seq<char>|
        words::all_blank(a) && s == #[trigger] (a + seq!['@'] + b) implies parser::field_of(s)
        is None by {
        assert(!a.contains('@')) by {
            if a.contains('@') {
                let i = choose|i: int| 0 <= i < a.len() && a[i] == '@';
                assert(words::blank(a[i]));
            }
        }
        words::law_find(a, '@', b);
        assert(s.take(a.len() as int) =~= a + none + none);
        words::law_trim(a, none, none);
    }
    assert forall|a: Seq<char>, b: Seq<char>, c: Seq<char>|
        !a.contains('@') && !b.contains(':') && text::unsigned(text::trim(b)) is None && s
            == #[trigger] (a + seq!['@'] + b + seq![':'] + c) implies parser::field_of(s)
        is None by {
        let back = b + seq![':'] + c;
        assert(s =~= a + seq!['@'] + back);
        words::law_find(a, '@', back);
        let between = seq!['@'] + b;
        assert(!between.contains(':')) by {
            if between.contains(':') {
                let i = choose|i: int| 0 <= i < between.len() && between[i] == ':';
                assert(b[i - 1] == ':');
            }
        }
        words::law_find(between, ':', c);
        let at = a.len() as int;
        assert(s.skip(at) =~= between + seq![':'] + c);
        assert(s.subrange(at + 1, at + between.len()) =~= b);
    }
}

/// A field that was read has a name and a type, and all its parts stand in the statement: the
/// name in front of the ordinal, and the type and the default value behind it.
pub proof fn law_read_field_was_written(s: Seq<char>)
    requires
        parser::field_of(s) is Some,
    ensures
        ({
            let (n, field) = parser::field_of(s)->0;
            exists|at: int, colon: int|
                #![trigger s.subrange(at + 1, colon)]
                {
                    &&& 0 <= at < colon < s.len()
                    &&& s[at] == '@'
                    &&& s[colon] == ':'
                    &&& field.name == text::trim(s.take(at))
                    &&& text::unsigned(text::trim(s.subrange(at + 1, colon))) == Some(n)
                    &&& !s.take(at).contains('@')
                    &&& !s.subrange(at, colon).contains(':')
                }
        }),
        (parser::field_of(s)->0).1.name.len() > 0,
        (parser::field_of(s)->0).1.ty.len() > 0,
        (parser::field_of(s)->0).1.default matches Some(value) ==> value.len() > 0,
{
    text::lemma_position(s, text::is_char('@'));
    let at = text::find(s, '@')->0;
    text::lemma_position(s.skip(at), text::is_char(':'));
    let offset = text::find(s.skip(at), ':')->0;
    let colon = at + offset;
    assert(s[at] == '@');
    assert(s.skip(at)[offset] == ':');
    assert(colon != at);
    let (n, field) = parser::field_of(s)->0;
    assert(!s.take(at).contains('@')) by {
        if s.take(at).contains('@') {
            let i = choose|i: int| 0 <= i < at && s.take(at)[i] == '@';
            assert(!text::is_char('@')(s[i]));
        }
    }
    assert(!s.subrange(at, colon).contains(':')) by {
        if s.subrange(at, colon).contains(':') {
            let i = choose|i: int| 0 <= i < offset && s.subrange(at, colon)[i] == ':';
            assert(!text::is_char(':')(s.skip(at)[i]));
        }
    }
    assert(field.name == text::trim(s.take(at)));
    assert(text::unsigned(text::trim(s.subrange(at + 1, colon))) == Some(n));
}

/// Nothing but an ordinal may follow the name of an enum value.
pub proof fn law_no_enum_value(s: Seq<char>)
    ensures
        !s.contains('@') ==> parser::enum_value_of(s) is None,
        forall|a: Seq<char>, b: Seq<char>, k: nat|
            !a.contains('@') && (b.len() > 0 ==> b.last() != ';') && (text::trim(a).len() == 0
                || text::unsigned(text::trim(b)) is None) && s == #[trigger] (a + seq!['@'] + (b
                + semicolons(k))) ==> parser::enum_value_of(s) is None,
{
    text::lemma_position(s, text::is_char('@'));
    if let Some(at) = text::find(s, '@') {
        assert(s.contains(s[at]));
    }
    assert forall|a: Seq<char>, b: Seq<char>, k: nat|
        !a.contains('@') && (b.len() > 0 ==> b.last() != ';') && (text::trim(a).len() == 0
            || text::unsigned(text::trim(b)) is None) && s == #[trigger] (a + seq!['@'] + (b
            + semicolons(k))) implies parser::enum_value_of(s) is None by {
        words::law_find(a, '@', b + semicolons(k));
        words::law_trim_end_of(b, ';', semicolons(k));
        assert(s.take(a.len() as int) =~= a);
        assert(s.skip(a.len() as int + 1) =~= b + semicolons(k));
    }
}

/// What declares no method: a statement without an ordinal, without a name, without a number
/// behind the `@`, or with nothing behind that number.
pub proof fn law_no_method(s: Seq<char>)
    ensures
        !s.contains('@') ==> parser::method_of(s) is None,
        forall|a: Seq<char>, b: Seq<char>, k: nat|
            !a.contains('@') && (b.len() > 0 ==> b.last() != ';') && (text::trim(a).len() == 0
                || text::trim(b).len() == 0 || !(48 <= text::trim(b)[0] as int <= 57)
                || text::unsigned(text::trim(b)) is Some) && s == #[trigger] (a + seq!['@'] + (b
                + semicolons(k))) ==> parser::method_of(s) is None,
{
    text::lemma_position(s, text::is_char('@'));
    if let Some(at) = text::find(s, '@') {
        assert(s.contains(s[at]));
    }
    assert forall|a: Seq<char>, b: Seq<char>, k: nat|
        !a.contains('@') && (b.len() > 0 ==> b.last() != ';') && (text::trim(a).len() == 0
            || text::trim(b).len() == 0 || !(48 <= text::trim(b)[0] as int <= 57)
            || text::unsigned(text::trim(b)) is Some) && s == #[trigger] (a + seq!['@'] + (b
            + semicolons(k))) implies parser::method_of(s) is None by {
        words::law_find(a, '@', b + semicolons(k));
        words::law_trim_end_of(b, ';', semicolons(k));
        assert(s.take(a.len() as int) =~= a);
        assert(s.skip(a.len() as int + 1) =~= b + semicolons(k));
        let rest = text::trim(b);
        text::lemma_position(rest, text::no_digit());
        if rest.len() > 0 && 48 <= rest[0] as int <= 57 {
            if text::unsigned(rest) is Some && text::trim(a).len() > 0 {
                assert(text::after_plus(rest) == rest);
                assert(text::position(rest, text::no_digit()) is None);
            }
        } else if rest.len() > 0 {
            assert(text::no_digit()(rest[0]));
            assert(text::position(rest, text::no_digit()) == Some(0int));
            let none = Seq::<char>::empty();
            words::law_trim(none, none, none);
            assert(rest.take(0) =~= none + none + none);
            assert(text::after_plus(none) == none);
        }
    }
}

/// A node is opened by a keyword, a name and a brace; what stands between the name and the
/// brace does not count.
pub proof fn law_written_node_opens(
    a: Seq<char>,
    b: Seq<char>,
    name: Seq<char>,
    rest: Seq<char>,
)
    requires
        words::all_blank(a),
        words::all_blank(b),
        b.len() > 0,
        name.len() > 0,
        words::no_blank(name),
        rest.len() > 0 ==> words::blank(rest[0]),
    ensures
        parser::node_start(a + "struct"@ + b + name + rest + seq!['{']) == Some(
            (NodeKind::Struct, name),
        ),
        parser::node_start(a + "enum"@ + b + name + rest + seq!['{']) == Some(
            (NodeKind::Enum, name),
        ),
        parser::node_start(a + "interface"@ + b + name + rest + seq!['{']) == Some(
            (NodeKind::Interface, name),
        ),
{
    reveal_strlit("struct");
    reveal_strlit("enum");
    reveal_strlit("interface");
    lemma_two_words(a, "struct"@, b, name, rest);
    lemma_two_words(a, "enum"@, b, name, rest);
    lemma_two_words(a, "interface"@, b, name, rest);
    assert("enum"@.len() != "struct"@.len());
    assert("interface"@.len() != "struct"@.len());
    assert("interface"@.len() != "enum"@.len());
}

proof fn lemma_word(a: Seq<char>, word: Seq<char>, rest: Seq<char>)
    requires
        words::all_blank(a),
        words::no_blank(word),
        word.len() > 0,
        rest.len() > 0 ==> words::blank(rest[0]),
    ensures
        text::first_word(a + word + rest) == word,
        text::after_word(a + word + rest) == rest,
{
    let t = word + rest;
    assert(!words::blank(word[0]));
    assert(t[0] == word[0]);
    assert(a + word + rest =~= a + t);
    words::lemma_trim_start(a, t);
    assert forall|j: int| 0 <= j < word.len() implies !text::blank()(#[trigger] t[j]) by {
        assert(!words::blank(word[j]));
        words::law_white_space(t[j]);
    }
    text::lemma_position(t, text::blank());
    if rest.len() > 0 {
        words::law_white_space(rest[0]);
        assert(t[word.len() as int] == rest[0]);
        text::lemma_position_is(t, text::blank(), word.len() as int);
    } else {
        if let Some(i) = text::position(t, text::blank()) {
            assert(t[i] == word[i]);
        }
    }
    assert(t.take(word.len() as int) =~= word);
    assert(t.skip(word.len() as int) =~= rest);
}

/// White space at the end of a text takes no word away.
proof fn lemma_two_words(
    a: Seq<char>,
    word: Seq<char>,
    b: Seq<char>,
    name: Seq<char>,
    rest: Seq<char>,
)
    requires
        words::all_blank(a),
        words::all_blank(b),
        b.len() > 0,
        word.len() > 0,
        words::no_blank(word),
        name.len() > 0,
        words::no_blank(name),
        rest.len() > 0 ==> words::blank(rest[0]),
    ensures
        ({
            let s = a + word + b + name + rest + seq!['{'];
            let prefix = text::trim(s.drop_last());
            &&& s.last() == '{'
            &&& text::first_word(prefix) == word
            &&& text::first_word(text::after_word(prefix)) == name
        }),
{
    let none = Seq::<char>::empty();
    let s = a + word + b + name + rest + seq!['{'];
    let (kept, gone) = lemma_split_end(rest);
    let body = word + b + name + kept;
    assert(!words::blank(word[0]));
    assert(body[0] == word[0]);
    assert(!words::blank(name[name.len() - 1]));
    assert(body.last() == if kept.len() > 0 { kept.last() } else { name.last() });
    assert(s.drop_last() =~= a + body + gone);
    words::law_trim(a, body, gone);
    assert(kept.len() > 0 ==> kept[0] == rest[0]);
    let back = b + name + kept;
    assert(words::blank(b[0]));
    assert(back[0] == b[0]);
    assert(body =~= none + word + back);
    lemma_word(none, word, back);
    lemma_word(b, name, kept);
}

/// A text is what is left without white space at its end, and that white space.
proof fn lemma_split_end(s: Seq<char>) -> (parts: (Seq<char>, Seq<char>))
    ensures
        s == parts.0 + parts.1,
        words::all_blank(parts.1),
        parts.0.len() > 0 ==> !words::blank(parts.0.last()),
    decreases s.len(),
{
    if s.len() > 0 && words::blank(s.last()) {
        let (kept, gone) = lemma_split_end(s.drop_last());
        assert(s =~= s.drop_last().push(s.last()));
        assert(s =~= kept + gone.push(s.last()));
        assert forall|i: int| 0 <= i < gone.push(s.last()).len() implies words::blank(
            #[trigger] gone.push(s.last())[i],
        ) by {
            if i < gone.len() {
                assert(words::blank(gone[i]));
            }
        }
        (kept, gone.push(s.last()))
    } else {
        assert(s =~= s + Seq::<char>::empty());
        (s, Seq::empty())
    }
}

/// Nothing else opens a node: there is a brace at the end, and the first word is one of the
/// three keywords.
pub proof fn law_no_node(s: Seq<char>, a: Seq<char>, word: Seq<char>, rest: Seq<char>)
    requires
        words::all_blank(a),
        words::no_blank(word),
        word.len() > 0,
        rest.len() > 0 ==> words::blank(rest[0]),
    ensures
        s.len() == 0 || s.last() != '{' ==> parser::node_start(s) is None,
        word != "struct"@ && word != "enum"@ && word != "interface"@ ==> parser::node_start(
            a + word + rest + seq!['{'],
        ) is None,
        words::all_blank(rest) ==> parser::node_start(a + word + rest + seq!['{']) is None,
{
    let none = Seq::<char>::empty();
    let whole = a + word + rest + seq!['{'];
    let (kept, gone) = lemma_split_end(rest);
    let body = word + kept;
    assert(!words::blank(word[0]));
    assert(!words::blank(word[word.len() - 1]));
    assert(body[0] == word[0]);
    assert(body.last() == if kept.len() > 0 { kept.last() } else { word.last() });
    assert(whole.drop_last() =~= a + body + gone);
    words::law_trim(a, body, gone);
    assert(kept.len() > 0 ==> kept[0] == rest[0]);
    assert(body =~= none + word + kept);
    lemma_word(none, word, kept);
    if words::all_blank(rest) {
        if kept.len() > 0 {
            assert(rest[kept.len() - 1] == kept.last());
        }
        assert(kept =~= none);
        assert(text::trim_start(none) =~= none);
        assert(text::first_word(none) =~= none);
    }
}

} // verus!
