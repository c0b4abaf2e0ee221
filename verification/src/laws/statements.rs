//! How a text is taken apart into statements.

use crate::laws::words;
use crate::lexer;
use crate::text;
use vstd::prelude::*;

verus! {

/// Whether no comment starts in a text.
pub open spec fn plain(s: Seq<char>) -> bool {
    &&& forall|i: int| 0 <= i < s.len() ==> #[trigger] s[i] != '#'
    &&& forall|i: int| 0 <= i < s.len() - 1 ==> !(#[trigger] s[i] == '/' && s[i + 1] == '/')
}

/// Whether a text is a comment, or nothing.
pub open spec fn is_comment(s: Seq<char>) -> bool {
    s.len() > 0 ==> s[0] == '#' || s.len() > 1 && s[0] == '/' && s[1] == '/'
}

proof fn lemma_comment_start(line: Seq<char>, comment: Seq<char>)
    requires
        plain(line),
        is_comment(comment),
        line.len() > 0 && comment.len() > 0 && comment[0] == '/' ==> line.last() != '/',
    ensures
        lexer::comment_start(line + comment) == line.len(),
    decreases line.len(),
{
    let s = line + comment;
    if line.len() == 0 {
        assert(s =~= comment);
    } else {
        assert(s[0] == line[0]);
        assert(!lexer::starts_comment(s)) by {
            if s.len() > 1 && line[0] == '/' && s[1] == '/' {
                if line.len() > 1 {
                    assert(s[1] == line[1]);
                } else {
                    assert(s[1] == comment[0]);
                }
            }
        }
        let shorter = line.drop_first();
        assert(s.drop_first() =~= shorter + comment);
        assert forall|i: int| 0 <= i < shorter.len() implies #[trigger] shorter[i] != '#' by {
            assert(shorter[i] == line[i + 1]);
        }
        assert forall|i: int| 0 <= i < shorter.len() - 1 implies !(#[trigger] shorter[i] == '/'
            && shorter[i + 1] == '/') by {
            assert(shorter[i] == line[i + 1]);
            assert(shorter[i + 1] == line[i + 2]);
        }
        if shorter.len() > 0 {
            assert(shorter.last() == line.last());
        }
        lemma_comment_start(shorter, comment);
    }
}

proof fn lemma_join_front(first: Seq<char>, parts: Seq<Seq<char>>, separator: Seq<char>)
    ensures
        text::join(seq![first] + parts, separator) == if parts.len() == 0 {
            first
        } else {
            first + separator + text::join(parts, separator)
        },
    decreases parts.len(),
{
    let all = seq![first] + parts;
    if parts.len() == 0 {
        assert(all =~= seq![first]);
    } else {
        lemma_join_front(first, parts.drop_last(), separator);
        assert(all.drop_last() =~= seq![first] + parts.drop_last());
        if parts.len() == 1 {
            assert(parts.drop_last() =~= Seq::empty());
        }
        assert(text::join(all, separator) =~= first + separator + text::join(parts, separator));
    }
}

proof fn lemma_some_line(s: Seq<char>)
    ensures
        s.len() > 0 <==> lexer::lines(s).len() > 0,
{
}

/// A comment goes from its `#` or `//` to the end of its line, and what stands before it and
/// on the other lines stays. A carriage return before a line feed goes, too.
pub proof fn law_comment_goes(
    line: Seq<char>,
    comment: Seq<char>,
    carriage_return: bool,
    rest: Seq<char>,
)
    requires
        plain(line),
        is_comment(comment),
        line.len() > 0 && comment.len() > 0 && comment[0] == '/' ==> line.last() != '/',
        !(line + comment).contains('\n'),
        (line + comment).len() > 0 && !carriage_return ==> (line + comment).last() != '\r',
    ensures
        ({
            let ending = if carriage_return {
                seq!['\r'].push('\n')
            } else {
                seq!['\n']
            };
            &&& lexer::uncommented(line + comment + ending + rest) == if rest.len() == 0 {
                line
            } else {
                line + seq!['\n'] + lexer::uncommented(rest)
            }
            &&& lexer::uncommented(line + comment) == line
        }),
{
    let f = |line: Seq<char>| lexer::without_comment(line);
    let whole = line + comment;
    let front = if carriage_return {
        whole.push('\r')
    } else {
        whole
    };
    let ending = if carriage_return {
        seq!['\r'].push('\n')
    } else {
        seq!['\n']
    };
    let s = whole + ending + rest;
    assert(!front.contains('\n')) by {
        if front.contains('\n') {
            let i = choose|i: int| 0 <= i < front.len() && front[i] == '\n';
            assert(whole[i] == '\n');
        }
    }
    words::law_find(front, '\n', rest);
    assert(s =~= front + seq!['\n'] + rest);
    assert(s.take(front.len() as int) =~= front);
    assert(s.skip(front.len() as int + 1) =~= rest);
    assert(lexer::without_return(front) =~= whole);
    assert(lexer::lines(s) =~= seq![whole] + lexer::lines(rest));
    lemma_comment_start(line, comment);
    assert(lexer::without_comment(whole) =~= line);
    assert(lexer::lines(s).map_values(f) =~= seq![line] + lexer::lines(rest).map_values(f));
    lemma_join_front(line, lexer::lines(rest).map_values(f), seq!['\n']);
    lemma_some_line(rest);
    words::law_find(whole, '\n', Seq::empty());
    if whole.len() > 0 {
        assert(lexer::lines(whole).map_values(f) =~= seq![line]);
    } else {
        assert(lexer::lines(whole).map_values(f) =~= Seq::empty());
        assert(line =~= Seq::empty());
    }
}

/// Whether a character ends a statement.
pub open spec fn ends_statement(c: char) -> bool {
    c == ';' || c == '{' || c == '}'
}

/// Whether nothing ends a statement in a text.
pub open spec fn unended(s: Seq<char>) -> bool {
    forall|i: int| 0 <= i < s.len() ==> !ends_statement(#[trigger] s[i])
}

/// Whether white space is tidy: single spaces, and no line feeds, carriage returns or tabs.
pub open spec fn spaced(s: Seq<char>) -> bool {
    &&& forall|i: int|
        0 <= i < s.len() ==> #[trigger] s[i] != '\n' && s[i] != '\r' && s[i] != '\t'
    &&& forall|i: int| 0 < i < s.len() && words::blank(#[trigger] s[i]) ==> s[i - 1] != ' '
}

/// Whether a statement is made of a text: it has the same characters but for white space,
/// which is tidy and at neither end.
pub open spec fn made_of(statement: Seq<char>, s: Seq<char>) -> bool {
    &&& words::solid(statement) == words::solid(s)
    &&& words::bounded(statement)
    &&& spaced(statement)
}

proof fn lemma_solid_add(a: Seq<char>, b: Seq<char>)
    ensures
        words::solid(a + b) == words::solid(a) + words::solid(b),
    decreases b.len(),
{
    reveal(Seq::filter);
    if b.len() == 0 {
        assert(a + b =~= a);
        assert(words::solid(a) + words::solid(b) =~= words::solid(a));
    } else {
        lemma_solid_add(a, b.drop_last());
        assert((a + b).drop_last() =~= a + b.drop_last());
        assert(words::solid(a + b) =~= words::solid(a) + words::solid(b));
    }
}

proof fn lemma_solid_blank(s: Seq<char>)
    ensures
        words::all_blank(s) <==> words::solid(s).len() == 0,
        words::all_blank(s) ==> words::solid(s) == Seq::<char>::empty(),
    decreases s.len(),
{
    reveal(Seq::filter);
    if s.len() > 0 {
        let t = s.drop_last();
        lemma_solid_blank(t);
        if words::all_blank(s) {
            assert forall|i: int| 0 <= i < t.len() implies words::blank(#[trigger] t[i]) by {
                assert(words::blank(s[i]));
            }
            assert(words::blank(s[s.len() - 1]));
        } else if words::all_blank(t) {
            let i = choose|i: int| 0 <= i < s.len() && !words::blank(#[trigger] s[i]);
            if i < t.len() {
                assert(words::blank(t[i]));
            }
        }
    } else {
        assert(words::solid(s) =~= Seq::empty());
    }
}

/// White space at the start, what is between, and white space at the end.
proof fn lemma_parts(s: Seq<char>) -> (parts: (Seq<char>, Seq<char>, Seq<char>))
    ensures
        s == parts.0 + parts.1 + parts.2,
        words::all_blank(parts.0),
        words::bounded(parts.1),
        words::all_blank(parts.2),
    decreases s.len(),
{
    let none = Seq::<char>::empty();
    if s.len() > 0 && words::blank(s[0]) {
        let (a, core, b) = lemma_parts(s.drop_first());
        let longer = seq![s[0]] + a;
        assert(s =~= seq![s[0]] + s.drop_first());
        assert(s =~= longer + core + b);
        assert forall|i: int| 0 <= i < longer.len() implies words::blank(#[trigger] longer[i]) by {
            if i > 0 {
                assert(words::blank(a[i - 1]));
            }
        }
        (longer, core, b)
    } else if s.len() > 0 && words::blank(s.last()) {
        let (a, core, b) = lemma_parts(s.drop_last());
        let longer = b.push(s.last());
        assert(s =~= s.drop_last().push(s.last()));
        assert(s =~= a + core + longer);
        assert forall|i: int| 0 <= i < longer.len() implies words::blank(#[trigger] longer[i]) by {
            if i < b.len() {
                assert(words::blank(b[i]));
            }
        }
        (a, core, longer)
    } else {
        assert(s =~= none + s + none);
        (none, s, none)
    }
}

proof fn lemma_trimmed(s: Seq<char>)
    requires
        spaced(s),
    ensures
        made_of(text::trim(s), s),
{
    let (a, core, b) = lemma_parts(s);
    words::law_trim(a, core, b);
    lemma_solid_add(a + core, b);
    lemma_solid_add(a, core);
    lemma_solid_blank(a);
    lemma_solid_blank(b);
    assert(words::solid(a) + words::solid(core) + words::solid(b) =~= words::solid(core));
    assert forall|i: int| 0 <= i < core.len() implies #[trigger] core[i] != '\n' && core[i] != '\r'
        && core[i] != '\t' by {
        assert(core[i] == s[a.len() + i]);
    }
    assert forall|i: int| 0 < i < core.len() && words::blank(#[trigger] core[i]) implies core[i - 1]
        != ' ' by {
        assert(core[i] == s[a.len() + i]);
        assert(core[i - 1] == s[a.len() + i - 1]);
    }
}

proof fn lemma_collapsed(s: Seq<char>)
    ensures
        words::solid(lexer::collapse(s)) == words::solid(s),
        spaced(lexer::collapse(s)),
    decreases s.len(),
{
    reveal(Seq::filter);
    if s.len() > 0 {
        lemma_collapsed(s.drop_last());
        let before = lexer::collapse(s.drop_last());
        let after = lexer::collapse(s);
        words::law_white_space(s.last());
        assert(before.push(' ').drop_last() =~= before);
        assert(before.push(s.last()).drop_last() =~= before);
        if after != before {
            assert forall|i: int| 0 <= i < after.len() implies #[trigger] after[i] != '\n'
                && after[i] != '\r' && after[i] != '\t' by {
                if i < before.len() {
                    assert(after[i] == before[i]);
                }
            }
            assert forall|i: int| 0 < i < after.len() && words::blank(
                #[trigger] after[i],
            ) implies after[i - 1] != ' ' by {
                if i < before.len() {
                    assert(after[i] == before[i]);
                    assert(after[i - 1] == before[i - 1]);
                } else {
                    assert(after[i - 1] == before.last());
                }
            }
        }
    }
}

proof fn lemma_first_end(s: Seq<char>, c: char, rest: Seq<char>)
    requires
        unended(s),
    ensures
        ends_statement(c) ==> text::position(s + seq![c] + rest, lexer::delimiter()) == Some(
            s.len() as int,
        ),
        text::position(s, lexer::delimiter()) is None,
{
    let all = s + seq![c] + rest;
    assert forall|j: int| 0 <= j < s.len() implies !lexer::delimiter()(#[trigger] all[j]) by {
        assert(!ends_statement(s[j]));
        assert(all[j] == s[j]);
    }
    assert(all[s.len() as int] == c);
    if ends_statement(c) {
        text::lemma_position_is(all, lexer::delimiter(), s.len() as int);
    }
    text::lemma_position(s, lexer::delimiter());
    if let Some(i) = text::position(s, lexer::delimiter()) {
        assert(!ends_statement(s[i]));
    }
}

/// A semicolon or an opening brace ends a statement and belongs to it; what follows is taken
/// apart on its own.
pub proof fn law_statement_ends(s: Seq<char>, c: char, rest: Seq<char>)
    requires
        unended(s),
        c == ';' || c == '{',
    ensures
        ({
            let found = lexer::cut_statements(s + seq![c] + rest);
            &&& found.len() > 0
            &&& made_of(found[0], s.push(c))
            &&& found.drop_first() == lexer::cut_statements(rest)
        }),
{
    let all = s + seq![c] + rest;
    lemma_first_end(s, c, rest);
    assert(all.take(s.len() as int) =~= s);
    assert(all.skip(s.len() as int + 1) =~= rest);
    assert(all[s.len() as int] == c);
    lemma_collapsed(s);
    let tidy = lexer::collapse(s).push(c);
    assert(spaced(tidy)) by {
        let before = lexer::collapse(s);
        assert forall|i: int| 0 <= i < tidy.len() implies #[trigger] tidy[i] != '\n' && tidy[i]
            != '\r' && tidy[i] != '\t' by {
            if i < before.len() {
                assert(tidy[i] == before[i]);
            }
        }
        assert forall|i: int| 0 < i < tidy.len() && words::blank(#[trigger] tidy[i]) implies tidy[i
            - 1] != ' ' by {
            assert(tidy[i] == before[i]);
            assert(tidy[i - 1] == before[i - 1]);
        }
    }
    lemma_trimmed(tidy);
    reveal(Seq::filter);
    assert(tidy.drop_last() =~= lexer::collapse(s));
    assert(s.push(c).drop_last() =~= s);
    assert(words::solid(tidy).len() > 0);
    let st = text::trim(tidy);
    assert(st.len() > 0) by {
        if st.len() == 0 {
            assert(words::solid(st).len() == 0);
        }
    }
    let found = lexer::cut_statements(all);
    assert(found == seq![st] + lexer::cut_statements(rest));
    assert(found.drop_first() =~= lexer::cut_statements(rest));
}

/// A closing brace ends a statement, if there is one, and is a statement of its own.
pub proof fn law_closing_brace_stands_alone(s: Seq<char>, rest: Seq<char>)
    requires
        unended(s),
    ensures
        ({
            let found = lexer::cut_statements(s + seq!['}'] + rest);
            if words::all_blank(s) {
                found == seq![seq!['}']] + lexer::cut_statements(rest)
            } else {
                &&& found.len() > 1
                &&& made_of(found[0], s)
                &&& found.skip(1) == seq![seq!['}']] + lexer::cut_statements(rest)
            }
        }),
{
    let all = s + seq!['}'] + rest;
    lemma_first_end(s, '}', rest);
    assert(all.take(s.len() as int) =~= s);
    assert(all.skip(s.len() as int + 1) =~= rest);
    assert(all[s.len() as int] == '}');
    lemma_collapsed(s);
    lemma_trimmed(lexer::collapse(s));
    lemma_solid_blank(s);
    let st = text::trim(lexer::collapse(s));
    lemma_solid_blank(st);
    let found = lexer::cut_statements(all);
    if words::all_blank(s) {
        assert(st.len() == 0) by {
            if st.len() > 0 {
                assert(words::blank(st[0]));
            }
        }
        assert(found =~= seq![seq!['}']] + lexer::cut_statements(rest));
    } else {
        assert(st.len() > 0);
        assert(found =~= seq![st] + (seq![seq!['}']] + lexer::cut_statements(rest)));
        assert(found.skip(1) =~= seq![seq!['}']] + lexer::cut_statements(rest));
    }
}

/// What stands behind the last end is a statement, if it is more than white space.
pub proof fn law_rest_is_a_statement(s: Seq<char>)
    requires
        unended(s),
    ensures
        ({
            let found = lexer::cut_statements(s);
            if words::all_blank(s) {
                found.len() == 0
            } else {
                found.len() == 1 && made_of(found[0], s)
            }
        }),
{
    lemma_first_end(s, 'x', Seq::empty());
    lemma_collapsed(s);
    lemma_trimmed(lexer::collapse(s));
    lemma_solid_blank(s);
    let st = text::trim(lexer::collapse(s));
    lemma_solid_blank(st);
    if words::all_blank(s) && st.len() > 0 {
        assert(words::blank(st[0]));
    }
}

/// Whether a text is nothing but spaces, line feeds, carriage returns and tabs.
pub open spec fn gap(s: Seq<char>) -> bool {
    s.len() > 0 && forall|i: int|
        0 <= i < s.len() ==> #[trigger] s[i] == ' ' || s[i] == '\n' || s[i] == '\r' || s[i] == '\t'
}

proof fn lemma_gap(a: Seq<char>, g: Seq<char>)
    requires
        gap(g),
    ensures
        lexer::collapse(a + g) == lexer::collapse(a + seq![' ']),
        lexer::collapse(a + g).len() > 0,
        lexer::collapse(a + g).last() == ' ',
    decreases g.len(),
{
    let s = a + g;
    let one = a + seq![' '];
    let c = g.last();
    assert(g[g.len() - 1] == c);
    words::law_white_space(c);
    words::law_white_space(' ');
    assert(one.drop_last() =~= a);
    assert(s.last() == c);
    assert(s.drop_last() =~= a + g.drop_last());
    if g.len() == 1 {
        assert(g.drop_last() =~= Seq::empty());
        assert(a + g.drop_last() =~= a);
    } else {
        let shorter = g.drop_last();
        assert forall|i: int| 0 <= i < shorter.len() implies #[trigger] shorter[i] == ' '
            || shorter[i] == '\n' || shorter[i] == '\r' || shorter[i] == '\t' by {
            assert(shorter[i] == g[i]);
        }
        lemma_gap(a, shorter);
    }
}

proof fn lemma_collapse_on(x: Seq<char>, y: Seq<char>, b: Seq<char>)
    requires
        lexer::collapse(x) == lexer::collapse(y),
    ensures
        lexer::collapse(x + b) == lexer::collapse(y + b),
    decreases b.len(),
{
    if b.len() == 0 {
        assert(x + b =~= x);
        assert(y + b =~= y);
    } else {
        lemma_collapse_on(x, y, b.drop_last());
        assert((x + b).drop_last() =~= x + b.drop_last());
        assert((y + b).drop_last() =~= y + b.drop_last());
    }
}

/// Words stay apart, and how far apart they stand makes no difference: any run of spaces,
/// line feeds, carriage returns and tabs counts as one space.
pub proof fn law_gaps_count_as_spaces(
    a: Seq<char>,
    g: Seq<char>,
    b: Seq<char>,
    c: char,
    rest: Seq<char>,
)
    requires
        unended(a),
        unended(b),
        gap(g),
        ends_statement(c),
    ensures
        lexer::cut_statements(a + g + b + seq![c] + rest) == lexer::cut_statements(
            a + seq![' '] + b + seq![c] + rest,
        ),
        spaced(a) && words::bounded(a) && c != '}' ==> lexer::cut_statements(
            a + seq![c] + rest,
        )[0] == a.push(c),
{
    let x = a + g + b;
    let y = a + seq![' '] + b;
    assert forall|i: int| 0 <= i < x.len() implies !ends_statement(#[trigger] x[i]) by {
        if i < a.len() {
            assert(!ends_statement(a[i]));
        } else if i < a.len() + g.len() {
            assert(x[i] == g[i - a.len()]);
        } else {
            assert(!ends_statement(b[i - a.len() - g.len()]));
        }
    }
    assert forall|i: int| 0 <= i < y.len() implies !ends_statement(#[trigger] y[i]) by {
        if i < a.len() {
            assert(!ends_statement(a[i]));
        } else if i > a.len() {
            assert(!ends_statement(b[i - a.len() - 1]));
        }
    }
    lemma_first_end(x, c, rest);
    lemma_first_end(y, c, rest);
    lemma_gap(a, g);
    lemma_collapse_on(a + g, a + seq![' '], b);
    let p = x + seq![c] + rest;
    let q = y + seq![c] + rest;
    assert(p.take(x.len() as int) =~= x);
    assert(q.take(y.len() as int) =~= y);
    assert(p.skip(x.len() as int + 1) =~= rest);
    assert(q.skip(y.len() as int + 1) =~= rest);
    assert(p[x.len() as int] == c);
    assert(q[y.len() as int] == c);
    if spaced(a) && words::bounded(a) && c != '}' {
        let r = a + seq![c] + rest;
        lemma_first_end(a, c, rest);
        assert(r.take(a.len() as int) =~= a);
        assert(r[a.len() as int] == c);
        lemma_spaced_stays(a);
        let none = Seq::<char>::empty();
        words::law_trim(none, a.push(c), none);
        assert(none + a.push(c) + none =~= a.push(c));
        assert(a.len() > 0 ==> a.push(c)[0] == a[0]);
    }
}

proof fn lemma_spaced_stays(s: Seq<char>)
    requires
        spaced(s),
    ensures
        lexer::collapse(s) == s,
    decreases s.len(),
{
    if s.len() > 0 {
        let t = s.drop_last();
        assert forall|i: int| 0 <= i < t.len() implies #[trigger] t[i] != '\n' && t[i] != '\r'
            && t[i] != '\t' by {
            assert(t[i] == s[i]);
        }
        assert forall|i: int| 0 < i < t.len() && words::blank(#[trigger] t[i]) implies t[i - 1]
            != ' ' by {
            assert(t[i] == s[i]);
        }
        lemma_spaced_stays(t);
        words::law_white_space(s.last());
        assert(s[s.len() - 1] == s.last());
        assert(s =~= t.push(s.last()));
        if t.len() > 0 && words::blank(s[s.len() - 1]) {
            assert(t.last() == s[s.len() - 2]);
        }
    }
}

/// The statements of a text are those of the text without its comments.
pub proof fn law_statements_come_without_comments(source: Seq<char>)
    ensures
        lexer::statements_of(source) == lexer::cut_statements(lexer::uncommented(source)),
{
}

} // verus!
