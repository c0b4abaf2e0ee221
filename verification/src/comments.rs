//! What comments are to a schema: nothing.

use crate::file_id;
use crate::lexer;
use crate::parser;
use crate::text;
use vstd::prelude::*;

verus! {

/// Whether no comment starts anywhere in a text.
pub open spec fn clean(s: Seq<char>) -> bool {
    &&& forall|i: int| 0 <= i < s.len() ==> #[trigger] s[i] != '#'
    &&& forall|i: int| 0 <= i < s.len() - 1 && #[trigger] s[i] == '/' ==> s[i + 1] != '/'
}

proof fn lemma_clean_part(s: Seq<char>, a: int, b: int)
    requires
        clean(s),
        0 <= a <= b <= s.len(),
    ensures
        clean(s.subrange(a, b)),
{
    let t = s.subrange(a, b);
    assert forall|i: int| 0 <= i < t.len() implies #[trigger] t[i] != '#' by {
        assert(s[i + a] != '#');
    }
    assert forall|i: int| 0 <= i < t.len() - 1 && #[trigger] t[i] == '/' implies t[i + 1] != '/' by {
        assert(s[i + a] == '/');
    }
}

/// Two texts in a row are clean if they are and no slash meets a slash between them.
proof fn lemma_clean_joined(a: Seq<char>, b: Seq<char>)
    requires
        clean(a),
        clean(b),
        a.len() == 0 || b.len() == 0 || a.last() != '/' || b[0] != '/',
    ensures
        clean(a + b),
{
    let s = a + b;
    assert forall|i: int| 0 <= i < s.len() implies #[trigger] s[i] != '#' by {
        if i < a.len() {
            assert(a[i] != '#');
        } else {
            assert(b[i - a.len()] != '#');
        }
    }
    assert forall|i: int| 0 <= i < s.len() - 1 && #[trigger] s[i] == '/' implies s[i + 1] != '/' by {
        if i < a.len() - 1 {
            assert(a[i] == '/');
        } else if i >= a.len() {
            assert(b[i - a.len()] == '/');
        }
    }
}

/// A line up to its comment is clean, and a clean line has no comment.
proof fn lemma_without_comment(line: Seq<char>)
    ensures
        0 <= lexer::comment_start(line) <= line.len(),
        clean(lexer::without_comment(line)),
        clean(line) ==> lexer::without_comment(line) == line,
    decreases line.len(),
{
    if line.len() > 0 && !lexer::starts_comment(line) {
        let rest = line.drop_first();
        lemma_without_comment(rest);
        let front = lexer::without_comment(rest);
        let whole = lexer::without_comment(line);
        assert(whole =~= seq![line[0]] + front);
        if front.len() > 0 {
            assert(front[0] == line[1]);
        }
        lemma_clean_joined(seq![line[0]], front);
        if clean(line) {
            lemma_clean_part(line, 1, line.len() as int);
            assert(line.subrange(1, line.len() as int) =~= rest);
            assert(whole =~= line);
        }
    } else if clean(line) {
        if line.len() > 0 {
            assert(line[0] != '#');
            assert(line.len() > 1 && line[0] == '/' ==> line[1] != '/');
        }
        assert(lexer::without_comment(line) =~= line);
    }
}

/// Clean lines with line feeds between them are clean.
proof fn lemma_join_clean(parts: Seq<Seq<char>>)
    requires
        forall|i: int| 0 <= i < parts.len() ==> clean(#[trigger] parts[i]),
    ensures
        clean(text::join(parts, seq!['\n'])),
    decreases parts.len(),
{
    if parts.len() == 1 {
        assert(clean(parts[0]));
    } else if parts.len() > 1 {
        let shorter = parts.drop_last();
        assert forall|i: int| 0 <= i < shorter.len() implies clean(#[trigger] shorter[i]) by {
            assert(shorter[i] == parts[i]);
        }
        lemma_join_clean(shorter);
        let front = text::join(shorter, seq!['\n']);
        assert(clean(parts[parts.len() - 1]));
        lemma_clean_joined(front, seq!['\n']);
        lemma_clean_joined(front + seq!['\n'], parts.last());
    }
}

/// A text without its comments is clean.
pub proof fn law_uncommented_is_clean(source: Seq<char>)
    ensures
        clean(lexer::uncommented(source)),
{
    let parts = lexer::lines(source).map_values(|line: Seq<char>| lexer::without_comment(line));
    assert forall|i: int| 0 <= i < parts.len() implies clean(#[trigger] parts[i]) by {
        lemma_without_comment(lexer::lines(source)[i]);
    }
    lemma_join_clean(parts);
}

proof fn lemma_collapse_clean(s: Seq<char>)
    requires
        clean(s),
    ensures
        clean(lexer::collapse(s)),
        lexer::collapse(s).len() > 0 && lexer::collapse(s).last() == '/' ==> s.last() == '/',
    decreases s.len(),
{
    if s.len() > 0 {
        let shorter = s.drop_last();
        let c = s.last();
        lemma_clean_part(s, 0, s.len() - 1);
        assert(s.subrange(0, s.len() - 1) =~= shorter);
        lemma_collapse_clean(shorter);
        let before = lexer::collapse(shorter);
        assert(c != '#');
        if before.len() > 0 && before.last() == '/' {
            assert(s[s.len() - 2] == '/');
            assert(c != '/');
        }
        lemma_clean_joined(before, seq![c]);
        lemma_clean_joined(before, seq![' ']);
        assert(before + seq![c] =~= before.push(c));
        assert(before + seq![' '] =~= before.push(' '));
    }
}

proof fn lemma_kept_clean(s: Seq<char>)
    requires
        clean(s),
    ensures
        forall|i: int| 0 <= i < lexer::kept(s).len() ==> clean(#[trigger] lexer::kept(s)[i]),
{
    let a = text::trim_start(s);
    let b = text::trim(s);
    lexer::lemma_trim(s);
    lexer::lemma_trim(a);
    let skipped = s.len() - a.len();
    lemma_clean_part(s, skipped, skipped + b.len());
    assert(s.subrange(skipped, skipped + b.len()) =~= b);
}

proof fn lemma_cut_clean(s: Seq<char>)
    requires
        clean(s),
    ensures
        forall|i: int|
            0 <= i < lexer::cut_statements(s).len() ==> clean(
                #[trigger] lexer::cut_statements(s)[i],
            ),
    decreases s.len(),
{
    text::lemma_position(s, lexer::delimiter());
    match text::position(s, lexer::delimiter()) {
        None => {
            lemma_collapse_clean(s);
            lemma_kept_clean(lexer::collapse(s));
        },
        Some(at) => {
            let front = s.take(at);
            let rest = s.skip(at + 1);
            let d = s[at];
            lemma_clean_part(s, 0, at);
            lemma_clean_part(s, at + 1, s.len() as int);
            assert(s.subrange(0, at) =~= front);
            assert(s.subrange(at + 1, s.len() as int) =~= rest);
            lemma_collapse_clean(front);
            lemma_clean_joined(lexer::collapse(front), seq![d]);
            assert(lexer::collapse(front) + seq![d] =~= lexer::collapse(front).push(d));
            lemma_kept_clean(lexer::collapse(front));
            lemma_kept_clean(lexer::collapse(front).push(d));
            lemma_cut_clean(rest);
            let here = lexer::closed_by(front, d);
            let all = lexer::cut_statements(s);
            assert(clean(seq!['}']));
            assert forall|i: int| 0 <= i < all.len() implies clean(#[trigger] all[i]) by {
                if i < here.len() {
                    assert(all[i] == here[i]);
                } else {
                    assert(all[i] == lexer::cut_statements(rest)[i - here.len()]);
                }
            }
        },
    }
}

/// Nothing of a comment gets into a statement: there is no `#` and no `//` in it.
pub proof fn law_statements_have_no_comments(source: Seq<char>)
    ensures
        forall|i: int|
            0 <= i < lexer::statements_of(source).len() ==> clean(
                #[trigger] lexer::statements_of(source)[i],
            ),
{
    law_uncommented_is_clean(source);
    lemma_cut_clean(lexer::uncommented(source));
}

/// A text whose line feeds have lost the carriage return before them.
spec fn unix(s: Seq<char>) -> Seq<char>
    decreases s.len(),
{
    if s.len() == 0 {
        s
    } else if s.len() > 1 && s.last() == '\n' && s[s.len() - 2] == '\r' {
        unix(s.drop_last().drop_last()).push('\n')
    } else {
        unix(s.drop_last()).push(s.last())
    }
}

proof fn lemma_unix_joined(a: Seq<char>, b: Seq<char>)
    requires
        a.len() == 0 || b.len() == 0 || a.last() != '\r' || b[0] != '\n',
    ensures
        unix(a + b) == unix(a) + unix(b),
    decreases b.len(),
{
    let s = a + b;
    if b.len() == 0 {
        assert(s =~= a);
        assert(unix(a) + unix(b) =~= unix(a));
    } else if b.len() > 1 && b.last() == '\n' && b[b.len() - 2] == '\r' {
        let c = b.drop_last().drop_last();
        lemma_unix_joined(a, c);
        assert(s.drop_last().drop_last() =~= a + c);
        assert(s[s.len() - 2] == '\r');
        assert(unix(s) =~= unix(a) + unix(b));
    } else {
        let c = b.drop_last();
        lemma_unix_joined(a, c);
        assert(s.drop_last() =~= a + c);
        if b.len() > 1 {
            assert(s[s.len() - 2] == b[b.len() - 2]);
        } else if a.len() > 0 {
            assert(s[s.len() - 2] == a.last());
        }
        assert(unix(s) =~= unix(a) + unix(b));
    }
}

/// A text without line feeds stays as it is.
proof fn lemma_unix_line(s: Seq<char>)
    requires
        forall|i: int| 0 <= i < s.len() ==> #[trigger] s[i] != '\n',
    ensures
        unix(s) == s,
    decreases s.len(),
{
    if s.len() > 0 {
        assert(s[s.len() - 1] != '\n');
        lemma_unix_line(s.drop_last());
        assert(unix(s) =~= s);
    }
}

proof fn lemma_collapse_unix(s: Seq<char>)
    ensures
        lexer::collapse(unix(s)) == lexer::collapse(s),
    decreases s.len(),
{
    if s.len() > 1 && s.last() == '\n' && s[s.len() - 2] == '\r' {
        let q = s.drop_last().drop_last();
        lemma_collapse_unix(q);
        assert(unix(q).push('\n').drop_last() =~= unix(q));
        assert(s.drop_last().last() == '\r');
        reveal_with_fuel(lexer::collapse, 3);
    } else if s.len() > 0 {
        lemma_collapse_unix(s.drop_last());
        assert(unix(s.drop_last()).push(s.last()).drop_last() =~= unix(s.drop_last()));
    }
}

/// No delimiter comes in.
proof fn lemma_unix_plain(s: Seq<char>)
    requires
        forall|i: int| 0 <= i < s.len() ==> !lexer::delimiter()(#[trigger] s[i]),
    ensures
        forall|i: int| 0 <= i < unix(s).len() ==> !lexer::delimiter()(#[trigger] unix(s)[i]),
    decreases s.len(),
{
    if s.len() > 0 {
        let both = s.len() > 1 && s.last() == '\n' && s[s.len() - 2] == '\r';
        let front = if both {
            s.drop_last().drop_last()
        } else {
            s.drop_last()
        };
        lemma_unix_plain(front);
        assert(!lexer::delimiter()(s[s.len() - 1]));
        let t = unix(s);
        assert(t == unix(front).push(s.last()));
        assert forall|i: int| 0 <= i < t.len() implies !lexer::delimiter()(#[trigger] t[i]) by {
            if i < unix(front).len() {
                assert(t[i] == unix(front)[i]);
            }
        }
    }
}

proof fn lemma_cut_unix(s: Seq<char>)
    ensures
        lexer::cut_statements(unix(s)) == lexer::cut_statements(s),
    decreases s.len(),
{
    let p = lexer::delimiter();
    text::lemma_position(s, p);
    match text::position(s, p) {
        None => {
            lemma_unix_plain(s);
            text::lemma_position(unix(s), p);
            lemma_collapse_unix(s);
        },
        Some(at) => {
            let front = s.take(at);
            let rest = s.skip(at + 1);
            let d = s[at];
            assert(s =~= front.push(d) + rest);
            lemma_unix_joined(front.push(d), rest);
            assert(front.push(d).drop_last() =~= front);
            assert(unix(front.push(d)) == unix(front).push(d));
            let t = unix(s);
            let m = unix(front).len() as int;
            assert(t == unix(front).push(d) + unix(rest));
            lemma_unix_plain(front);
            assert forall|j: int| 0 <= j < m implies !p(#[trigger] t[j]) by {
                assert(t[j] == unix(front)[j]);
            }
            assert(t[m] == d);
            text::lemma_position_is(t, p, m);
            assert(t.take(m) =~= unix(front));
            assert(t.skip(m + 1) =~= unix(rest));
            lemma_collapse_unix(front);
            lemma_cut_unix(rest);
        },
    }
}

/// White space at the end of a text is trimmed away.
proof fn lemma_trim_space(s: Seq<char>)
    ensures
        text::trim(s.push(' ')) == text::trim(s),
    decreases s.len(),
{
    let t = s.push(' ');
    if s.len() == 0 {
        assert(t.drop_first() =~= s);
        assert(text::trim_start(t) == text::trim_start(s));
    } else if text::is_white_space(s[0]) {
        lemma_trim_space(s.drop_first());
        assert(t.drop_first() =~= s.drop_first().push(' '));
    } else {
        assert(t.drop_last() =~= s);
    }
}

/// A line feed at the end of a text makes no statement.
proof fn lemma_cut_line_feed(s: Seq<char>)
    ensures
        lexer::cut_statements(s.push('\n')) == lexer::cut_statements(s),
    decreases s.len(),
{
    let p = lexer::delimiter();
    let t = s.push('\n');
    text::lemma_position(s, p);
    match text::position(s, p) {
        None => {
            text::lemma_position(t, p);
            assert(text::position(t, p) is None) by {
                if let Some(i) = text::position(t, p) {
                    assert(p(t[i]));
                    if i < s.len() {
                        assert(!p(s[i]));
                    }
                }
            }
            assert(t.drop_last() =~= s);
            lemma_trim_space(lexer::collapse(s));
        },
        Some(at) => {
            assert forall|j: int| 0 <= j < at implies !p(#[trigger] t[j]) by {
                assert(t[j] == s[j]);
            }
            text::lemma_position_is(t, p, at);
            assert(t.take(at) =~= s.take(at));
            assert(t.skip(at + 1) =~= s.skip(at + 1).push('\n'));
            lemma_cut_line_feed(s.skip(at + 1));
        },
    }
}

/// A text without the line feed that it may end with.
spec fn chomp(s: Seq<char>) -> Seq<char> {
    if s.len() > 0 && s.last() == '\n' {
        s.drop_last()
    } else {
        s
    }
}

proof fn lemma_join_front(first: Seq<char>, rest: Seq<Seq<char>>, between: Seq<char>)
    ensures
        text::join(seq![first] + rest, between) == if rest.len() == 0 {
            first
        } else {
            first + between + text::join(rest, between)
        },
    decreases rest.len(),
{
    let all = seq![first] + rest;
    if rest.len() == 0 {
        assert(all =~= seq![first]);
    } else {
        lemma_join_front(first, rest.drop_last(), between);
        assert(all.drop_last() =~= seq![first] + rest.drop_last());
        assert(all.last() == rest.last());
        assert(text::join(all, between) =~= first + between + text::join(rest, between));
    }
}

/// The lines of a text, put together again.
#[verifier::rlimit(40)]
proof fn lemma_lines_joined(s: Seq<char>)
    ensures
        text::join(lexer::lines(s), seq!['\n']) == chomp(unix(s)),
        s.len() > 0 ==> unix(s).len() > 0 && lexer::lines(s).len() > 0,
    decreases s.len(),
{
    text::lemma_position(s, text::is_char('\n'));
    if s.len() == 0 {
        assert(text::join(lexer::lines(s), seq!['\n']) =~= chomp(unix(s)));
    } else {
        match text::find(s, '\n') {
            None => {
                lemma_unix_line(s);
                assert(s[s.len() - 1] != '\n');
                assert(lexer::lines(s) =~= seq![s]);
            },
            Some(at) => {
                let line = s.take(at);
                let rest = s.skip(at + 1);
                let first = lexer::without_return(line);
                assert(s =~= line.push('\n') + rest);
                lemma_unix_joined(line.push('\n'), rest);
                assert(line.push('\n').drop_last() =~= line);
                if line.len() > 0 && line.last() == '\r' {
                    assert(line.push('\n')[line.len() - 1] == '\r');
                    lemma_unix_line(line.drop_last());
                } else {
                    if line.len() > 0 {
                        assert(line.push('\n')[line.len() - 1] == line.last());
                    }
                    lemma_unix_line(line);
                }
                assert(unix(line.push('\n')) == first.push('\n'));
                lemma_lines_joined(rest);
                lemma_join_front(first, lexer::lines(rest), seq!['\n']);
                if rest.len() == 0 {
                    assert(unix(s) =~= first.push('\n'));
                    assert(chomp(unix(s)) =~= first);
                } else {
                    assert(unix(s).last() == unix(rest).last());
                    assert(chomp(unix(s)) =~= first + seq!['\n'] + chomp(unix(rest)));
                }
            },
        }
    }
}

/// The lines of a clean text are clean.
proof fn lemma_lines_clean(s: Seq<char>)
    requires
        clean(s),
    ensures
        forall|i: int| 0 <= i < lexer::lines(s).len() ==> clean(#[trigger] lexer::lines(s)[i]),
    decreases s.len(),
{
    text::lemma_position(s, text::is_char('\n'));
    if s.len() > 0 {
        if let Some(at) = text::find(s, '\n') {
            let line = s.take(at);
            let rest = s.skip(at + 1);
            let first = lexer::without_return(line);
            lemma_clean_part(s, 0, first.len() as int);
            lemma_clean_part(s, at + 1, s.len() as int);
            assert(s.subrange(0, first.len() as int) =~= first);
            assert(s.subrange(at + 1, s.len() as int) =~= rest);
            lemma_lines_clean(rest);
            let all = lexer::lines(s);
            assert forall|i: int| 0 <= i < all.len() implies clean(#[trigger] all[i]) by {
                if i > 0 {
                    assert(all[i] == lexer::lines(rest)[i - 1]);
                }
            }
        }
    }
}

/// The statements of a text are those of the text without its comments.
pub proof fn law_statements_ignore_comments(source: Seq<char>)
    ensures
        lexer::statements_of(lexer::uncommented(source)) == lexer::statements_of(source),
{
    let t = lexer::uncommented(source);
    law_uncommented_is_clean(source);
    lemma_lines_clean(t);
    let lines = lexer::lines(t);
    let parts = lines.map_values(|line: Seq<char>| lexer::without_comment(line));
    assert forall|i: int| 0 <= i < lines.len() implies #[trigger] parts[i] == lines[i] by {
        lemma_without_comment(lines[i]);
    }
    assert(parts =~= lines);
    lemma_lines_joined(t);
    assert(lexer::uncommented(t) == chomp(unix(t)));
    lemma_cut_unix(t);
    let u = unix(t);
    if u.len() > 0 && u.last() == '\n' {
        assert(u =~= u.drop_last().push('\n'));
        lemma_cut_line_feed(u.drop_last());
    }
}

/// Comments never add, remove or change anything: a text without its comments declares the
/// same nodes and the same file id, with the same remarks, as the text.
pub proof fn law_comments_declare_nothing(source: Seq<char>)
    ensures
        parser::parsed(lexer::uncommented(source)) == parser::parsed(source),
        file_id::metadata_of(lexer::statements_of(lexer::uncommented(source)))
            == file_id::metadata_of(lexer::statements_of(source)),
{
    law_statements_ignore_comments(source);
}

} // verus!
