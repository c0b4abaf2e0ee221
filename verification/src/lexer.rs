//! From schema text to statements: comments go, white space is collapsed, and the
//! text is cut behind `{` and `;` and around `}`.

use crate::text;
use crate::text::{find_char, trimmed, white_space};
use vstd::prelude::*;
use vstd::slice::slice_subrange;
use vstd::slice::slice_to_vec;

verus! {

/// The lines of a text, without the line feeds that end them nor the carriage
/// return before one. A line feed at the very end starts no further line.
pub open spec fn lines(s: Seq<char>) -> Seq<Seq<char>>
    decreases s.len(),
    via lines_shrinks
{
    if s.len() == 0 {
        Seq::empty()
    } else {
        match text::find(s, '\n') {
            None => seq![s],
            Some(i) => seq![without_return(s.take(i))] + lines(s.skip(i + 1)),
        }
    }
}

#[via_fn]
proof fn lines_shrinks(s: Seq<char>) {
    text::lemma_position(s, text::is_char('\n'));
}

/// `line` without the carriage return it may end with.
pub open spec fn without_return(line: Seq<char>) -> Seq<char> {
    if line.len() > 0 && line.last() == '\r' {
        line.drop_last()
    } else {
        line
    }
}

/// Where the comment in a line starts: at the first `#` or `//`, else at its end.
pub open spec fn comment_start(line: Seq<char>) -> int
    decreases line.len(),
{
    if line.len() == 0 || starts_comment(line) {
        0
    } else {
        1 + comment_start(line.drop_first())
    }
}

/// Whether a comment starts right here.
pub open spec fn starts_comment(s: Seq<char>) -> bool {
    s.len() > 0 && (s[0] == '#' || s.len() > 1 && s[0] == '/' && s[1] == '/')
}

/// A line up to its comment.
pub open spec fn without_comment(line: Seq<char>) -> Seq<char> {
    line.take(comment_start(line))
}

/// A text without its comments, its lines with a line feed between each two.
pub open spec fn uncommented(s: Seq<char>) -> Seq<char> {
    text::join(lines(s).map_values(|line: Seq<char>| without_comment(line)), seq!['\n'])
}

/// Where the comment in a line starts.
fn find_comment(line: &[char]) -> (at: usize)
    ensures
        at == comment_start(line@),
        at <= line@.len(),
{
    let n: usize = line.len();
    let mut i: usize = 0;
    assert(line@.skip(0) == line@);
    while i < n
        invariant
            i <= n == line@.len(),
            comment_start(line@) == i + comment_start(line@.skip(i as int)),
        decreases n - i,
    {
        assert(line@.skip(i as int).drop_first() =~= line@.skip(i + 1));
        if line[i] == '#' || (i < n - 1 && line[i] == '/' && line[i + 1] == '/') {
            return i;
        }
        i = i + 1;
    }
    n
}

proof fn lemma_join_push(parts: Seq<Seq<char>>, part: Seq<char>, separator: Seq<char>)
    ensures
        text::join(parts.push(part), separator) == if parts.len() == 0 {
            part
        } else {
            text::join(parts, separator) + separator + part
        },
{
    assert(parts.push(part).drop_last() =~= parts);
}

/// The text without its comments.
pub fn strip_comments(source: &[char]) -> (stripped: Vec<char>)
    ensures
        stripped@ == uncommented(source@),
{
    let ghost cut = |line: Seq<char>| without_comment(line);
    let ghost mut done: Seq<Seq<char>> = Seq::empty();
    let mut stripped: Vec<char> = Vec::new();
    let mut rest: &[char] = source;
    let mut first: bool = true;
    proof {
        assert(done + lines(rest@) =~= lines(source@));
    }
    while rest.len() > 0
        invariant
            done + lines(rest@) == lines(source@),
            first == (done.len() == 0),
            cut == (|line: Seq<char>| without_comment(line)),
            stripped@ == text::join(done.map_values(cut), seq!['\n']),
        decreases rest@.len(),
    {
        let n: usize = rest.len();
        let ghost old_rest = rest@;
        let line: &[char];
        match find_char(rest, '\n') {
            Some(i) => {
                let end: usize = if i > 0 && rest[i - 1] == '\r' {
                    i - 1
                } else {
                    i
                };
                line = slice_subrange(rest, 0, end);
                assert(line@ =~= without_return(old_rest.take(i as int)));
                rest = slice_subrange(rest, i + 1, n);
            },
            None => {
                line = rest;
                rest = slice_subrange(rest, n, n);
            },
        }
        assert(lines(old_rest) =~= seq![line@] + lines(rest@));
        if !first {
            stripped.push('\n');
        }
        first = false;
        let end: usize = find_comment(line);
        let mut kept: Vec<char> = slice_to_vec(slice_subrange(line, 0, end));
        let ghost before = stripped@;
        stripped.append(&mut kept);
        proof {
            assert(line@.subrange(0, end as int) =~= without_comment(line@));
            lemma_join_push(done.map_values(cut), without_comment(line@), seq!['\n']);
            assert(done.push(line@).map_values(cut) =~= done.map_values(cut).push(
                without_comment(line@),
            ));
            if done.len() > 0 {
                assert(before =~= text::join(done.map_values(cut), seq!['\n']) + seq!['\n']);
            } else {
                assert(before =~= Seq::empty());
                assert(stripped@ =~= without_comment(line@));
            }
            assert(done + (seq![line@] + lines(rest@)) =~= done.push(line@) + lines(rest@));
            done = done.push(line@);
        }
    }
    assert(done =~= lines(source@));
    stripped
}

/// The test for a character that ends a statement.
pub open spec fn delimiter() -> spec_fn(char) -> bool {
    |c: char| c == '{' || c == '}' || c == ';'
}

/// Line feeds, carriage returns and tabs become spaces, and white space that
/// follows a space goes.
pub open spec fn collapse(s: Seq<char>) -> Seq<char>
    decreases s.len(),
{
    if s.len() == 0 {
        s
    } else {
        let before = collapse(s.drop_last());
        let c = s.last();
        if text::is_white_space(c) && before.len() > 0 && before.last() == ' ' {
            before
        } else if c == '\n' || c == '\r' || c == '\t' {
            before.push(' ')
        } else {
            before.push(c)
        }
    }
}

/// The trimmed text as a statement, unless nothing is left of it.
pub open spec fn kept(s: Seq<char>) -> Seq<Seq<char>> {
    if text::trim(s).len() == 0 {
        Seq::empty()
    } else {
        seq![text::trim(s)]
    }
}

/// The statements that a piece of text and the delimiter behind it make.
pub open spec fn closed_by(s: Seq<char>, delimiter: char) -> Seq<Seq<char>> {
    if delimiter == '}' {
        kept(collapse(s)).push(seq!['}'])
    } else {
        kept(collapse(s).push(delimiter))
    }
}

/// The statements of a text without comments: `{` and `;` end one and belong to
/// it, `}` ends one and is one of its own.
pub open spec fn cut_statements(s: Seq<char>) -> Seq<Seq<char>>
    decreases s.len(),
    via cut_statements_shrinks
{
    match text::position(s, delimiter()) {
        None => kept(collapse(s)),
        Some(i) => closed_by(s.take(i), s[i]) + cut_statements(s.skip(i + 1)),
    }
}

#[via_fn]
proof fn cut_statements_shrinks(s: Seq<char>) {
    text::lemma_position(s, delimiter());
}

/// The statements of a schema text.
pub open spec fn statements_of(source: Seq<char>) -> Seq<Seq<char>> {
    cut_statements(uncommented(source))
}

/// Takes what is gathered as a statement, if it is more than white space.
fn push_statement(result: &mut Vec<Vec<char>>, current: &[char])
    ensures
        text::views(final(result)@) == text::views(old(result)@) + kept(current@),
{
    let statement = trimmed(current);
    if statement.len() > 0 {
        let ghost before = text::views(result@);
        result.push(slice_to_vec(statement));
        assert(text::views(result@) =~= before.push(statement@));
    }
    assert(text::views(result@) =~= text::views(old(result)@) + kept(current@));
}

/// The statements of a schema text.
pub fn statements(source: &[char]) -> (result: Vec<Vec<char>>)
    ensures
        text::views(result@) == statements_of(source@),
{
    let mut result: Vec<Vec<char>> = Vec::new();
    let mut current: Vec<char> = Vec::new();
    let stripped = strip_comments(source);
    let ghost all = stripped@;
    let ghost mut start: int = 0;
    let n: usize = stripped.len();
    let mut i: usize = 0;
    proof {
        assert(all.skip(0) =~= all);
        assert(text::views(result@) + cut_statements(all) =~= cut_statements(all));
        assert(all.subrange(0, 0) =~= Seq::empty());
    }
    while i < n
        invariant
            i <= n == all.len(),
            all == stripped@,
            0 <= start <= i,
            current@ == collapse(all.subrange(start, i as int)),
            forall|j: int| start <= j < i ==> !delimiter()(#[trigger] all[j]),
            text::views(result@) + cut_statements(all.skip(start)) == cut_statements(all),
        decreases n - i,
    {
        let c: char = stripped[i];
        let ghost piece = all.subrange(start, i as int);
        let ghost rest = all.skip(start);
        let ghost before = text::views(result@);
        if c == '{' || c == '}' || c == ';' {
            if c == '}' {
                push_statement(&mut result, current.as_slice());
                let ghost pushed = text::views(result@);
                let mut brace: Vec<char> = Vec::new();
                brace.push('}');
                assert(brace@ =~= seq!['}']);
                result.push(brace);
                assert(text::views(result@) =~= pushed.push(seq!['}']));
                assert(text::views(result@) =~= before + closed_by(piece, c));
            } else {
                current.push(c);
                push_statement(&mut result, current.as_slice());
            }
            current.clear();
            proof {
                assert(rest.take(i - start) =~= piece);
                assert forall|j: int| 0 <= j < i - start implies !delimiter()(#[trigger] rest[j]) by {
                    assert(!delimiter()(all[start + j]));
                }
                text::lemma_position_is(rest, delimiter(), i - start);
                assert(rest.skip(i - start + 1) =~= all.skip(i + 1));
                assert(before + (closed_by(piece, c) + cut_statements(all.skip(i + 1)))
                    =~= text::views(result@) + cut_statements(all.skip(i + 1)));
                start = i + 1;
                assert(all.subrange(start, i + 1) =~= Seq::empty());
            }
        } else {
            let spaced: bool = current.len() > 0 && current[current.len() - 1] == ' ';
            if white_space(c) && spaced {
            } else if c == '\n' || c == '\r' || c == '\t' {
                current.push(' ');
            } else {
                current.push(c);
            }
            assert(all.subrange(start, i + 1).drop_last() =~= piece);
        }
        i = i + 1;
    }
    push_statement(&mut result, current.as_slice());
    proof {
        let rest = all.skip(start);
        assert(rest =~= all.subrange(start, n as int));
        assert forall|j: int| 0 <= j < rest.len() implies !delimiter()(#[trigger] rest[j]) by {
            assert(!delimiter()(all[start + j]));
        }
        text::lemma_position(rest, delimiter());
    }
    result
}

/// Whether a text keeps to the characters for which `p` holds.
spec fn keeps_to(s: Seq<char>, p: spec_fn(char) -> bool) -> bool {
    forall|i: int| 0 <= i < s.len() ==> p(#[trigger] s[i])
}

proof fn lemma_collapse_keeps_to(s: Seq<char>, p: spec_fn(char) -> bool)
    requires
        keeps_to(s, p),
        p(' '),
    ensures
        keeps_to(collapse(s), p),
    decreases s.len(),
{
    if s.len() > 0 {
        lemma_collapse_keeps_to(s.drop_last(), p);
        assert(p(s[s.len() - 1]));
    }
}

/// Whether a text is trimmed, is not empty, and has a delimiter at its end at most.
pub open spec fn is_statement(s: Seq<char>) -> bool {
    &&& s.len() > 0
    &&& !text::is_white_space(s[0])
    &&& !text::is_white_space(s.last())
    &&& forall|i: int| 0 <= i < s.len() - 1 ==> !delimiter()(#[trigger] s[i])
}

/// Trimming takes white space off the ends, and nothing else.
pub proof fn lemma_trim(s: Seq<char>)
    ensures
        text::trim_start(s).len() <= s.len(),
        text::trim_start(s) == s.skip(s.len() - text::trim_start(s).len()),
        text::trim_end(s).len() <= s.len(),
        text::trim_end(s) == s.take(text::trim_end(s).len() as int),
        text::trim_start(s).len() > 0 ==> !text::is_white_space(text::trim_start(s)[0]),
        text::trim_end(s).len() > 0 ==> !text::is_white_space(text::trim_end(s).last()),
    decreases s.len(),
{
    if s.len() > 0 {
        lemma_trim(s.drop_first());
        lemma_trim(s.drop_last());
    }
    assert(text::trim_start(s) =~= s.skip(s.len() - text::trim_start(s).len()));
    assert(text::trim_end(s) =~= s.take(text::trim_end(s).len() as int));
}

/// What is kept of a text with a delimiter at its end at most is a statement.
proof fn lemma_kept_is_statement(s: Seq<char>)
    requires
        forall|i: int| 0 <= i < s.len() - 1 ==> !delimiter()(#[trigger] s[i]),
    ensures
        forall|i: int| 0 <= i < kept(s).len() ==> is_statement(#[trigger] kept(s)[i]),
{
    let a = text::trim_start(s);
    let b = text::trim(s);
    lemma_trim(s);
    lemma_trim(a);
    lemma_trim(text::trim_end(s));
    if b.len() > 0 {
        assert forall|i: int| 0 <= i < b.len() - 1 implies !delimiter()(#[trigger] b[i]) by {
            let skipped = s.len() - a.len();
            assert(b[i] == s[i + skipped]);
        }
        assert(b[0] == a[0]);
    }
}

proof fn lemma_cut_are_statements(s: Seq<char>)
    ensures
        forall|i: int|
            0 <= i < cut_statements(s).len() ==> is_statement(#[trigger] cut_statements(s)[i]),
    decreases s.len(),
{
    let p = |c: char| !delimiter()(c);
    text::lemma_position(s, delimiter());
    match text::position(s, delimiter()) {
        None => {
            assert(keeps_to(s, p));
            lemma_collapse_keeps_to(s, p);
            let t = collapse(s);
            assert forall|i: int| 0 <= i < t.len() - 1 implies !delimiter()(#[trigger] t[i]) by {
                assert(p(t[i]));
            }
            lemma_kept_is_statement(t);
        },
        Some(at) => {
            let front = s.take(at);
            assert(keeps_to(front, p));
            lemma_collapse_keeps_to(front, p);
            let t = collapse(front);
            let u = t.push(s[at]);
            assert forall|i: int| 0 <= i < t.len() - 1 implies !delimiter()(#[trigger] t[i]) by {
                assert(p(t[i]));
            }
            assert forall|i: int| 0 <= i < u.len() - 1 implies !delimiter()(#[trigger] u[i]) by {
                assert(p(t[i]));
            }
            lemma_kept_is_statement(t);
            lemma_kept_is_statement(u);
            lemma_cut_are_statements(s.skip(at + 1));
            let all = cut_statements(s);
            let here = closed_by(front, s[at]);
            assert forall|i: int| 0 <= i < all.len() implies is_statement(#[trigger] all[i]) by {
                if i < here.len() {
                    assert(all[i] == here[i]);
                    if i < kept(t).len() {
                        assert(is_statement(kept(t)[i]));
                    }
                } else {
                    assert(all[i] == cut_statements(s.skip(at + 1))[i - here.len()]);
                }
            }
        },
    }
}

/// Every statement is trimmed and not empty, and has a brace or a semicolon at its end at
/// most.
pub proof fn law_statements_are_trimmed(source: Seq<char>)
    ensures
        forall|i: int|
            0 <= i < statements_of(source).len() ==> is_statement(
                #[trigger] statements_of(source)[i],
            ),
{
    lemma_cut_are_statements(uncommented(source));
}

} // verus!
