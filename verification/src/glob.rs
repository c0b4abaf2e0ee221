//! Glob patterns: `*` and `?` inside a component, `**` for any number of components.

use crate::path;
use crate::path::{components_of, join_path, path_to_slash};
use crate::text;
use crate::text::{chars_of, has_prefix, holds_char, is_text, split_at_char, string_of};
use vstd::prelude::*;
use vstd::slice::slice_subrange;

verus! {

/// Whether a text has a glob operator in it.
pub open spec fn has_operator(s: Seq<char>) -> bool {
    s.contains('*') || s.contains('?')
}

/// Whether a text has a glob operator in it.
pub fn has_glob_meta(value: &[char]) -> (yes: bool)
    ensures
        yes == has_operator(value@),
{
    holds_char(value, '*') || holds_char(value, '?')
}

/// Whether a component fits a pattern: `?` stands for one character, `*` for any run.
pub open spec fn piece_matches(pattern: Seq<char>, piece: Seq<char>) -> bool
    decreases pattern.len(),
{
    if pattern.len() == 0 {
        piece.len() == 0
    } else if pattern[0] == '*' {
        exists|n: int|
            0 <= n <= piece.len() && piece_matches(pattern.drop_first(), #[trigger] piece.skip(n))
    } else {
        &&& piece.len() > 0
        &&& pattern[0] == '?' || pattern[0] == piece[0]
        &&& piece_matches(pattern.drop_first(), piece.drop_first())
    }
}

/// Whether components fit the components of a pattern: `**` stands for any run of them.
pub open spec fn pieces_match(pattern: Seq<Seq<char>>, pieces: Seq<Seq<char>>) -> bool
    decreases pattern.len(),
{
    if pattern.len() == 0 {
        pieces.len() == 0
    } else if pattern[0] == "**"@ {
        exists|n: int|
            0 <= n <= pieces.len() && pieces_match(pattern.drop_first(), #[trigger] pieces.skip(n))
    } else {
        &&& pieces.len() > 0
        &&& piece_matches(pattern[0], pieces[0])
        &&& pieces_match(pattern.drop_first(), pieces.drop_first())
    }
}

/// Whether a path fits a pattern.
pub open spec fn fits(pattern: Seq<char>, candidate: Seq<char>) -> bool {
    pieces_match(text::split(pattern, '/'), text::split(candidate, '/'))
}

/// A run is empty, or takes one character and goes on.
proof fn lemma_star_step(pattern: Seq<char>, piece: Seq<char>)
    requires
        pattern.len() > 0,
        pattern[0] == '*',
    ensures
        piece_matches(pattern, piece) == (piece_matches(pattern.drop_first(), piece) || (piece.len()
            > 0 && piece_matches(pattern, piece.drop_first()))),
{
    let rest = pattern.drop_first();
    assert(piece.skip(0) =~= piece);
    if piece_matches(pattern, piece) {
        let n = choose|n: int|
            0 <= n <= piece.len() && piece_matches(rest, #[trigger] piece.skip(n));
        if n > 0 {
            assert(piece.drop_first().skip(n - 1) =~= piece.skip(n));
        }
    }
    if piece.len() > 0 && piece_matches(pattern, piece.drop_first()) {
        let n = choose|n: int|
            0 <= n <= piece.drop_first().len() && piece_matches(
                rest,
                #[trigger] piece.drop_first().skip(n),
            );
        assert(piece.drop_first().skip(n) =~= piece.skip(n + 1));
    }
}

/// A run is empty, or takes one component and goes on.
proof fn lemma_double_star_step(pattern: Seq<Seq<char>>, pieces: Seq<Seq<char>>)
    requires
        pattern.len() > 0,
        pattern[0] == "**"@,
    ensures
        pieces_match(pattern, pieces) == (pieces_match(pattern.drop_first(), pieces) || (
        pieces.len() > 0 && pieces_match(pattern, pieces.drop_first()))),
{
    let rest = pattern.drop_first();
    assert(pieces.skip(0) =~= pieces);
    if pieces_match(pattern, pieces) {
        let n = choose|n: int|
            0 <= n <= pieces.len() && pieces_match(rest, #[trigger] pieces.skip(n));
        if n > 0 {
            assert(pieces.drop_first().skip(n - 1) =~= pieces.skip(n));
        }
    }
    if pieces.len() > 0 && pieces_match(pattern, pieces.drop_first()) {
        let n = choose|n: int|
            0 <= n <= pieces.drop_first().len() && pieces_match(
                rest,
                #[trigger] pieces.drop_first().skip(n),
            );
        assert(pieces.drop_first().skip(n) =~= pieces.skip(n + 1));
    }
}

/// Whether `piece` from place `j` on fits `pattern` from place `i` on.
fn glob_component_match_inner(pattern: &[char], i: usize, piece: &[char], j: usize) -> (yes: bool)
    requires
        i <= pattern@.len(),
        j <= piece@.len(),
    ensures
        yes == piece_matches(pattern@.skip(i as int), piece@.skip(j as int)),
    decreases pattern@.len() - i + piece@.len() - j,
{
    let ghost p = pattern@.skip(i as int);
    let ghost q = piece@.skip(j as int);
    if i == pattern.len() {
        return j == piece.len();
    }
    assert(p.drop_first() =~= pattern@.skip(i + 1));
    if j < piece.len() {
        assert(q.drop_first() =~= piece@.skip(j + 1));
    }
    if pattern[i] == '*' {
        proof {
            lemma_star_step(p, q);
        }
        return glob_component_match_inner(pattern, i + 1, piece, j) || (j < piece.len()
            && glob_component_match_inner(pattern, i, piece, j + 1));
    }
    j < piece.len() && (pattern[i] == '?' || pattern[i] == piece[j])
        && glob_component_match_inner(pattern, i + 1, piece, j + 1)
}

/// Whether a component fits a pattern.
pub fn glob_component_match(pattern: &[char], piece: &[char]) -> (yes: bool)
    ensures
        yes == piece_matches(pattern@, piece@),
{
    assert(pattern@.skip(0) =~= pattern@);
    assert(piece@.skip(0) =~= piece@);
    glob_component_match_inner(pattern, 0, piece, 0)
}

/// Whether the components from place `j` on fit those of the pattern from place `i` on.
fn glob_parts_match(
    pattern: &Vec<Vec<char>>,
    i: usize,
    pieces: &Vec<Vec<char>>,
    j: usize,
) -> (yes: bool)
    requires
        i <= pattern@.len(),
        j <= pieces@.len(),
    ensures
        yes == pieces_match(
            text::views(pattern@).skip(i as int),
            text::views(pieces@).skip(j as int),
        ),
    decreases pattern@.len() - i + pieces@.len() - j,
{
    let ghost p = text::views(pattern@).skip(i as int);
    let ghost q = text::views(pieces@).skip(j as int);
    if i == pattern.len() {
        return j == pieces.len();
    }
    assert(p.drop_first() =~= text::views(pattern@).skip(i + 1));
    if j < pieces.len() {
        assert(q.drop_first() =~= text::views(pieces@).skip(j + 1));
    }
    if is_text(pattern[i].as_slice(), "**") {
        proof {
            lemma_double_star_step(p, q);
        }
        return glob_parts_match(pattern, i + 1, pieces, j) || (j < pieces.len()
            && glob_parts_match(pattern, i, pieces, j + 1));
    }
    j < pieces.len() && glob_component_match(pattern[i].as_slice(), pieces[j].as_slice())
        && glob_parts_match(pattern, i + 1, pieces, j + 1)
}

/// Whether a path fits a pattern.
pub fn glob_matches(pattern: &[char], candidate: &[char]) -> (yes: bool)
    ensures
        yes == fits(pattern@, candidate@),
{
    let p = split_at_char(pattern, '/');
    let q = split_at_char(candidate, '/');
    assert(text::views(p@).skip(0) =~= text::views(p@));
    assert(text::views(q@).skip(0) =~= text::views(q@));
    glob_parts_match(&p, 0, &q, 0)
}

/// The components before the first one with an operator in it.
pub open spec fn plain_front(parts: Seq<Seq<char>>) -> Seq<Seq<char>>
    decreases parts.len(),
{
    if parts.len() == 0 || has_operator(parts[0]) {
        Seq::empty()
    } else {
        seq![parts[0]] + plain_front(parts.drop_first())
    }
}

/// The directory under which everything lies that can fit a pattern.
pub open spec fn base(pattern: Seq<char>) -> Seq<char> {
    let front = path::render(plain_front(path::components(pattern)));
    if front.len() == 0 {
        "."@
    } else {
        front
    }
}

/// The directory under which everything lies that can fit a pattern.
pub fn glob_base(pattern: &[char]) -> (dir: Vec<char>)
    ensures
        dir@ == base(pattern@),
{
    let parts = components_of(pattern);
    let ghost all = path::components(pattern@);
    let mut front: Vec<char> = Vec::new();
    let mut i: usize = 0;
    assert(all.skip(0) =~= all);
    assert(all.take(0) + plain_front(all) =~= plain_front(all));
    assert(front@ =~= path::render(all.take(0)));
    assert(parts@.len() == all.len());
    while i < parts.len() && !has_glob_meta(parts[i].as_slice())
        invariant
            i <= parts@.len(),
            text::views(parts@) == all,
            parts@.len() == all.len(),
            front@ == path::render(all.take(i as int)),
            plain_front(all) == all.take(i as int) + plain_front(all.skip(i as int)),
        decreases parts@.len() - i,
    {
        front = join_path(front.as_slice(), parts[i].as_slice());
        assert(all[i as int] == parts@[i as int]@);
        assert(all.take(i + 1).drop_last() =~= all.take(i as int));
        assert(all.skip(i as int).drop_first() =~= all.skip(i + 1));
        assert(all.take(i as int) + plain_front(all.skip(i as int)) =~= all.take(i + 1)
            + plain_front(all.skip(i + 1)));
        i = i + 1;
    }
    proof {
        if i < parts@.len() {
            assert(all[i as int] == parts@[i as int]@);
        }
        assert(all.take(i as int) + Seq::<Seq<char>>::empty() =~= all.take(i as int));
    }
    if front.len() == 0 {
        return chars_of(".");
    }
    front
}

/// A file as a pattern sees it. A pattern that starts with an operator is looked for in the
/// current directory, and does not see the `./` that its files are listed with.
pub open spec fn seen_by(pattern: Seq<char>, file: Seq<char>) -> Seq<char> {
    let shown = path::with_slashes(file);
    if plain_front(path::components(pattern)).len() == 0 && text::starts_with(shown, "./"@) {
        shown.skip(2)
    } else {
        shown
    }
}

/// Whether a pattern selects a file that is listed under its base.
pub open spec fn selects(pattern: Seq<char>, file: Seq<char>) -> bool {
    fits(pattern, seen_by(pattern, file))
}

/// Whether a pattern starts with an operator.
fn starts_with_operator(pattern: &[char]) -> (yes: bool)
    ensures
        yes == (plain_front(path::components(pattern@)).len() == 0),
{
    let parts = components_of(pattern);
    let ghost all = path::components(pattern@);
    assert(parts@.len() == all.len());
    if parts.len() == 0 {
        return true;
    }
    assert(all[0] == parts@[0]@);
    has_glob_meta(parts[0].as_slice())
}

/// Whether a pattern selects a file that is listed under its base.
pub fn glob_selects(pattern: &[char], file: &[char]) -> (yes: bool)
    ensures
        yes == selects(pattern@, file@),
{
    let shown = path_to_slash(file);
    let n: usize = shown.len();
    if starts_with_operator(pattern) && has_prefix(shown.as_slice(), "./") {
        proof {
            reveal_strlit("./");
        }
        let rest = slice_subrange(shown.as_slice(), 2, n);
        assert(rest@ =~= shown@.skip(2));
        glob_matches(pattern, rest)
    } else {
        glob_matches(pattern, shown.as_slice())
    }
}

/// Where a source is looked for: at the base of a pattern, or at the path that it is.
pub open spec fn root_of(source: Seq<char>) -> Seq<char> {
    if has_operator(source) {
        base(source)
    } else {
        source
    }
}

/// Where a source is looked for.
pub fn materialization_root(source: &str) -> (root: String)
    ensures
        root@ == root_of(source@),
{
    let chars = chars_of(source);
    if has_glob_meta(chars.as_slice()) {
        string_of(glob_base(chars.as_slice()).as_slice())
    } else {
        string_of(chars.as_slice())
    }
}

/// A component pattern without operators fits only itself.
proof fn lemma_plain_piece(pattern: Seq<char>, piece: Seq<char>)
    requires
        !has_operator(pattern),
    ensures
        piece_matches(pattern, piece) <==> pattern == piece,
    decreases pattern.len(),
{
    if pattern.len() == 0 {
        if piece.len() == 0 {
            assert(pattern =~= piece);
        }
    } else {
        assert(pattern.contains(pattern[0]));
        let rest = pattern.drop_first();
        assert forall|c: char| rest.contains(c) implies pattern.contains(c) by {
            let i = choose|i: int| 0 <= i < rest.len() && rest[i] == c;
            assert(pattern[i + 1] == c);
        }
        if piece.len() > 0 {
            lemma_plain_piece(rest, piece.drop_first());
            if pattern[0] == piece[0] && rest == piece.drop_first() {
                assert(pattern =~= seq![pattern[0]] + rest);
                assert(piece =~= seq![piece[0]] + piece.drop_first());
            }
        }
    }
}

proof fn lemma_plain_pieces(pattern: Seq<Seq<char>>, pieces: Seq<Seq<char>>)
    requires
        forall|i: int| 0 <= i < pattern.len() ==> !has_operator(#[trigger] pattern[i]),
    ensures
        pieces_match(pattern, pieces) <==> pattern == pieces,
    decreases pattern.len(),
{
    if pattern.len() == 0 {
        if pieces.len() == 0 {
            assert(pattern =~= pieces);
        }
    } else {
        reveal_strlit("**");
        assert("**"@[0] == '*');
        assert(has_operator("**"@));
        assert(!has_operator(pattern[0]));
        let rest = pattern.drop_first();
        assert forall|i: int| 0 <= i < rest.len() implies !has_operator(#[trigger] rest[i]) by {
            assert(rest[i] == pattern[i + 1]);
        }
        if pieces.len() > 0 {
            lemma_plain_piece(pattern[0], pieces[0]);
            lemma_plain_pieces(rest, pieces.drop_first());
            if pattern[0] == pieces[0] && rest == pieces.drop_first() {
                assert(pattern =~= seq![pattern[0]] + rest);
                assert(pieces =~= seq![pieces[0]] + pieces.drop_first());
            }
        }
    }
}

/// The pieces of a text hold only characters of it.
pub proof fn lemma_pieces_plain(s: Seq<char>)
    requires
        !has_operator(s),
    ensures
        forall|i: int|
            0 <= i < text::split(s, '/').len() ==> !has_operator(
                #[trigger] text::split(s, '/')[i],
            ),
    decreases s.len(),
{
    let pieces = text::split(s, '/');
    text::lemma_position(s, text::is_char('/'));
    if let Some(at) = text::find(s, '/') {
        let rest = s.skip(at + 1);
        assert forall|c: char| rest.contains(c) implies s.contains(c) by {
            let i = choose|i: int| 0 <= i < rest.len() && rest[i] == c;
            assert(s[i + at + 1] == c);
        }
        assert forall|c: char| s.take(at).contains(c) implies s.contains(c) by {
            let i = choose|i: int| 0 <= i < at && s.take(at)[i] == c;
            assert(s[i] == c);
        }
        lemma_pieces_plain(rest);
        assert forall|i: int| 0 <= i < pieces.len() implies !has_operator(#[trigger] pieces[i]) by {
            if i > 0 {
                assert(pieces[i] == text::split(rest, '/')[i - 1]);
            }
        }
    }
}

/// Pieces without operators at the start of a pattern stand at the start of what fits.
pub proof fn lemma_plain_start(
    plain: Seq<Seq<char>>,
    pattern: Seq<Seq<char>>,
    pieces: Seq<Seq<char>>,
)
    requires
        forall|i: int| 0 <= i < plain.len() ==> !has_operator(#[trigger] plain[i]),
    ensures
        pieces_match(plain + pattern, pieces) <==> plain.is_prefix_of(pieces) && pieces_match(
            pattern,
            pieces.skip(plain.len() as int),
        ),
    decreases plain.len(),
{
    let whole = plain + pattern;
    if plain.len() == 0 {
        assert(whole =~= pattern);
        assert(pieces.skip(0) =~= pieces);
        assert(plain =~= pieces.take(0));
    } else {
        reveal_strlit("**");
        assert("**"@[0] == '*');
        assert(has_operator("**"@));
        assert(!has_operator(plain[0]));
        let rest = plain.drop_first();
        assert forall|i: int| 0 <= i < rest.len() implies !has_operator(#[trigger] rest[i]) by {
            assert(rest[i] == plain[i + 1]);
        }
        assert(whole[0] == plain[0]);
        assert(whole.drop_first() =~= rest + pattern);
        if pieces.len() > 0 {
            lemma_plain_piece(plain[0], pieces[0]);
            lemma_plain_start(rest, pattern, pieces.drop_first());
            if plain.len() <= pieces.len() {
                assert(pieces.drop_first().skip(rest.len() as int) =~= pieces.skip(
                    plain.len() as int,
                ));
            }
            if plain[0] == pieces[0] && rest.is_prefix_of(pieces.drop_first()) {
                assert(plain =~= seq![plain[0]] + rest);
                assert(plain =~= pieces.take(plain.len() as int));
            }
            if plain.is_prefix_of(pieces) {
                assert(plain[0] == pieces[0]);
                assert(rest =~= pieces.drop_first().take(rest.len() as int));
            }
        }
    }
}

/// Texts with the same pieces are the same.
pub proof fn lemma_split_once(a: Seq<char>, b: Seq<char>)
    requires
        text::split(a, '/') == text::split(b, '/'),
    ensures
        a == b,
    decreases a.len(),
{
    let p = text::split(a, '/');
    let q = text::split(b, '/');
    text::lemma_position(a, text::is_char('/'));
    text::lemma_position(b, text::is_char('/'));
    assert(p[0] == q[0]);
    match (text::find(a, '/'), text::find(b, '/')) {
        (None, None) => {},
        (Some(i), Some(j)) => {
            assert(p.drop_first() =~= text::split(a.skip(i + 1), '/'));
            assert(q.drop_first() =~= text::split(b.skip(j + 1), '/'));
            lemma_split_once(a.skip(i + 1), b.skip(j + 1));
            assert(a.take(i).len() == b.take(j).len());
            assert(a =~= a.take(i).push('/') + a.skip(i + 1));
            assert(b =~= b.take(j).push('/') + b.skip(j + 1));
        },
        (Some(i), None) => {
            lemma_split_some(a.skip(i + 1));
        },
        (None, Some(j)) => {
            lemma_split_some(b.skip(j + 1));
        },
    }
}

proof fn lemma_split_some(s: Seq<char>)
    ensures
        text::split(s, '/').len() > 0,
{
}

/// A pattern without operators fits only itself.
pub proof fn law_plain_pattern_fits_itself(pattern: Seq<char>, candidate: Seq<char>)
    requires
        !has_operator(pattern),
    ensures
        fits(pattern, candidate) <==> candidate == pattern,
{
    lemma_pieces_plain(pattern);
    lemma_plain_pieces(text::split(pattern, '/'), text::split(candidate, '/'));
    if text::split(pattern, '/') == text::split(candidate, '/') {
        lemma_split_once(pattern, candidate);
    }
}

/// Only `**` crosses a slash: a pattern without it fits paths with as many pieces only.
pub proof fn law_star_stays_in_component(pattern: Seq<char>, candidate: Seq<char>)
    requires
        !text::split(pattern, '/').contains("**"@),
        fits(pattern, candidate),
    ensures
        text::split(candidate, '/').len() == text::split(pattern, '/').len(),
{
    lemma_same_count(text::split(pattern, '/'), text::split(candidate, '/'));
}

proof fn lemma_same_count(pattern: Seq<Seq<char>>, pieces: Seq<Seq<char>>)
    requires
        !pattern.contains("**"@),
        pieces_match(pattern, pieces),
    ensures
        pieces.len() == pattern.len(),
    decreases pattern.len(),
{
    if pattern.len() > 0 {
        assert(pattern.contains(pattern[0]));
        let rest = pattern.drop_first();
        if rest.contains("**"@) {
            let i = choose|i: int| 0 <= i < rest.len() && rest[i] == "**"@;
            assert(pattern[i + 1] == "**"@);
        }
        lemma_same_count(rest, pieces.drop_first());
    }
}

/// `**` stands for any number of components, none among them.
pub proof fn law_double_star_takes_any_run(
    pattern: Seq<Seq<char>>,
    run: Seq<Seq<char>>,
    pieces: Seq<Seq<char>>,
)
    requires
        pieces_match(pattern, pieces),
    ensures
        pieces_match(seq!["**"@] + pattern, run + pieces),
{
    let all = run + pieces;
    assert((seq!["**"@] + pattern).drop_first() =~= pattern);
    assert(all.skip(run.len() as int) =~= pieces);
}

/// `*` stands for any text, the empty one among them.
pub proof fn law_star_takes_any_text(pattern: Seq<char>, run: Seq<char>, piece: Seq<char>)
    requires
        piece_matches(pattern, piece),
    ensures
        piece_matches(seq!['*'] + pattern, run + piece),
{
    let all = run + piece;
    assert((seq!['*'] + pattern).drop_first() =~= pattern);
    assert(all.skip(run.len() as int) =~= piece);
}

/// Where pieces fit, the plain components in front are the same.
proof fn lemma_front(pattern: Seq<Seq<char>>, pieces: Seq<Seq<char>>, first: bool)
    requires
        pieces_match(pattern, pieces),
    ensures
        plain_front(path::counted(pattern, first)).is_prefix_of(path::counted(pieces, first)),
    decreases pattern.len(),
{
    if pattern.len() > 0 {
        let part = pattern[0];
        let rest = pattern.drop_first();
        reveal_strlit("**");
        reveal_strlit(".");
        assert("**"@[0] == '*');
        assert(has_operator("**"@));
        if has_operator(part) {
            assert(part != "."@);
            assert(path::counted(pattern, first)[0] == part);
        } else {
            lemma_plain_piece(part, pieces[0]);
            lemma_front(rest, pieces.drop_first(), false);
            let p = path::counted(pattern, first);
            let p1 = path::counted(rest, false);
            let q = path::counted(pieces, first);
            let q1 = path::counted(pieces.drop_first(), false);
            if p.len() != p1.len() {
                assert(p.drop_first() =~= p1);
                assert(plain_front(p) =~= seq![part] + plain_front(p1));
            }
            assert(plain_front(p) =~= q.take(plain_front(p).len() as int));
        }
    }
}

/// What fits a pattern with a plain front lies under that front.
proof fn lemma_front_holds_what_fits(pattern: Seq<char>, candidate: Seq<char>)
    requires
        fits(pattern, candidate),
        candidate.len() > 0,
        plain_front(path::components(pattern)).len() > 0,
    ensures
        path::components(base(pattern)).is_prefix_of(path::components(candidate)),
{
    let p = text::split(pattern, '/');
    let q = text::split(candidate, '/');
    let parts = path::components(pattern);
    let front = plain_front(parts);
    path::law_components_are_pieces(pattern);
    path::law_components_are_pieces(candidate);
    path::lemma_components_proper(pattern);
    lemma_plain_front(parts);
    assert forall|i: int| 0 <= i < front.len() implies front[i] == #[trigger] parts[i] by {}
    path::law_render_keeps_components(front);
    if path::absolute(pattern) {
        reveal_strlit("**");
        assert(p[0] == Seq::<char>::empty());
        assert(!has_operator(p[0]));
        lemma_plain_piece(p[0], q[0]);
        lemma_front(p.drop_first(), q.drop_first(), false);
        if q.len() == 1 {
            lemma_split_joins_one(candidate);
        }
        let p1 = path::counted(p.drop_first(), false);
        assert(parts.drop_first() =~= p1);
        assert(front =~= seq!["/"@] + plain_front(p1));
        assert(path::components(candidate) == seq!["/"@] + path::counted(q.drop_first(), false));
    } else {
        lemma_front(p, q, true);
        lemma_split_some(pattern);
        if has_operator(p[0]) {
            reveal_strlit(".");
            assert(path::counted(p, true)[0] == p[0]);
        } else {
            reveal_strlit("**");
            assert("**"@[0] == '*');
            lemma_plain_piece(p[0], q[0]);
            if path::absolute(candidate) {
                assert(p.drop_first() =~= Seq::empty());
                reveal_with_fuel(path::counted, 2);
            }
        }
        assert(!path::absolute(candidate));
    }
}

/// What fits a pattern is listed under the base of the pattern, and is selected there. A
/// pattern with a plain front has it as its base, and what fits lies under it. Any other
/// pattern is looked for in the current directory: a relative path that fits is listed
/// there, as it lies in the base, and the pattern selects it.
pub proof fn law_base_holds_what_fits(pattern: Seq<char>, candidate: Seq<char>)
    requires
        fits(pattern, candidate),
        candidate.len() > 0,
    ensures
        plain_front(path::components(pattern)).len() > 0 ==> path::components(
            base(pattern),
        ).is_prefix_of(path::components(candidate)) && (!candidate.contains('\\') ==> selects(
            pattern,
            candidate,
        )),
        plain_front(path::components(pattern)).len() == 0 && !path::absolute(candidate) ==> {
            let listed = path::within(base(pattern), candidate);
            &&& base(pattern) == "."@
            &&& path::components(base(pattern)).is_prefix_of(path::components(listed))
            &&& !candidate.contains('\\') ==> selects(pattern, listed)
        },
{
    if !candidate.contains('\\') {
        lemma_no_backslash(candidate);
    }
    if plain_front(path::components(pattern)).len() > 0 {
        lemma_front_holds_what_fits(pattern, candidate);
    } else {
        law_current_directory_is_not_seen(pattern, candidate);
        if !path::absolute(candidate) {
            path::law_moved_path_lies_within(base(pattern), candidate);
            reveal_strlit(".");
        }
    }
}

proof fn lemma_no_backslash(s: Seq<char>)
    requires
        !s.contains('\\'),
    ensures
        path::with_slashes(s) == s,
{
    assert forall|i: int| 0 <= i < s.len() implies s[i] != '\\' by {
        assert(s.contains(s[i]));
    }
    assert(path::with_slashes(s) =~= s);
}

/// A `*` followed by plain text selects every file of the current directory whose name
/// ends with that text, as it is listed there.
pub proof fn law_star_selects_in_current_directory(stem: Seq<char>, ending: Seq<char>)
    requires
        !has_operator(ending),
        !(stem + ending).contains('/'),
        !(stem + ending).contains('\\'),
    ensures
        selects(seq!['*'] + ending, "./"@ + (stem + ending)),
{
    let pattern = seq!['*'] + ending;
    let name = stem + ending;
    reveal_strlit("./");
    reveal_strlit(".");
    reveal_strlit("**");
    assert(pattern[0] == '*');
    assert(has_operator(pattern));
    assert forall|c: char| ending.contains(c) implies name.contains(c) by {
        let i = choose|i: int| 0 <= i < ending.len() && ending[i] == c;
        assert(name[stem.len() + i] == c);
    }
    if pattern.contains('/') {
        let i = choose|i: int| 0 <= i < pattern.len() && pattern[i] == '/';
        assert(ending[i - 1] == '/');
    }
    path::lemma_split_single(pattern);
    path::lemma_split_single(name);
    path::law_components_are_pieces(pattern);
    assert(path::counted(seq![pattern], true)[0] == pattern);
    law_current_directory_is_not_seen(pattern, name);
    lemma_no_backslash(name);
    assert(pattern != "**"@) by {
        if pattern == "**"@ {
            assert(ending[0] == pattern[1]);
            assert(ending.contains('*'));
        }
    }
    lemma_plain_piece(ending, ending);
    law_star_takes_any_text(ending, stem, ending);
    assert(seq![pattern].drop_first() =~= Seq::empty());
    assert(seq![name].drop_first() =~= Seq::empty());
    assert(pieces_match(seq![pattern].drop_first(), seq![name].drop_first()));
    assert(pieces_match(seq![pattern], seq![name]));
    if name.len() > 0 {
        assert(name.contains(name[0]));
    }
    assert(path::within("."@, name) =~= "./"@ + name);
}

/// A pattern that starts with an operator selects exactly those files of the current
/// directory that fit it, though they are listed with the directory in front.
pub proof fn law_current_directory_is_not_seen(pattern: Seq<char>, file: Seq<char>)
    requires
        plain_front(path::components(pattern)).len() == 0,
    ensures
        base(pattern) == "."@,
        !path::absolute(file) ==> (selects(pattern, path::within(base(pattern), file)) <==> fits(
            pattern,
            path::with_slashes(file),
        )),
{
    let front = plain_front(path::components(pattern));
    assert(front =~= Seq::empty());
    assert(path::render(front) =~= Seq::empty());
    if !path::absolute(file) {
        reveal_strlit(".");
        reveal_strlit("./");
        let listed = path::within("."@, file);
        assert(listed =~= "./"@ + file);
        let shown = path::with_slashes(listed);
        assert(shown =~= "./"@ + path::with_slashes(file));
        assert(shown.take(2) =~= "./"@);
        assert(shown.skip(2) =~= path::with_slashes(file));
    }
}

/// A text that is a single piece is that piece.
proof fn lemma_split_joins_one(s: Seq<char>)
    requires
        text::split(s, '/').len() == 1,
    ensures
        text::split(s, '/')[0] == s,
{
    if let Some(at) = text::find(s, '/') {
        lemma_split_some(s.skip(at + 1));
    }
}

/// The plain front is the front.
pub proof fn lemma_plain_front(parts: Seq<Seq<char>>)
    ensures
        plain_front(parts).is_prefix_of(parts),
    decreases parts.len(),
{
    if parts.len() > 0 && !has_operator(parts[0]) {
        lemma_plain_front(parts.drop_first());
        assert(plain_front(parts) =~= parts.take(plain_front(parts).len() as int));
    }
}

} // verus!
