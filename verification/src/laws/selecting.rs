//! Which files are selected.

use crate::glob;
use crate::order;
use crate::path;
use crate::text;
use vstd::prelude::*;

verus! {

/// `?` stands for any one character, whatever it is, and never for none.
pub proof fn law_question_mark(c: char, pattern: Seq<char>, piece: Seq<char>)
    ensures
        glob::piece_matches(seq!['?'] + pattern, seq![c] + piece) <==> glob::piece_matches(
            pattern,
            piece,
        ),
        !glob::piece_matches(seq!['?'] + pattern, Seq::empty()),
{
    assert((seq!['?'] + pattern).drop_first() =~= pattern);
    assert((seq![c] + piece).drop_first() =~= piece);
}

/// A character that is no operator stands for itself only.
pub proof fn law_plain_character(x: char, pattern: Seq<char>, c: char, piece: Seq<char>)
    requires
        x != '*',
        x != '?',
    ensures
        glob::piece_matches(seq![x] + pattern, seq![c] + piece) <==> x == c && glob::piece_matches(
            pattern,
            piece,
        ),
        !glob::piece_matches(seq![x] + pattern, Seq::empty()),
{
    assert((seq![x] + pattern).drop_first() =~= pattern);
    assert((seq![c] + piece).drop_first() =~= piece);
}

/// `*` stands for any run of characters: it fits exactly if what follows it fits some end of
/// the text.
pub proof fn law_star(pattern: Seq<char>, piece: Seq<char>)
    ensures
        glob::piece_matches(seq!['*'] + pattern, piece) <==> exists|n: int|
            0 <= n <= piece.len() && glob::piece_matches(pattern, #[trigger] piece.skip(n)),
        glob::piece_matches(Seq::empty(), piece) <==> piece.len() == 0,
{
    assert((seq!['*'] + pattern).drop_first() =~= pattern);
}

/// A component of a pattern that is not `**` stands for one component that fits it.
pub proof fn law_single_component(
    part: Seq<char>,
    pattern: Seq<Seq<char>>,
    piece: Seq<char>,
    pieces: Seq<Seq<char>>,
)
    requires
        part != "**"@,
    ensures
        glob::pieces_match(seq![part] + pattern, seq![piece] + pieces) <==> glob::piece_matches(
            part,
            piece,
        ) && glob::pieces_match(pattern, pieces),
        !glob::pieces_match(seq![part] + pattern, Seq::empty()),
{
    assert((seq![part] + pattern).drop_first() =~= pattern);
    assert((seq![piece] + pieces).drop_first() =~= pieces);
}

/// `**` stands for any run of components: it fits exactly if what follows it fits some end
/// of the path.
pub proof fn law_double_star(pattern: Seq<Seq<char>>, pieces: Seq<Seq<char>>)
    ensures
        glob::pieces_match(seq!["**"@] + pattern, pieces) <==> exists|n: int|
            0 <= n <= pieces.len() && glob::pieces_match(pattern, #[trigger] pieces.skip(n)),
        glob::pieces_match(Seq::empty(), pieces) <==> pieces.len() == 0,
{
    assert((seq!["**"@] + pattern).drop_first() =~= pattern);
}

/// Whether none of the components has a slash in it.
pub open spec fn no_slashes(parts: Seq<Seq<char>>) -> bool {
    forall|i: int| 0 <= i < parts.len() ==> !(#[trigger] parts[i]).contains('/')
}

pub proof fn lemma_split_joined(parts: Seq<Seq<char>>)
    requires
        parts.len() > 0,
        no_slashes(parts),
    ensures
        text::split(text::join(parts, "/"@), '/') == parts,
    decreases parts.len(),
{
    reveal_strlit("/");
    let last = parts.last();
    assert(!parts[parts.len() - 1].contains('/'));
    path::lemma_split_single(last);
    if parts.len() == 1 {
        assert(parts =~= seq![last]);
    } else {
        let before = parts.drop_last();
        assert forall|i: int| 0 <= i < before.len() implies !(#[trigger] before[i]).contains(
            '/',
        ) by {
            assert(before[i] == parts[i]);
        }
        lemma_split_joined(before);
        path::lemma_split_joined(text::join(before, "/"@), last);
        assert(text::join(parts, "/"@) =~= text::join(before, "/"@).push('/') + last);
        assert(parts =~= before + seq![last]);
    }
}

/// A path fits a pattern component by component.
pub proof fn law_fits_by_components(pattern: Seq<Seq<char>>, pieces: Seq<Seq<char>>)
    requires
        pattern.len() > 0,
        pieces.len() > 0,
        no_slashes(pattern),
        no_slashes(pieces),
    ensures
        glob::fits(text::join(pattern, "/"@), text::join(pieces, "/"@)) <==> glob::pieces_match(
            pattern,
            pieces,
        ),
{
    lemma_split_joined(pattern);
    lemma_split_joined(pieces);
}

/// A pattern is a text with a `*` or a `?` in it.
pub proof fn law_patterns(s: Seq<char>)
    ensures
        glob::has_operator(s) <==> exists|i: int|
            0 <= i < s.len() && (#[trigger] s[i] == '*' || s[i] == '?'),
{
    if glob::has_operator(s) {
        if s.contains('*') {
            let i = choose|i: int| 0 <= i < s.len() && s[i] == '*';
            assert(s[i] == '*');
        } else {
            let i = choose|i: int| 0 <= i < s.len() && s[i] == '?';
            assert(s[i] == '?');
        }
    }
}

pub proof fn lemma_picked_filters<K>(items: Seq<K>, p: spec_fn(K) -> bool)
    ensures
        order::picked(items, p) == items.filter(p),
    decreases items.len(),
{
    reveal(Seq::filter);
    if items.len() > 0 {
        lemma_picked_filters(items.drop_last(), p);
    }
}

} // verus!
