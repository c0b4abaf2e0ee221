//! The id that a schema file declares for itself.

use crate::lexer;
use crate::lexer::statements;
use crate::schema;
use crate::schema::{error_lint, pair_text, Lint, LintView};
use crate::text;
use crate::text::{chars_of, has_prefix, string_of, trimmed, trimmed_end_of};
use vstd::prelude::*;
use vstd::slice::slice_subrange;

verus! {

/// Whether `c` is a hexadecimal digit.
pub open spec fn is_hex_digit(c: char) -> bool {
    '0' <= c <= '9' || 'a' <= c <= 'f' || 'A' <= c <= 'F'
}

/// A letter from A to Z in lower case, any other character as it is.
pub open spec fn lower(c: char) -> char {
    if 'A' <= c <= 'Z' {
        (c as u8 + 32) as char
    } else {
        c
    }
}

/// Whether every character is a hexadecimal digit.
pub open spec fn all_hex_digits(s: Seq<char>) -> bool {
    forall|i: int| 0 <= i < s.len() ==> is_hex_digit(#[trigger] s[i])
}

/// The file id that a statement declares, in lower case: `@0x` and sixteen
/// hexadecimal digits.
pub open spec fn file_id_of(s: Seq<char>) -> Option<Seq<char>> {
    let id = text::trim(text::trim_end_of(text::trim(s), ';'));
    let hex = id.skip(3);
    if text::starts_with(id, "@0x"@) && hex.len() == 16 && all_hex_digits(hex) {
        Some("@0x"@ + hex.map_values(|c: char| lower(c)))
    } else {
        None
    }
}

fn to_lower(c: char) -> (l: char)
    ensures
        l == lower(c),
{
    if 'A' <= c && c <= 'Z' {
        (c as u8 + 32) as char
    } else {
        c
    }
}

fn hex_digit(c: char) -> (yes: bool)
    ensures
        yes == is_hex_digit(c),
{
    ('0' <= c && c <= '9') || ('a' <= c && c <= 'f') || ('A' <= c && c <= 'F')
}

/// The file id that a statement declares.
pub fn parse_file_id_statement(statement: &[char]) -> (id: Option<String>)
    ensures
        text::view_of(id) == file_id_of(statement@),
{
    let declared = trimmed(trimmed_end_of(trimmed(statement), ';'));
    proof {
        reveal_strlit("@0x");
    }
    if !has_prefix(declared, "@0x") {
        return None;
    }
    let hex = slice_subrange(declared, 3, declared.len());
    if hex.len() != 16 {
        return None;
    }
    let mut id = "@0x".to_owned();
    let ghost low = |c: char| lower(c);
    let mut i: usize = 0;
    assert(hex@.take(0).map_values(low) =~= Seq::empty());
    while i < hex.len()
        invariant
            i <= hex@.len(),
            hex@ == text::trim(text::trim_end_of(text::trim(statement@), ';')).skip(3),
            low == (|c: char| lower(c)),
            forall|j: int| 0 <= j < i ==> is_hex_digit(#[trigger] hex@[j]),
            id@ == "@0x"@ + hex@.take(i as int).map_values(low),
        decreases hex@.len() - i,
    {
        if !hex_digit(hex[i]) {
            return None;
        }
        id.push(to_lower(hex[i]));
        assert(hex@.take(i + 1).map_values(low) =~= hex@.take(i as int).map_values(low).push(
            lower(hex@[i as int]),
        ));
        i = i + 1;
    }
    assert(hex@.take(i as int) =~= hex@);
    Some(id)
}

/// The id of a file and the remarks on its declarations.
#[verifier::ext_equal]
pub struct FileMetadataView {
    pub file_id: Option<Seq<char>>,
    pub lints: Seq<LintView>,
}

/// The remark on an id that is zero.
pub open spec fn zero_lints(id: Seq<char>) -> Seq<LintView> {
    if id == "@0x0000000000000000"@ {
        seq![schema::error_lint_of(""@, "file id must not be zero"@, Some(id))]
    } else {
        Seq::empty()
    }
}

/// The remark on an id that is not the first of its file.
pub open spec fn repeat_lints(existing: Option<Seq<char>>, id: Seq<char>) -> Seq<LintView> {
    match existing {
        Some(first) => seq![
            schema::error_lint_of(
                ""@,
                "file id is declared multiple times"@,
                Some(first + " and "@ + id),
            ),
        ],
        None => Seq::empty(),
    }
}

/// What one more statement makes of the metadata. The first id stays.
pub open spec fn metadata_step(state: FileMetadataView, s: Seq<char>) -> FileMetadataView {
    if !text::starts_with(text::trim(s), "@"@) {
        state
    } else {
        match file_id_of(s) {
            None => FileMetadataView {
                file_id: state.file_id,
                lints: state.lints.push(
                    schema::error_lint_of(""@, "file id declaration is malformed"@, Some(s)),
                ),
            },
            Some(id) => FileMetadataView {
                file_id: if state.file_id is Some {
                    state.file_id
                } else {
                    Some(id)
                },
                lints: state.lints + zero_lints(id) + repeat_lints(state.file_id, id),
            },
        }
    }
}

/// What a row of statements says of its file.
pub open spec fn metadata_of(statements: Seq<Seq<char>>) -> FileMetadataView
    decreases statements.len(),
{
    if statements.len() == 0 {
        FileMetadataView { file_id: None, lints: Seq::empty() }
    } else {
        metadata_step(metadata_of(statements.drop_last()), statements.last())
    }
}

/// The id of a file and the remarks on its declarations.
#[derive(Debug, Clone, PartialEq, Eq)]
pub struct FileMetadata {
    pub file_id: Option<String>,
    pub lints: Vec<Lint>,
}

impl View for FileMetadata {
    type V = FileMetadataView;

    open spec fn view(&self) -> FileMetadataView {
        FileMetadataView { file_id: text::view_of(self.file_id), lints: text::views(self.lints@) }
    }
}

impl FileMetadata {
    fn push(&mut self, lint: Lint)
        ensures
            final(self)@.file_id == old(self)@.file_id,
            final(self)@.lints == old(self)@.lints.push(lint@),
    {
        proof {
            schema::lemma_views_push(self.lints@, lint);
        }
        self.lints.push(lint);
    }

    fn step(&mut self, statement: &[char])
        ensures
            final(self)@ == metadata_step(old(self)@, statement@),
    {
        let ghost before = self@;
        if !has_prefix(trimmed(statement), "@") {
            return;
        }
        match parse_file_id_statement(statement) {
            None => {
                self.push(
                    error_lint(
                        "".to_owned(),
                        "file id declaration is malformed",
                        Some(string_of(statement)),
                    ),
                );
            },
            Some(id) => {
                if text::same_text(id.as_str(), "@0x0000000000000000") {
                    self.push(
                        error_lint("".to_owned(), "file id must not be zero", Some(id.clone())),
                    );
                }
                assert(self@.lints =~= before.lints + zero_lints(id@));
                let ghost middle = self@.lints;
                let mut repeated: Option<String> = None;
                if let Some(existing) = &self.file_id {
                    repeated = Some(pair_text(existing.as_str(), " and ", id.as_str()));
                }
                if repeated.is_some() {
                    self.push(
                        error_lint("".to_owned(), "file id is declared multiple times", repeated),
                    );
                } else {
                    self.file_id = Some(id);
                }
                assert(self@.lints =~= middle + repeat_lints(before.file_id, id@));
            },
        }
        assert(self@ =~= metadata_step(before, statement@));
    }
}

/// The id that a schema text declares, with the remarks on its declarations.
pub fn parse_file_metadata(source: &str) -> (metadata: FileMetadata)
    ensures
        metadata@ == metadata_of(lexer::statements_of(source@)),
{
    let rows = statements(chars_of(source).as_slice());
    let mut metadata = FileMetadata { file_id: None, lints: Vec::new() };
    let mut i: usize = 0;
    assert(metadata@ =~= metadata_of(text::views(rows@).take(0)));
    while i < rows.len()
        invariant
            i <= rows@.len(),
            metadata@ == metadata_of(text::views(rows@).take(i as int)),
        decreases rows@.len() - i,
    {
        assert(text::views(rows@).take(i + 1).drop_last() =~= text::views(rows@).take(i as int));
        metadata.step(rows[i].as_slice());
        i = i + 1;
    }
    assert(text::views(rows@).take(i as int) =~= text::views(rows@));
    metadata
}

/// A file id is `@0x` and sixteen hexadecimal digits in lower case, and as a statement it
/// declares itself.
pub proof fn law_file_id_form(s: Seq<char>)
    requires
        file_id_of(s) is Some,
    ensures
        (file_id_of(s)->0).len() == 19,
        text::starts_with(file_id_of(s)->0, "@0x"@),
        all_hex_digits((file_id_of(s)->0).skip(3)),
        forall|i: int|
            0 <= i < 19 ==> lower(#[trigger] (file_id_of(s)->0)[i]) == (file_id_of(s)->0)[i],
        file_id_of(file_id_of(s)->0) == file_id_of(s),
{
    let id = file_id_of(s)->0;
    let hex = text::trim(text::trim_end_of(text::trim(s), ';')).skip(3);
    reveal_strlit("@0x");
    assert forall|i: int| 3 <= i < 19 implies #[trigger] id[i] == lower(hex[i - 3]) by {}
    assert(id.take(3) =~= "@0x"@);
    assert forall|i: int| 0 <= i < 16 implies is_hex_digit(#[trigger] id.skip(3)[i]) by {
        assert(id.skip(3)[i] == id[i + 3]);
        assert(is_hex_digit(hex[i]));
    }
    assert(id.last() == id[18]);
    assert(is_hex_digit(id.skip(3)[15]));
    assert(text::trim(id) == id);
    assert(text::trim_end_of(id, ';') == id);
    assert("@0x"@ + id.skip(3).map_values(|c: char| lower(c)) =~= id);
}

/// The first id that a file declares stays its id.
pub proof fn law_first_file_id_stays(statements: Seq<Seq<char>>, n: int)
    requires
        0 <= n <= statements.len(),
        metadata_of(statements.take(n)).file_id is Some,
    ensures
        metadata_of(statements).file_id == metadata_of(statements.take(n)).file_id,
    decreases statements.len(),
{
    if n < statements.len() {
        assert(statements.drop_last().take(n) =~= statements.take(n));
        law_first_file_id_stays(statements.drop_last(), n);
    } else {
        assert(statements.take(n) =~= statements);
    }
}

} // verus!
