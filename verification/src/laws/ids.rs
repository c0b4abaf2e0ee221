//! The ids of files.

use crate::file_id;
use crate::file_id::FileMetadataView;
use crate::laws::reading;
use crate::laws::words;
use crate::schema::{LintSeverity, LintView};
use crate::text;
use vstd::prelude::*;

verus! {

/// The code points of hexadecimal digits.
pub open spec fn hexadecimal(c: char) -> bool {
    let n = c as int;
    48 <= n <= 57 || 97 <= n <= 102 || 65 <= n <= 70
}

/// Whether a character is another one in lower case.
pub open spec fn lower_case_of(low: char, c: char) -> bool {
    if 65 <= c as int <= 90 {
        low as int == c as int + 32
    } else {
        low == c
    }
}

/// Whether a file id is the one that hexadecimal digits declare: `@0x` and the digits in
/// lower case.
pub open spec fn is_id_of(id: Seq<char>, hex: Seq<char>) -> bool {
    &&& id.len() == 3 + hex.len()
    &&& id[0] == '@'
    &&& id[1] == '0'
    &&& id[2] == 'x'
    &&& forall|i: int| 0 <= i < hex.len() ==> lower_case_of(#[trigger] id[3 + i], hex[i])
}

/// A file id is declared by `@0x` and sixteen hexadecimal digits in upper or lower case,
/// with white space around and semicolons behind.
pub proof fn law_written_file_id_reads_back(
    a: Seq<char>,
    hex: Seq<char>,
    e: Seq<char>,
    k: nat,
)
    requires
        words::all_blank(a),
        words::all_blank(e),
        hex.len() == 16,
        forall|i: int| 0 <= i < 16 ==> hexadecimal(#[trigger] hex[i]),
    ensures
        file_id::file_id_of(a + ("@0x"@ + hex) + e + reading::semicolons(k)) matches Some(id)
            && is_id_of(id, hex),
{
    reveal_strlit("@0x");
    let id = "@0x"@ + hex;
    let s = a + id + e + reading::semicolons(k);
    assert(hexadecimal(hex[15]));
    assert(id.last() == hex[15]);
    assert(id[0] == '@');
    reading::lemma_value(a, id, e, k);
    assert(id.skip(3) =~= hex);
    assert(id.take(3) =~= "@0x"@);
    assert forall|i: int| 0 <= i < hex.len() implies file_id::is_hex_digit(#[trigger] hex[i]) by {
        assert(hexadecimal(hex[i]));
    }
    let found = "@0x"@ + hex.map_values(|c: char| file_id::lower(c));
    assert forall|i: int| 0 <= i < hex.len() implies lower_case_of(
        #[trigger] found[3 + i],
        hex[i],
    ) by {
        assert(found[3 + i] == file_id::lower(hex[i]));
    }
}

/// Nothing else declares a file id.
pub proof fn law_only_file_ids_are_read(s: Seq<char>)
    requires
        file_id::file_id_of(s) is Some,
    ensures
        ({
            let id = text::trim(text::trim_end_of(text::trim(s), ';'));
            &&& id.len() == 19
            &&& id.take(3) == seq!['@'].push('0').push('x')
            &&& forall|i: int| 3 <= i < 19 ==> hexadecimal(#[trigger] id[i])
            &&& is_id_of(file_id::file_id_of(s)->0, id.skip(3))
        }),
{
    reveal_strlit("@0x");
    let id = text::trim(text::trim_end_of(text::trim(s), ';'));
    let hex = id.skip(3);
    assert("@0x"@ =~= seq!['@'].push('0').push('x'));
    assert forall|i: int| 3 <= i < 19 implies hexadecimal(#[trigger] id[i]) by {
        assert(file_id::is_hex_digit(hex[i - 3]));
    }
    let found = "@0x"@ + hex.map_values(|c: char| file_id::lower(c));
    assert forall|i: int| 0 <= i < hex.len() implies lower_case_of(
        #[trigger] found[3 + i],
        hex[i],
    ) by {
        assert(found[3 + i] == file_id::lower(hex[i]));
    }
}

/// An error that a file as a whole is remarked with.
pub open spec fn complaint(reason: Seq<char>, detail: Seq<char>) -> LintView {
    LintView { severity: LintSeverity::Error, path: Seq::empty(), reason, detail: Some(detail) }
}

/// A file has the first id that it declares. Statements that do not start with `@` say
/// nothing of it; one that does and declares no id is malformed; an id that is zero and a
/// second id are errors.
pub proof fn law_file_ids(statements: Seq<Seq<char>>, s: Seq<char>)
    ensures
        file_id::metadata_of(Seq::empty()) == (FileMetadataView {
            file_id: None,
            lints: Seq::empty(),
        }),
        ({
            let before = file_id::metadata_of(statements);
            let after = file_id::metadata_of(statements.push(s));
            let t = text::trim(s);
            if t.len() == 0 || t[0] != '@' {
                after == before
            } else {
                match file_id::file_id_of(s) {
                    None => after.file_id == before.file_id && after.lints == before.lints.push(
                        complaint("file id declaration is malformed"@, s),
                    ),
                    Some(id) => {
                        &&& after.file_id == match before.file_id {
                            Some(first) => Some(first),
                            None => Some(id),
                        }
                        &&& after.lints == before.lints + (if id
                            == "@0x0000000000000000"@ {
                            seq![complaint("file id must not be zero"@, id)]
                        } else {
                            Seq::empty()
                        }) + (match before.file_id {
                            Some(first) => seq![
                                complaint(
                                    "file id is declared multiple times"@,
                                    first + " and "@ + id,
                                ),
                            ],
                            None => Seq::empty(),
                        })
                    },
                }
            }
        }),
{
    reveal_strlit("@");
    reveal_strlit("");
    assert(""@ =~= Seq::<char>::empty());
    assert(statements.push(s).drop_last() =~= statements);
    let t = text::trim(s);
    if t.len() > 0 {
        assert(t.take(1) =~= "@"@ <==> t[0] == '@') by {
            assert(t.take(1)[0] == t[0]);
            if t[0] == '@' {
                assert(t.take(1) =~= "@"@);
            }
        }
    }
}

} // verus!
