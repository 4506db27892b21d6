//! The store's state, abstractly: the notes directory as a map from file
//! name to content.  Update and delete are single file-level actions on that
//! map; the lemmas here pin down their idempotence.

use vstd::prelude::*;

use crate::ident::sanitized;

verus! {

/// The file name a note with identifier `id` is stored under.
pub open spec fn note_file_name(id: Seq<char>) -> Seq<char> {
    id + ".md"@
}

/// The directory after `update(raw, content)`: the note's file — named
/// after the sanitized identifier — holds exactly `content`, whether or not
/// it existed before.
pub open spec fn after_update(
    files: Map<Seq<char>, Seq<char>>,
    raw: Seq<char>,
    content: Seq<char>,
) -> Map<Seq<char>, Seq<char>> {
    files.insert(note_file_name(sanitized(raw)), content)
}

/// The directory after `delete(raw)`: the note's file is gone; deleting an
/// absent note is success by definition and changes nothing.
pub open spec fn after_delete(files: Map<Seq<char>, Seq<char>>, raw: Seq<char>) -> Map<
    Seq<char>,
    Seq<char>,
> {
    files.remove(note_file_name(sanitized(raw)))
}

/// Update idempotence: one update stores exactly the given content, touches
/// no other file, and a second identical update changes nothing.
pub proof fn lemma_update_idempotent(
    files: Map<Seq<char>, Seq<char>>,
    raw: Seq<char>,
    content: Seq<char>,
)
    ensures
        after_update(files, raw, content)[note_file_name(sanitized(raw))] == content,
        forall|n: Seq<char>|
            n != note_file_name(sanitized(raw)) && files.dom().contains(n) ==> #[trigger] after_update(
                files,
                raw,
                content,
            )[n] == files[n],
        after_update(after_update(files, raw, content), raw, content) == after_update(
            files,
            raw,
            content,
        ),
{
    assert(after_update(after_update(files, raw, content), raw, content) =~= after_update(
        files,
        raw,
        content,
    ));
}

/// Delete idempotence: deleting an absent note leaves the directory as it
/// was, the note's file is absent after any delete, and a second delete of
/// the same identifier changes nothing.
pub proof fn lemma_delete_idempotent(files: Map<Seq<char>, Seq<char>>, raw: Seq<char>)
    ensures
        !files.dom().contains(note_file_name(sanitized(raw))) ==> after_delete(files, raw)
            == files,
        !after_delete(files, raw).dom().contains(note_file_name(sanitized(raw))),
        after_delete(after_delete(files, raw), raw) == after_delete(files, raw),
{
    if !files.dom().contains(note_file_name(sanitized(raw))) {
        assert(after_delete(files, raw) =~= files);
    }
    assert(after_delete(after_delete(files, raw), raw) =~= after_delete(files, raw));
}

} // verus!
