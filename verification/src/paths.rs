//! Derivation of note file paths and classification of directory entries.
//!
//! A note lives at `<dir>/<id>.md`.  Listing looks at arbitrary file names,
//! keeps those with a (case-insensitive) `md` extension and a non-empty stem,
//! and uses the stem as the note's identifier.

use vstd::prelude::*;

use crate::ident::{sanitize_id, sanitized};
use crate::text::{find_last, is_allowed_char, last_pos, lemma_last_pos};

verus! {

/// `dir` and `name` joined with a single separator.
pub open spec fn joined(dir: Seq<char>, name: Seq<char>) -> Seq<char> {
    dir + seq!['/'] + name
}

/// The path of the note with identifier `id` inside `dir`.
pub open spec fn note_path_of(dir: Seq<char>, id: Seq<char>) -> Seq<char> {
    joined(dir, id + ".md"@)
}

/// Joins `dir` and `name` with a `/` separator.
pub fn join_path(dir: &str, name: &str) -> (r: String)
    ensures
        r@ == joined(dir@, name@),
{
    let mut out = dir.to_owned();
    crate::text::push_char(&mut out, '/');
    out.append(name);
    proof {
        assert(out@ =~= joined(dir@, name@));
    }
    out
}

/// Builds `<dir>/<id>.md`, the file path of the note with identifier `id`.
pub fn note_path(dir: &str, id: &str) -> (r: String)
    ensures
        r@ == note_path_of(dir@, id@),
{
    let mut stem = id.to_owned();
    stem.append(".md");
    join_path(dir, stem.as_str())
}

/// The file-name component of a path: everything after the last `/`
/// (the whole path when it has none).
pub open spec fn file_name_of(p: Seq<char>) -> Seq<char> {
    p.subrange(last_pos(p, '/') + 1, p.len() as int)
}

/// Whether a file name has an extension: a `.` later than its first
/// character (a name that *starts* with its only dot, like a hidden file,
/// has none).
pub open spec fn name_has_ext(name: Seq<char>) -> bool {
    last_pos(name, '.') > 0
}

/// A file name's extension (meaningful only when [`name_has_ext`]).
pub open spec fn ext_of_name(name: Seq<char>) -> Seq<char> {
    name.subrange(last_pos(name, '.') + 1, name.len() as int)
}

/// A file name's stem: what precedes the extension, or the whole name when
/// there is no extension.
pub open spec fn stem_of_name(name: Seq<char>) -> Seq<char> {
    if name_has_ext(name) {
        name.subrange(0, last_pos(name, '.'))
    } else {
        name
    }
}

/// Whether a file name's extension equals `md`, ASCII case ignored.
pub open spec fn name_is_md(name: Seq<char>) -> bool {
    &&& name_has_ext(name)
    &&& ext_of_name(name).len() == 2
    &&& (ext_of_name(name)[0] == 'm' || ext_of_name(name)[0] == 'M')
    &&& (ext_of_name(name)[1] == 'd' || ext_of_name(name)[1] == 'D')
}

/// Whether the file named by path `p` is a Markdown file.
pub open spec fn is_md_path(p: Seq<char>) -> bool {
    name_is_md(file_name_of(p))
}

/// The identifier a file at path `p` stands for: the stem of its file name.
pub open spec fn stem_of_path(p: Seq<char>) -> Seq<char> {
    stem_of_name(file_name_of(p))
}

/// Returns the file-name component of `path` as an owned string.
pub fn file_name(path: &str) -> (r: String)
    ensures
        r@ == file_name_of(path@),
{
    let len = path.unicode_len();
    proof {
        lemma_last_pos(path@, '/');
    }
    let start: usize = match find_last(path, '/') {
        Some(i) => i + 1,
        None => 0,
    };
    let name = path.substring_char(start, len);
    name.to_owned()
}

/// Decides whether the file at `path` is a Markdown file: its extension,
/// ASCII case ignored, equals `md`.
pub fn is_md_file(path: &str) -> (r: bool)
    ensures
        r == is_md_path(path@),
{
    let name = file_name(path);
    let name_str = name.as_str();
    let name_len = name_str.unicode_len();
    match find_last(name_str, '.') {
        None => false,
        Some(d) => {
            proof {
                lemma_last_pos(name@, '.');
            }
            if d == 0 || name_len - d != 3 {
                proof {
                    assert(ext_of_name(name@).len() == name@.len() - d - 1);
                }
                false
            } else {
                let c1 = name_str.get_char(d + 1);
                let c2 = name_str.get_char(d + 2);
                proof {
                    assert(ext_of_name(name@)[0] == name@[d + 1]);
                    assert(ext_of_name(name@)[1] == name@[d + 2]);
                    assert(ext_of_name(name@).len() == 2);
                }
                (c1 == 'm' || c1 == 'M') && (c2 == 'd' || c2 == 'D')
            }
        },
    }
}

/// In `a + [c] + b`, where `b` avoids `c`, the last occurrence of `c` is the
/// one in the middle.
pub proof fn lemma_last_pos_concat(a: Seq<char>, c: char, b: Seq<char>)
    requires
        forall|i: int| 0 <= i < b.len() ==> b[i] != c,
    ensures
        last_pos(a + seq![c] + b, c) == a.len(),
{
    let s = a + seq![c] + b;
    lemma_last_pos(s, c);
    let p = last_pos(s, c);
    assert(s[a.len() as int] == c);
    if p > a.len() {
        assert(s[p] == b[p - a.len() - 1]);
    }
}

/// How the note path for a well-formed identifier decomposes: its file name
/// is `<id>.md`, it counts as a Markdown file, and its stem is `id` again.
pub proof fn lemma_note_path_parts(dir: Seq<char>, id: Seq<char>)
    requires
        id.len() > 0,
        forall|i: int| 0 <= i < id.len() ==> is_allowed_char(#[trigger] id[i]),
    ensures
        file_name_of(note_path_of(dir, id)) == id + ".md"@,
        is_md_path(note_path_of(dir, id)),
        stem_of_path(note_path_of(dir, id)) == id,
{
    reveal_strlit(".md");
    let n = id + ".md"@;
    let p = note_path_of(dir, id);
    assert(".md"@ =~= seq!['.'] + seq!['m', 'd']) by {
        assert(".md"@.len() == 3);
        assert(".md"@[0] == '.');
        assert(".md"@[1] == 'm');
        assert(".md"@[2] == 'd');
    }
    assert(forall|i: int| 0 <= i < id.len() ==> id[i] != '/' && id[i] != '.') by {
        assert(forall|i: int| 0 <= i < id.len() ==> is_allowed_char(#[trigger] id[i]));
        assert('/' as u32 == 47 && '.' as u32 == 46);
    }
    assert(forall|i: int| 0 <= i < n.len() ==> n[i] != '/');
    lemma_last_pos_concat(dir, '/', n);
    assert(file_name_of(p) =~= n);
    assert(n =~= id + seq!['.'] + seq!['m', 'd']);
    lemma_last_pos_concat(id, '.', seq!['m', 'd']);
    assert(name_has_ext(n));
    assert(ext_of_name(n) =~= seq!['m', 'd']);
    assert(stem_of_name(n) =~= id);
}

/// The bare file name `<id>.md` of a well-formed identifier, taken on its
/// own: it is its own file-name component, counts as a Markdown file, and
/// its stem is `id` again.
pub proof fn lemma_note_name_parts(id: Seq<char>)
    requires
        id.len() > 0,
        forall|i: int| 0 <= i < id.len() ==> is_allowed_char(#[trigger] id[i]),
    ensures
        file_name_of(id + ".md"@) == id + ".md"@,
        is_md_path(id + ".md"@),
        stem_of_path(id + ".md"@) == id,
{
    reveal_strlit(".md");
    let n = id + ".md"@;
    assert(".md"@ =~= seq!['.'] + seq!['m', 'd']) by {
        assert(".md"@.len() == 3);
        assert(".md"@[0] == '.');
        assert(".md"@[1] == 'm');
        assert(".md"@[2] == 'd');
    }
    assert(forall|i: int| 0 <= i < id.len() ==> id[i] != '/' && id[i] != '.') by {
        assert(forall|i: int| 0 <= i < id.len() ==> is_allowed_char(#[trigger] id[i]));
        assert('/' as u32 == 47 && '.' as u32 == 46);
    }
    assert(forall|i: int| 0 <= i < n.len() ==> n[i] != '/');
    lemma_last_pos(n, '/');
    assert(last_pos(n, '/') == -1) by {
        if last_pos(n, '/') >= 0 {
            assert(n[last_pos(n, '/')] == '/');
        }
    }
    assert(file_name_of(n) =~= n);
    assert(n =~= id + seq!['.'] + seq!['m', 'd']);
    lemma_last_pos_concat(id, '.', seq!['m', 'd']);
    assert(name_has_ext(n));
    assert(ext_of_name(n) =~= seq!['m', 'd']);
    assert(stem_of_name(n) =~= id);
}

/// Path containment: for every input, the path derived from the sanitized
/// identifier is a direct child of the notes directory — the directory, one
/// separator, then a single file name that contains no separator, and whose
/// stem contains neither separators nor dots (so it cannot name `..` or
/// escape `dir`).
pub proof fn lemma_path_containment(dir: Seq<char>, raw: Seq<char>)
    ensures
        note_path_of(dir, sanitized(raw)) == dir + seq!['/'] + (sanitized(raw) + ".md"@),
        forall|i: int|
            0 <= i < sanitized(raw).len() ==> #[trigger] sanitized(raw)[i] != '/' && sanitized(
                raw,
            )[i] != '\\' && sanitized(raw)[i] != '.',
        file_name_of(note_path_of(dir, sanitized(raw))) == sanitized(raw) + ".md"@,
        stem_of_path(note_path_of(dir, sanitized(raw))) == sanitized(raw),
        is_md_path(note_path_of(dir, sanitized(raw))),
{
    let id = sanitized(raw);
    crate::ident::lemma_sanitize_properties(raw);
    assert(forall|i: int|
        0 <= i < id.len() ==> #[trigger] id[i] != '/' && id[i] != '\\' && id[i] != '.') by {
        assert(forall|i: int| 0 <= i < id.len() ==> is_allowed_char(#[trigger] id[i]));
        assert('/' as u32 == 47 && '.' as u32 == 46 && '\\' as u32 == 92);
    }
    lemma_note_path_parts(dir, id);
}

/// Sanitizes `raw_id` and derives the file path the note lives at: the
/// target of both update and delete.
pub fn note_target(dir: &str, raw_id: &str) -> (r: (String, String))
    ensures
        r.0@ == sanitized(raw_id@),
        r.1@ == note_path_of(dir@, sanitized(raw_id@)),
{
    let id = sanitize_id(raw_id);
    let path = note_path(dir, id.as_str());
    (id, path)
}

/// Returns the identifier the file at `path` stands for: the stem of its
/// file name.
pub fn file_stem(path: &str) -> (r: String)
    ensures
        r@ == stem_of_path(path@),
{
    let name = file_name(path);
    let name_str = name.as_str();
    let name_len = name_str.unicode_len();
    match find_last(name_str, '.') {
        None => name,
        Some(d) => {
            if d == 0 {
                name
            } else {
                proof {
                    lemma_last_pos(name@, '.');
                }
                let stem = name_str.substring_char(0, d);
                stem.to_owned()
            }
        },
    }
}

} // verus!
