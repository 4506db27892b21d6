//! Listing notes: which directory entries count as notes, how each becomes a
//! record, and the descending order the listing is returned in.

use vstd::prelude::*;

use crate::paths::{
    file_stem, is_md_file, is_md_path, join_path, joined, note_path_of, stem_of_path,
};
use crate::text::{is_allowed_char, lemma_lex_le_total, lemma_lex_le_trans, lex_le, str_le};

verus! {

/// One note as the listing reports it: identifier, file path, full content.
pub struct NoteRecord {
    pub id: String,
    pub path: String,
    pub content: String,
}

/// The mathematical content of a [`NoteRecord`].
pub ghost struct NoteView {
    pub id: Seq<char>,
    pub path: Seq<char>,
    pub content: Seq<char>,
}

impl View for NoteRecord {
    type V = NoteView;

    open spec fn view(&self) -> NoteView {
        NoteView { id: self.id@, path: self.path@, content: self.content@ }
    }
}

/// The views of a sequence of records.
pub open spec fn views_of(s: Seq<NoteRecord>) -> Seq<NoteView> {
    s.map_values(|n: NoteRecord| n@)
}

/// Whether a directory entry with this file name is listed as a note: a
/// Markdown file whose stem (the note's identifier) is non-empty.
pub open spec fn listed_name(name: Seq<char>) -> bool {
    is_md_path(name) && stem_of_path(name).len() > 0
}

/// The record a listed entry `(name, content)` inside `dir` produces.
pub open spec fn note_view_of(dir: Seq<char>, name: Seq<char>, content: Seq<char>) -> NoteView {
    NoteView { id: stem_of_path(name), path: joined(dir, name), content: content }
}

/// The records produced by a sequence of `(file name, content)` entries, in
/// entry order: listed entries are kept and turned into records, the rest
/// are dropped.
pub open spec fn note_views(dir: Seq<char>, entries: Seq<(Seq<char>, Seq<char>)>) -> Seq<NoteView>
    decreases entries.len(),
{
    if entries.len() == 0 {
        Seq::empty()
    } else {
        note_views(dir, entries.drop_last()) + (if listed_name(entries.last().0) {
            seq![note_view_of(dir, entries.last().0, entries.last().1)]
        } else {
            Seq::empty()
        })
    }
}

/// The views of a sequence of owned `(name, content)` pairs.
pub open spec fn entry_views(entries: Seq<(String, String)>) -> Seq<(Seq<char>, Seq<char>)> {
    entries.map_values(|e: (String, String)| (e.0@, e.1@))
}

/// Descending lexicographic order on the identifiers.
pub open spec fn sorted_desc(s: Seq<NoteView>) -> bool {
    forall|i: int, j: int| 0 <= i < j < s.len() ==> lex_le(s[j].id, s[i].id)
}

/// The views of a sequence of owned strings.
pub open spec fn string_views(s: Seq<String>) -> Seq<Seq<char>> {
    s.map_values(|x: String| x@)
}

/// The file names the listing keeps, in their given order.
pub open spec fn selected_names(names: Seq<Seq<char>>) -> Seq<Seq<char>> {
    names.filter(|n: Seq<char>| listed_name(n))
}

/// Keeps exactly the file names that the listing would report as notes, in
/// their given order.  Lets the caller read only those files.
pub fn select_md_names(names: &Vec<String>) -> (r: Vec<String>)
    ensures
        string_views(r@) == selected_names(string_views(names@)),
{
    let mut out: Vec<String> = Vec::new();
    proof {
        reveal_with_fuel(Seq::filter, 1);
        assert(string_views(names@.take(0)) =~= Seq::<Seq<char>>::empty());
        assert(string_views(out@) =~= selected_names(string_views(names@.take(0))));
    }
    let mut i: usize = 0;
    while i < names.len()
        invariant
            i <= names@.len(),
            string_views(out@) == selected_names(string_views(names@.take(i as int))),
        decreases names@.len() - i,
    {
        let name = &names[i];
        let keep = if is_md_file(name.as_str()) {
            let stem = file_stem(name.as_str());
            stem.as_str().unicode_len() > 0
        } else {
            false
        };
        proof {
            let prev = string_views(names@.take(i as int));
            let cur = string_views(names@.take(i as int + 1));
            assert(cur.drop_last() =~= prev);
            assert(cur.last() == names@[i as int]@);
            reveal_with_fuel(Seq::filter, 2);
        }
        if keep {
            out.push(name.clone());
        }
        proof {
            assert(string_views(out@) =~= selected_names(string_views(names@.take(i as int + 1))));
        }
        i = i + 1;
    }
    proof {
        assert(names@.take(names@.len() as int) =~= names@);
    }
    out
}

/// Builds the listing from the directory's `(file name, content)` entries:
/// every Markdown entry with a non-empty stem becomes one record (identifier
/// = stem, path = `<dir>/<name>`, content as read), everything else is
/// ignored, and the result is ordered by identifier, descending.
pub fn assemble_notes(dir: &str, entries: &Vec<(String, String)>) -> (r: Vec<NoteRecord>)
    ensures
        views_of(r@).to_multiset() == note_views(dir@, entry_views(entries@)).to_multiset(),
        sorted_desc(views_of(r@)),
{
    let mut out: Vec<NoteRecord> = Vec::new();
    proof {
        assert(entry_views(entries@.take(0)) =~= Seq::<(Seq<char>, Seq<char>)>::empty());
        assert(views_of(out@) =~= note_views(dir@, entry_views(entries@.take(0))));
    }
    let mut k: usize = 0;
    while k < entries.len()
        invariant
            k <= entries@.len(),
            views_of(out@) == note_views(dir@, entry_views(entries@.take(k as int))),
        decreases entries@.len() - k,
    {
        let name = &entries[k].0;
        proof {
            let prev = entry_views(entries@.take(k as int));
            let cur = entry_views(entries@.take(k as int + 1));
            assert(cur.drop_last() =~= prev);
            assert(cur.last() == (entries@[k as int].0@, entries@[k as int].1@));
        }
        if is_md_file(name.as_str()) {
            let stem = file_stem(name.as_str());
            if stem.as_str().unicode_len() > 0 {
                let path = join_path(dir, name.as_str());
                let content = entries[k].1.clone();
                let rec = NoteRecord { id: stem, path: path, content: content };
                out.push(rec);
            }
        }
        proof {
            assert(views_of(out@) =~= note_views(dir@, entry_views(entries@.take(k as int + 1))));
        }
        k = k + 1;
    }
    proof {
        assert(entries@.take(entries@.len() as int) =~= entries@);
    }
    sort_by_id_desc(&mut out);
    out
}

/// Sorts the records by identifier in descending lexicographic order,
/// keeping exactly the same records (as a multiset).
fn sort_by_id_desc(v: &mut Vec<NoteRecord>)
    ensures
        views_of(final(v)@).to_multiset() == views_of(old(v)@).to_multiset(),
        sorted_desc(views_of(final(v)@)),
{
    broadcast use vstd::seq_lib::group_to_multiset_ensures;

    if v.len() <= 1 {
        return ;
    }
    let mut i: usize = 1;
    while i < v.len()
        invariant
            1 <= i <= v@.len(),
            views_of(v@).to_multiset() == views_of(old(v)@).to_multiset(),
            forall|a: int, b: int|
                0 <= a < b < i ==> lex_le(#[trigger] v@[b]@.id, #[trigger] v@[a]@.id),
        decreases v@.len() - i,
    {
        let ghost w0 = v@;
        let mut p: usize = 0;
        while p < i && str_le(v[i].id.as_str(), v[p].id.as_str())
            invariant
                p <= i < v@.len(),
                v@ == w0,
                forall|q: int| 0 <= q < p ==> lex_le(v@[i as int]@.id, #[trigger] v@[q]@.id),
            decreases i - p,
        {
            p = p + 1;
        }
        proof {
            if p < i {
                lemma_lex_le_total(w0[i as int]@.id, w0[p as int]@.id);
                assert(lex_le(w0[p as int]@.id, w0[i as int]@.id));
            }
        }
        let x = v.remove(i);
        v.insert(p, x);
        proof {
            let w1 = v@;
            assert(w1 =~= w0.remove(i as int).insert(p as int, w0[i as int]));
            assert(views_of(w1) =~= views_of(w0).remove(i as int).insert(
                p as int,
                views_of(w0)[i as int],
            ));
            let vs = views_of(w0);
            let e = vs[i as int];
            assert(vs.len() == w0.len());
            assert(vs.contains(e));
            vs.to_multiset_ensures();
            assert(vs.to_multiset().count(e) > 0);
            vstd::seq_lib::to_multiset_remove(vs, i as int);
            assert(vs.remove(i as int).to_multiset() == vs.to_multiset().remove(e));
            vstd::seq_lib::to_multiset_insert(vs.remove(i as int), p as int, e);
            assert(views_of(w1).to_multiset() == vs.remove(i as int).to_multiset().insert(e));
            assert(vs.to_multiset().remove(e).insert(e) =~= vs.to_multiset()) by {
                broadcast use vstd::multiset::group_multiset_axioms;

            }
            assert(views_of(w1).to_multiset() =~= views_of(w0).to_multiset());
            assert forall|a: int, b: int| 0 <= a < b < i + 1 implies lex_le(
                #[trigger] w1[b]@.id,
                #[trigger] w1[a]@.id,
            ) by {
                let xid = w0[i as int]@.id;
                if b < p {
                    assert(w1[a] == w0[a] && w1[b] == w0[b]);
                } else if b == p {
                    assert(w1[b]@.id == xid && w1[a] == w0[a]);
                } else if a == p {
                    assert(w1[a]@.id == xid && w1[b] == w0[b - 1]);
                    assert(p <= b - 1 < i);
                    if b - 1 > p {
                        lemma_lex_le_trans(w0[b - 1]@.id, w0[p as int]@.id, xid);
                    }
                } else if a < p {
                    assert(w1[a] == w0[a] && w1[b] == w0[b - 1]);
                    assert(a < b - 1 < i);
                } else {
                    assert(w1[a] == w0[a - 1] && w1[b] == w0[b - 1]);
                    assert(0 <= a - 1 < b - 1 < i);
                }
            }
        }
        i = i + 1;
    }
}

/// A listed entry's record is in the listing.
pub proof fn lemma_note_views_contains(
    dir: Seq<char>,
    entries: Seq<(Seq<char>, Seq<char>)>,
    k: int,
)
    requires
        0 <= k < entries.len(),
        listed_name(entries[k].0),
    ensures
        note_views(dir, entries).contains(note_view_of(dir, entries[k].0, entries[k].1)),
    decreases entries.len(),
{
    let whole = note_views(dir, entries);
    let front = note_views(dir, entries.drop_last());
    if k == entries.len() - 1 {
        assert(entries.last() == entries[k]);
        assert(whole[front.len() as int] == note_view_of(dir, entries[k].0, entries[k].1));
    } else {
        lemma_note_views_contains(dir, entries.drop_last(), k);
        assert(entries.drop_last()[k] == entries[k]);
        let target = note_view_of(dir, entries[k].0, entries[k].1);
        let j = choose|j: int| 0 <= j < front.len() && front[j] == target;
        assert(whole[j] == target);
    }
}

/// Create-then-list round trip, on the listing side: once a file
/// `<id>.md` with the given content is among the directory's entries, the
/// listing contains a record with exactly that identifier, the note's
/// derived path, and that content.
pub proof fn lemma_create_then_list(
    dir: Seq<char>,
    entries: Seq<(Seq<char>, Seq<char>)>,
    k: int,
    id: Seq<char>,
    content: Seq<char>,
)
    requires
        0 <= k < entries.len(),
        entries[k].0 == id + ".md"@,
        entries[k].1 == content,
        id.len() > 0,
        forall|i: int| 0 <= i < id.len() ==> is_allowed_char(#[trigger] id[i]),
    ensures
        note_views(dir, entries).contains(
            (NoteView { id: id, path: note_path_of(dir, id), content: content }),
        ),
{
    crate::paths::lemma_note_name_parts(id);
    lemma_note_views_contains(dir, entries, k);
}

/// Every record of the listing comes from a listed entry — in particular, a
/// file whose name is not `*.md` (ASCII case ignored) never appears.
pub proof fn lemma_only_md_listed(dir: Seq<char>, entries: Seq<(Seq<char>, Seq<char>)>, j: int)
    requires
        0 <= j < note_views(dir, entries).len(),
    ensures
        exists|i: int|
            0 <= i < entries.len() && listed_name(#[trigger] entries[i].0) && note_views(
                dir,
                entries,
            )[j] == note_view_of(dir, entries[i].0, entries[i].1),
    decreases entries.len(),
{
    let whole = note_views(dir, entries);
    let front = note_views(dir, entries.drop_last());
    if j < front.len() {
        lemma_only_md_listed(dir, entries.drop_last(), j);
        let i = choose|i: int|
            0 <= i < entries.drop_last().len() && listed_name(#[trigger] entries.drop_last()[i].0)
                && front[j] == note_view_of(
                dir,
                entries.drop_last()[i].0,
                entries.drop_last()[i].1,
            );
        assert(entries.drop_last()[i] == entries[i]);
        assert(whole[j] == front[j]);
        assert(0 <= i < entries.len() && listed_name(entries[i].0) && whole[j] == note_view_of(
            dir,
            entries[i].0,
            entries[i].1,
        ));
    } else {
        let i = entries.len() - 1;
        assert(listed_name(entries[i].0));
        assert(whole[j] == note_view_of(dir, entries[i].0, entries[i].1));
    }
}

} // verus!
