//! Creating a note: the bounded retry scheme that picks a free file name.
//!
//! Creation generates a base identifier, then tries up to
//! [`MAX_CREATE_ATTEMPTS`] file names: the base itself first, then
//! `<base>_<attempt>`, re-sanitized before each retry.  The caller performs
//! the exclusive file creation for each candidate and stops at the first
//! that succeeds; this module supplies the candidates and proves what the
//! scheme guarantees.

use vstd::prelude::*;

use crate::ident::{
    decimal, kept_chars, lemma_decimal_allowed, lemma_kept_all_allowed, push_decimal, sanitize_id,
    sanitized,
};
use crate::paths::{note_path, note_path_of};
use crate::text::{is_allowed_char, push_char};

verus! {

/// How many file names `create` tries before giving up.
pub const MAX_CREATE_ATTEMPTS: usize = 5;

/// The identifier tried at the given attempt: the base identifier itself
/// first, then `<base>_<attempt>`, sanitized anew.
pub open spec fn candidate_of(base: Seq<char>, attempt: nat) -> Seq<char> {
    if attempt == 0 {
        base
    } else {
        sanitized(base + seq!['_'] + decimal(attempt))
    }
}

/// For a well-formed base, a retry candidate is just the base with the
/// attempt number appended — sanitization changes nothing — so it is longer
/// than, and distinct from, the base, and itself well-formed.
pub proof fn lemma_candidate_fixed(base: Seq<char>, attempt: nat)
    requires
        base.len() > 0,
        forall|i: int| 0 <= i < base.len() ==> is_allowed_char(#[trigger] base[i]),
        attempt >= 1,
    ensures
        candidate_of(base, attempt) == base + seq!['_'] + decimal(attempt),
        candidate_of(base, attempt).len() > base.len(),
        candidate_of(base, attempt) != base,
        candidate_of(base, attempt).len() > 0,
        forall|i: int|
            0 <= i < candidate_of(base, attempt).len() ==> is_allowed_char(
                #[trigger] candidate_of(base, attempt)[i],
            ),
{
    let s = base + seq!['_'] + decimal(attempt);
    lemma_decimal_allowed(attempt);
    assert(forall|i: int| 0 <= i < s.len() ==> is_allowed_char(#[trigger] s[i])) by {
        assert('_' as u32 == 95);
        assert(forall|i: int| 0 <= i < base.len() ==> s[i] == base[i]);
        assert(s[base.len() as int] == '_');
        assert(forall|i: int|
            base.len() + 1 <= i < s.len() ==> s[i] == decimal(attempt)[i - base.len() - 1]);
    }
    lemma_kept_all_allowed(s);
    assert(kept_chars(s).len() == s.len());
    assert(sanitized(s) == s);
}

/// Builds the identifier tried at the given attempt, as `create` does: the
/// base for attempt zero, `<base>_<attempt>` sanitized anew afterwards.
pub fn candidate_id(base: &str, attempt: usize) -> (r: String)
    ensures
        r@ == candidate_of(base@, attempt as nat),
{
    if attempt == 0 {
        base.to_owned()
    } else {
        let mut s = base.to_owned();
        push_char(&mut s, '_');
        push_decimal(&mut s, attempt as u64);
        proof {
            assert(base@ + seq!['_'] + decimal(attempt as nat) =~= base@.push('_') + decimal(
                attempt as nat,
            ));
        }
        sanitize_id(s.as_str())
    }
}

/// One step of the creation scheme: the identifier and file path to try at
/// the given attempt, or nothing once the retry bound is exhausted.
pub fn create_candidate(dir: &str, base: &str, attempt: usize) -> (r: Option<(String, String)>)
    ensures
        match r {
            Some(c) => attempt < MAX_CREATE_ATTEMPTS && c.0@ == candidate_of(
                base@,
                attempt as nat,
            ) && c.1@ == note_path_of(dir@, candidate_of(base@, attempt as nat)),
            None => attempt >= MAX_CREATE_ATTEMPTS,
        },
{
    if attempt >= MAX_CREATE_ATTEMPTS {
        None
    } else {
        let id = candidate_id(base, attempt);
        let path = note_path(dir, id.as_str());
        Some((id, path))
    }
}

/// The attempt the creation scheme settles on, starting from attempt `k`:
/// the first whose file name is not yet taken, or nothing within the bound.
pub open spec fn first_free_from(taken: Set<Seq<char>>, base: Seq<char>, k: nat) -> Option<nat>
    decreases MAX_CREATE_ATTEMPTS - k,
{
    if k >= MAX_CREATE_ATTEMPTS {
        None
    } else if !taken.contains(candidate_of(base, k) + ".md"@) {
        Some(k)
    } else {
        first_free_from(taken, base, (k + 1) as nat)
    }
}

/// What `first_free_from` settles on: the first free candidate at or after
/// `k`, every earlier one being taken — or, within the bound, none free at
/// all.
pub proof fn lemma_first_free_from(taken: Set<Seq<char>>, base: Seq<char>, k: nat)
    ensures
        match first_free_from(taken, base, k) {
            Some(j) => k <= j < MAX_CREATE_ATTEMPTS && !taken.contains(
                candidate_of(base, j) + ".md"@,
            ) && forall|m: nat|
                k <= m < j ==> taken.contains(#[trigger] candidate_of(base, m) + ".md"@),
            None => forall|m: nat|
                k <= m < MAX_CREATE_ATTEMPTS ==> taken.contains(
                    #[trigger] candidate_of(base, m) + ".md"@,
                ),
        },
    decreases MAX_CREATE_ATTEMPTS - k,
{
    if k < MAX_CREATE_ATTEMPTS && taken.contains(candidate_of(base, k) + ".md"@) {
        lemma_first_free_from(taken, base, (k + 1) as nat);
    }
}

/// Collision handling: among the file names already taken, creation settles
/// on the first free candidate.  When the base identifier's own file is
/// taken, the chosen identifier is a retry candidate distinct from the base;
/// and creation reports exhaustion exactly when all candidates within the
/// bound are taken.
pub proof fn lemma_collision_handling(taken: Set<Seq<char>>, base: Seq<char>)
    requires
        base.len() > 0,
        forall|i: int| 0 <= i < base.len() ==> is_allowed_char(#[trigger] base[i]),
    ensures
        match first_free_from(taken, base, 0) {
            Some(j) => !taken.contains(candidate_of(base, j) + ".md"@) && (taken.contains(
                base + ".md"@,
            ) ==> j >= 1 && candidate_of(base, j) != base),
            None => forall|m: nat|
                m < MAX_CREATE_ATTEMPTS ==> taken.contains(
                    #[trigger] candidate_of(base, m) + ".md"@,
                ),
        },
{
    lemma_first_free_from(taken, base, 0);
    if let Some(j) = first_free_from(taken, base, 0) {
        if taken.contains(base + ".md"@) {
            assert(candidate_of(base, 0) == base);
            assert(j >= 1) by {
                if j == 0 {
                    assert(!taken.contains(candidate_of(base, 0) + ".md"@));
                }
            }
            lemma_candidate_fixed(base, j);
        }
    }
}

} // verus!
