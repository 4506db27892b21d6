//! Note identifiers: sanitization of externally supplied ids and generation
//! of fresh time-based ids.
//!
//! An identifier is used verbatim as a filename stem, so sanitization is the
//! sole barrier against path traversal: it keeps only ASCII alphanumerics,
//! `_` and `-`, and falls back to a fixed token when nothing is left.

use vstd::prelude::*;

use crate::text::{allowed_char, is_allowed_char, push_char};

verus! {

/// The characters of `s` that an identifier may keep, in order.
pub open spec fn kept_chars(s: Seq<char>) -> Seq<char> {
    s.filter(|c: char| is_allowed_char(c))
}

/// The fallback identifier used when sanitization strips everything.
pub open spec fn fallback_id() -> Seq<char> {
    "note"@
}

/// What [`sanitize_id`] returns: the kept characters, or the fallback when
/// none remain.
pub open spec fn sanitized(s: Seq<char>) -> Seq<char> {
    if kept_chars(s).len() == 0 {
        fallback_id()
    } else {
        kept_chars(s)
    }
}

/// Keeps only ASCII alphanumerics, `_` and `-`; returns `"note"` when that
/// leaves nothing.  Total and pure: every input yields a non-empty,
/// filename-safe identifier.
pub fn sanitize_id(raw: &str) -> (r: String)
    ensures
        r@ == sanitized(raw@),
{
    let len = raw.unicode_len();
    let mut out = String::new();
    proof {
        assert(raw@.take(0) =~= Seq::<char>::empty());
        reveal_with_fuel(Seq::filter, 1);
        assert(kept_chars(raw@.take(0)) =~= Seq::<char>::empty());
    }
    let mut i: usize = 0;
    while i < len
        invariant
            i <= len,
            len == raw@.len(),
            out@ == kept_chars(raw@.take(i as int)),
        decreases len - i,
    {
        let c = raw.get_char(i);
        proof {
            assert(raw@.take(i as int + 1).drop_last() =~= raw@.take(i as int));
            assert(raw@.take(i as int + 1).last() == raw@[i as int]);
            reveal_with_fuel(Seq::filter, 2);
        }
        if allowed_char(c) {
            push_char(&mut out, c);
        }
        i = i + 1;
    }
    proof {
        assert(raw@.take(len as int) =~= raw@);
    }
    if out.unicode_len() == 0 {
        let fb = "note".to_owned();
        fb
    } else {
        out
    }
}

/// Sanitization is total and its result is always a usable identifier: it is
/// non-empty, every character is filename-safe, inputs without a single
/// allowed character map to the fallback, and — whenever the kept characters
/// are not themselves the fallback spelling — the fallback is returned *only*
/// for such inputs.
pub proof fn lemma_sanitize_properties(s: Seq<char>)
    ensures
        sanitized(s).len() > 0,
        forall|i: int| 0 <= i < sanitized(s).len() ==> is_allowed_char(#[trigger] sanitized(s)[i]),
        kept_chars(s).len() == 0 ==> sanitized(s) == fallback_id(),
        kept_chars(s) != fallback_id() ==> (sanitized(s) == fallback_id() <==> kept_chars(s).len()
            == 0),
{
    reveal_strlit("note");
    broadcast use vstd::seq_lib::group_filter_ensures;
    if kept_chars(s).len() == 0 {
        assert(sanitized(s) == fallback_id());
        assert(fallback_id().len() == 4);
        assert(is_allowed_char('n') && is_allowed_char('o') && is_allowed_char('t') && is_allowed_char('e'));
        assert(forall|i: int| 0 <= i < 4 ==> is_allowed_char(#[trigger] fallback_id()[i])) by {
            assert(fallback_id()[0] == 'n');
            assert(fallback_id()[1] == 'o');
            assert(fallback_id()[2] == 't');
            assert(fallback_id()[3] == 'e');
        }
    }
}

/// The character for a single decimal digit.
pub open spec fn digit_char(d: nat) -> char {
    ((48 + d) as u8) as char
}

/// The usual decimal rendering of `n`, most significant digit first, no sign
/// and no leading zero (except for `n == 0` itself).
pub open spec fn decimal(n: nat) -> Seq<char>
    decreases n,
{
    if n < 10 {
        seq![digit_char(n)]
    } else {
        decimal(n / 10).push(digit_char(n % 10))
    }
}

/// Every character of a decimal rendering is an ASCII digit, hence allowed in
/// an identifier.
pub proof fn lemma_decimal_allowed(n: nat)
    ensures
        decimal(n).len() > 0,
        forall|i: int| 0 <= i < decimal(n).len() ==> is_allowed_char(#[trigger] decimal(n)[i]),
    decreases n,
{
    if n < 10 {
        assert(decimal(n)[0] == digit_char(n));
        assert(48 <= (48 + n) < 58);
        assert(digit_char(n) as u32 == 48 + n);
    } else {
        lemma_decimal_allowed(n / 10);
        assert(decimal(n).last() == digit_char(n % 10));
        assert(digit_char(n % 10) as u32 == 48 + n % 10) by {
            assert(0 <= n % 10 < 10);
        }
    }
}

/// Appends the decimal rendering of `n` to `s`.
pub(crate) fn push_decimal(s: &mut String, n: u64)
    ensures
        final(s)@ == old(s)@ + decimal(n as nat),
    decreases n,
{
    if n < 10 {
        let d: u8 = 48 + (n as u8);
        push_char(s, d as char);
        proof {
            assert(old(s)@ + decimal(n as nat) =~= old(s)@.push(digit_char(n as nat)));
        }
    } else {
        push_decimal(s, n / 10);
        let d: u8 = 48 + ((n % 10) as u8);
        push_char(s, d as char);
        proof {
            assert(old(s)@ + decimal(n as nat) =~= (old(s)@ + decimal(n as nat / 10)).push(
                digit_char(n as nat % 10)));
        }
    }
}

/// A fresh identifier for the instant `ms` (milliseconds of wall-clock time):
/// `note_<ms>` in decimal.
pub open spec fn generated_id(ms: nat) -> Seq<char> {
    "note_"@ + decimal(ms)
}

/// Relies on `std::time::SystemTime::now`: the current wall-clock time, here
/// reduced to whole milliseconds since the Unix epoch (zero if the clock
/// reads earlier than the epoch, saturated if it overflows 64 bits).
/// Nothing can be promised of a clock reading.
#[verifier::external_body]
fn now_unix_millis() -> u64 {
    match std::time::SystemTime::now().duration_since(std::time::UNIX_EPOCH) {
        Ok(d) => u64::try_from(d.as_millis()).unwrap_or(u64::MAX),
        Err(_) => 0,
    }
}

/// Produces a fresh identifier `note_<ms>` from the current wall-clock time.
/// The instant is whatever the clock returned, but the shape is fixed: the
/// result is some [`generated_id`], and it is already sanitized.
pub fn generate_id() -> (r: String)
    ensures
        exists|ms: nat| r@ == generated_id(ms),
        r@ == sanitized(r@),
{
    let ms = now_unix_millis();
    let mut out = "note_".to_owned();
    push_decimal(&mut out, ms);
    proof {
        assert(out@ == generated_id(ms as nat));
        lemma_generated_id_sanitized(ms as nat);
    }
    out
}

/// A generated identifier consists solely of allowed characters, so
/// sanitization leaves it unchanged.
pub proof fn lemma_generated_id_sanitized(ms: nat)
    ensures
        generated_id(ms).len() > 0,
        sanitized(generated_id(ms)) == generated_id(ms),
{
    let g = generated_id(ms);
    reveal_strlit("note_");
    lemma_decimal_allowed(ms);
    assert(forall|i: int| 0 <= i < g.len() ==> is_allowed_char(#[trigger] g[i])) by {
        assert(g[0] == 'n');
        assert(g[1] == 'o');
        assert(g[2] == 't');
        assert(g[3] == 'e');
        assert(g[4] == '_');
        assert(forall|i: int| 5 <= i < g.len() ==> g[i] == decimal(ms)[i - 5]);
        assert(is_allowed_char('n') && is_allowed_char('o') && is_allowed_char('t')
            && is_allowed_char('e') && is_allowed_char('_'));
    }
    lemma_kept_all_allowed(g);
}

/// Filtering a sequence that already consists of allowed characters is the
/// identity.
pub proof fn lemma_kept_all_allowed(s: Seq<char>)
    requires
        forall|i: int| 0 <= i < s.len() ==> is_allowed_char(#[trigger] s[i]),
    ensures
        kept_chars(s) == s,
    decreases s.len(),
{
    reveal_with_fuel(Seq::filter, 2);
    if s.len() == 0 {
        assert(kept_chars(s) =~= s);
    } else {
        lemma_kept_all_allowed(s.drop_last());
        assert(s[s.len() - 1] == s.last());
        assert(kept_chars(s) =~= kept_chars(s.drop_last()).push(s.last()));
        assert(kept_chars(s) =~= s);
    }
}

} // verus!
