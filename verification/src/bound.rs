//! Computing the exclusive upper bound of a string prefix range.
//!
//! The bound of a prefix is obtained by incrementing the last scalar value
//! that is not the maximum `U+10FFFF` (skipping the surrogate range) and
//! truncating everything after it; a prefix made entirely of the maximum
//! scalar value, the empty prefix included, has no finite bound.

use vstd::pervasive::unreached;
use vstd::prelude::*;
use vstd::utf8::char_is_scalar;
use vstd::utf8::is_scalar;

use crate::order::lemma_char_cast_injective;
use crate::order::lemma_lex_lt_common_head;
use crate::order::lex_lt;

verus! {

/// The character is the largest Unicode scalar value, `U+10FFFF`.
pub open spec fn max_scalar(c: char) -> bool {
    c as u32 == 0x10FFFF
}

/// Every character of the sequence is the maximum scalar value; holds
/// vacuously of the empty sequence.
pub open spec fn all_max(p: Seq<char>) -> bool {
    forall|i: int| 0 <= i < p.len() ==> max_scalar(#[trigger] p[i])
}

/// The scalar value directly after a character, skipping the surrogate
/// range as Unicode requires; meaningful only below the maximum.
pub open spec fn succ_scalar(c: char) -> char
    recommends
        !max_scalar(c),
{
    if c as u32 == 0xD7FF {
        0xE000u32 as char
    } else {
        ((c as u32 + 1) as u32) as char
    }
}

/// The successor is a valid scalar and lies strictly above its argument.
pub proof fn lemma_succ_scalar(c: char)
    requires
        !max_scalar(c),
    ensures
        is_scalar(succ_scalar(c) as u32),
        (succ_scalar(c) as u32) > (c as u32),
{
    char_is_scalar(c);
}

/// No character fits strictly between a character and its successor.
pub proof fn lemma_succ_scalar_gap(c: char, d: char)
    requires
        !max_scalar(c),
        (d as u32) < (succ_scalar(c) as u32),
    ensures
        (d as u32) <= (c as u32),
{
    char_is_scalar(c);
    char_is_scalar(d);
}

/// The exclusive upper bound of the prefix range, as a character sequence:
/// the last non-maximal character is incremented and the rest dropped.
/// Meaningful only when some character is below the maximum.
pub open spec fn spec_upper_bound(p: Seq<char>) -> Seq<char>
    recommends
        !all_max(p),
    decreases p.len(),
{
    if p.len() == 0 {
        Seq::empty()
    } else if max_scalar(p.last()) {
        spec_upper_bound(p.drop_last())
    } else {
        p.drop_last().push(succ_scalar(p.last()))
    }
}

/// When position `k` holds the last non-maximal character, the bound is the
/// head up to `k` followed by that character's successor.
pub proof fn lemma_upper_bound_with_pivot(p: Seq<char>, k: int)
    requires
        0 <= k < p.len(),
        !max_scalar(p[k]),
        forall|j: int| k < j < p.len() ==> max_scalar(#[trigger] p[j]),
    ensures
        spec_upper_bound(p) == p.take(k).push(succ_scalar(p[k])),
        !all_max(p),
    decreases p.len(),
{
    if k == p.len() - 1 {
        assert(p.take(k) =~= p.drop_last());
    } else {
        assert(max_scalar(p.last()));
        assert(p.drop_last()[k] == p[k]);
        lemma_upper_bound_with_pivot(p.drop_last(), k);
        assert(p.drop_last().take(k) =~= p.take(k));
    }
}

/// A prefix with a non-maximal character has a last such position.
pub proof fn lemma_pivot_exists(p: Seq<char>)
    requires
        !all_max(p),
    ensures
        exists|k: int|
            0 <= k < p.len() && !max_scalar(#[trigger] p[k]) && (forall|j: int|
                k < j < p.len() ==> max_scalar(#[trigger] p[j])),
    decreases p.len(),
{
    assert(p.len() > 0);
    if !max_scalar(p.last()) {
        let k = p.len() - 1;
        assert(0 <= k < p.len() && !max_scalar(p[k]) && (forall|j: int|
            k < j < p.len() ==> max_scalar(#[trigger] p[j])));
    } else {
        let i = choose|i: int| 0 <= i < p.len() && !max_scalar(p[i]);
        assert(p.drop_last()[i] == p[i]);
        assert(!all_max(p.drop_last()));
        lemma_pivot_exists(p.drop_last());
        let k = choose|k: int|
            0 <= k < p.drop_last().len() && !max_scalar(#[trigger] p.drop_last()[k]) && (forall|
                j: int,
            | k < j < p.drop_last().len() ==> max_scalar(#[trigger] p.drop_last()[j]));
        assert(p.drop_last()[k] == p[k]);
        assert forall|j: int| k < j < p.len() implies max_scalar(#[trigger] p[j]) by {
            if j < p.len() - 1 {
                assert(max_scalar(p.drop_last()[j]));
            }
        }
        assert(0 <= k < p.len() && !max_scalar(p[k]) && (forall|j: int|
            k < j < p.len() ==> max_scalar(#[trigger] p[j])));
    }
}

/// The law of the bound: it sorts strictly above every string that starts
/// with the prefix, and does not itself start with the prefix.
pub proof fn lemma_upper_bound_excludes_prefix(p: Seq<char>, s: Seq<char>)
    requires
        !all_max(p),
        p.is_prefix_of(s),
    ensures
        lex_lt(s, spec_upper_bound(p)),
        !p.is_prefix_of(spec_upper_bound(p)),
    decreases p.len(),
{
    assert(p.len() > 0);
    let u = spec_upper_bound(p);
    if !max_scalar(p.last()) {
        let k = p.len() - 1;
        assert(u == p.drop_last().push(succ_scalar(p.last())));
        assert(u.len() == p.len());
        lemma_succ_scalar(p.last());
        assert(u[k] == succ_scalar(p.last()));
        assert forall|j: int| 0 <= j < k implies s[j] == u[j] by {
            assert(s[j] == p[j]);
            assert(u[j] == p.drop_last()[j]);
        }
        lemma_lex_lt_common_head(s, u, k);
        assert(s.skip(k)[0] == s[k]);
        assert(s[k] == p[k]);
        assert(u.skip(k) =~= seq![succ_scalar(p.last())]);
        assert((s.skip(k)[0] as u32) < (u.skip(k)[0] as u32));
        assert(lex_lt(s.skip(k), u.skip(k)));
        if p.is_prefix_of(u) {
            assert(p[k] == u.subrange(0, p.len() as int)[k]);
            assert(p[k] == u[k]);
            lemma_char_cast_injective(p[k], u[k]);
            assert(false);
        }
    } else {
        let i = choose|i: int| 0 <= i < p.len() && !max_scalar(p[i]);
        assert(p.drop_last()[i] == p[i]);
        assert(!all_max(p.drop_last()));
        assert(p.drop_last().is_prefix_of(s)) by {
            assert(p.drop_last() =~= s.subrange(0, p.len() - 1));
        }
        lemma_upper_bound_excludes_prefix(p.drop_last(), s);
        if p.is_prefix_of(u) {
            assert(p.drop_last() =~= u.subrange(0, p.len() - 1));
            assert(p.drop_last().is_prefix_of(u));
            assert(false);
        }
    }
}

/// A head character in common lets a prefix relation on the remainders
/// be lifted to the whole sequences.
proof fn lemma_prefix_lift(p: Seq<char>, s: Seq<char>)
    requires
        p.len() > 0,
        s.len() > 0,
        p[0] == s[0],
        p.drop_first().is_prefix_of(s.drop_first()),
    ensures
        p.is_prefix_of(s),
{
    assert forall|j: int| 0 <= j < p.len() implies p[j] == s.subrange(0, p.len() as int)[j] by {
        if j > 0 {
            assert(p.drop_first()[j - 1] == s.drop_first().subrange(
                0,
                p.drop_first().len() as int,
            )[j - 1]);
        }
    }
    assert(p =~= s.subrange(0, p.len() as int));
}

/// Above a prefix made entirely of the maximum scalar value, every string
/// starts with that prefix: nothing can differ upward from the maximum.
pub proof fn lemma_at_or_above_allmax(p: Seq<char>, s: Seq<char>)
    requires
        all_max(p),
        !lex_lt(s, p),
    ensures
        p.is_prefix_of(s),
    decreases p.len(),
{
    if p.len() == 0 {
        assert(p =~= s.subrange(0, 0));
    } else {
        assert(s.len() > 0);
        assert(max_scalar(p[0]));
        char_is_scalar(s[0]);
        assert(!((s[0] as u32) < (p[0] as u32)));
        assert(s[0] as u32 == p[0] as u32);
        lemma_char_cast_injective(s[0], p[0]);
        assert(!lex_lt(s.drop_first(), p.drop_first()));
        assert forall|j: int| 0 <= j < p.drop_first().len() implies max_scalar(
            #[trigger] p.drop_first()[j],
        ) by {
            assert(p.drop_first()[j] == p[j + 1]);
        }
        lemma_at_or_above_allmax(p.drop_first(), s.drop_first());
        lemma_prefix_lift(p, s);
    }
}

/// A string at or above the prefix and strictly below the bound built at
/// pivot position `k` must itself start with the prefix.
pub proof fn lemma_between_implies_prefix(p: Seq<char>, s: Seq<char>, k: int)
    requires
        0 <= k < p.len(),
        !max_scalar(p[k]),
        forall|j: int| k < j < p.len() ==> max_scalar(#[trigger] p[j]),
        !lex_lt(s, p),
        lex_lt(s, p.take(k).push(succ_scalar(p[k]))),
    ensures
        p.is_prefix_of(s),
    decreases k,
{
    let u = p.take(k).push(succ_scalar(p[k]));
    assert(u.len() == k + 1);
    assert(s.len() > 0);
    lemma_succ_scalar(p[k]);
    if k == 0 {
        assert(u[0] == succ_scalar(p[0]));
        assert(lex_lt(s.drop_first(), u.drop_first()) ==> false) by {
            assert(u.drop_first().len() == 0);
        }
        assert((s[0] as u32) < (succ_scalar(p[0]) as u32) || s[0] == u[0]) by {
            if s[0] != u[0] && !((s[0] as u32) < (u[0] as u32)) {
                assert(!lex_lt(s, u));
            }
        }
        if s[0] == u[0] {
            assert(lex_lt(s.drop_first(), u.drop_first()));
            assert(false);
        }
        lemma_succ_scalar_gap(p[0], s[0]);
        assert(!((s[0] as u32) < (p[0] as u32)));
        lemma_char_cast_injective(s[0], p[0]);
        assert(!lex_lt(s.drop_first(), p.drop_first()));
        assert forall|j: int| 0 <= j < p.drop_first().len() implies max_scalar(
            #[trigger] p.drop_first()[j],
        ) by {
            assert(p.drop_first()[j] == p[j + 1]);
        }
        lemma_at_or_above_allmax(p.drop_first(), s.drop_first());
        lemma_prefix_lift(p, s);
    } else {
        assert(u[0] == p[0]);
        if (s[0] as u32) < (p[0] as u32) {
            assert(lex_lt(s, p));
            assert(false);
        }
        if s[0] != u[0] {
            assert(!lex_lt(s, u));
            assert(false);
        }
        assert(lex_lt(s.drop_first(), u.drop_first()));
        assert(!lex_lt(s.drop_first(), p.drop_first()));
        let pd = p.drop_first();
        assert(u.drop_first() =~= pd.take(k - 1).push(succ_scalar(pd[k - 1]))) by {
            assert(pd[k - 1] == p[k]);
            assert forall|j: int| 0 <= j < k - 1 implies u.drop_first()[j] == pd.take(k - 1)[j] by {
                assert(u[j + 1] == p.take(k)[j + 1]);
            }
        }
        assert(!max_scalar(pd[k - 1]));
        assert forall|j: int| k - 1 < j < pd.len() implies max_scalar(#[trigger] pd[j]) by {
            assert(pd[j] == p[j + 1]);
        }
        lemma_between_implies_prefix(pd, s.drop_first(), k - 1);
        lemma_prefix_lift(p, s);
    }
}

/// Relies on `char::from_u32` of core: it returns `Some` exactly for
/// Unicode scalar values, and converts the value itself.
pub assume_specification[ char::from_u32 ](i: u32) -> (r: Option<char>)
    ensures
        r is Some <==> is_scalar(i),
        r matches Some(c) ==> c as u32 == i,
;

/// Relies on `String::push` of alloc: it appends the given character to
/// the end of the string.
pub assume_specification[ String::push ](s: &mut String, ch: char)
    ensures
        final(s)@ == old(s)@.push(ch),
;

/// The smallest string strictly above every string starting with `prefix`,
/// or `None` when no finite such string exists — exactly when the prefix
/// consists entirely of the maximum scalar value `U+10FFFF` (vacuously, when
/// it is empty).
pub fn upper_bound_from_prefix(prefix: &str) -> (r: Option<String>)
    ensures
        r is Some <==> !all_max(prefix@),
        r matches Some(u) ==> u@ == spec_upper_bound(prefix@),
{
    let n = prefix.unicode_len();
    let mut i: usize = n;
    while i > 0
        invariant
            i <= n,
            n == prefix@.len(),
            forall|j: int| i <= j < n ==> max_scalar(#[trigger] prefix@[j]),
        decreases i,
    {
        let c = prefix.get_char(i - 1);
        let cv = c as u32;
        proof {
            char_is_scalar(c);
        }
        if cv != 0x10FFFF {
            let w: u32 = if cv == 0xD7FF {
                0xE000
            } else {
                cv + 1
            };
            proof {
                assert(is_scalar(w));
                assert(succ_scalar(c) as u32 == w);
            }
            let nc = match char::from_u32(w) {
                Some(ch) => ch,
                None => unreached(),
            };
            let head = prefix.substring_char(0, i - 1);
            let mut out = head.to_owned();
            out.push(nc);
            proof {
                lemma_char_cast_injective(nc, succ_scalar(c));
                lemma_upper_bound_with_pivot(prefix@, i - 1);
                assert(out@ =~= prefix@.take(i - 1).push(succ_scalar(c)));
            }
            return Some(out);
        }
        i -= 1;
    }
    proof {
        assert(all_max(prefix@));
    }
    None
}

} // verus!
