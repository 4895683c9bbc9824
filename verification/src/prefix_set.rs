//! An ordered set of strings with a split primitive, and the extraction of
//! the sub-set matching a prefix by two splits around the computed bound.

use vstd::prelude::*;

use crate::bound::all_max;
use crate::bound::lemma_at_or_above_allmax;
use crate::bound::lemma_between_implies_prefix;
use crate::bound::lemma_pivot_exists;
use crate::bound::lemma_upper_bound_excludes_prefix;
use crate::bound::lemma_upper_bound_with_pivot;
use crate::bound::max_scalar;
use crate::bound::spec_upper_bound;
use crate::bound::upper_bound_from_prefix;
use crate::order::lemma_lex_lt_connected;
use crate::order::lemma_lex_lt_irreflexive;
use crate::order::lemma_lex_lt_transitive;
use crate::order::lemma_prefix_not_above;
use crate::order::lex_lt;
use crate::order::str_eq;
use crate::order::str_lt;

verus! {

/// The character sequences held by a sequence of strings, in order.
pub open spec fn views_of(items: Seq<String>) -> Seq<Seq<char>> {
    Seq::new(items.len(), |i: int| items[i]@)
}

/// Strictly ascending in the lexicographic order; equal members cannot occur.
pub open spec fn sorted(s: Seq<Seq<char>>) -> bool {
    forall|i: int, j: int| 0 <= i < j < s.len() ==> lex_lt(#[trigger] s[i], #[trigger] s[j])
}

/// Membership below a key, as a filter predicate.
pub open spec fn below(key: Seq<char>) -> spec_fn(Seq<char>) -> bool {
    |x: Seq<char>| lex_lt(x, key)
}

/// Membership at or above a key, as a filter predicate.
pub open spec fn at_or_above(key: Seq<char>) -> spec_fn(Seq<char>) -> bool {
    |x: Seq<char>| !lex_lt(x, key)
}

/// Carrying a prefix, as a filter predicate.
pub open spec fn with_prefix(p: Seq<char>) -> spec_fn(Seq<char>) -> bool {
    |x: Seq<char>| p.is_prefix_of(x)
}

/// An ordered set of strings: kept strictly ascending in the lexicographic
/// order on scalar values, so a string occurs at most once.
pub struct StrSet {
    items: Vec<String>,
}

impl View for StrSet {
    type V = Seq<Seq<char>>;

    closed spec fn view(&self) -> Seq<Seq<char>> {
        views_of(self.items@)
    }
}

impl StrSet {
    /// The set's invariant: its members are strictly ascending.
    pub open spec fn wf(&self) -> bool {
        sorted(self@)
    }

    /// The empty set.
    pub fn new() -> (r: StrSet)
        ensures
            r@ == Seq::<Seq<char>>::empty(),
            r.wf(),
    {
        let r = StrSet { items: Vec::new() };
        proof {
            assert(r@ =~= Seq::<Seq<char>>::empty());
        }
        r
    }

    /// How many strings the set holds.
    pub fn len(&self) -> (n: usize)
        ensures
            n == self@.len(),
    {
        self.items.len()
    }

    /// The member at a position, counting in ascending order.
    pub fn get(&self, i: usize) -> (r: &String)
        requires
            i < self@.len(),
        ensures
            r@ == self@[i as int],
    {
        &self.items[i]
    }

    /// Whether the set holds the given string.
    pub fn contains(&self, s: &str) -> (r: bool)
        ensures
            r == self@.contains(s@),
    {
        let n = self.items.len();
        let mut i: usize = 0;
        while i < n
            invariant
                i <= n,
                n == self@.len(),
                forall|j: int| 0 <= j < i ==> self@[j] != s@,
            decreases n - i,
        {
            if str_eq(self.items[i].as_str(), s) {
                proof {
                    assert(self@[i as int] == s@);
                }
                return true;
            }
            i += 1;
        }
        proof {
            if self@.contains(s@) {
                let j = choose|j: int| 0 <= j < self@.len() && self@[j] == s@;
                assert(false);
            }
        }
        false
    }
}

/// The first position of a sorted vector whose member is at or above the
/// key; every earlier member lies below it.
fn lower_split_index(items: &Vec<String>, key: &str) -> (k: usize)
    requires
        sorted(views_of(items@)),
    ensures
        k <= items@.len(),
        forall|j: int| 0 <= j < k ==> lex_lt(#[trigger] views_of(items@)[j], key@),
        forall|j: int| k <= j < items@.len() ==> !lex_lt(#[trigger] views_of(items@)[j], key@),
{
    let n = items.len();
    let mut k: usize = 0;
    while k < n
        invariant
            k <= n,
            n == items@.len(),
            sorted(views_of(items@)),
            forall|j: int| 0 <= j < k ==> lex_lt(#[trigger] views_of(items@)[j], key@),
        decreases n - k,
    {
        if !str_lt(items[k].as_str(), key) {
            proof {
                let v = views_of(items@);
                assert(!lex_lt(v[k as int], key@));
                assert forall|j: int| k <= j < items@.len() implies !lex_lt(
                    #[trigger] v[j],
                    key@,
                ) by {
                    if j > k && lex_lt(v[j], key@) {
                        lemma_lex_lt_transitive(v[k as int], v[j], key@);
                    }
                }
            }
            return k;
        }
        k += 1;
    }
    k
}

impl StrSet {
    /// Splits the set at a key: members below the key stay behind, members
    /// at or above it move into the returned set.
    pub fn split_off(&mut self, key: &str) -> (r: StrSet)
        requires
            old(self).wf(),
        ensures
            final (self).wf(),
            r.wf(),
            final (self)@ == old(self)@.filter(below(key@)),
            r@ == old(self)@.filter(at_or_above(key@)),
    {
        let k = lower_split_index(&self.items, key);
        let high = self.items.split_off(k);
        let r = StrSet { items: high };
        proof {
            let v0 = old(self)@;
            assert forall|j: int| 0 <= j < v0.len() implies ((below(key@))(#[trigger] v0[j])
                <==> j < k) by {
                assert(v0[j] == views_of(old(self).items@)[j]);
            }
            assert forall|j: int| 0 <= j < v0.len() implies ((at_or_above(key@))(
                #[trigger] v0[j],
            ) <==> j >= k) by {
                assert(v0[j] == views_of(old(self).items@)[j]);
            }
            lemma_filter_front(v0, below(key@), k as int);
            lemma_filter_back(v0, at_or_above(key@), k as int);
            assert(self@ =~= v0.subrange(0, k as int));
            assert(r@ =~= v0.subrange(k as int, v0.len() as int));
            assert forall|i: int, j: int| 0 <= i < j < self@.len() implies lex_lt(
                #[trigger] self@[i],
                #[trigger] self@[j],
            ) by {
                assert(v0[i] == self@[i] && v0[j] == self@[j]);
            }
            assert forall|i: int, j: int| 0 <= i < j < r@.len() implies lex_lt(
                #[trigger] r@[i],
                #[trigger] r@[j],
            ) by {
                assert(v0[i + k] == r@[i] && v0[j + k] == r@[j]);
            }
        }
        r
    }

    /// Adds a string to the set; a string already present is not added
    /// again.
    pub fn insert(&mut self, s: String)
        requires
            old(self).wf(),
        ensures
            final (self).wf(),
            forall|x: Seq<char>|
                final (self)@.contains(x) <==> (old(self)@.contains(x) || x == s@),
            final (self)@.len() == old(self)@.len() + (if old(self)@.contains(s@) {
                0int
            } else {
                1int
            }),
    {
        let k = lower_split_index(&self.items, s.as_str());
        let n = self.items.len();
        if k < n && str_eq(self.items[k].as_str(), s.as_str()) {
            proof {
                assert(self@[k as int] == s@);
                assert(old(self)@.contains(s@));
                assert forall|x: Seq<char>|
                    self@.contains(x) <==> (old(self)@.contains(x) || x == s@) by {
                    if x == s@ {
                        assert(self@[k as int] == x);
                    }
                }
            }
        } else {
            proof {
                let v0 = old(self)@;
                if v0.contains(s@) {
                    let j = choose|j: int| 0 <= j < v0.len() && v0[j] == s@;
                    if j < k {
                        lemma_lex_lt_irreflexive(s@);
                    } else {
                        assert(k < n);
                        if j > k {
                            assert(lex_lt(v0[k as int], v0[j]));
                        }
                        assert(false);
                    }
                }
                assert(!v0.contains(s@));
            }
            self.items.insert(k, s);
            proof {
                let v0 = old(self)@;
                let v1 = self@;
                old(self).items@.insert_ensures(k as int, s);
                assert(v1.len() == v0.len() + 1);
                assert forall|i: int| 0 <= i < k implies v1[i] == v0[i] by {}
                assert(v1[k as int] == s@);
                assert forall|i: int| k < i < v1.len() implies v1[i] == v0[i - 1] by {
                    assert(self.items@[i] == old(self).items@[i - 1]);
                }
                assert forall|j: int| 0 <= j < v0.len() && j >= k implies lex_lt(
                    s@,
                    #[trigger] v0[j],
                ) by {
                    if !lex_lt(s@, v0[j]) {
                        lemma_lex_lt_connected(s@, v0[j]);
                        assert(v0.contains(s@));
                    }
                }
                assert forall|i: int, j: int| 0 <= i < j < v1.len() implies lex_lt(
                    #[trigger] v1[i],
                    #[trigger] v1[j],
                ) by {
                    if i < k && j < k {
                        assert(lex_lt(v0[i], v0[j]));
                    } else if i < k && j == k {
                        assert(lex_lt(v0[i], s@));
                    } else if i < k && j > k {
                        assert(lex_lt(v0[i], v0[j - 1]));
                    } else if i == k {
                        assert(lex_lt(s@, v0[j - 1]));
                    } else {
                        assert(lex_lt(v0[i - 1], v0[j - 1]));
                    }
                }
                assert forall|x: Seq<char>|
                    v1.contains(x) <==> (v0.contains(x) || x == s@) by {
                    if v1.contains(x) {
                        let i = choose|i: int| 0 <= i < v1.len() && v1[i] == x;
                        if i < k {
                            assert(v0[i] == x);
                        } else if i > k {
                            assert(v0[i - 1] == x);
                        }
                    }
                    if v0.contains(x) {
                        let i = choose|i: int| 0 <= i < v0.len() && v0[i] == x;
                        if i < k {
                            assert(v1[i] == x);
                        } else {
                            assert(v1[i + 1] == x);
                        }
                    }
                    if x == s@ {
                        assert(v1[k as int] == x);
                    }
                }
            }
        }
    }
}

/// Filtering keeps a sequence whose members all satisfy the predicate.
proof fn lemma_filter_all(s: Seq<Seq<char>>, pred: spec_fn(Seq<char>) -> bool)
    requires
        forall|j: int| 0 <= j < s.len() ==> pred(#[trigger] s[j]),
    ensures
        s.filter(pred) == s,
    decreases s.len(),
{
    reveal(Seq::filter);
    if s.len() > 0 {
        lemma_filter_all(s.drop_last(), pred);
        assert(s.drop_last().push(s.last()) =~= s);
    }
}

/// A member of a filtered sequence is a member of the original and
/// satisfies the predicate.
proof fn lemma_filter_member(s: Seq<Seq<char>>, pred: spec_fn(Seq<char>) -> bool, x: Seq<char>)
    requires
        s.filter(pred).contains(x),
    ensures
        s.contains(x),
        pred(x),
    decreases s.len(),
{
    reveal(Seq::filter);
    let i = choose|i: int| 0 <= i < s.filter(pred).len() && s.filter(pred)[i] == x;
    Seq::lemma_filter_pred(s, pred, i);
    if s.len() > 0 {
        let sub = s.drop_last().filter(pred);
        if pred(s.last()) && i == s.filter(pred).len() - 1 {
            assert(s[s.len() - 1] == x);
        } else {
            assert(sub[i] == x);
            lemma_filter_member(s.drop_last(), pred, x);
            let j = choose|j: int| 0 <= j < s.drop_last().len() && s.drop_last()[j] == x;
            assert(s[j] == x);
        }
    }
}

/// When the predicate holds exactly on the first `k` members, filtering
/// keeps exactly those.
proof fn lemma_filter_front(s: Seq<Seq<char>>, pred: spec_fn(Seq<char>) -> bool, k: int)
    requires
        0 <= k <= s.len(),
        forall|j: int| 0 <= j < s.len() ==> (pred(#[trigger] s[j]) <==> j < k),
    ensures
        s.filter(pred) == s.subrange(0, k),
    decreases s.len(),
{
    reveal(Seq::filter);
    if s.len() == 0 {
        assert(s.filter(pred) =~= s.subrange(0, 0));
    } else {
        let d = s.drop_last();
        if k == s.len() {
            assert(pred(s.last()));
            lemma_filter_front(d, pred, k - 1);
            assert(d.subrange(0, k - 1) =~= d);
            assert(d.push(s.last()) =~= s.subrange(0, k));
        } else {
            assert(!pred(s.last()));
            lemma_filter_front(d, pred, k);
            assert(d.subrange(0, k) =~= s.subrange(0, k));
        }
    }
}

/// When the predicate holds exactly from position `k` on, filtering keeps
/// exactly the tail from `k`.
proof fn lemma_filter_back(s: Seq<Seq<char>>, pred: spec_fn(Seq<char>) -> bool, k: int)
    requires
        0 <= k <= s.len(),
        forall|j: int| 0 <= j < s.len() ==> (pred(#[trigger] s[j]) <==> j >= k),
    ensures
        s.filter(pred) == s.subrange(k, s.len() as int),
    decreases s.len(),
{
    reveal(Seq::filter);
    if s.len() == 0 {
        assert(s.filter(pred) =~= s.subrange(0, 0));
    } else {
        let d = s.drop_last();
        if k == s.len() {
            assert(!pred(s.last()));
            lemma_filter_back(d, pred, k - 1);
            assert(d.subrange(k - 1, d.len() as int) =~= s.subrange(k, s.len() as int));
        } else {
            assert(pred(s.last()));
            lemma_filter_back(d, pred, k);
            assert(d.subrange(k, d.len() as int).push(s.last()) =~= s.subrange(
                k,
                s.len() as int,
            ));
        }
    }
}

/// Lying at or above the prefix and strictly below its bound is the same
/// as starting with the prefix.
proof fn lemma_prefix_range_pointwise(p: Seq<char>, x: Seq<char>)
    requires
        !all_max(p),
    ensures
        (with_prefix(p))(x) <==> ((at_or_above(p))(x) && (below(spec_upper_bound(p)))(x)),
{
    if p.is_prefix_of(x) {
        lemma_prefix_not_above(p, x);
        lemma_upper_bound_excludes_prefix(p, x);
    } else {
        if !lex_lt(x, p) && lex_lt(x, spec_upper_bound(p)) {
            lemma_pivot_exists(p);
            let k = choose|k: int|
                0 <= k < p.len() && !max_scalar(#[trigger] p[k]) && (forall|j: int|
                    k < j < p.len() ==> max_scalar(#[trigger] p[j]));
            lemma_upper_bound_with_pivot(p, k);
            lemma_between_implies_prefix(p, x, k);
            assert(false);
        }
    }
}

/// Filtering to the members at or above the prefix and then to those below
/// its bound keeps exactly the members that start with the prefix.
proof fn lemma_two_filters_compose(s: Seq<Seq<char>>, p: Seq<char>)
    requires
        !all_max(p),
    ensures
        s.filter(at_or_above(p)).filter(below(spec_upper_bound(p))) == s.filter(with_prefix(p)),
    decreases s.len(),
{
    reveal(Seq::filter);
    let f1 = at_or_above(p);
    let f2 = below(spec_upper_bound(p));
    let g = with_prefix(p);
    if s.len() > 0 {
        let d = s.drop_last();
        let x = s.last();
        lemma_two_filters_compose(d, p);
        lemma_prefix_range_pointwise(p, x);
        if f1(x) {
            assert(s.filter(f1) == d.filter(f1).push(x));
            assert(s.filter(f1).drop_last() =~= d.filter(f1));
            assert(s.filter(f1).last() == x);
            assert(s.filter(f1).len() > 0);
        }
    }
}

/// Above a prefix made entirely of the maximum scalar value, no second
/// split is needed: at or above the prefix already means starting with it.
proof fn lemma_filter_at_or_above_allmax(s: Seq<Seq<char>>, p: Seq<char>)
    requires
        all_max(p),
    ensures
        s.filter(at_or_above(p)) == s.filter(with_prefix(p)),
    decreases s.len(),
{
    reveal(Seq::filter);
    if s.len() > 0 {
        let x = s.last();
        lemma_filter_at_or_above_allmax(s.drop_last(), p);
        if !lex_lt(x, p) {
            lemma_at_or_above_allmax(p, x);
        }
        if p.is_prefix_of(x) {
            lemma_prefix_not_above(p, x);
        }
    }
}

/// The members of the set that start with the given prefix, obtained with
/// at most two splits: one at the prefix itself, one at its computed upper
/// bound. The rest of the set is discarded.
pub fn prefixed_set(set: StrSet, prefix: &str) -> (r: StrSet)
    requires
        set.wf(),
    ensures
        r.wf(),
        r@ == set@.filter(with_prefix(prefix@)),
{
    let ghost v0 = set@;
    let mut working = set;
    let mut high = working.split_off(prefix);
    match upper_bound_from_prefix(prefix) {
        Some(ub) => {
            let _beyond = high.split_off(ub.as_str());
            proof {
                lemma_two_filters_compose(v0, prefix@);
            }
            high
        },
        None => {
            proof {
                lemma_filter_at_or_above_allmax(v0, prefix@);
            }
            high
        },
    }
}

/// The law of idempotence: extracting with a prefix a second time changes
/// nothing, since every member kept by the first extraction already starts
/// with the prefix.
pub proof fn lemma_prefixed_idempotent(s: Seq<Seq<char>>, p: Seq<char>)
    ensures
        s.filter(with_prefix(p)).filter(with_prefix(p)) == s.filter(with_prefix(p)),
{
    let f = with_prefix(p);
    assert forall|j: int| 0 <= j < s.filter(f).len() implies f(#[trigger] s.filter(f)[j]) by {
        Seq::lemma_filter_pred(s, f, j);
    }
    lemma_filter_all(s.filter(f), f);
}

/// The law of monotonicity: when one prefix extends another, everything
/// extracted with the longer prefix is also extracted with the shorter.
pub proof fn lemma_prefixed_monotonic(s: Seq<Seq<char>>, p1: Seq<char>, p2: Seq<char>, x: Seq<char>)
    requires
        p1.is_prefix_of(p2),
        s.filter(with_prefix(p2)).contains(x),
    ensures
        s.filter(with_prefix(p1)).contains(x),
{
    lemma_filter_member(s, with_prefix(p2), x);
    assert(p1.is_prefix_of(x)) by {
        assert forall|j: int| 0 <= j < p1.len() implies p1[j] == x.subrange(
            0,
            p1.len() as int,
        )[j] by {
            assert(p1[j] == p2.subrange(0, p1.len() as int)[j]);
            assert(p2[j] == x.subrange(0, p2.len() as int)[j]);
        }
        assert(p1 =~= x.subrange(0, p1.len() as int));
    }
    let i = choose|i: int| 0 <= i < s.len() && s[i] == x;
    Seq::lemma_filter_contains(s, with_prefix(p1), i);
}

} // verus!
