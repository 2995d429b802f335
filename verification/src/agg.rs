//! Aggregation primitives: best-of-set selection and weighted-sum
//! accumulation over a finite ordered collection of rational values.
//!
//! Both walk the whole collection in order, and both signal an empty
//! collection instead of inventing a default.

use vstd::prelude::*;

use crate::rat::lemma_rat_add_wf;
use crate::rat::lemma_rat_fits_mono;
use crate::rat::lemma_rat_lt_congr;
use crate::rat::rat_add;
use crate::rat::rat_eq;
use crate::rat::rat_fits;
use crate::rat::rat_lt;
use crate::rat::rat_wf;
use crate::rat::Frac;
use crate::rat::Rat;

verus! {

/// The views of a sequence of executable rationals.
pub open spec fn frac_views(s: Seq<Frac>) -> Seq<Rat> {
    s.map_values(|f: Frac| f@)
}

/// Folds the maximum over `s[i..]`, starting from `acc`; a later element
/// replaces the accumulator only when strictly greater, so the first of
/// several equal maxima wins.
pub open spec fn max_from(s: Seq<Rat>, i: int, acc: Rat) -> Rat
    decreases s.len() - i,
{
    if i < 0 || i >= s.len() {
        acc
    } else {
        max_from(s, i + 1, if rat_lt(acc, s[i]) { s[i] } else { acc })
    }
}

/// The maximum value of `s`, or `None` when `s` is empty.
pub open spec fn spec_set_max(s: Seq<Rat>) -> Option<Rat> {
    if s.len() == 0 {
        None
    } else {
        Some(max_from(s, 1, s[0]))
    }
}

/// Folds the sum over `s[i..]`, starting from `acc`.
pub open spec fn sum_from(s: Seq<Rat>, i: int, acc: Rat) -> Rat
    decreases s.len() - i,
{
    if i < 0 || i >= s.len() {
        acc
    } else {
        sum_from(s, i + 1, rat_add(acc, s[i]))
    }
}

/// The sum of `s`, or `None` when `s` is empty.
pub open spec fn spec_set_sum(s: Seq<Rat>) -> Option<Rat> {
    if s.len() == 0 {
        None
    } else {
        Some(sum_from(s, 1, s[0]))
    }
}

/// The exact running sum after the first `k` elements of `s`.
pub open spec fn partial_sum(s: Seq<Rat>, k: int) -> Rat
    decreases k,
{
    if k <= 1 {
        s[0]
    } else {
        rat_add(partial_sum(s, k - 1), s[k - 1])
    }
}

/// Every exact running sum of `s` is representable, so the executable
/// accumulator can never overflow.
pub open spec fn sum_prefixes_fit(s: Seq<Rat>) -> bool {
    forall|k: int| 1 <= k <= s.len() ==> rat_fits(#[trigger] partial_sum(s, k))
}

/// Why an aggregation over a collection returned no value.
#[derive(Clone, Copy, Debug, PartialEq, Eq)]
pub enum AggError {
    /// The collection was empty; there is no principled default to return.
    Empty,
    /// A running sum left the representable range.
    Overflow,
}

/// Finds the greatest value in `set`, or `None` when `set` is empty.
///
/// Ties are resolved by keeping the first-seen maximum: a later element
/// replaces the current best only when strictly greater.
pub fn set_max(set: &Vec<Frac>) -> (r: Option<Frac>)
    requires
        forall|k: int| 0 <= k < set@.len() ==> rat_wf(#[trigger] set@[k]@),
    ensures
        (r is None) <==> set@.len() == 0,
        r matches Some(q) ==> Some(q@) == spec_set_max(frac_views(set@)),
{
    if set.len() == 0 {
        return None;
    }
    let ghost views = frac_views(set@);
    let mut best = set[0];
    let mut i: usize = 1;
    while i < set.len()
        invariant
            1 <= i <= set@.len(),
            set@.len() >= 1,
            views == frac_views(set@),
            forall|k: int| 0 <= k < set@.len() ==> rat_wf(#[trigger] set@[k]@),
            rat_wf(best@),
            max_from(views, i as int, best@) == max_from(views, 1, views[0]),
        decreases set@.len() - i,
    {
        let candidate = set[i];
        if candidate.gt(&best) {
            best = candidate;
        }
        i = i + 1;
    }
    Some(best)
}

/// Sums every value in `set`, in order; signals an empty collection, or a
/// running sum that cannot be represented.
pub fn set_sum(set: &Vec<Frac>) -> (r: Result<Frac, AggError>)
    requires
        forall|k: int| 0 <= k < set@.len() ==> rat_wf(#[trigger] set@[k]@),
    ensures
        (r == Err::<Frac, AggError>(AggError::Empty)) <==> set@.len() == 0,
        r matches Ok(q) ==> {
            &&& rat_wf(q@)
            &&& spec_set_sum(frac_views(set@)) matches Some(t) && rat_eq(q@, t) && q@.d <= t.d
        },
        set@.len() > 0 && sum_prefixes_fit(frac_views(set@)) ==> r is Ok,
{
    if set.len() == 0 {
        return Err(AggError::Empty);
    }
    let ghost views = frac_views(set@);
    let mut acc = set[0];
    let ghost mut exact = views[0];
    let mut i: usize = 1;
    while i < set.len()
        invariant
            1 <= i <= set@.len(),
            set@.len() >= 1,
            views == frac_views(set@),
            forall|k: int| 0 <= k < set@.len() ==> rat_wf(#[trigger] set@[k]@),
            rat_wf(acc@),
            rat_wf(exact),
            rat_eq(acc@, exact),
            acc@.d <= exact.d,
            exact == partial_sum(views, i as int),
            sum_from(views, i as int, exact) == sum_from(views, 1, views[0]),
        decreases set@.len() - i,
    {
        let x = set[i];
        let ghost exact_next = rat_add(exact, views[i as int]);
        proof {
            lemma_rat_add_wf(exact, views[i as int]);
            crate::rat::lemma_rat_add_congr(acc@, exact, x@, views[i as int]);
            lemma_rat_add_wf(acc@, x@);
            vstd::arithmetic::mul::lemma_mul_inequality(acc@.d, exact.d, x@.d);
        }
        match acc.checked_add(x) {
            Some(q) => {
                proof {
                    crate::rat::lemma_rat_eq_trans(q@, rat_add(acc@, x@), exact_next);
                }
                acc = q;
                proof {
                    exact = exact_next;
                }
            },
            None => {
                proof {
                    if sum_prefixes_fit(views) {
                        assert(rat_fits(partial_sum(views, i as int + 1)));
                        lemma_rat_fits_mono(rat_add(acc@, x@), exact_next);
                        assert(false);
                    }
                }
                return Err(AggError::Overflow);
            },
        }
        i = i + 1;
    }
    Ok(acc)
}

/// Pointwise equal values, with denominators no larger on the first side,
/// give equal maxima whose denominator is no larger on the first side.
pub proof fn lemma_max_from_congr(s1: Seq<Rat>, s2: Seq<Rat>, i: int, acc1: Rat, acc2: Rat)
    requires
        s1.len() == s2.len(),
        forall|k: int| 0 <= k < s1.len() ==> rat_wf(#[trigger] s1[k]),
        forall|k: int| 0 <= k < s2.len() ==> rat_wf(#[trigger] s2[k]),
        forall|k: int| 0 <= k < s1.len() ==> rat_eq(#[trigger] s1[k], s2[k]),
        forall|k: int| 0 <= k < s1.len() ==> (#[trigger] s1[k]).d <= s2[k].d,
        rat_wf(acc1),
        rat_wf(acc2),
        rat_eq(acc1, acc2),
        acc1.d <= acc2.d,
    ensures
        rat_wf(max_from(s1, i, acc1)),
        rat_wf(max_from(s2, i, acc2)),
        rat_eq(max_from(s1, i, acc1), max_from(s2, i, acc2)),
        max_from(s1, i, acc1).d <= max_from(s2, i, acc2).d,
    decreases s1.len() - i,
{
    if i < 0 || i >= s1.len() {
    } else {
        lemma_rat_lt_congr(acc1, acc2, s1[i], s2[i]);
        let next1 = if rat_lt(acc1, s1[i]) { s1[i] } else { acc1 };
        let next2 = if rat_lt(acc2, s2[i]) { s2[i] } else { acc2 };
        lemma_max_from_congr(s1, s2, i + 1, next1, next2);
    }
}

/// Pointwise equal values, with denominators no larger on the first side,
/// give equal sums whose denominator is no larger on the first side.
pub proof fn lemma_sum_from_congr(s1: Seq<Rat>, s2: Seq<Rat>, i: int, acc1: Rat, acc2: Rat)
    requires
        s1.len() == s2.len(),
        forall|k: int| 0 <= k < s1.len() ==> rat_wf(#[trigger] s1[k]),
        forall|k: int| 0 <= k < s2.len() ==> rat_wf(#[trigger] s2[k]),
        forall|k: int| 0 <= k < s1.len() ==> rat_eq(#[trigger] s1[k], s2[k]),
        forall|k: int| 0 <= k < s1.len() ==> (#[trigger] s1[k]).d <= s2[k].d,
        rat_wf(acc1),
        rat_wf(acc2),
        rat_eq(acc1, acc2),
        acc1.d <= acc2.d,
    ensures
        rat_wf(sum_from(s1, i, acc1)),
        rat_wf(sum_from(s2, i, acc2)),
        rat_eq(sum_from(s1, i, acc1), sum_from(s2, i, acc2)),
        sum_from(s1, i, acc1).d <= sum_from(s2, i, acc2).d,
    decreases s1.len() - i,
{
    if i < 0 || i >= s1.len() {
    } else {
        crate::rat::lemma_rat_add_congr(acc1, acc2, s1[i], s2[i]);
        lemma_rat_add_wf(acc1, s1[i]);
        lemma_rat_add_wf(acc2, s2[i]);
        vstd::arithmetic::mul::lemma_mul_inequality(acc1.d, acc2.d, s1[i].d);
        vstd::arithmetic::mul::lemma_mul_inequality(s1[i].d, s2[i].d, acc2.d);
        lemma_sum_from_congr(s1, s2, i + 1, rat_add(acc1, s1[i]), rat_add(acc2, s2[i]));
    }
}

/// The running sums relate as the elements do: equal values, denominators no
/// larger on the first side.
proof fn lemma_partial_sum_rel(s1: Seq<Rat>, s2: Seq<Rat>, k: int)
    requires
        s1.len() == s2.len(),
        s1.len() >= 1,
        forall|j: int| 0 <= j < s1.len() ==> rat_wf(#[trigger] s1[j]),
        forall|j: int| 0 <= j < s2.len() ==> rat_wf(#[trigger] s2[j]),
        forall|j: int| 0 <= j < s1.len() ==> rat_eq(#[trigger] s1[j], s2[j]),
        forall|j: int| 0 <= j < s1.len() ==> (#[trigger] s1[j]).d <= s2[j].d,
        1 <= k <= s1.len(),
    ensures
        rat_wf(partial_sum(s1, k)),
        rat_wf(partial_sum(s2, k)),
        rat_eq(partial_sum(s1, k), partial_sum(s2, k)),
        partial_sum(s1, k).d <= partial_sum(s2, k).d,
    decreases k,
{
    if k <= 1 {
    } else {
        lemma_partial_sum_rel(s1, s2, k - 1);
        crate::rat::lemma_rat_add_congr(partial_sum(s1, k - 1), partial_sum(s2, k - 1), s1[k - 1], s2[k - 1]);
        lemma_rat_add_wf(partial_sum(s1, k - 1), s1[k - 1]);
        lemma_rat_add_wf(partial_sum(s2, k - 1), s2[k - 1]);
        vstd::arithmetic::mul::lemma_mul_inequality(
            partial_sum(s1, k - 1).d,
            partial_sum(s2, k - 1).d,
            s1[k - 1].d,
        );
        vstd::arithmetic::mul::lemma_mul_inequality(s1[k - 1].d, s2[k - 1].d, partial_sum(s2, k - 1).d);
    }
}

/// If every running sum of the second sequence is representable, so is every
/// running sum of a pointwise equal sequence with no larger denominators.
pub proof fn lemma_sum_prefixes_fit_rel(s1: Seq<Rat>, s2: Seq<Rat>)
    requires
        s1.len() == s2.len(),
        forall|j: int| 0 <= j < s1.len() ==> rat_wf(#[trigger] s1[j]),
        forall|j: int| 0 <= j < s2.len() ==> rat_wf(#[trigger] s2[j]),
        forall|j: int| 0 <= j < s1.len() ==> rat_eq(#[trigger] s1[j], s2[j]),
        forall|j: int| 0 <= j < s1.len() ==> (#[trigger] s1[j]).d <= s2[j].d,
        sum_prefixes_fit(s2),
    ensures
        sum_prefixes_fit(s1),
{
    assert forall|k: int| 1 <= k <= s1.len() implies rat_fits(#[trigger] partial_sum(s1, k)) by {
        lemma_partial_sum_rel(s1, s2, k);
        lemma_rat_fits_mono(partial_sum(s1, k), partial_sum(s2, k));
    }
}

} // verus!
