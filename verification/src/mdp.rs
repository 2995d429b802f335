//! The Markov decision process contracts and the recursive utility evaluator.
//!
//! A caller models its decision problem by implementing `Action`, `State` and
//! `MDP`.  The engine then computes the utility of a state by a direct,
//! un-memoized recursive expansion of the Bellman optimality equation,
//! terminating on cyclic transition graphs through a caller-owned visited
//! path.
//!
//! The whole evaluation is specified by the `eval_*` functions below: an
//! exact mathematical mirror of the algorithm over unbounded rationals.  The
//! executable `utility` is proved to return a value equal to the mirror's,
//! except that it reports an explicit overflow error when a result cannot be
//! represented in the executable rationals — and `eval_fits` delimits when
//! that report is ruled out, so that on representable evaluations the exact
//! mirror outcome, errors included, is owed.

use vstd::prelude::*;
use vstd::multiset::Multiset;

use crate::agg::frac_views;
use crate::agg::max_from;
use crate::agg::set_max;
use crate::agg::set_sum;
use crate::agg::sum_from;
use crate::agg::AggError;
use crate::agg::lemma_max_from_congr;
use crate::agg::lemma_sum_from_congr;
use crate::rat::lemma_rat_add_congr;
use crate::rat::lemma_rat_add_wf;
use crate::rat::lemma_rat_eq_trans;
use crate::rat::lemma_rat_mul_congr;
use crate::rat::lemma_rat_mul_wf;
use crate::rat::rat_add;
use crate::rat::rat_eq;
use crate::rat::rat_fits;
use crate::rat::rat_mul;
use crate::rat::rat_wf;
use crate::rat::Frac;
use crate::rat::Rat;

verus! {

broadcast use vstd::seq_lib::group_to_multiset_ensures, vstd::multiset::group_multiset_axioms;

/// A decision choice: a cheaply copyable value with a stable identity, so it
/// can be compared and stored in associative structures.
pub trait Action: Sized + Copy + PartialEq + Eq + core::hash::Hash {

}

/// One configuration of the modeled system.
///
/// Equality is by value: the evaluator uses it for cycle detection.  The two
/// specification functions are the mathematical account of the two queries,
/// and each executable query is bound to its specification.
pub trait State<A: Action>: Sized + Copy + PartialEq + Eq {
    /// Whether this state is terminal.  The default describes a trivial
    /// model; an implementation overrides it to describe its own.
    open spec fn spec_final(self) -> bool {
        false
    }

    /// The ordered actions available from this state.  The default describes
    /// a trivial model; an implementation overrides it to describe its own.
    open spec fn spec_actions(self) -> Seq<A> {
        Seq::empty()
    }

    /// Whether this state is terminal.
    fn is_final(&self) -> (r: bool)
        ensures
            r == self.spec_final(),
    ;

    /// The ordered actions available from this state.
    fn possible_actions(&self) -> (r: Vec<A>)
        ensures
            r@ == self.spec_actions(),
    ;

    /// Value equality, as used for cycle detection.
    fn eq_state(&self, other: &Self) -> (r: bool)
        ensures
            r == (*self == *other),
    ;
}

/// A decision problem: the caller's reward and transition model.
///
/// The three specification functions are the mathematical model; the
/// executable methods must agree with them.  The free function `utility`
/// evaluates a state against such a model.
pub trait MDP<A: Action, S: State<A>>: Sized {
    /// The finite set of states of the model.  The default describes a
    /// trivial model; an implementation overrides it to describe its own.
    open spec fn spec_states(self) -> Set<S> {
        Set::empty()
    }

    /// The immediate reward for the transition `state --action--> next`.
    /// The default describes a trivial model; an implementation overrides it
    /// to describe its own.
    open spec fn spec_reward(self, state: S, action: A, next: S) -> Rat {
        Rat { n: 0, d: 1 }
    }

    /// The ordered outcome distribution of taking `action` in `state`.  The
    /// default describes a trivial model; an implementation overrides it to
    /// describe its own.
    open spec fn spec_transition(self, state: S, action: A) -> Seq<(S, Rat)> {
        Seq::empty()
    }

    /// The immediate reward for the transition `state --action--> next_state`.
    fn reward(&self, state: &S, action: &A, next_state: &S) -> (r: Frac)
        ensures
            r@ == self.spec_reward(*state, *action, *next_state),
    ;

    /// The outcome distribution of taking `action` in `state`: ordered pairs
    /// of next state and probability.
    fn transition(&self, state: &S, action: &A) -> (r: Vec<(S, Frac)>)
        ensures
            r@.len() == self.spec_transition(*state, *action).len(),
            forall|k: int|
                0 <= k < r@.len() ==> (#[trigger] r@[k]).0 == self.spec_transition(
                    *state,
                    *action,
                )[k].0 && r@[k].1@ == self.spec_transition(*state, *action)[k].1,
    ;

}

/// Why an evaluation returned no utility.
#[derive(Clone, Copy, Debug, PartialEq, Eq)]
pub enum EvalError {
    /// A non-terminal state offered no action: a modeling defect.
    NoActions,
    /// A chosen action had no outcome: a modeling defect.
    NoOutcomes,
    /// A running value left the representable range.
    Overflow,
}

/// The caller's model is well formed: finitely many states, every transition
/// stays inside the state set, and every probability and reward denominator
/// is positive.
pub open spec fn mdp_wf<A: Action, S: State<A>, M: MDP<A, S>>(m: M) -> bool {
    &&& m.spec_states().finite()
    &&& forall|s: S, a: A, k: int|
        0 <= k < m.spec_transition(s, a).len() ==> m.spec_states().contains(
            (#[trigger] m.spec_transition(s, a)[k]).0,
        )
    &&& forall|s: S, a: A, k: int|
        0 <= k < m.spec_transition(s, a).len() ==> rat_wf(
            (#[trigger] m.spec_transition(s, a)[k]).1,
        )
    &&& forall|s: S, a: A, ns: S| rat_wf(#[trigger] m.spec_reward(s, a, ns))
}

/// How many states of `m` lie outside `v` and differ from `s`.
///
/// This is the termination measure of the evaluator: each recursion step
/// explores a state that was neither on the visited path nor the current
/// state, so the count strictly shrinks.
pub open spec fn unvisited<A: Action, S: State<A>, M: MDP<A, S>>(m: M, v: Seq<S>, s: S) -> nat {
    m.spec_states().difference(v.to_set().insert(s)).len()
}

/// The position of the first occurrence of `x` in `s`, or `-1`.
pub open spec fn first_index_of<T>(s: Seq<T>, x: T) -> int
    decreases s.len(),
{
    if s.len() == 0 {
        -1
    } else if s[0] == x {
        0
    } else if first_index_of(s.drop_first(), x) == -1 {
        -1
    } else {
        1 + first_index_of(s.drop_first(), x)
    }
}

/// `s` without the first occurrence of `x`; `s` itself when `x` is absent.
pub open spec fn remove_first<T>(s: Seq<T>, x: T) -> Seq<T> {
    if first_index_of(s, x) == -1 {
        s
    } else {
        s.remove(first_index_of(s, x))
    }
}

/// `first_index_of` finds the first occurrence exactly when one exists.
pub proof fn lemma_first_index_of<T>(s: Seq<T>, x: T)
    ensures
        s.contains(x) ==> {
            let i = first_index_of(s, x);
            &&& 0 <= i < s.len()
            &&& s[i] == x
            &&& forall|j: int| 0 <= j < i ==> s[j] != x
        },
        !s.contains(x) ==> first_index_of(s, x) == -1,
    decreases s.len(),
{
    if s.len() == 0 {
    } else {
        lemma_first_index_of(s.drop_first(), x);
        assert(s.contains(x) && s[0] != x ==> s.drop_first().contains(x)) by {
            if s.contains(x) && s[0] != x {
                let w = choose|w: int| 0 <= w < s.len() && s[w] == x;
                assert(s.drop_first()[w - 1] == x);
            }
        }
        assert(s.drop_first().contains(x) ==> s.contains(x)) by {
            if s.drop_first().contains(x) {
                let w = choose|w: int| 0 <= w < s.drop_first().len() && s.drop_first()[w] == x;
                assert(s[w + 1] == x);
            }
        }
        if s.contains(x) && s[0] != x {
            let t = first_index_of(s.drop_first(), x);
            let i = first_index_of(s, x);
            assert(i == 1 + t);
            assert(s[i] == s.drop_first()[t]);
            assert(forall|j: int| 1 <= j < i ==> s[j] == s.drop_first()[j - 1]);
        }
    }
}

/// The mirror of `utility` on one state: the best action value.
///
/// `v` is the visited path as the call receives it; the result carries the
/// value and the path as the call leaves it.
pub open spec fn eval_state<A: Action, S: State<A>, M: MDP<A, S>>(
    m: M,
    s: S,
    gamma: Rat,
    v: Seq<S>,
) -> Result<(Rat, Seq<S>), EvalError>
    decreases unvisited::<A, S, M>(m, v, s), 3int, 0int,
{
    let acts = s.spec_actions();
    if acts.len() == 0 {
        Err(EvalError::NoActions)
    } else {
        match eval_actions::<A, S, M>(m, s, gamma, v, v, acts, 0) {
            Err(e) => Err(e),
            Ok((vals, v2)) => Ok((max_from(vals, 1, vals[0]), v2)),
        }
    }
}

/// The mirror of the action loop: the expected value of each action in
/// `acts[i..]`, threading the visited path left to right.
pub open spec fn eval_actions<A: Action, S: State<A>, M: MDP<A, S>>(
    m: M,
    s: S,
    gamma: Rat,
    v: Seq<S>,
    v0: Seq<S>,
    acts: Seq<A>,
    i: int,
) -> Result<(Seq<Rat>, Seq<S>), EvalError>
    decreases unvisited::<A, S, M>(m, v0, s), 2int, acts.len() - i,
{
    if i < 0 || i >= acts.len() {
        Ok((Seq::empty(), v))
    } else {
        match eval_outcomes::<A, S, M>(m, s, acts[i], gamma, v, v0, m.spec_transition(s, acts[i]), 0) {
            Err(e) => Err(e),
            Ok((contribs, v1)) => {
                if contribs.len() == 0 {
                    Err(EvalError::NoOutcomes)
                } else {
                    match eval_actions::<A, S, M>(m, s, gamma, v1, v0, acts, i + 1) {
                        Err(e) => Err(e),
                        Ok((rest, v2)) => Ok(
                            (seq![sum_from(contribs, 1, contribs[0])] + rest, v2),
                        ),
                    }
                }
            },
        }
    }
}

/// The mirror of the outcome loop: the weighted contribution of each outcome
/// in `outs[j..]`.
///
/// The current state is pushed onto the path for every outcome.  A terminal
/// outcome contributes `probability * reward`.  An outcome already on the
/// path closes a cycle: it contributes the same, and the first occurrence of
/// the current state (not of the outcome) is removed from the path, exactly
/// as the evaluator behaves.  Any other outcome is explored recursively.
///
/// The recursive case is guarded by the strict decrease of `unvisited`, the
/// evaluator's termination measure; the guard holds whenever this function is
/// reached the way `utility` reaches it, so the error branch under it is
/// never taken by such a caller, and it makes the recursion visibly well
/// founded.
pub open spec fn eval_outcomes<A: Action, S: State<A>, M: MDP<A, S>>(
    m: M,
    s: S,
    a: A,
    gamma: Rat,
    v: Seq<S>,
    v0: Seq<S>,
    outs: Seq<(S, Rat)>,
    j: int,
) -> Result<(Seq<Rat>, Seq<S>), EvalError>
    decreases unvisited::<A, S, M>(m, v0, s), 1int, outs.len() - j,
{
    if j < 0 || j >= outs.len() {
        Ok((Seq::empty(), v))
    } else {
        let ns = outs[j].0;
        let p = outs[j].1;
        let rew = m.spec_reward(s, a, ns);
        let v1 = v.push(s);
        if ns.spec_final() {
            match eval_outcomes::<A, S, M>(m, s, a, gamma, v1, v0, outs, j + 1) {
                Err(e) => Err(e),
                Ok((rest, v2)) => Ok((seq![rat_mul(p, rew)] + rest, v2)),
            }
        } else if v1.contains(ns) {
            let v2 = remove_first(v1, s);
            match eval_outcomes::<A, S, M>(m, s, a, gamma, v2, v0, outs, j + 1) {
                Err(e) => Err(e),
                Ok((rest, v3)) => Ok((seq![rat_mul(p, rew)] + rest, v3)),
            }
        } else if unvisited::<A, S, M>(m, v1, ns) < unvisited::<A, S, M>(m, v0, s) {
            match eval_state::<A, S, M>(m, ns, gamma, v1) {
                Err(e) => Err(e),
                Ok((u, v2)) => {
                    match eval_outcomes::<A, S, M>(m, s, a, gamma, v2, v0, outs, j + 1) {
                        Err(e) => Err(e),
                        Ok((rest, v3)) => Ok(
                            (seq![rat_mul(p, rat_add(rew, rat_mul(gamma, u)))] + rest, v3),
                        ),
                    }
                },
            }
        } else {
            Err(EvalError::Overflow)
        }
    }
}

/// Every value the evaluation of `s` computes is representable, so
/// `utility` is owed a non-overflow result.
///
/// The predicate walks the evaluation exactly as `eval_state` does and asks
/// `rat_fits` of each product, each discounted sum, and each running sum of
/// an action's contributions, of the exact unreduced rationals; the
/// executable evaluator only ever holds values equal to those with no larger
/// denominators, so representability here carries over to it.
pub open spec fn eval_fits<A: Action, S: State<A>, M: MDP<A, S>>(
    m: M,
    s: S,
    gamma: Rat,
    v: Seq<S>,
) -> bool
    decreases unvisited::<A, S, M>(m, v, s), 3int, 0int,
{
    let acts = s.spec_actions();
    if acts.len() == 0 {
        true
    } else {
        fits_actions::<A, S, M>(m, s, gamma, v, v, acts, 0)
    }
}

/// `eval_fits`, over the actions `acts[i..]`.
pub open spec fn fits_actions<A: Action, S: State<A>, M: MDP<A, S>>(
    m: M,
    s: S,
    gamma: Rat,
    v: Seq<S>,
    v0: Seq<S>,
    acts: Seq<A>,
    i: int,
) -> bool
    decreases unvisited::<A, S, M>(m, v0, s), 2int, acts.len() - i,
{
    if i < 0 || i >= acts.len() {
        true
    } else {
        fits_outcomes::<A, S, M>(m, s, acts[i], gamma, v, v0, m.spec_transition(s, acts[i]), 0)
            && match eval_outcomes::<A, S, M>(
            m,
            s,
            acts[i],
            gamma,
            v,
            v0,
            m.spec_transition(s, acts[i]),
            0,
        ) {
            Ok(r) => r.0.len() > 0 ==> crate::agg::sum_prefixes_fit(r.0) && fits_actions::<
                A,
                S,
                M,
            >(m, s, gamma, r.1, v0, acts, i + 1),
            Err(_) => true,
        }
    }
}

/// `eval_fits`, over the outcomes `outs[j..]` of one action.
pub open spec fn fits_outcomes<A: Action, S: State<A>, M: MDP<A, S>>(
    m: M,
    s: S,
    a: A,
    gamma: Rat,
    v: Seq<S>,
    v0: Seq<S>,
    outs: Seq<(S, Rat)>,
    j: int,
) -> bool
    decreases unvisited::<A, S, M>(m, v0, s), 1int, outs.len() - j,
{
    if j < 0 || j >= outs.len() {
        true
    } else {
        let ns = outs[j].0;
        let p = outs[j].1;
        let rew = m.spec_reward(s, a, ns);
        let v1 = v.push(s);
        if ns.spec_final() {
            rat_fits(rat_mul(p, rew)) && fits_outcomes::<A, S, M>(m, s, a, gamma, v1, v0, outs, j + 1)
        } else if v1.contains(ns) {
            rat_fits(rat_mul(p, rew)) && fits_outcomes::<A, S, M>(
                m,
                s,
                a,
                gamma,
                remove_first(v1, s),
                v0,
                outs,
                j + 1,
            )
        } else if unvisited::<A, S, M>(m, v1, ns) < unvisited::<A, S, M>(m, v0, s) {
            eval_fits::<A, S, M>(m, ns, gamma, v1) && match eval_state::<A, S, M>(m, ns, gamma, v1) {
                Ok(r) => {
                    let gu = rat_mul(gamma, r.0);
                    let rg = rat_add(rew, gu);
                    rat_fits(gu) && rat_fits(rg) && rat_fits(rat_mul(p, rg)) && fits_outcomes::<
                        A,
                        S,
                        M,
                    >(m, s, a, gamma, r.1, v0, outs, j + 1)
                },
                Err(_) => true,
            }
        } else {
            true
        }
    }
}

/// Pushing onto a path can only grow its multiset.
proof fn lemma_multiset_push_le<T>(v: Seq<T>, x: T)
    ensures
        v.to_multiset().subset_of(v.push(x).to_multiset()),
{
    assert(v.push(x).to_multiset() =~= v.to_multiset().insert(x));
    assert forall|y: T| v.to_multiset().count(y) <= v.push(x).to_multiset().count(y) by {
        vstd::multiset::lemma_insert_increases_count_by_1(v.to_multiset(), x);
        vstd::multiset::lemma_insert_other_elements_unchanged(v.to_multiset(), x, y);
    }
}

/// Multiset inclusion is transitive.
proof fn lemma_multiset_le_trans<T>(a: Multiset<T>, b: Multiset<T>, c: Multiset<T>)
    requires
        a.subset_of(b),
        b.subset_of(c),
    ensures
        a.subset_of(c),
{
}

/// Removing an occurrence of what was just pushed restores the multiset.
proof fn lemma_push_remove_same<T>(v: Seq<T>, x: T, i: int)
    requires
        0 <= i < v.push(x).len(),
        v.push(x)[i] == x,
    ensures
        v.push(x).remove(i).to_multiset() =~= v.to_multiset(),
{
    assert(v.push(x).remove(i).to_multiset() =~= v.push(x).to_multiset().remove(x));
    assert(v.push(x).to_multiset() =~= v.to_multiset().insert(x));
    assert forall|y: T|
        v.to_multiset().insert(x).remove(x).count(y) == v.to_multiset().count(y) by {
        vstd::multiset::lemma_insert_increases_count_by_1(v.to_multiset(), x);
        vstd::multiset::lemma_insert_other_elements_unchanged(v.to_multiset(), x, y);
    }
}

/// Whether `v` holds a state equal to `x`.
pub fn contains_state<A: Action, S: State<A>>(v: &Vec<S>, x: &S) -> (r: bool)
    ensures
        r == v@.contains(*x),
{
    let mut k: usize = 0;
    while k < v.len()
        invariant
            0 <= k <= v@.len(),
            forall|j: int| 0 <= j < k ==> v@[j] != *x,
        decreases v@.len() - k,
    {
        if v[k].eq_state(x) {
            assert(v@[k as int] == *x);
            return true;
        }
        k = k + 1;
    }
    false
}

/// The position of the first state equal to `x` in `v`.
pub fn find_state<A: Action, S: State<A>>(v: &Vec<S>, x: &S) -> (r: Option<usize>)
    ensures
        r matches Some(k) ==> k < v@.len() && first_index_of(v@, *x) == k as int,
        r is None ==> !v@.contains(*x),
{
    let mut k: usize = 0;
    while k < v.len()
        invariant
            0 <= k <= v@.len(),
            forall|j: int| 0 <= j < k ==> v@[j] != *x,
        decreases v@.len() - k,
    {
        if v[k].eq_state(x) {
            proof {
                assert(v@[k as int] == *x);
                lemma_first_index_of(v@, *x);
            }
            return Some(k);
        }
        k = k + 1;
    }
    None
}


/// How good is `state` under the model `m`: the best action's expected sum
/// of immediate reward and `gamma`-discounted future utility, by direct,
/// un-memoized recursive expansion of the Bellman optimality equation.
///
/// `visited` is the cycle guard, owned by the caller and threaded through
/// the whole recursion: a next state already on it is not explored again.
/// The result and the final path are exactly those of the mathematical
/// mirror `eval_state`, unless a value leaves the representable range,
/// which is reported as `Overflow`; and whenever every value the evaluation
/// computes is representable (`eval_fits`), an overflow report is ruled out,
/// so the exact mirror outcome is owed.
#[verifier::loop_isolation(false)]
#[verifier::rlimit(100)]
pub fn utility<A: Action, S: State<A>, M: MDP<A, S>>(
    m_ref: &M,
    state: S,
    gamma: Frac,
    visited: &mut Vec<S>,
) -> (r: Result<Frac, EvalError>)
    requires
        mdp_wf::<A, S, M>(*m_ref),
        rat_wf(gamma@),
    ensures
        old(visited)@.to_multiset().subset_of(final(visited)@.to_multiset()),
        state.spec_actions().len() == 0 ==> r == Err::<Frac, EvalError>(EvalError::NoActions),
        r != Err::<Frac, EvalError>(EvalError::Overflow) ==> match eval_state::<A, S, M>(
            *m_ref,
            state,
            gamma@,
            old(visited)@,
        ) {
            Ok(res) => r matches Ok(q) && rat_wf(q@) && rat_eq(q@, res.0) && q@.d <= res.0.d
                && final(visited)@ == res.1,
            Err(e) => r == Err::<Frac, EvalError>(e),
        },
        eval_fits::<A, S, M>(*m_ref, state, gamma@, old(visited)@) ==> r != Err::<
            Frac,
            EvalError,
        >(EvalError::Overflow),
    decreases unvisited::<A, S, M>(*m_ref, old(visited)@, state),
{
    let ghost m = *m_ref;
    let ghost v0 = old(visited)@;
    let actions = state.possible_actions();
    let ghost acts = state.spec_actions();
    if actions.len() == 0 {
        return Err(EvalError::NoActions);
    }
    let ghost anchor = eval_actions::<A, S, M>(m, state, gamma@, v0, v0, acts, 0);
    let ghost fits0 = eval_fits::<A, S, M>(m, state, gamma@, v0);
    let mut action_values: Vec<Frac> = Vec::new();
    let ghost mut vals_g: Seq<Rat> = Seq::empty();
    proof {
        match anchor {
            Ok(r2) => {
                assert(vals_g + r2.0 =~= r2.0);
            },
            Err(_) => {},
        }
        if fits0 {
            assert(fits_actions::<A, S, M>(m, state, gamma@, v0, v0, acts, 0));
        }
    }
    let mut i: usize = 0;
    while i < actions.len()
        invariant
            m == *m_ref,
            mdp_wf::<A, S, M>(m),
            rat_wf(gamma@),
            v0 == old(visited)@,
            i <= actions.len(),
            actions@ == acts,
            acts == state.spec_actions(),
            acts.len() > 0,
            anchor == eval_actions::<A, S, M>(m, state, gamma@, v0, v0, acts, 0),
            fits0 == eval_fits::<A, S, M>(m, state, gamma@, v0),
            fits0 ==> fits_actions::<A, S, M>(m, state, gamma@, visited@, v0, acts, i as int),
            action_values@.len() == i as int,
            vals_g.len() == i as int,
            forall|k: int| 0 <= k < i as int ==> rat_wf(#[trigger] action_values@[k]@),
            forall|k: int| 0 <= k < i as int ==> rat_wf(#[trigger] vals_g[k]),
            forall|k: int|
                0 <= k < i as int ==> rat_eq(#[trigger] action_values@[k]@, vals_g[k]),
            forall|k: int|
                0 <= k < i as int ==> (#[trigger] action_values@[k]@).d <= vals_g[k].d,
            v0.to_multiset().subset_of(visited@.to_multiset()),
            anchor == match eval_actions::<A, S, M>(
                m,
                state,
                gamma@,
                visited@,
                v0,
                acts,
                i as int,
            ) {
                Ok(r2) => Ok::<(Seq<Rat>, Seq<S>), EvalError>((vals_g + r2.0, r2.1)),
                Err(e) => Err(e),
            },
        decreases actions@.len() - i,
    {
        let action = actions[i];
        let ghost a = acts[i as int];
        let next_states = m_ref.transition(&state, &action);
        let ghost outs = m.spec_transition(state, a);
        let ghost v_in = visited@;
        let ghost inner_anchor = eval_outcomes::<A, S, M>(
            m,
            state,
            a,
            gamma@,
            v_in,
            v0,
            outs,
            0,
        );
        let mut contribs: Vec<Frac> = Vec::new();
        let ghost mut contribs_g: Seq<Rat> = Seq::empty();
        proof {
            match inner_anchor {
                Ok(r3) => {
                    assert(contribs_g + r3.0 =~= r3.0);
                },
                Err(_) => {},
            }
            if fits0 {
                assert(fits_outcomes::<A, S, M>(m, state, a, gamma@, v_in, v0, outs, 0));
            }
        }
        let mut j: usize = 0;
        while j < next_states.len()
            invariant
                m == *m_ref,
                mdp_wf::<A, S, M>(m),
                rat_wf(gamma@),
                v0 == old(visited)@,
                acts == state.spec_actions(),
                acts.len() > 0,
                (i as int) < acts.len(),
                anchor == eval_actions::<A, S, M>(m, state, gamma@, v0, v0, acts, 0),
                fits0 == eval_fits::<A, S, M>(m, state, gamma@, v0),
                fits0 ==> fits_actions::<A, S, M>(m, state, gamma@, v_in, v0, acts, i as int),
                fits0 ==> fits_outcomes::<A, S, M>(
                    m,
                    state,
                    a,
                    gamma@,
                    visited@,
                    v0,
                    outs,
                    j as int,
                ),
                anchor == match eval_actions::<A, S, M>(m, state, gamma@, v_in, v0, acts, i as int) {
                    Ok(r2) => Ok::<(Seq<Rat>, Seq<S>), EvalError>((vals_g + r2.0, r2.1)),
                    Err(e) => Err(e),
                },
                vals_g.len() == i as int,
                j <= next_states.len(),
                a == acts[i as int],
                outs == m.spec_transition(state, a),
                next_states@.len() == outs.len(),
                forall|k: int|
                    0 <= k < next_states@.len() ==> (#[trigger] next_states@[k]).0 == outs[k].0
                        && next_states@[k].1@ == outs[k].1,
                inner_anchor == eval_outcomes::<A, S, M>(
                    m,
                    state,
                    a,
                    gamma@,
                    v_in,
                    v0,
                    outs,
                    0,
                ),
                contribs@.len() == j as int,
                contribs_g.len() == j as int,
                forall|k: int| 0 <= k < j as int ==> rat_wf(#[trigger] contribs@[k]@),
                forall|k: int| 0 <= k < j as int ==> rat_wf(#[trigger] contribs_g[k]),
                forall|k: int|
                    0 <= k < j as int ==> rat_eq(#[trigger] contribs@[k]@, contribs_g[k]),
                forall|k: int|
                    0 <= k < j as int ==> (#[trigger] contribs@[k]@).d <= contribs_g[k].d,
                v0.to_multiset().subset_of(visited@.to_multiset()),
                v_in.to_multiset().subset_of(visited@.to_multiset()),
                inner_anchor == match eval_outcomes::<A, S, M>(
                    m,
                    state,
                    a,
                    gamma@,
                    visited@,
                    v0,
                    outs,
                    j as int,
                ) {
                    Ok(r3) => Ok::<(Seq<Rat>, Seq<S>), EvalError>((contribs_g + r3.0, r3.1)),
                    Err(e) => Err(e),
                },
            decreases next_states@.len() - j,
        {
            let pair = next_states[j];
            let next_state = pair.0;
            let probability = pair.1;
            let ghost p = outs[j as int].1;
            let ghost rew = m.spec_reward(state, a, next_state);
            let reward = m_ref.reward(&state, &action, &next_state);
            let ghost v_prev = visited@;
            visited.push(state);
            let ghost v1 = visited@;
            proof {
                assert(v1 == v_prev.push(state));
                lemma_multiset_push_le(v_prev, state);
                lemma_multiset_le_trans(
                    v0.to_multiset(),
                    v_prev.to_multiset(),
                    v1.to_multiset(),
                );
                lemma_multiset_le_trans(
                    v_in.to_multiset(),
                    v_prev.to_multiset(),
                    v1.to_multiset(),
                );
                assert(p == probability@);
                assert(rat_wf(p));
                assert(rat_wf(rew));
            }
            if next_state.is_final() {
                let ghost cg = rat_mul(p, rew);
                proof {
                    lemma_rat_mul_wf(p, rew);
                }
                match probability.checked_mul(reward) {
                    Some(c) => {
                        contribs.push(c);
                        proof {
                            assert(eval_outcomes::<A, S, M>(m, state, a, gamma@, v_prev, v0, outs, j as int)
                                == match eval_outcomes::<A, S, M>(m, state, a, gamma@, v1, v0, outs, j as int + 1) {
                                Ok(rest) => Ok::<(Seq<Rat>, Seq<S>), EvalError>((seq![cg] + rest.0, rest.1)),
                                Err(e) => Err(e),
                            });
                            match eval_outcomes::<A, S, M>(m, state, a, gamma@, v1, v0, outs, j as int + 1) {
                                Ok(rest) => {
                                    assert(contribs_g + (seq![cg] + rest.0) =~= contribs_g.push(cg) + rest.0);
                                },
                                Err(_) => {},
                            }
                            contribs_g = contribs_g.push(cg);
                            if fits0 {
                                assert(fits_outcomes::<A, S, M>(
                                    m,
                                    state,
                                    a,
                                    gamma@,
                                    v1,
                                    v0,
                                    outs,
                                    j as int + 1,
                                ));
                            }
                        }
                    },
                    None => {
                        proof {
                            if fits0 {
                                assert(rat_fits(rat_mul(p, rew)));
                                assert(false);
                            }
                        }
                        return Err(EvalError::Overflow);
                    },
                }
            } else if contains_state(visited, &next_state) {
                let ghost cg = rat_mul(p, rew);
                proof {
                    lemma_rat_mul_wf(p, rew);
                    lemma_first_index_of(v1, state);
                }
                match find_state(visited, &state) {
                    Some(pos) => {
                        visited.remove(pos);
                        proof {
                            let v2 = visited@;
                            assert(v2 == v1.remove(pos as int));
                            assert(v2 == remove_first(v1, state));
                            lemma_push_remove_same(v_prev, state, pos as int);
                            assert(v2.to_multiset() =~= v_prev.to_multiset());
                        }
                    },
                    None => {
                        proof {
                            assert(v1[v1.len() - 1] == state);
                            assert(v1.contains(state));
                            assert(false);
                        }
                        return Err(EvalError::Overflow);
                    },
                }
                match probability.checked_mul(reward) {
                    Some(c) => {
                        contribs.push(c);
                        proof {
                            assert(eval_outcomes::<A, S, M>(m, state, a, gamma@, v_prev, v0, outs, j as int)
                                == match eval_outcomes::<A, S, M>(m, state, a, gamma@, remove_first(v1, state), v0, outs, j as int + 1) {
                                Ok(rest) => Ok::<(Seq<Rat>, Seq<S>), EvalError>((seq![cg] + rest.0, rest.1)),
                                Err(e) => Err(e),
                            });
                            match eval_outcomes::<A, S, M>(m, state, a, gamma@, remove_first(v1, state), v0, outs, j as int + 1) {
                                Ok(rest) => {
                                    assert(contribs_g + (seq![cg] + rest.0) =~= contribs_g.push(cg) + rest.0);
                                },
                                Err(_) => {},
                            }
                            contribs_g = contribs_g.push(cg);
                            if fits0 {
                                assert(fits_outcomes::<A, S, M>(
                                    m,
                                    state,
                                    a,
                                    gamma@,
                                    remove_first(v1, state),
                                    v0,
                                    outs,
                                    j as int + 1,
                                ));
                            }
                        }
                    },
                    None => {
                        proof {
                            if fits0 {
                                assert(rat_fits(rat_mul(p, rew)));
                                assert(false);
                            }
                        }
                        return Err(EvalError::Overflow);
                    },
                }
            } else {
                proof {
                    assert(!v1.contains(next_state));
                    assert(m.spec_states().contains(outs[j as int].0));
                    assert(v1.contains(state)) by {
                        assert(v1[v1.len() - 1] == state);
                    }
                    assert forall|x: S| v0.contains(x) implies v1.contains(x) by {
                        assert(v0.to_multiset().count(x) > 0);
                        assert(v1.to_multiset().count(x) >= v0.to_multiset().count(x));
                    }
                    lemma_unvisited_lt::<A, S, M>(m, v1, next_state, v0, state);
                    assert(unvisited::<A, S, M>(*m_ref, visited@, next_state) < unvisited::<
                        A,
                        S,
                        M,
                    >(*m_ref, v0, state));
                }
                let sub = utility(m_ref, next_state, gamma, visited);
                proof {
                    lemma_multiset_le_trans(
                        v0.to_multiset(),
                        v1.to_multiset(),
                        visited@.to_multiset(),
                    );
                    lemma_multiset_le_trans(
                        v_in.to_multiset(),
                        v1.to_multiset(),
                        visited@.to_multiset(),
                    );
                }
                match sub {
                    Err(e) => {
                        proof {
                            if e != EvalError::Overflow {
                                assert(eval_state::<A, S, M>(m, next_state, gamma@, v1)
                                    == Err::<(Rat, Seq<S>), EvalError>(e));
                                assert(eval_outcomes::<A, S, M>(
                                    m,
                                    state,
                                    a,
                                    gamma@,
                                    v_prev,
                                    v0,
                                    outs,
                                    j as int,
                                ) == Err::<(Seq<Rat>, Seq<S>), EvalError>(e));
                                assert(inner_anchor == Err::<(Seq<Rat>, Seq<S>), EvalError>(e));
                                assert(eval_actions::<A, S, M>(
                                    m,
                                    state,
                                    gamma@,
                                    v_in,
                                    v0,
                                    acts,
                                    i as int,
                                ) == Err::<(Seq<Rat>, Seq<S>), EvalError>(e));
                                assert(anchor == Err::<(Seq<Rat>, Seq<S>), EvalError>(e));
                            }
                            if fits0 {
                                assert(eval_fits::<A, S, M>(m, next_state, gamma@, v1));
                                assert(e != EvalError::Overflow);
                            }
                        }
                        return Err(e);
                    },
                    Ok(u) => {
                        let ghost sub_res = match eval_state::<A, S, M>(
                            m,
                            next_state,
                            gamma@,
                            v1,
                        ) {
                            Ok(res) => res,
                            Err(_) => arbitrary(),
                        };
                        let ghost um = sub_res.0;
                        let ghost cg = rat_mul(p, rat_add(rew, rat_mul(gamma@, um)));
                        proof {
                            lemma_eval_state_props::<A, S, M>(m, next_state, gamma@, v1);
                            assert(rat_wf(um));
                            assert(rat_eq(u@, um));
                            assert(u@.d <= um.d);
                            assert(visited@ == sub_res.1);
                        }
                        match gamma.checked_mul(u) {
                            Some(gu) => {
                                proof {
                                    lemma_rat_mul_wf(gamma@, u@);
                                    lemma_rat_mul_wf(gamma@, um);
                                    lemma_rat_mul_congr(gamma@, gamma@, u@, um);
                                    lemma_rat_eq_trans(
                                        gu@,
                                        rat_mul(gamma@, u@),
                                        rat_mul(gamma@, um),
                                    );
                                    assert(gu@.d <= gamma@.d * um.d) by (nonlinear_arith)
                                        requires
                                            gu@.d <= gamma@.d * u@.d,
                                            u@.d <= um.d,
                                            gamma@.d >= 1,
                                    ;
                                }
                                match reward.checked_add(gu) {
                                    Some(rg) => {
                                        proof {
                                            lemma_rat_add_wf(rew, gu@);
                                            lemma_rat_add_wf(rew, rat_mul(gamma@, um));
                                            lemma_rat_add_congr(rew, rew, gu@, rat_mul(gamma@, um));
                                            lemma_rat_eq_trans(
                                                rg@,
                                                rat_add(rew, gu@),
                                                rat_add(rew, rat_mul(gamma@, um)),
                                            );
                                            assert(rg@.d <= rew.d * (gamma@.d * um.d))
                                                by (nonlinear_arith)
                                                requires
                                                    rg@.d <= rew.d * gu@.d,
                                                    gu@.d <= gamma@.d * um.d,
                                                    rew.d >= 1,
                                            ;
                                        }
                                        match probability.checked_mul(rg) {
                                            Some(c) => {
                                                proof {
                                                    lemma_rat_mul_wf(p, rg@);
                                                    lemma_rat_mul_congr(
                                                        p,
                                                        p,
                                                        rg@,
                                                        rat_add(rew, rat_mul(gamma@, um)),
                                                    );
                                                    lemma_rat_eq_trans(c@, rat_mul(p, rg@), cg);
                                                    lemma_rat_mul_wf(
                                                        p,
                                                        rat_add(rew, rat_mul(gamma@, um)),
                                                    );
                                                    assert(c@.d <= p.d * (rew.d * (gamma@.d
                                                        * um.d))) by (nonlinear_arith)
                                                        requires
                                                            c@.d <= p.d * rg@.d,
                                                            rg@.d <= rew.d * (gamma@.d * um.d),
                                                            p.d >= 1,
                                                    ;
                                                    assert(cg.d == p.d * (rew.d * (gamma@.d
                                                        * um.d)));
                                                    assert(c@.d <= cg.d);
                                                }
                                                contribs.push(c);
                                                proof {
                                                    assert(eval_outcomes::<A, S, M>(m, state, a, gamma@, v_prev, v0, outs, j as int)
                                                        == match eval_outcomes::<A, S, M>(m, state, a, gamma@, sub_res.1, v0, outs, j as int + 1) {
                                                        Ok(rest) => Ok::<(Seq<Rat>, Seq<S>), EvalError>((seq![cg] + rest.0, rest.1)),
                                                        Err(e) => Err(e),
                                                    });
                                                    match eval_outcomes::<A, S, M>(m, state, a, gamma@, sub_res.1, v0, outs, j as int + 1) {
                                                        Ok(rest) => {
                                                            assert(contribs_g + (seq![cg] + rest.0) =~= contribs_g.push(cg) + rest.0);
                                                        },
                                                        Err(_) => {},
                                                    }
                                                    contribs_g = contribs_g.push(cg);
                                                    if fits0 {
                                                        assert(fits_outcomes::<A, S, M>(
                                                            m,
                                                            state,
                                                            a,
                                                            gamma@,
                                                            sub_res.1,
                                                            v0,
                                                            outs,
                                                            j as int + 1,
                                                        ));
                                                    }
                                                }
                                            },
                                            None => {
                                                proof {
                                                    if fits0 {
                                                        assert(rat_fits(rat_mul(
                                                            p,
                                                            rat_add(rew, rat_mul(gamma@, um)),
                                                        )));
                                                        lemma_rat_mul_wf(p, rg@);
                                                        lemma_rat_mul_wf(
                                                            p,
                                                            rat_add(rew, rat_mul(gamma@, um)),
                                                        );
                                                        lemma_rat_mul_congr(
                                                            p,
                                                            p,
                                                            rg@,
                                                            rat_add(rew, rat_mul(gamma@, um)),
                                                        );
                                                        assert(p.d * rg@.d <= p.d * (rew.d
                                                            * (gamma@.d * um.d)))
                                                            by (nonlinear_arith)
                                                            requires
                                                                rg@.d <= rew.d * (gamma@.d * um.d),
                                                                p.d >= 1,
                                                        ;
                                                        crate::rat::lemma_rat_fits_mono(
                                                            rat_mul(p, rg@),
                                                            rat_mul(
                                                                p,
                                                                rat_add(rew, rat_mul(gamma@, um)),
                                                            ),
                                                        );
                                                        assert(false);
                                                    }
                                                }
                                                return Err(EvalError::Overflow);
                                            },
                                        }
                                    },
                                    None => {
                                        proof {
                                            if fits0 {
                                                assert(rat_fits(rat_add(rew, rat_mul(gamma@, um))));
                                                lemma_rat_add_wf(rew, gu@);
                                                lemma_rat_add_wf(rew, rat_mul(gamma@, um));
                                                lemma_rat_add_congr(
                                                    rew,
                                                    rew,
                                                    gu@,
                                                    rat_mul(gamma@, um),
                                                );
                                                assert(rew.d * gu@.d <= rew.d * (gamma@.d * um.d))
                                                    by (nonlinear_arith)
                                                    requires
                                                        gu@.d <= gamma@.d * um.d,
                                                        rew.d >= 1,
                                                ;
                                                crate::rat::lemma_rat_fits_mono(
                                                    rat_add(rew, gu@),
                                                    rat_add(rew, rat_mul(gamma@, um)),
                                                );
                                                assert(false);
                                            }
                                        }
                                        return Err(EvalError::Overflow);
                                    },
                                }
                            },
                            None => {
                                proof {
                                    if fits0 {
                                        assert(rat_fits(rat_mul(gamma@, um)));
                                        lemma_rat_mul_wf(gamma@, u@);
                                        lemma_rat_mul_wf(gamma@, um);
                                        lemma_rat_mul_congr(gamma@, gamma@, u@, um);
                                        assert(gamma@.d * u@.d <= gamma@.d * um.d)
                                            by (nonlinear_arith)
                                            requires
                                                u@.d <= um.d,
                                                gamma@.d >= 1,
                                        ;
                                        crate::rat::lemma_rat_fits_mono(
                                            rat_mul(gamma@, u@),
                                            rat_mul(gamma@, um),
                                        );
                                        assert(false);
                                    }
                                }
                                return Err(EvalError::Overflow);
                            },
                        }
                    },
                }
            }
            j = j + 1;
        }
        proof {
            assert(eval_outcomes::<A, S, M>(
                m,
                state,
                a,
                gamma@,
                visited@,
                v0,
                outs,
                outs.len() as int,
            ) == Ok::<(Seq<Rat>, Seq<S>), EvalError>((Seq::empty(), visited@)));
            assert(contribs_g + Seq::<Rat>::empty() =~= contribs_g);
            assert(inner_anchor == Ok::<(Seq<Rat>, Seq<S>), EvalError>((contribs_g, visited@)));
        }
        let ghost views = frac_views(contribs@);
        let action_value = match set_sum(&contribs) {
            Ok(q) => q,
            Err(AggError::Empty) => {
                proof {
                    assert(eval_actions::<A, S, M>(m, state, gamma@, v_in, v0, acts, i as int)
                        == Err::<(Seq<Rat>, Seq<S>), EvalError>(EvalError::NoOutcomes));
                    assert(anchor == Err::<(Seq<Rat>, Seq<S>), EvalError>(
                        EvalError::NoOutcomes,
                    ));
                }
                return Err(EvalError::NoOutcomes);
            },
            Err(AggError::Overflow) => {
                proof {
                    if fits0 {
                        assert(contribs@.len() > 0);
                        assert(fits_actions::<A, S, M>(m, state, gamma@, v_in, v0, acts, i as int));
                        assert(crate::agg::sum_prefixes_fit(contribs_g));
                        assert(views.len() == contribs_g.len());
                        assert forall|k: int| 0 <= k < views.len() implies #[trigger] views[k]
                            == contribs@[k]@ by {}
                        assert forall|k: int| 0 <= k < views.len() implies rat_wf(
                            #[trigger] views[k],
                        ) by {
                            assert(views[k] == contribs@[k]@);
                        }
                        assert forall|k: int| 0 <= k < views.len() implies rat_eq(
                            #[trigger] views[k],
                            contribs_g[k],
                        ) by {
                            assert(views[k] == contribs@[k]@);
                        }
                        assert forall|k: int| 0 <= k < views.len() implies (#[trigger] views[k]).d
                            <= contribs_g[k].d by {
                            assert(views[k] == contribs@[k]@);
                        }
                        crate::agg::lemma_sum_prefixes_fit_rel(views, contribs_g);
                        assert(false);
                    }
                }
                return Err(EvalError::Overflow);
            },
        };
        let ghost avg = sum_from(contribs_g, 1, contribs_g[0]);
        proof {
            assert(views.len() == contribs_g.len());
            assert forall|k: int| 0 <= k < views.len() implies #[trigger] views[k]
                == contribs@[k]@ by {}
            assert forall|k: int| 0 <= k < views.len() implies (#[trigger] views[k]).d
                <= contribs_g[k].d by {
                assert(views[k] == contribs@[k]@);
            }
            lemma_sum_from_congr(views, contribs_g, 1, views[0], contribs_g[0]);
            lemma_rat_eq_trans(action_value@, sum_from(views, 1, views[0]), avg);
            assert(action_value@.d <= avg.d);
            if fits0 {
                assert(contribs_g.len() > 0);
                assert(fits_actions::<A, S, M>(m, state, gamma@, visited@, v0, acts, i as int + 1));
            }
        }
        action_values.push(action_value);
        proof {
            assert(eval_actions::<A, S, M>(m, state, gamma@, v_in, v0, acts, i as int)
                == match eval_actions::<A, S, M>(
                m,
                state,
                gamma@,
                visited@,
                v0,
                acts,
                i as int + 1,
            ) {
                Ok(r2) => Ok::<(Seq<Rat>, Seq<S>), EvalError>((seq![avg] + r2.0, r2.1)),
                Err(e) => Err(e),
            });
            match eval_actions::<A, S, M>(m, state, gamma@, visited@, v0, acts, i as int + 1) {
                Ok(r2) => {
                    assert(vals_g + (seq![avg] + r2.0) =~= vals_g.push(avg) + r2.0);
                },
                Err(_) => {},
            }
            vals_g = vals_g.push(avg);
        }
        i = i + 1;
    }
    proof {
        assert(eval_actions::<A, S, M>(
            m,
            state,
            gamma@,
            visited@,
            v0,
            acts,
            acts.len() as int,
        ) == Ok::<(Seq<Rat>, Seq<S>), EvalError>((Seq::empty(), visited@)));
        assert(vals_g + Seq::<Rat>::empty() =~= vals_g);
        assert(anchor == Ok::<(Seq<Rat>, Seq<S>), EvalError>((vals_g, visited@)));
    }
    let ghost views = frac_views(action_values@);
    match set_max(&action_values) {
        Some(best) => {
            proof {
                assert(views.len() == vals_g.len());
                assert forall|k: int| 0 <= k < views.len() implies #[trigger] views[k]
                    == action_values@[k]@ by {}
                assert forall|k: int| 0 <= k < views.len() implies (#[trigger] views[k]).d
                    <= vals_g[k].d by {
                    assert(views[k] == action_values@[k]@);
                }
                lemma_max_from_congr(views, vals_g, 1, views[0], vals_g[0]);
                lemma_rat_eq_trans(best@, max_from(views, 1, views[0]), max_from(vals_g, 1, vals_g[0]));
                assert(best@.d <= max_from(vals_g, 1, vals_g[0]).d);
            }
            Ok(best)
        },
        None => {
            proof {
                assert(false);
            }
            vstd::pervasive::unreached()
        },
    }
}


/// A value the mirror returns for one state is well formed.
pub proof fn lemma_eval_state_props<A: Action, S: State<A>, M: MDP<A, S>>(
    m: M,
    s: S,
    gamma: Rat,
    v: Seq<S>,
)
    requires
        mdp_wf::<A, S, M>(m),
        rat_wf(gamma),
    ensures
        eval_state::<A, S, M>(m, s, gamma, v) matches Ok(r) ==> rat_wf(r.0),
    decreases unvisited::<A, S, M>(m, v, s), 3int, 0int,
{
    let acts = s.spec_actions();
    if acts.len() == 0 {
    } else {
        lemma_eval_actions_props::<A, S, M>(m, s, gamma, v, v, acts, 0);
        match eval_actions::<A, S, M>(m, s, gamma, v, v, acts, 0) {
            Ok(r) => lemma_max_from_wf(r.0, 1, r.0[0]),
            Err(_) => {},
        }
    }
}

/// The action values the mirror returns are one per remaining action, and
/// each is well formed.
pub proof fn lemma_eval_actions_props<A: Action, S: State<A>, M: MDP<A, S>>(
    m: M,
    s: S,
    gamma: Rat,
    v: Seq<S>,
    v0: Seq<S>,
    acts: Seq<A>,
    i: int,
)
    requires
        mdp_wf::<A, S, M>(m),
        rat_wf(gamma),
        0 <= i <= acts.len(),
    ensures
        eval_actions::<A, S, M>(m, s, gamma, v, v0, acts, i) matches Ok(r) ==> {
            &&& r.0.len() == acts.len() - i
            &&& forall|k: int| 0 <= k < r.0.len() ==> rat_wf(#[trigger] r.0[k])
        },
    decreases unvisited::<A, S, M>(m, v0, s), 2int, acts.len() - i,
{
    if i < 0 || i >= acts.len() {
    } else {
        let outs = m.spec_transition(s, acts[i]);
        lemma_eval_outcomes_props::<A, S, M>(m, s, acts[i], gamma, v, v0, outs, 0);
        match eval_outcomes::<A, S, M>(m, s, acts[i], gamma, v, v0, outs, 0) {
            Ok(r1) => {
                if r1.0.len() > 0 {
                    lemma_sum_from_wf(r1.0, 1, r1.0[0]);
                    lemma_eval_actions_props::<A, S, M>(m, s, gamma, r1.1, v0, acts, i + 1);
                }
            },
            Err(_) => {},
        }
    }
}

/// The contributions the mirror returns are one per remaining outcome, and
/// each is well formed.
pub proof fn lemma_eval_outcomes_props<A: Action, S: State<A>, M: MDP<A, S>>(
    m: M,
    s: S,
    a: A,
    gamma: Rat,
    v: Seq<S>,
    v0: Seq<S>,
    outs: Seq<(S, Rat)>,
    j: int,
)
    requires
        mdp_wf::<A, S, M>(m),
        rat_wf(gamma),
        0 <= j <= outs.len(),
        forall|k: int| 0 <= k < outs.len() ==> rat_wf((#[trigger] outs[k]).1),
    ensures
        eval_outcomes::<A, S, M>(m, s, a, gamma, v, v0, outs, j) matches Ok(r) ==> {
            &&& r.0.len() == outs.len() - j
            &&& forall|k: int| 0 <= k < r.0.len() ==> rat_wf(#[trigger] r.0[k])
        },
    decreases unvisited::<A, S, M>(m, v0, s), 1int, outs.len() - j,
{
    if j < 0 || j >= outs.len() {
    } else {
        let ns = outs[j].0;
        let p = outs[j].1;
        let rew = m.spec_reward(s, a, ns);
        let v1 = v.push(s);
        lemma_rat_mul_wf(p, rew);
        if ns.spec_final() {
            lemma_eval_outcomes_props::<A, S, M>(m, s, a, gamma, v1, v0, outs, j + 1);
        } else if v1.contains(ns) {
            lemma_eval_outcomes_props::<A, S, M>(m, s, a, gamma, remove_first(v1, s), v0, outs, j + 1);
        } else if unvisited::<A, S, M>(m, v1, ns) < unvisited::<A, S, M>(m, v0, s) {
            lemma_eval_state_props::<A, S, M>(m, ns, gamma, v1);
            match eval_state::<A, S, M>(m, ns, gamma, v1) {
                Ok(r1) => {
                    lemma_rat_mul_wf(gamma, r1.0);
                    lemma_rat_add_wf(rew, rat_mul(gamma, r1.0));
                    lemma_rat_mul_wf(p, rat_add(rew, rat_mul(gamma, r1.0)));
                    lemma_eval_outcomes_props::<A, S, M>(m, s, a, gamma, r1.1, v0, outs, j + 1);
                },
                Err(_) => {},
            }
        }
    }
}

/// A maximum folded over well-formed rationals is well formed.
pub proof fn lemma_max_from_wf(s: Seq<Rat>, i: int, acc: Rat)
    requires
        forall|k: int| 0 <= k < s.len() ==> rat_wf(#[trigger] s[k]),
        rat_wf(acc),
    ensures
        rat_wf(max_from(s, i, acc)),
    decreases s.len() - i,
{
    if i < 0 || i >= s.len() {
    } else {
        lemma_max_from_wf(s, i + 1, if crate::rat::rat_lt(acc, s[i]) { s[i] } else { acc });
    }
}

/// A sum folded over well-formed rationals is well formed.
pub proof fn lemma_sum_from_wf(s: Seq<Rat>, i: int, acc: Rat)
    requires
        forall|k: int| 0 <= k < s.len() ==> rat_wf(#[trigger] s[k]),
        rat_wf(acc),
    ensures
        rat_wf(sum_from(s, i, acc)),
    decreases s.len() - i,
{
    if i < 0 || i >= s.len() {
    } else {
        lemma_rat_add_wf(acc, s[i]);
        lemma_sum_from_wf(s, i + 1, rat_add(acc, s[i]));
    }
}

/// Exploring a fresh state shrinks the termination measure: the fresh state
/// is counted by the measure at the frame's entry but not by the measure of
/// the recursive call.
pub proof fn lemma_unvisited_lt<A: Action, S: State<A>, M: MDP<A, S>>(
    m: M,
    vcur: Seq<S>,
    ns: S,
    v0: Seq<S>,
    s: S,
)
    requires
        m.spec_states().finite(),
        m.spec_states().contains(ns),
        !vcur.contains(ns),
        vcur.contains(s),
        forall|x: S| v0.contains(x) ==> vcur.contains(x),
    ensures
        unvisited::<A, S, M>(m, vcur, ns) < unvisited::<A, S, M>(m, v0, s),
{
    let big = m.spec_states().difference(v0.to_set().insert(s));
    let small = m.spec_states().difference(vcur.to_set().insert(ns));
    assert forall|x: S| small.contains(x) implies big.remove(ns).contains(x) by {
        assert(!vcur.to_set().contains(x));
        assert(!vcur.contains(x));
        assert(x != s);
        assert(!v0.contains(x));
        assert(!v0.to_set().contains(x));
    }
    assert(!v0.to_set().contains(ns));
    assert(ns != s);
    assert(big.contains(ns));
    assert(big.subset_of(m.spec_states()));
    vstd::set_lib::lemma_set_subset_finite(m.spec_states(), big);
    assert(big.remove(ns).len() == big.len() - 1);
    vstd::set_lib::lemma_len_subset(small, big.remove(ns));
    assert(small.len() <= big.len() - 1);
}


/// Every action available from `s` leads only to terminal outcomes.
pub open spec fn all_outcomes_final<A: Action, S: State<A>, M: MDP<A, S>>(m: M, s: S) -> bool {
    forall|i: int, j: int|
        0 <= i < s.spec_actions().len() && 0 <= j < m.spec_transition(
            s,
            s.spec_actions()[i],
        ).len() ==> (#[trigger] m.spec_transition(s, s.spec_actions()[i])[j]).0.spec_final()
}

/// Over outcomes that are all terminal, the evaluation never uses the
/// discount factor.
proof fn lemma_outcomes_gamma_independent<A: Action, S: State<A>, M: MDP<A, S>>(
    m: M,
    s: S,
    a: A,
    g1: Rat,
    g2: Rat,
    v: Seq<S>,
    v0: Seq<S>,
    outs: Seq<(S, Rat)>,
    j: int,
)
    requires
        forall|k: int| 0 <= k < outs.len() ==> (#[trigger] outs[k]).0.spec_final(),
    ensures
        eval_outcomes::<A, S, M>(m, s, a, g1, v, v0, outs, j) == eval_outcomes::<A, S, M>(
            m,
            s,
            a,
            g2,
            v,
            v0,
            outs,
            j,
        ),
    decreases outs.len() - j,
{
    if j < 0 || j >= outs.len() {
    } else {
        lemma_outcomes_gamma_independent::<A, S, M>(m, s, a, g1, g2, v.push(s), v0, outs, j + 1);
    }
}

/// Over actions whose outcomes are all terminal, the evaluation never uses
/// the discount factor.
proof fn lemma_actions_gamma_independent<A: Action, S: State<A>, M: MDP<A, S>>(
    m: M,
    s: S,
    g1: Rat,
    g2: Rat,
    v: Seq<S>,
    v0: Seq<S>,
    i: int,
)
    requires
        all_outcomes_final::<A, S, M>(m, s),
    ensures
        eval_actions::<A, S, M>(m, s, g1, v, v0, s.spec_actions(), i) == eval_actions::<A, S, M>(
            m,
            s,
            g2,
            v,
            v0,
            s.spec_actions(),
            i,
        ),
    decreases s.spec_actions().len() - i,
{
    let acts = s.spec_actions();
    if i < 0 || i >= acts.len() {
    } else {
        let outs = m.spec_transition(s, acts[i]);
        assert forall|k: int| 0 <= k < outs.len() implies (#[trigger] outs[k]).0.spec_final() by {
            assert(m.spec_transition(s, s.spec_actions()[i])[k] == outs[k]);
        }
        lemma_outcomes_gamma_independent::<A, S, M>(m, s, acts[i], g1, g2, v, v0, outs, 0);
        match eval_outcomes::<A, S, M>(m, s, acts[i], g1, v, v0, outs, 0) {
            Ok(r1) => {
                lemma_actions_gamma_independent::<A, S, M>(m, s, g1, g2, r1.1, v0, i + 1);
            },
            Err(_) => {},
        }
    }
}

/// For a state whose every action leads only to terminal outcomes, the
/// evaluation is independent of the discount factor: no recursive,
/// discounted term is ever added, so `utility` returns the same value and
/// the same final path for any two discount factors.
pub proof fn lemma_terminal_gamma_independent<A: Action, S: State<A>, M: MDP<A, S>>(
    m: M,
    s: S,
    g1: Rat,
    g2: Rat,
    v: Seq<S>,
)
    requires
        all_outcomes_final::<A, S, M>(m, s),
    ensures
        eval_state::<A, S, M>(m, s, g1, v) == eval_state::<A, S, M>(m, s, g2, v),
{
    lemma_actions_gamma_independent::<A, S, M>(m, s, g1, g2, v, v, 0);
}


/// The expected value of one action whose outcomes are all terminal: the
/// probability-weighted sum of the immediate rewards.
pub open spec fn terminal_action_value<A: Action, S: State<A>, M: MDP<A, S>>(
    m: M,
    s: S,
    a: A,
) -> Rat {
    let ws = m.spec_transition(s, a).map_values(|o: (S, Rat)| rat_mul(o.1, m.spec_reward(s, a, o.0)));
    sum_from(ws, 1, ws[0])
}

/// Over outcomes that are all terminal, the evaluation's contributions are
/// exactly the probability-weighted immediate rewards.
proof fn lemma_outcomes_terminal_value<A: Action, S: State<A>, M: MDP<A, S>>(
    m: M,
    s: S,
    a: A,
    gamma: Rat,
    v: Seq<S>,
    v0: Seq<S>,
    j: int,
)
    requires
        forall|k: int|
            0 <= k < m.spec_transition(s, a).len() ==> (#[trigger] m.spec_transition(
                s,
                a,
            )[k]).0.spec_final(),
        0 <= j <= m.spec_transition(s, a).len(),
    ensures
        eval_outcomes::<A, S, M>(m, s, a, gamma, v, v0, m.spec_transition(s, a), j) matches Ok(r)
            && r.0 == m.spec_transition(s, a).map_values(
            |o: (S, Rat)| rat_mul(o.1, m.spec_reward(s, a, o.0)),
        ).subrange(j, m.spec_transition(s, a).len() as int),
    decreases m.spec_transition(s, a).len() - j,
{
    let outs = m.spec_transition(s, a);
    let ws = outs.map_values(|o: (S, Rat)| rat_mul(o.1, m.spec_reward(s, a, o.0)));
    if j >= outs.len() {
        assert(ws.subrange(j, outs.len() as int) =~= Seq::<Rat>::empty());
    } else {
        lemma_outcomes_terminal_value::<A, S, M>(m, s, a, gamma, v.push(s), v0, j + 1);
        match eval_outcomes::<A, S, M>(m, s, a, gamma, v.push(s), v0, outs, j + 1) {
            Ok(rest) => {
                assert(seq![rat_mul(outs[j].1, m.spec_reward(s, a, outs[j].0))] + ws.subrange(
                    j + 1,
                    outs.len() as int,
                ) =~= ws.subrange(j, outs.len() as int));
            },
            Err(_) => {},
        }
    }
}

/// For a state whose every action leads only to terminal outcomes and whose
/// actions and outcome lists are non-empty, the evaluation succeeds and
/// returns exactly the best action's probability-weighted sum of immediate
/// rewards: the Bellman-optimal value computed by direct enumeration, with
/// no recursive term.
pub proof fn lemma_terminal_bellman_value<A: Action, S: State<A>, M: MDP<A, S>>(
    m: M,
    s: S,
    gamma: Rat,
    v: Seq<S>,
)
    requires
        all_outcomes_final::<A, S, M>(m, s),
        s.spec_actions().len() > 0,
        forall|i: int|
            0 <= i < s.spec_actions().len() ==> m.spec_transition(
                s,
                #[trigger] s.spec_actions()[i],
            ).len() > 0,
    ensures
        eval_state::<A, S, M>(m, s, gamma, v) matches Ok(r) && {
            let vals = s.spec_actions().map_values(
                |a: A| terminal_action_value::<A, S, M>(m, s, a),
            );
            r.0 == max_from(vals, 1, vals[0])
        },
{
    let acts = s.spec_actions();
    let vals = acts.map_values(|a: A| terminal_action_value::<A, S, M>(m, s, a));
    lemma_actions_terminal_value::<A, S, M>(m, s, gamma, v, v, 0);
    match eval_actions::<A, S, M>(m, s, gamma, v, v, acts, 0) {
        Ok(r) => {
            assert(r.0 =~= vals.subrange(0, acts.len() as int));
            assert(vals.subrange(0, acts.len() as int) =~= vals);
        },
        Err(_) => {},
    }
}

/// Over actions whose outcomes are all terminal and non-empty, the
/// evaluation returns one probability-weighted reward sum per action.
proof fn lemma_actions_terminal_value<A: Action, S: State<A>, M: MDP<A, S>>(
    m: M,
    s: S,
    gamma: Rat,
    v: Seq<S>,
    v0: Seq<S>,
    i: int,
)
    requires
        all_outcomes_final::<A, S, M>(m, s),
        forall|k: int|
            0 <= k < s.spec_actions().len() ==> m.spec_transition(
                s,
                #[trigger] s.spec_actions()[k],
            ).len() > 0,
        0 <= i <= s.spec_actions().len(),
    ensures
        eval_actions::<A, S, M>(m, s, gamma, v, v0, s.spec_actions(), i) matches Ok(r) && r.0
            == s.spec_actions().map_values(
            |a: A| terminal_action_value::<A, S, M>(m, s, a),
        ).subrange(i, s.spec_actions().len() as int),
    decreases s.spec_actions().len() - i,
{
    let acts = s.spec_actions();
    let vals = acts.map_values(|a: A| terminal_action_value::<A, S, M>(m, s, a));
    if i >= acts.len() {
        assert(vals.subrange(i, acts.len() as int) =~= Seq::<Rat>::empty());
    } else {
        let outs = m.spec_transition(s, acts[i]);
        assert forall|k: int| 0 <= k < outs.len() implies (#[trigger] outs[k]).0.spec_final() by {
            assert(m.spec_transition(s, s.spec_actions()[i])[k] == outs[k]);
        }
        lemma_outcomes_terminal_value::<A, S, M>(m, s, acts[i], gamma, v, v0, 0);
        match eval_outcomes::<A, S, M>(m, s, acts[i], gamma, v, v0, outs, 0) {
            Ok(r1) => {
                let ws = outs.map_values(
                    |o: (S, Rat)| rat_mul(o.1, m.spec_reward(s, acts[i], o.0)),
                );
                assert(r1.0 =~= ws.subrange(0, outs.len() as int));
                assert(ws.subrange(0, outs.len() as int) =~= ws);
                assert(sum_from(r1.0, 1, r1.0[0]) == terminal_action_value::<A, S, M>(
                    m,
                    s,
                    acts[i],
                ));
                lemma_actions_terminal_value::<A, S, M>(m, s, gamma, r1.1, v0, i + 1);
                match eval_actions::<A, S, M>(m, s, gamma, r1.1, v0, acts, i + 1) {
                    Ok(r2) => {
                        assert(seq![vals[i]] + vals.subrange(i + 1, acts.len() as int)
                            =~= vals.subrange(i, acts.len() as int));
                    },
                    Err(_) => {},
                }
            },
            Err(_) => {},
        }
    }
}


} // verus!
