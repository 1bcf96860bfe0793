//! The equality-justification chain resolver.
//!
//! Given two term identifiers already asserted equal, it reconstructs the
//! ordered chain of justification steps proving the equality: walk forward
//! from the first id following each step's successor until the second id or
//! a root is reached; if that walk falls short, walk from the second id and
//! splice the reversed remainder on. A walk that stops on a missing step or
//! runs out of fuel (a cyclic justification) signals an inconsistent trace,
//! reported as a distinct result rather than a failure.

use vstd::prelude::*;

use crate::items::{eq_expl_next, EqualityExpl, EqualityExplV};
use crate::tables::StrMap;

verus! {

/// How a forward walk ended.
#[derive(Debug, Clone, Copy, PartialEq, Eq, Structural)]
pub enum WalkEnd {
    /// The target id was reached: the chain proves the equality.
    Reached,
    /// A root step ended the walk before the target.
    Rooted,
    /// An id had no recorded justification step.
    Missing,
    /// The step budget ran out: the justification graph has a cycle.
    Exhausted,
}

/// The chain collected by walking forward from `key` towards `target`, and
/// how the walk ended. Each visited step is appended before following its
/// successor.
pub open spec fn spec_walk(
    m: Map<Seq<char>, EqualityExpl>,
    key: Seq<char>,
    target: Seq<char>,
    fuel: nat,
) -> (Seq<EqualityExplV>, WalkEnd)
    decreases fuel,
{
    if fuel == 0 {
        (Seq::empty(), WalkEnd::Exhausted)
    } else if !m.contains_key(key) {
        (Seq::empty(), WalkEnd::Missing)
    } else {
        let e = m[key]@;
        match eq_expl_next(e) {
            None => (seq![e], WalkEnd::Rooted),
            Some(nk) => if nk == target {
                (seq![e], WalkEnd::Reached)
            } else {
                let r = spec_walk(m, nk, target, (fuel - 1) as nat);
                (seq![e] + r.0, r.1)
            },
        }
    }
}

/// The reconstructed justification of one asserted equality.
pub enum EqChainResult {
    /// The ordered steps proving the two terms equal; empty when the two
    /// ids are the same.
    Chain(Vec<EqualityExpl>),
    /// The two partial chains of an inconsistent trace, whose walks never
    /// meet: forward from the first id, forward from the second.
    Inconsistent(Vec<EqualityExpl>, Vec<EqualityExpl>),
}

pub ghost enum EqChainResultV {
    Chain(Seq<EqualityExplV>),
    Inconsistent(Seq<EqualityExplV>, Seq<EqualityExplV>),
}

impl View for EqChainResult {
    type V = EqChainResultV;

    open spec fn view(&self) -> EqChainResultV {
        match self {
            EqChainResult::Chain(c) => EqChainResultV::Chain(c.deep_view()),
            EqChainResult::Inconsistent(a, b) => EqChainResultV::Inconsistent(
                a.deep_view(),
                b.deep_view(),
            ),
        }
    }
}

/// The walk budget: one more step than there are recorded ids, so an
/// acyclic walk never runs out, capped only by the machine word.
pub open spec fn chain_fuel(m: Map<Seq<char>, EqualityExpl>) -> nat {
    if m.dom().len() + 1 <= usize::MAX {
        (m.dom().len() + 1) as nat
    } else {
        usize::MAX as nat
    }
}

/// The resolver's answer over the step map `m`: an equal pair yields the
/// empty chain; a forward walk that reaches `b` yields its chain; otherwise
/// the walk from `b` is spliced on, reversed, with its trailing step (the
/// shared root) removed; and if that walk stops on a missing step or a
/// cycle, the two partial chains are reported as inconsistent.
pub open spec fn spec_resolve(
    m: Map<Seq<char>, EqualityExpl>,
    a: Seq<char>,
    b: Seq<char>,
) -> EqChainResultV {
    if a == b {
        EqChainResultV::Chain(Seq::empty())
    } else {
        let fuel = chain_fuel(m);
        let r1 = spec_walk(m, a, b, fuel);
        if r1.1 is Reached {
            EqChainResultV::Chain(r1.0)
        } else {
            let r2 = spec_walk(m, b, a, fuel);
            if r2.1 is Reached || r2.1 is Rooted {
                EqChainResultV::Chain(r1.0 + r2.0.drop_last().reverse())
            } else {
                EqChainResultV::Inconsistent(r1.0, r2.0)
            }
        }
    }
}

impl EqualityExpl {
    /// Copies one justification step; the view is unchanged.
    pub fn duplicate(&self) -> (r: EqualityExpl)
        ensures
            r@ == self@,
    {
        match self {
            EqualityExpl::Root { id } => EqualityExpl::Root { id: id.clone() },
            EqualityExpl::Literal { from, eq, to } => EqualityExpl::Literal {
                from: from.clone(),
                eq: eq.clone(),
                to: to.clone(),
            },
            EqualityExpl::Congruence { id, arg_eqs, to } => {
                let n = arg_eqs.len();
                let mut pairs: Vec<(String, String)> = Vec::new();
                let mut i: usize = 0;
                while i < n
                    invariant
                        i <= n,
                        n == arg_eqs@.len(),
                        pairs@.map_values(|p: (String, String)| crate::items::var_pair_view(p))
                            =~= arg_eqs@.map_values(
                            |p: (String, String)| crate::items::var_pair_view(p),
                        ).take(i as int),
                    decreases n - i,
                {
                    let ghost old_pairs = pairs@;
                    pairs.push((arg_eqs[i].0.clone(), arg_eqs[i].1.clone()));
                    proof {
                        let f = |p: (String, String)| crate::items::var_pair_view(p);
                        assert(pairs@.map_values(f) =~= old_pairs.map_values(f).push(
                            crate::items::var_pair_view(arg_eqs@[i as int]),
                        ));
                        assert(pairs@.map_values(f) =~= arg_eqs@.map_values(f).take(i + 1));
                    }
                    i += 1;
                }
                proof {
                    let f = |p: (String, String)| crate::items::var_pair_view(p);
                    assert(arg_eqs@.map_values(f).take(n as int) =~= arg_eqs@.map_values(f));
                }
                EqualityExpl::Congruence { id: id.clone(), arg_eqs: pairs, to: to.clone() }
            },
            EqualityExpl::Theory { id, theory, term } => EqualityExpl::Theory {
                id: id.clone(),
                theory: theory.clone(),
                term: term.clone(),
            },
            EqualityExpl::Axiom { id, term } => EqualityExpl::Axiom {
                id: id.clone(),
                term: term.clone(),
            },
            EqualityExpl::Unknown { id, term } => EqualityExpl::Unknown {
                id: id.clone(),
                term: term.clone(),
            },
        }
    }

    /// The successor this step points at, cloned, or `None` for a root.
    fn next_key(&self) -> (r: Option<String>)
        ensures
            match r {
                Some(k) => eq_expl_next(self@) == Some(k@),
                None => eq_expl_next(self@) is None,
            },
    {
        match self {
            EqualityExpl::Root { .. } => None,
            EqualityExpl::Literal { to, .. } => Some(to.clone()),
            EqualityExpl::Congruence { to, .. } => Some(to.clone()),
            EqualityExpl::Theory { term, .. } => Some(term.clone()),
            EqualityExpl::Axiom { term, .. } => Some(term.clone()),
            EqualityExpl::Unknown { term, .. } => Some(term.clone()),
        }
    }
}

/// Walks forward from `key` towards `target`, appending each visited step.
fn walk_chain(m: &StrMap<EqualityExpl>, key: &String, target: &String, fuel: usize) -> (r: (
    Vec<EqualityExpl>,
    WalkEnd,
))
    requires
        m.wf(),
    ensures
        (r.0.deep_view(), r.1) == spec_walk(m@, key@, target@, fuel as nat),
{
    let mut acc: Vec<EqualityExpl> = Vec::new();
    let mut cur: String = key.clone();
    let mut left: usize = fuel;
    let ghost start_walk = spec_walk(m@, key@, target@, fuel as nat);
    proof {
        assert(acc.deep_view() =~= Seq::<EqualityExplV>::empty());
        assert(start_walk.0 =~= acc.deep_view() + spec_walk(m@, cur@, target@, left as nat).0);
    }
    loop
        invariant
            m.wf(),
            left <= fuel,
            start_walk == spec_walk(m@, key@, target@, fuel as nat),
            start_walk.0 =~= acc.deep_view() + spec_walk(m@, cur@, target@, left as nat).0,
            start_walk.1 == spec_walk(m@, cur@, target@, left as nat).1,
        decreases left,
    {
        let ghost here_walk = spec_walk(m@, cur@, target@, left as nat);
        if left == 0 {
            proof {
                assert(start_walk.0 =~= acc.deep_view());
            }
            return (acc, WalkEnd::Exhausted);
        }
        match m.get(&cur) {
            None => {
                proof {
                    assert(start_walk.0 =~= acc.deep_view());
                }
                return (acc, WalkEnd::Missing);
            },
            Some(e) => {
                let step = e.duplicate();
                let next = step.next_key();
                let ghost old_acc = acc.deep_view();
                acc.push(step);
                proof {
                    assert(acc.deep_view() =~= old_acc.push(m@[cur@]@));
                }
                match next {
                    None => {
                        proof {
                            assert(here_walk.0 =~= seq![m@[cur@]@]);
                            assert(start_walk.0 =~= acc.deep_view());
                        }
                        return (acc, WalkEnd::Rooted);
                    },
                    Some(nk) => {
                        if nk == *target {
                            proof {
                                assert(here_walk.0 =~= seq![m@[cur@]@]);
                                assert(start_walk.0 =~= acc.deep_view());
                            }
                            return (acc, WalkEnd::Reached);
                        }
                        proof {
                            let rest = spec_walk(m@, nk@, target@, (left - 1) as nat);
                            assert(here_walk.0 =~= seq![m@[cur@]@] + rest.0);
                            assert(start_walk.0 =~= acc.deep_view() + rest.0);
                        }
                        cur = nk;
                        left = left - 1;
                    },
                }
            },
        }
    }
}

/// Reconstructs the ordered justification chain proving that the terms
/// named `a` and `b` are equal, from the per-id step map `m`.
///
/// Equal ids yield the empty chain. When the forward walks never meet (a
/// missing step or a cyclic justification), the two partial chains are
/// returned as an `Inconsistent` result instead of failing.
pub fn get_all_equality_expls(m: &StrMap<EqualityExpl>, a: &String, b: &String) -> (r:
    EqChainResult)
    requires
        m.wf(),
    ensures
        r@ == spec_resolve(m@, a@, b@),
{
    if *a == *b {
        let empty: Vec<EqualityExpl> = Vec::new();
        proof {
            assert(empty.deep_view() =~= Seq::<EqualityExplV>::empty());
        }
        return EqChainResult::Chain(empty);
    }
    let len = m.len();
    let fuel = if len == usize::MAX {
        len
    } else {
        len + 1
    };
    let (mut c1, end1) = walk_chain(m, a, b, fuel);
    if matches!(end1, WalkEnd::Reached) {
        return EqChainResult::Chain(c1);
    }
    let (c2, end2) = walk_chain(m, b, a, fuel);
    let reached2 = matches!(end2, WalkEnd::Reached);
    let rooted2 = matches!(end2, WalkEnd::Rooted);
    if reached2 || rooted2 {
        // splice: reverse the second chain, dropping its trailing step
        proof {
            lemma_walk_ended_nonempty(m@, b@, a@, fuel as nat);
        }
        let ghost c1v = c1.deep_view();
        let ghost c2v = c2.deep_view();
        let n = c2.len();
        let mut i: usize = n - 1;
        proof {
            assert(c2v.subrange(n - 1, n - 1).reverse() =~= Seq::<EqualityExplV>::empty());
            assert(c1.deep_view() =~= c1v + c2v.subrange(n - 1, n - 1).reverse());
        }
        while i > 0
            invariant
                n == c2@.len(),
                n >= 1,
                i <= n - 1,
                c2v == c2.deep_view(),
                c1.deep_view() =~= c1v + c2v.subrange(i as int, n - 1).reverse(),
            decreases i,
        {
            i = i - 1;
            let ghost old_c1 = c1.deep_view();
            c1.push(c2[i].duplicate());
            proof {
                assert(c1.deep_view() =~= old_c1.push(c2v[i as int]));
                assert(c2v.subrange(i as int, n - 1).reverse() =~= c2v.subrange(
                    i + 1,
                    n - 1,
                ).reverse().push(c2v[i as int]));
                assert(c1.deep_view() =~= c1v + c2v.subrange(i as int, n - 1).reverse());
            }
        }
        proof {
            assert(c2v.subrange(0, n - 1) =~= c2v.drop_last());
            assert(c1.deep_view() =~= c1v + c2v.drop_last().reverse());
        }
        EqChainResult::Chain(c1)
    } else {
        EqChainResult::Inconsistent(c1, c2)
    }
}

/// A walk that ended on the target or on a root visited at least one step.
proof fn lemma_walk_ended_nonempty(
    m: Map<Seq<char>, EqualityExpl>,
    key: Seq<char>,
    target: Seq<char>,
    fuel: nat,
)
    ensures
        (spec_walk(m, key, target, fuel).1 is Reached || spec_walk(m, key, target, fuel).1
            is Rooted) ==> spec_walk(m, key, target, fuel).0.len() >= 1,
    decreases fuel,
{
    if fuel > 0 && m.contains_key(key) {
        match eq_expl_next(m[key]@) {
            None => {},
            Some(nk) => {
                if nk != target {
                    lemma_walk_ended_nonempty(m, nk, target, (fuel - 1) as nat);
                }
            },
        }
    }
}

} // verus!
