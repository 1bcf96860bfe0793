//! The finished dependency graph: restricting the permanent edge list to
//! the highest-cost subgraph, and ranking instantiations by cost.
//!
//! The ranking is a stable descending sort: ties keep their original
//! relative order, so the output is deterministic.

use vstd::prelude::*;

use crate::items::{Dependency, DependencyV, Instantiation, InstantiationV};

verus! {

/// The lines of a set of instantiations.
pub open spec fn inst_lines(insts: Seq<InstantiationV>) -> Set<usize> {
    Set::new(|x: usize| exists|i: int| 0 <= i < insts.len() && (#[trigger] insts[i]).line_no == x)
}

/// The edges whose target lies in `targets`, in their original order.
pub open spec fn deps_with_targets(deps: Seq<DependencyV>, targets: Set<usize>) -> Seq<DependencyV>
    decreases deps.len(),
{
    if deps.len() == 0 {
        Seq::empty()
    } else {
        let rest = deps_with_targets(deps.drop_last(), targets);
        if targets.contains(deps.last().to) {
            rest.push(deps.last())
        } else {
            rest
        }
    }
}

/// True when `line` is the line of one of the instantiations.
fn contains_line(insts: &Vec<Instantiation>, line: usize) -> (r: bool)
    ensures
        r == inst_lines(insts.deep_view()).contains(line),
{
    let n = insts.len();
    let mut i: usize = 0;
    while i < n
        invariant
            i <= n,
            n == insts@.len(),
            forall|j: int| 0 <= j < i ==> (#[trigger] insts.deep_view()[j]).line_no != line,
        decreases n - i,
    {
        if insts[i].line_no == line {
            proof {
                assert(insts.deep_view()[i as int].line_no == line);
            }
            return true;
        }
        i += 1;
    }
    false
}

/// The subset of the permanent edge list whose targets are among the given
/// instantiations' lines, keeping the original edge order. Used to restrict
/// rendering to the highest-cost subgraph.
pub fn filter_dependencies_by_cost(insts: &Vec<Instantiation>, deps: &Vec<Dependency>) -> (r: Vec<
    Dependency,
>)
    ensures
        r.deep_view() == deps_with_targets(deps.deep_view(), inst_lines(insts.deep_view())),
{
    let ghost targets = inst_lines(insts.deep_view());
    let n = deps.len();
    let mut out: Vec<Dependency> = Vec::new();
    let mut i: usize = 0;
    proof {
        assert(deps.deep_view().take(0) =~= Seq::<DependencyV>::empty());
        assert(out.deep_view() =~= deps_with_targets(deps.deep_view().take(0), targets));
    }
    while i < n
        invariant
            i <= n,
            n == deps@.len(),
            targets == inst_lines(insts.deep_view()),
            out.deep_view() =~= deps_with_targets(deps.deep_view().take(i as int), targets),
        decreases n - i,
    {
        let ghost pre = out.deep_view();
        if contains_line(insts, deps[i].to) {
            let d = Dependency {
                from: deps[i].from,
                to: deps[i].to,
                blamed: deps[i].blamed.clone(),
                dep_type: deps[i].dep_type,
                quant: deps[i].quant.clone(),
            };
            proof {
                assert(d@ == deps.deep_view()[i as int]);
            }
            out.push(d);
            proof {
                assert(out.deep_view() =~= pre.push(deps.deep_view()[i as int]));
            }
        }
        proof {
            let t = deps.deep_view().take(i + 1);
            assert(t.drop_last() =~= deps.deep_view().take(i as int));
            assert(t.last() == deps.deep_view()[i as int]);
            assert(out.deep_view() =~= deps_with_targets(t, targets));
        }
        i += 1;
    }
    proof {
        assert(deps.deep_view().take(n as int) =~= deps.deep_view());
    }
    out
}

/// Cost order between two instantiations: the first costs at least as much
/// as the second, comparing the exact fractions.
pub open spec fn cost_ge(a: InstantiationV, b: InstantiationV) -> bool {
    a.cost.num * b.cost.den >= b.cost.num * a.cost.den
}

/// Sorted by strictly descending position: every earlier instantiation
/// costs at least as much as every later one.
pub open spec fn sorted_by_cost_desc(s: Seq<InstantiationV>) -> bool {
    forall|i: int, j: int| 0 <= i < j < s.len() ==> cost_ge(#[trigger] s[i], #[trigger] s[j])
}

/// `dst` is `src` rearranged by the permutation `perm`, and the
/// rearrangement is stable: two instantiations of equal cost keep their
/// original relative order.
pub open spec fn stable_rearrangement(
    src: Seq<InstantiationV>,
    dst: Seq<InstantiationV>,
    perm: Seq<int>,
) -> bool {
    &&& perm.len() == src.len()
    &&& dst.len() == src.len()
    &&& forall|i: int| 0 <= i < perm.len() ==> 0 <= #[trigger] perm[i] < src.len()
    &&& forall|i: int, j: int| 0 <= i < j < perm.len() ==> perm[i] != perm[j]
    &&& forall|i: int| 0 <= i < dst.len() ==> #[trigger] dst[i] == src[perm[i]]
    &&& forall|i: int, j: int|
        0 <= i < j < dst.len() && (#[trigger] dst[i]).cost.same_value((#[trigger] dst[j]).cost)
            ==> perm[i] < perm[j]
}

/// With positive denominators, the cost order is transitive.
proof fn lemma_cost_ge_trans(a: InstantiationV, b: InstantiationV, c: InstantiationV)
    requires
        a.cost.wf(),
        b.cost.wf(),
        c.cost.wf(),
        cost_ge(a, b),
        cost_ge(b, c),
    ensures
        cost_ge(a, c),
{
    assert(a.cost.num * c.cost.den >= c.cost.num * a.cost.den) by (nonlinear_arith)
        requires
            a.cost.den > 0,
            b.cost.den > 0,
            c.cost.den > 0,
            a.cost.num * b.cost.den >= b.cost.num * a.cost.den,
            b.cost.num * c.cost.den >= c.cost.num * b.cost.den,
    {
    }
}

/// The cost order is total: two costs always compare one way or the other.
proof fn lemma_cost_ge_total(a: InstantiationV, b: InstantiationV)
    ensures
        cost_ge(a, b) || cost_ge(b, a),
{
}

/// Ranks the instantiations by descending cost, stably: instantiations of
/// equal cost keep their original relative order, so the ranking is
/// deterministic.
pub fn sort_instantiations_by_cost(insts: &Vec<Instantiation>) -> (r: Vec<Instantiation>)
    requires
        forall|i: int| 0 <= i < insts.deep_view().len() ==> (#[trigger] insts.deep_view()[i]).cost.wf(),
    ensures
        sorted_by_cost_desc(r.deep_view()),
        exists|perm: Seq<int>| stable_rearrangement(insts.deep_view(), r.deep_view(), perm),
{
    let ghost src = insts.deep_view();
    let n = insts.len();
    let mut out: Vec<Instantiation> = Vec::new();
    let ghost mut perm: Seq<int> = Seq::empty();
    let mut k: usize = 0;
    proof {
        assert(out.deep_view() =~= Seq::<InstantiationV>::empty());
        assert(stable_rearrangement(src.take(0), out.deep_view(), perm)) by {
            assert(src.take(0) =~= Seq::<InstantiationV>::empty());
        }
    }
    while k < n
        invariant
            k <= n,
            n == src.len(),
            src == insts.deep_view(),
            forall|i: int| 0 <= i < src.len() ==> (#[trigger] src[i]).cost.wf(),
            out.deep_view().len() == k,
            forall|q: int| 0 <= q < out.deep_view().len() ==> (#[trigger] out.deep_view()[q]).cost.wf(),
            sorted_by_cost_desc(out.deep_view()),
            stable_rearrangement(src.take(k as int), out.deep_view(), perm),
        decreases n - k,
    {
        let x = insts[k].duplicate();
        let ghost xv = src[k as int];
        proof {
            assert(x@ == src[k as int]);
        }
        // the insertion point: after every element that costs at least as much
        let m = out.len();
        let mut p: usize = 0;
        loop
            invariant
                p <= m,
                m == out.deep_view().len(),
                m == out@.len(),
                x@ == xv,
                xv.cost.wf(),
                forall|q: int|
                    0 <= q < out.deep_view().len() ==> (#[trigger] out.deep_view()[q]).cost.wf(),
                forall|q: int| 0 <= q < p ==> cost_ge(#[trigger] out.deep_view()[q], xv),
            ensures
                p <= m,
                forall|q: int| 0 <= q < p ==> cost_ge(#[trigger] out.deep_view()[q], xv),
                p < m ==> !cost_ge(out.deep_view()[p as int], xv),
            decreases m - p,
        {
            if p >= m {
                break;
            }
            proof {
                assert(out.deep_view()[p as int] == out@[p as int]@);
            }
            if !ge_cost(&out[p], &x) {
                break;
            }
            p += 1;
        }
        let ghost pre = out.deep_view();
        let ghost pre_perm = perm;
        out.insert(p, x);
        proof {
            perm = pre_perm.insert(p as int, k as int);
        }
        proof {
            let now = out.deep_view();
            assert(now =~= pre.insert(p as int, xv));
            // sortedness is kept: everything before costs at least x,
            // everything after costs less
            assert forall|i: int, j: int| 0 <= i < j < now.len() implies cost_ge(
                #[trigger] now[i],
                #[trigger] now[j],
            ) by {
                if i < p && j == p {
                } else if i == p && j > p {
                    assert(now[j] == pre[j - 1]);
                    if p < pre.len() {
                        assert(!cost_ge(pre[p as int], xv));
                        lemma_cost_ge_total(xv, pre[p as int]);
                        if j - 1 > p {
                            lemma_cost_ge_trans(xv, pre[p as int], pre[j - 1]);
                        }
                    }
                } else if i < p && j > p {
                    assert(now[i] == pre[i]);
                    assert(now[j] == pre[j - 1]);
                } else if i > p {
                    assert(now[i] == pre[i - 1]);
                    assert(now[j] == pre[j - 1]);
                } else if j < p {
                    assert(now[i] == pre[i]);
                    assert(now[j] == pre[j]);
                }
            }
            // the rearrangement extends stably
            assert forall|i: int| 0 <= i < now.len() implies #[trigger] now[i] == src.take(
                k + 1,
            )[perm[i]] by {
                if i < p {
                    assert(now[i] == pre[i] && perm[i] == pre_perm[i]);
                } else if i == p {
                } else {
                    assert(now[i] == pre[i - 1] && perm[i] == pre_perm[i - 1]);
                }
            }
            assert forall|i: int, j: int|
                0 <= i < j < now.len() && (#[trigger] now[i]).cost.same_value(
                    (#[trigger] now[j]).cost,
                ) implies perm[i] < perm[j] by {
                if j < p {
                } else if i < p && j == p {
                    assert(perm[j] == k);
                    assert(pre_perm[i] < k);
                } else if i < p && j > p {
                } else if i == p {
                    // a later element with the same cost value would have
                    // been passed over by the scan, contradiction
                    assert(now[j] == pre[j - 1]);
                    assert(!cost_ge(pre[p as int], xv));
                    if j - 1 > p {
                        lemma_cost_ge_total(xv, pre[p as int]);
                        lemma_cost_ge_trans(xv, pre[p as int], pre[j - 1]);
                    }
                    assert(cost_ge(xv, now[j]));
                    assert(now[j].cost.num * xv.cost.den == xv.cost.num * now[j].cost.den);
                    assert(!cost_ge(pre[p as int], xv));
                    if j - 1 == p {
                        assert(false);
                    } else {
                        // pre[p] >= pre[j-1] and pre[j-1] has x's value, so
                        // pre[p] >= x: contradiction with the scan stop
                        assert(cost_ge(pre[p as int], pre[j - 1]));
                        assert(cost_ge(pre[j - 1], xv)) by (nonlinear_arith)
                            requires
                                pre[j - 1].cost.num * xv.cost.den == xv.cost.num * pre[j
                                    - 1].cost.den,
                        {
                        }
                        lemma_cost_ge_trans(pre[p as int], pre[j - 1], xv);
                        assert(false);
                    }
                } else {
                }
            }
            assert(src.take(k + 1).len() == k + 1);
            assert(stable_rearrangement(src.take(k + 1), now, perm));
        }
        k += 1;
    }
    proof {
        assert(src.take(n as int) =~= src);
    }
    out
}

/// Exact cost comparison between two instantiations.
fn ge_cost(a: &Instantiation, b: &Instantiation) -> (r: bool)
    requires
        a@.cost.wf(),
        b@.cost.wf(),
    ensures
        r == cost_ge(a@, b@),
{
    a.cost.ge(b.cost)
}

/// The `max_elements` most costly instantiations, in stable descending
/// cost order.
pub fn filter_instantiations_by_cost(insts: &Vec<Instantiation>, max_elements: usize) -> (r: Vec<
    Instantiation,
>)
    requires
        forall|i: int| 0 <= i < insts.deep_view().len() ==> (#[trigger] insts.deep_view()[i]).cost.wf(),
    ensures
        exists|full: Seq<InstantiationV>, perm: Seq<int>|
            stable_rearrangement(insts.deep_view(), full, perm) && sorted_by_cost_desc(full)
                && r.deep_view() == full.take(
                if insts.deep_view().len() < max_elements {
                    insts.deep_view().len() as int
                } else {
                    max_elements as int
                },
            ),
{
    let sorted = sort_instantiations_by_cost(insts);
    proof {
        let perm0 = choose|perm: Seq<int>|
            stable_rearrangement(insts.deep_view(), sorted.deep_view(), perm);
        assert(sorted.deep_view().len() == insts.deep_view().len());
    }
    let keep = if insts.len() < max_elements {
        insts.len()
    } else {
        max_elements
    };
    let ghost full = sorted.deep_view();
    let mut out: Vec<Instantiation> = Vec::new();
    let mut i: usize = 0;
    proof {
        assert(out.deep_view() =~= full.take(0));
    }
    while i < keep
        invariant
            i <= keep,
            keep <= sorted.deep_view().len(),
            full == sorted.deep_view(),
            out.deep_view() =~= full.take(i as int),
        decreases keep - i,
    {
        let ghost pre = out.deep_view();
        out.push(sorted[i].duplicate());
        proof {
            assert(out.deep_view() =~= pre.push(full[i as int]));
            assert(out.deep_view() =~= full.take(i + 1));
        }
        i += 1;
    }
    out
}

} // verus!
