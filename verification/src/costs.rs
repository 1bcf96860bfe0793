//! The backward cost-propagation pass.
//!
//! Every finalized instantiation starts with cost one. Processing them in
//! strictly descending line order, each instantiation divides its current
//! cost evenly over its recorded dependency lines and adds the share to
//! each dependency's running cost and to that dependency's quantifier.
//! Because dependencies always point to strictly earlier lines, one
//! backward pass suffices: an instantiation's incoming cost is complete
//! before it distributes outward.
//!
//! On a failure (a dependency's quantifier never registered, or a cost
//! component outgrowing 64 bits) the pass stops where it stands: the
//! already-propagated shares remain, the parse is abandoned as fatal.

use vstd::prelude::*;

use crate::ident::id_key;
use crate::items::{Instantiation, Quantifier};
use crate::parser::{ParseError, Z3Parser1};
use crate::rational::Rational;

verus! {

/// The cost of each finalized instantiation.
pub open spec fn inst_costs(m: Map<usize, Instantiation>) -> Map<usize, Rational> {
    Map::new(|k: usize| m.contains_key(k), |k: usize| m[k]@.cost)
}

/// The cost of each quantifier.
pub open spec fn quant_costs(m: Map<(Seq<char>, int), Quantifier>) -> Map<
    (Seq<char>, int),
    Rational,
> {
    Map::new(|k: (Seq<char>, int)| m.contains_key(k), |k: (Seq<char>, int)| m[k]@.cost)
}

/// The recorded dependency lines of each finalized instantiation.
pub open spec fn dep_map(m: Map<usize, Instantiation>) -> Map<usize, Seq<usize>> {
    Map::new(|k: usize| m.contains_key(k), |k: usize| m[k]@.dep_instantiations)
}

/// The owning quantifier key of each finalized instantiation.
pub open spec fn qid_map(m: Map<usize, Instantiation>) -> Map<usize, (Seq<char>, int)> {
    Map::new(|k: usize| m.contains_key(k), |k: usize| id_key(m[k]@.quant_id))
}

/// The exact unreduced sum of two fractions, as a fraction value; only
/// meaningful when the sum fits.
pub open spec fn rat_sum(a: Rational, b: Rational) -> Rational {
    Rational { num: a.spec_add(b).0 as u64, den: a.spec_add(b).1 as u64 }
}

/// One instantiation's shares distributed over its dependency lines, from
/// position `j`: each dependency's cost and its quantifier's cost grow by
/// `share`. A dependency whose quantifier was never registered is a
/// referential error; a cost component outgrowing 64 bits stops the pass.
pub open spec fn spec_distribute(
    deps: Seq<usize>,
    j: int,
    share: Rational,
    qids: Map<usize, (Seq<char>, int)>,
    qdom: Set<(Seq<char>, int)>,
    icost: Map<usize, Rational>,
    qcost: Map<(Seq<char>, int), Rational>,
) -> Result<(Map<usize, Rational>, Map<(Seq<char>, int), Rational>), ParseError>
    decreases deps.len() - j,
        when 0 <= j
{
    if j >= deps.len() {
        Ok((icost, qcost))
    } else {
        let dl = deps[j];
        let qk = qids[dl];
        if !qdom.contains(qk) {
            Err(ParseError::ReferentialError)
        } else {
            let c = icost[dl];
            let qc = qcost[qk];
            if !c.add_fits(share) || !qc.add_fits(share) {
                Err(ParseError::CostOverflow)
            } else {
                spec_distribute(
                    deps,
                    j + 1,
                    share,
                    qids,
                    qdom,
                    icost.insert(dl, rat_sum(c, share)),
                    qcost.insert(qk, rat_sum(qc, share)),
                )
            }
        }
    }
}

/// The whole backward pass from position `i` of the ascending key list
/// down: each instantiation splits its current cost evenly over its
/// dependency lines; one with no dependencies is a sink and keeps its
/// cost.
pub open spec fn spec_cost_pass(
    keys: Seq<usize>,
    i: int,
    deps_m: Map<usize, Seq<usize>>,
    qids: Map<usize, (Seq<char>, int)>,
    qdom: Set<(Seq<char>, int)>,
    icost: Map<usize, Rational>,
    qcost: Map<(Seq<char>, int), Rational>,
) -> Result<(Map<usize, Rational>, Map<(Seq<char>, int), Rational>), ParseError>
    decreases i + 1,
        when i < keys.len()
{
    if i < 0 {
        Ok((icost, qcost))
    } else {
        let line = keys[i];
        let ds = deps_m[line];
        if ds.len() == 0 {
            spec_cost_pass(keys, i - 1, deps_m, qids, qdom, icost, qcost)
        } else {
            let cur = icost[line];
            if !cur.div_fits(ds.len() as u64) {
                Err(ParseError::CostOverflow)
            } else {
                let share = Rational { num: cur.num, den: (cur.den * ds.len()) as u64 };
                match spec_distribute(ds, 0, share, qids, qdom, icost, qcost) {
                    Err(e) => Err(e),
                    Ok((ic, qc)) => spec_cost_pass(keys, i - 1, deps_m, qids, qdom, ic, qc),
                }
            }
        }
    }
}

impl Z3Parser1 {
    /// The instantiation table of `self` has the same entries as that of
    /// `other` in every field but the cost.
    pub open spec fn insts_same_but_cost(&self, other: Z3Parser1) -> bool {
        &&& self.instantiations.spec_keys() == other.instantiations.spec_keys()
        &&& self.instantiations@.dom() == other.instantiations@.dom()
        &&& forall|k: usize| #[trigger] other.instantiations@.contains_key(k) ==> {
            let a = self.instantiations@[k]@;
            let b = other.instantiations@[k]@;
            &&& a.line_no == b.line_no
            &&& a.match_line_no == b.match_line_no
            &&& a.fingerprint == b.fingerprint
            &&& a.resulting_term == b.resulting_term
            &&& a.z3_gen == b.z3_gen
            &&& a.quant_id == b.quant_id
            &&& a.pattern_id == b.pattern_id
            &&& a.yields_terms == b.yields_terms
            &&& a.bound_terms == b.bound_terms
            &&& a.blamed_terms == b.blamed_terms
            &&& a.equality_expls == b.equality_expls
            &&& a.dep_instantiations == b.dep_instantiations
        }
    }

    /// The quantifier store of `self` has the same entries as that of
    /// `other` in every field but the cost.
    pub open spec fn quants_same_but_cost(&self, other: Z3Parser1) -> bool {
        &&& self.quantifiers@.dom() == other.quantifiers@.dom()
        &&& forall|k: (Seq<char>, int)| #[trigger] other.quantifiers@.contains_key(k) ==> {
            let a = self.quantifiers@[k]@;
            let b = other.quantifiers@[k]@;
            &&& a.num_vars == b.num_vars
            &&& a.name == b.name
            &&& a.term == b.term
            &&& a.instances == b.instances
            &&& a.vars == b.vars
            &&& a.vars_set == b.vars_set
        }
    }

    /// Everything of the state but the instantiation table and the
    /// quantifier store is unchanged.
    pub open spec fn same_but_costs(&self, other: Z3Parser1) -> bool {
        &&& self.terms == other.terms
        &&& self.matches == other.matches
        &&& self.inst_stack == other.inst_stack
        &&& self.temp_dependencies == other.temp_dependencies
        &&& self.eq_expls == other.eq_expls
        &&& self.fingerprints == other.fingerprints
        &&& self.dependencies == other.dependencies
        &&& self.version_info == other.version_info
        &&& self.continue_parsing == other.continue_parsing
    }

    /// Distributes one share over the dependency lines `deps`, adding it to
    /// each dependency instantiation's cost and to its quantifier's cost.
    fn distribute(&mut self, deps: &Vec<usize>, share: Rational) -> (r: Result<(), ParseError>)
        requires
            old(self).wf(),
            share.wf(),
            forall|j: int|
                0 <= j < deps@.len() ==> old(self).instantiations@.contains_key(
                    #[trigger] deps@[j],
                ),
        ensures
            final(self).wf(),
            final(self).insts_same_but_cost(*old(self)),
            final(self).quants_same_but_cost(*old(self)),
            final(self).same_but_costs(*old(self)),
            ({
                let d0 = spec_distribute(
                    deps@,
                    0,
                    share,
                    qid_map(old(self).instantiations@),
                    old(self).quantifiers@.dom(),
                    inst_costs(old(self).instantiations@),
                    quant_costs(old(self).quantifiers@),
                );
                match r {
                    Ok(()) => d0 == Ok::<_, ParseError>(
                        (
                            inst_costs(final(self).instantiations@),
                            quant_costs(final(self).quantifiers@),
                        ),
                    ),
                    Err(e) => d0 == Err::<(Map<usize, Rational>, Map<(Seq<char>, int), Rational>), ParseError>(e),
                }
            }),
    {
        let ghost qids = qid_map(old(self).instantiations@);
        let ghost qdom = old(self).quantifiers@.dom();
        let ghost d0 = spec_distribute(
            deps@,
            0,
            share,
            qids,
            qdom,
            inst_costs(old(self).instantiations@),
            quant_costs(old(self).quantifiers@),
        );
        let n = deps.len();
        let mut j: usize = 0;
        while j < n
            invariant
                j <= n,
                n == deps@.len(),
                share.wf(),
                self.wf(),
                self.insts_same_but_cost(*old(self)),
                self.quants_same_but_cost(*old(self)),
                self.same_but_costs(*old(self)),
                forall|p: int|
                    0 <= p < deps@.len() ==> self.instantiations@.contains_key(#[trigger] deps@[p]),
                qids == qid_map(old(self).instantiations@),
                qdom == old(self).quantifiers@.dom(),
                d0 == spec_distribute(
                    deps@,
                    0,
                    share,
                    qids,
                    qdom,
                    inst_costs(old(self).instantiations@),
                    quant_costs(old(self).quantifiers@),
                ),
                d0 == spec_distribute(
                    deps@,
                    j as int,
                    share,
                    qids,
                    qdom,
                    inst_costs(self.instantiations@),
                    quant_costs(self.quantifiers@),
                ),
            decreases n - j,
        {
            let dl = deps[j];
            let ghost icost_pre = inst_costs(self.instantiations@);
            let ghost qcost_pre = quant_costs(self.quantifiers@);
            // the dependency's current cost and owning quantifier
            let (c, quant_id): (Rational, String) = match self.instantiations.get(dl) {
                Some(inst) => (inst.cost, inst.quant_id.clone()),
                None => {
                    proof {
                        assert(false);
                    }
                    return Err(ParseError::ReferentialError);
                },
            };
            proof {
                assert(qids[dl] == id_key(quant_id@));
            }
            let qc: Rational = match self.quantifiers.get(quant_id.as_str()) {
                Some(q) => q.cost,
                None => {
                    return Err(ParseError::ReferentialError);
                },
            };
            let newc = match c.add(share) {
                Some(v) => v,
                None => {
                    return Err(ParseError::CostOverflow);
                },
            };
            let newqc = match qc.add(share) {
                Some(v) => v,
                None => {
                    return Err(ParseError::CostOverflow);
                },
            };
            // commit the two additions
            match self.instantiations.get_mut(dl) {
                Some(inst) => {
                    inst.cost = newc;
                },
                None => {
                    proof {
                        assert(false);
                    }
                    return Err(ParseError::ReferentialError);
                },
            }
            match self.quantifiers.get_mut(quant_id.as_str()) {
                Some(q) => {
                    q.cost = newqc;
                },
                None => {
                    proof {
                        assert(false);
                    }
                    return Err(ParseError::ReferentialError);
                },
            }
            proof {
                assert(inst_costs(self.instantiations@) =~= icost_pre.insert(
                    dl,
                    rat_sum(icost_pre[dl], share),
                ));
                assert(quant_costs(self.quantifiers@) =~= qcost_pre.insert(
                    qids[dl],
                    rat_sum(qcost_pre[qids[dl]], share),
                ));
                assert forall|k: usize| #[trigger] old(self).instantiations@.contains_key(
                    k,
                ) implies {
                    let a = self.instantiations@[k]@;
                    let b = old(self).instantiations@[k]@;
                    a.line_no == b.line_no && a.match_line_no == b.match_line_no && a.fingerprint
                        == b.fingerprint && a.resulting_term == b.resulting_term && a.z3_gen
                        == b.z3_gen && a.quant_id == b.quant_id && a.pattern_id == b.pattern_id
                        && a.yields_terms == b.yields_terms && a.bound_terms == b.bound_terms
                        && a.blamed_terms == b.blamed_terms && a.equality_expls == b.equality_expls
                        && a.dep_instantiations == b.dep_instantiations
                } by {}
                assert forall|k: (Seq<char>, int)| #[trigger] old(self).quantifiers@.contains_key(
                    k,
                ) implies {
                    let a = self.quantifiers@[k]@;
                    let b = old(self).quantifiers@[k]@;
                    a.num_vars == b.num_vars && a.name == b.name && a.term == b.term && a.instances
                        == b.instances && a.vars == b.vars && a.vars_set == b.vars_set
                } by {}
                assert(self.instantiations@.dom() =~= old(self).instantiations@.dom());
                assert(self.quantifiers@.dom() =~= old(self).quantifiers@.dom());
                assert(self.insts_same_but_cost(*old(self)));
                assert(self.quants_same_but_cost(*old(self)));
            }
            j += 1;
        }
        Ok(())
    }

    /// Attributes a cost weight to every instantiation and quantifier, in
    /// one backward pass over the finalized instantiations in descending
    /// line order. On an error the pass stops where it stands; everything
    /// but the cost fields is untouched either way.
    pub fn update_costs(&mut self) -> (r: Result<(), ParseError>)
        requires
            old(self).wf(),
        ensures
            final(self).wf(),
            final(self).insts_same_but_cost(*old(self)),
            final(self).quants_same_but_cost(*old(self)),
            final(self).same_but_costs(*old(self)),
            ({
                let keys = old(self).instantiations.spec_keys();
                let p0 = spec_cost_pass(
                    keys,
                    keys.len() - 1,
                    dep_map(old(self).instantiations@),
                    qid_map(old(self).instantiations@),
                    old(self).quantifiers@.dom(),
                    inst_costs(old(self).instantiations@),
                    quant_costs(old(self).quantifiers@),
                );
                match r {
                    Ok(()) => p0 == Ok::<_, ParseError>(
                        (
                            inst_costs(final(self).instantiations@),
                            quant_costs(final(self).quantifiers@),
                        ),
                    ),
                    Err(e) => p0 == Err::<(Map<usize, Rational>, Map<(Seq<char>, int), Rational>), ParseError>(e),
                }
            }),
    {
        let ghost keys = old(self).instantiations.spec_keys();
        let ghost deps_m = dep_map(old(self).instantiations@);
        let ghost qids = qid_map(old(self).instantiations@);
        let ghost qdom = old(self).quantifiers@.dom();
        let ghost p0 = spec_cost_pass(
            keys,
            keys.len() - 1,
            deps_m,
            qids,
            qdom,
            inst_costs(old(self).instantiations@),
            quant_costs(old(self).quantifiers@),
        );
        let n = self.instantiations.len();
        let mut left: usize = n;
        while left > 0
            invariant
                left <= n,
                n == keys.len(),
                self.wf(),
                self.insts_same_but_cost(*old(self)),
                self.quants_same_but_cost(*old(self)),
                self.same_but_costs(*old(self)),
                keys == old(self).instantiations.spec_keys(),
                deps_m == dep_map(old(self).instantiations@),
                qids == qid_map(old(self).instantiations@),
                qdom == old(self).quantifiers@.dom(),
                p0 == spec_cost_pass(
                    keys,
                    keys.len() - 1,
                    deps_m,
                    qids,
                    qdom,
                    inst_costs(old(self).instantiations@),
                    quant_costs(old(self).quantifiers@),
                ),
                p0 == spec_cost_pass(
                    keys,
                    left - 1,
                    deps_m,
                    qids,
                    qdom,
                    inst_costs(self.instantiations@),
                    quant_costs(self.quantifiers@),
                ),
            decreases left,
        {
            let i = left - 1;
            let line = self.instantiations.key_at(i);
            let ghost icost_pre = inst_costs(self.instantiations@);
            let ghost qcost_pre = quant_costs(self.quantifiers@);
            let (cur, ds): (Rational, Vec<usize>) = match self.instantiations.get(line) {
                Some(inst) => (inst.cost, crate::text::clone_lines(&inst.dep_instantiations)),
                None => {
                    proof {
                        assert(false);
                    }
                    return Err(ParseError::ReferentialError);
                },
            };
            proof {
                assert(deps_m[line] == ds@);
                assert(icost_pre[line] == cur);
            }
            if ds.len() > 0 {
                let share = match cur.div_int(ds.len() as u64) {
                    Some(s) => s,
                    None => {
                        return Err(ParseError::CostOverflow);
                    },
                };
                proof {
                    assert(share == Rational { num: cur.num, den: (cur.den * ds@.len()) as u64 });
                    assert forall|p: int| 0 <= p < ds@.len() implies self.instantiations@.contains_key(
                        #[trigger] ds@[p],
                    ) by {
                        assert(self.instantiations@.contains_key(line));
                    }
                }
                proof {
                    assert(qid_map(self.instantiations@) =~= qids);
                    assert(self.quantifiers@.dom() =~= qdom);
                }
                match self.distribute(&ds, share) {
                    Ok(()) => {},
                    Err(e) => {
                        return Err(e);
                    },
                }
            } else {
                proof {
                    assert(spec_cost_pass(
                        keys,
                        left - 1,
                        deps_m,
                        qids,
                        qdom,
                        icost_pre,
                        qcost_pre,
                    ) == spec_cost_pass(keys, i - 1, deps_m, qids, qdom, icost_pre, qcost_pre));
                }
            }
            left = i;
        }
        Ok(())
    }
}

} // verus!
