//! Handlers around matches and equalities: `eq-expl` records one
//! justification step, `attach-enode` stamps a term with the open
//! instantiation that produced it.

use vstd::prelude::*;

use crate::ident::id_key;
use crate::items::{EqualityExpl, EqualityExplV};
use crate::parser::{ParseError, Z3Parser1};

verus! {

/// The position of the first token equal to `";"`, scanning from `from`.
pub fn find_semicolon(l: &Vec<String>, from: usize) -> (r: Option<usize>)
    requires
        from <= l.deep_view().len(),
    ensures
        match r {
            Some(i) => from <= i < l.deep_view().len() && l.deep_view()[i as int] == ";"@ && (
            forall|j: int| from <= j < i ==> l.deep_view()[j] != ";"@),
            None => forall|j: int| from <= j < l.deep_view().len() ==> l.deep_view()[j] != ";"@,
        },
{
    let mut semi = String::new();
    semi.append(";");
    let n = l.len();
    let mut i = from;
    while i < n
        invariant
            from <= i <= n,
            n == l.deep_view().len(),
            semi@ == ";"@,
            forall|j: int| from <= j < i ==> l.deep_view()[j] != ";"@,
        decreases n - i,
    {
        if l[i] == semi {
            return Some(i);
        }
        i += 1;
    }
    None
}

/// The congruence argument pairs of an `eq-expl … cg` record: for each pair
/// index `p`, the tokens at `3 + 2p` and `4 + 2p`, the first with its
/// leading `(` removed, the second with its trailing `)` removed.
pub open spec fn cg_pairs(ld: Seq<Seq<char>>, si: int, count: int) -> Seq<(Seq<char>, Seq<char>)> {
    Seq::new(count as nat, |p: int| (ld[3 + 2 * p].skip(1), ld[4 + 2 * p].drop_last()))
}

/// How many argument pairs a `cg` record with the separator at `si` holds:
/// one per index `3, 5, 7, …` below `si`.
pub open spec fn cg_pair_count(si: int) -> int {
    if si <= 3 {
        0
    } else {
        (si - 2) / 2
    }
}

/// Whether every congruence pair token is non-empty, so that trimming its
/// delimiter is meaningful.
pub open spec fn cg_pairs_wf(ld: Seq<Seq<char>>, si: int) -> bool {
    forall|p: int|
        0 <= p < cg_pair_count(si) ==> (#[trigger] ld[3 + 2 * p]).len() >= 1 && ld[4 + 2
            * p].len() >= 1
}

/// The justification step an `eq-expl` record denotes, or the error that
/// rejects it: `root`, `lit`, `cg`, `th`, `ax`, with any other kind kept as
/// an unrecognized fallback.
pub open spec fn spec_eq_expl_step(ld: Seq<Seq<char>>) -> Result<EqualityExplV, ParseError> {
    if ld.len() < 3 {
        Err(ParseError::MalformedRecord)
    } else {
        let id = ld[1];
        let kind = ld[2];
        if kind == "root"@ {
            Ok(EqualityExplV::Root { id })
        } else if kind == "lit"@ {
            if ld.len() < 6 {
                Err(ParseError::MalformedRecord)
            } else {
                Ok(EqualityExplV::Literal { from: id, eq: ld[3], to: ld[5] })
            }
        } else if kind == "cg"@ {
            let si = crate::text::spec_token_index(ld, ";"@, 0);
            if si == ld.len() {
                Err(ParseError::MalformedRecord)
            } else if si + 1 >= ld.len() {
                Err(ParseError::MalformedRecord)
            } else if !cg_pairs_wf(ld, si) {
                Err(ParseError::MalformedRecord)
            } else {
                Ok(
                    EqualityExplV::Congruence {
                        id,
                        arg_eqs: cg_pairs(ld, si, cg_pair_count(si)),
                        to: ld[si + 1],
                    },
                )
            }
        } else if kind == "th"@ {
            if ld.len() < 6 {
                Err(ParseError::MalformedRecord)
            } else {
                Ok(EqualityExplV::Theory { id, theory: ld[3], term: ld[5] })
            }
        } else if kind == "ax"@ {
            if ld.len() < 5 {
                Err(ParseError::MalformedRecord)
            } else {
                Ok(EqualityExplV::Axiom { id, term: ld[4] })
            }
        } else {
            if ld.len() < 5 {
                Err(ParseError::MalformedRecord)
            } else {
                Ok(EqualityExplV::Unknown { id, term: ld[4] })
            }
        }
    }
}

impl Z3Parser1 {
    /// What `eq_expl` guarantees, relating the states before and after
    /// one record.
    pub open spec fn eq_expl_post(
        pre: Z3Parser1,
        post: Z3Parser1,
        ld: Seq<Seq<char>>,
        r: Result<(), ParseError>,
    ) -> bool {
        match r {
            Ok(()) => {
                &&& spec_eq_expl_step(ld) is Ok
                &&& post.eq_expls@ == pre.eq_expls@.insert(ld[1], post.eq_expls@[ld[1]])
                &&& post.eq_expls@.contains_key(ld[1])
                &&& post.eq_expls@[ld[1]]@ == spec_eq_expl_step(ld)->Ok_0
                &&& post.same_but_eq_expls(pre)
            },
            Err(e) => {
                &&& post == pre
                &&& spec_eq_expl_step(ld) == Err::<EqualityExplV, ParseError>(e)
            },
        }
    }

    /// Parses one `eq-expl` record into a justification step and stores it
    /// under its id, overwriting any earlier step for that id.
    pub fn eq_expl(&mut self, l: &Vec<String>) -> (r: Result<(), ParseError>)
        requires
            old(self).wf(),
        ensures
            final(self).wf(),
            Self::eq_expl_post(*old(self), *final(self), l.deep_view(), r),
    {
        let ghost ld = l.deep_view();
        if l.len() < 3 {
            return Err(ParseError::MalformedRecord);
        }
        let id = l[1].clone();
        let step: EqualityExpl;
        if token_is(l, 2, "root") {
            step = EqualityExpl::Root { id };
        } else if token_is(l, 2, "lit") {
            if l.len() < 6 {
                return Err(ParseError::MalformedRecord);
            }
            step = EqualityExpl::Literal { from: id, eq: l[3].clone(), to: l[5].clone() };
        } else if token_is(l, 2, "cg") {
            let si = match find_semicolon(l, 0) {
                Some(i) => i,
                None => {
                    proof {
                        crate::text::lemma_spec_token_index_agrees(ld, ";"@, 0, ld.len() as int);
                    }
                    return Err(ParseError::MalformedRecord);
                },
            };
            proof {
                crate::text::lemma_spec_token_index_agrees(ld, ";"@, 0, si as int);
            }
            if si + 1 >= l.len() {
                return Err(ParseError::MalformedRecord);
            }
            let pairs = match collect_cg_pairs(l, si) {
                Ok(ps) => ps,
                Err(e) => {
                    return Err(e);
                },
            };
            step = EqualityExpl::Congruence { id, arg_eqs: pairs, to: l[si + 1].clone() };
        } else if token_is(l, 2, "th") {
            if l.len() < 6 {
                return Err(ParseError::MalformedRecord);
            }
            step = EqualityExpl::Theory { id, theory: l[3].clone(), term: l[5].clone() };
        } else if token_is(l, 2, "ax") {
            if l.len() < 5 {
                return Err(ParseError::MalformedRecord);
            }
            step = EqualityExpl::Axiom { id, term: l[4].clone() };
        } else {
            if l.len() < 5 {
                return Err(ParseError::MalformedRecord);
            }
            step = EqualityExpl::Unknown { id, term: l[4].clone() };
        }
        self.eq_expls.insert(l[1].clone(), step);
        Ok(())
    }

    /// Everything of the state but the justification steps is unchanged.
    pub open spec fn same_but_eq_expls(&self, other: Z3Parser1) -> bool {
        &&& self.terms == other.terms
        &&& self.quantifiers == other.quantifiers
        &&& self.matches == other.matches
        &&& self.instantiations == other.instantiations
        &&& self.inst_stack == other.inst_stack
        &&& self.temp_dependencies == other.temp_dependencies
        &&& self.fingerprints == other.fingerprints
        &&& self.dependencies == other.dependencies
        &&& self.version_info == other.version_info
        &&& self.continue_parsing == other.continue_parsing
    }

    /// What `attach_enode` guarantees, relating the states before and
    /// after one record.
    pub open spec fn attach_enode_post(
        pre: Z3Parser1,
        post: Z3Parser1,
        ld: Seq<Seq<char>>,
        r: Result<(), ParseError>,
    ) -> bool {
        match r {
            Ok(()) => {
                &&& ld.len() >= 2
                &&& if pre.inst_stack@.len() == 0 {
                    post == pre
                } else {
                    let top = pre.inst_stack@.last().0;
                    let key = id_key(ld[1]);
                    &&& pre.terms@.contains_key(key)
                    &&& post.instantiations@ == pre.instantiations@.insert(
                        top,
                        post.instantiations@[top],
                    )
                    &&& {
                        let iv = post.instantiations@[top]@;
                        let i0 = pre.instantiations@[top]@;
                        &&& iv.yields_terms == i0.yields_terms.push(ld[1])
                        &&& iv.line_no == i0.line_no
                        &&& iv.match_line_no == i0.match_line_no
                        &&& iv.fingerprint == i0.fingerprint
                        &&& iv.resulting_term == i0.resulting_term
                        &&& iv.z3_gen == i0.z3_gen
                        &&& iv.cost == i0.cost
                        &&& iv.quant_id == i0.quant_id
                        &&& iv.pattern_id == i0.pattern_id
                        &&& iv.bound_terms == i0.bound_terms
                        &&& iv.blamed_terms == i0.blamed_terms
                        &&& iv.equality_expls == i0.equality_expls
                        &&& iv.dep_instantiations == i0.dep_instantiations
                    }
                    &&& post.instantiations.spec_keys() == pre.instantiations.spec_keys()
                    &&& post.terms@ == pre.terms@.insert(key, post.terms@[key])
                    &&& {
                        let t = post.terms@[key]@;
                        let t0 = pre.terms@[key]@;
                        &&& t.resp_inst_line_no == Some(top)
                        &&& t.kind == t0.kind
                        &&& t.id == t0.id
                        &&& t.name == t0.name
                        &&& t.theory == t0.theory
                        &&& t.child_ids == t0.child_ids
                        &&& t.dep_term_ids == t0.dep_term_ids
                        &&& t.text == t0.text
                    }
                    &&& post.same_but_insts_and_terms(pre)
                }
            },
            Err(e) => {
                &&& post == pre
                &&& (e == ParseError::MalformedRecord <==> ld.len() < 2)
                &&& (e == ParseError::ReferentialError <==> (ld.len() >= 2
                    && pre.inst_stack@.len() > 0 && !pre.terms@.contains_key(id_key(ld[1]))))
            },
        }
    }

    /// Records the term produced by the innermost open instantiation: its
    /// yielded list gains the term, and the term's back-pointer is stamped
    /// with the instantiation's line. With no open instantiation the record
    /// is ignored.
    pub fn attach_enode(&mut self, l: &Vec<String>) -> (r: Result<(), ParseError>)
        requires
            old(self).wf(),
        ensures
            final(self).wf(),
            Self::attach_enode_post(*old(self), *final(self), l.deep_view(), r),
    {
        let ghost ld = l.deep_view();
        if l.len() < 2 {
            return Err(ParseError::MalformedRecord);
        }
        if self.inst_stack.len() == 0 {
            return Ok(());
        }
        if self.terms.get(l[1].as_str()).is_none() {
            return Err(ParseError::ReferentialError);
        }
        let top = self.inst_stack[self.inst_stack.len() - 1].0;
        proof {
            assert(old(self).inst_stack@.last() == old(self).inst_stack@[old(
                self,
            ).inst_stack@.len() - 1]);
        }
        match self.instantiations.get_mut(top) {
            Some(inst) => {
                inst.yields_terms.push(l[1].clone());
            },
            None => {
                proof {
                    assert(false);
                }
                return Err(ParseError::ReferentialError);
            },
        }
        proof {
            assert(self.instantiations@.contains_key(top));
            assert(self.instantiations@[top]@.dep_instantiations == old(
                self,
            ).instantiations@[top]@.dep_instantiations);
            assert(self.instantiations@[top]@.line_no == old(self).instantiations@[top]@.line_no);
            assert(self.insts_ok());
        }
        match self.terms.get_mut(l[1].as_str()) {
            Some(t) => {
                t.resp_inst_line_no = Some(top);
            },
            None => {
                proof {
                    assert(false);
                }
                return Err(ParseError::ReferentialError);
            },
        }
        proof {
            assert(self.insts_ok());
            assert(self.matches_ok());
            assert(self.terms_ok());
            assert(self.quants_ok());
            assert(self.stack_ok());
            assert(self.temp_ok());
            assert(self.deps_ok());
            let top_g = old(self).inst_stack@.last().0;
            let key_g = id_key(ld[1]);
            assert(old(self).terms@.contains_key(key_g));
            assert(self.instantiations@ == old(self).instantiations@.insert(
                top_g,
                self.instantiations@[top_g],
            ));
            assert({
                let iv = self.instantiations@[top_g]@;
                let i0 = old(self).instantiations@[top_g]@;
                iv.yields_terms == i0.yields_terms.push(ld[1])
            });
            assert(self.instantiations.spec_keys() == old(self).instantiations.spec_keys());
            assert(self.terms@ == old(self).terms@.insert(key_g, self.terms@[key_g]));
            assert(self.terms@[key_g]@.resp_inst_line_no == Some(top_g));
            assert(self.same_but_insts_and_terms(*old(self)));
            assert(Self::attach_enode_post(
                *old(self),
                *self,
                ld,
                Ok::<(), ParseError>(()),
            ));
        }
        Ok(())
    }

    /// Everything of the state but the instantiation table and the term
    /// store is unchanged.
    pub open spec fn same_but_insts_and_terms(&self, other: Z3Parser1) -> bool {
        &&& self.quantifiers == other.quantifiers
        &&& self.matches == other.matches
        &&& self.inst_stack == other.inst_stack
        &&& self.temp_dependencies == other.temp_dependencies
        &&& self.eq_expls == other.eq_expls
        &&& self.fingerprints == other.fingerprints
        &&& self.dependencies == other.dependencies
        &&& self.version_info == other.version_info
        &&& self.continue_parsing == other.continue_parsing
    }
}

/// Collects the congruence argument pairs of a `cg` record whose separator
/// stands at `si`, trimming the pair delimiters.
fn collect_cg_pairs(l: &Vec<String>, si: usize) -> (r: Result<Vec<(String, String)>, ParseError>)
    requires
        si < l.deep_view().len(),
    ensures
        ({
            let ld = l.deep_view();
            match r {
                Ok(pairs) => cg_pairs_wf(ld, si as int) && pairs@.map_values(
                    |q: (String, String)| crate::items::var_pair_view(q),
                ) == cg_pairs(ld, si as int, cg_pair_count(si as int)),
                Err(e) => e == ParseError::MalformedRecord && !cg_pairs_wf(ld, si as int),
            }
        }),
{
    let ghost ld = l.deep_view();
    let ghost count = cg_pair_count(si as int);
    let mut pairs: Vec<(String, String)> = Vec::new();
    let mut i: usize = 3;
    proof {
        assert(pairs@.map_values(|q: (String, String)| crate::items::var_pair_view(q)) =~= cg_pairs(
            ld,
            si as int,
            0,
        ));
    }
    while i < si
        invariant
            3 <= i,
            i % 2 == 1,
            si < ld.len(),
            i <= si + 2 || i == 3,
            ld == l.deep_view(),
            count == cg_pair_count(si as int),
            (i - 3) / 2 <= count,
            forall|p: int|
                0 <= p < (i - 3) / 2 ==> (#[trigger] ld[3 + 2 * p]).len() >= 1 && ld[4 + 2
                    * p].len() >= 1,
            pairs@.map_values(|q: (String, String)| crate::items::var_pair_view(q)) =~= cg_pairs(
                ld,
                si as int,
                (i - 3) / 2,
            ),
        decreases si + 2 - i,
    {
        let ghost p = (i - 3) as int / 2;
        proof {
            assert(3 + 2 * p == i);
            assert(p < cg_pair_count(si as int));
        }
        let first_tok = &l[i];
        let second_tok = &l[i + 1];
        let fn_len = first_tok.unicode_len();
        let sn_len = second_tok.unicode_len();
        if fn_len < 1 || sn_len < 1 {
            proof {
                assert(!cg_pairs_wf(ld, si as int)) by {
                    assert(0 <= p < cg_pair_count(si as int));
                    assert(ld[3 + 2 * p].len() < 1 || ld[4 + 2 * p].len() < 1);
                }
            }
            return Err(ParseError::MalformedRecord);
        }
        let first = first_tok.as_str().substring_char(1, fn_len).to_owned();
        let second = second_tok.as_str().substring_char(0, sn_len - 1).to_owned();
        let ghost old_pairs = pairs@;
        pairs.push((first, second));
        proof {
            let f = |q: (String, String)| crate::items::var_pair_view(q);
            assert(ld[3 + 2 * p].skip(1) =~= ld[i as int].subrange(1, ld[i as int].len() as int));
            assert(ld[4 + 2 * p].drop_last() =~= ld[i + 1].subrange(0, ld[i + 1].len() - 1));
            assert(pairs@.map_values(f) =~= old_pairs.map_values(f).push(
                cg_pairs(ld, si as int, count)[p],
            ));
            assert((i + 2 - 3) / 2 == p + 1);
            assert(pairs@.map_values(f) =~= cg_pairs(ld, si as int, p + 1));
        }
        i += 2;
    }
    proof {
        assert((i - 3) / 2 == cg_pair_count(si as int));
        assert(cg_pairs_wf(ld, si as int));
    }
    Ok(pairs)
}

/// True when token `i` of `l` reads exactly `w`.
pub(crate) fn token_is(l: &Vec<String>, i: usize, w: &str) -> (r: bool)
    requires
        i < l.deep_view().len(),
    ensures
        r == (l.deep_view()[i as int] == w@),
{
    let mut probe = String::new();
    probe.append(w);
    l[i] == probe
}

} // verus!
