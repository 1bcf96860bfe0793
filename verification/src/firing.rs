//! The instantiation life-cycle handlers.
//!
//! `new-match` and `inst-discovered` create a speculative instantiation
//! keyed by its fingerprint and buffer half-built dependency edges under
//! the match's line; `instance` finalizes the speculative instantiation at
//! its real line and opens it on the stack; `end-of-instance` closes it,
//! completing the buffered edges and moving them into the permanent list.

use vstd::prelude::*;

use crate::ident::id_key;
use crate::items::{
    BlamedTermItem, BlamedV, DepType, Dependency, DependencyV, EqualityExpl, EqualityExplV,
    Instantiation, Quantifier, Term,
};
use crate::parser::{ParseError, Z3Parser1};
use crate::text::{is_hex_u64_literal, parse_hex_u64, spec_hex_u64, spec_token_index};

verus! {

/// What a scan over blamed-term references accumulates: the evidence items,
/// the equality ids cited, the half-built edges, and the source lines the
/// edges point from.
#[verifier::ext_equal]
pub ghost struct BlameAcc {
    pub blamed: Seq<BlamedV>,
    pub eq_ids: Seq<Seq<char>>,
    pub edges: Seq<DependencyV>,
    pub dep_lines: Seq<usize>,
}

impl BlameAcc {
    pub open spec fn empty() -> BlameAcc {
        BlameAcc {
            blamed: Seq::empty(),
            eq_ids: Seq::empty(),
            edges: Seq::empty(),
            dep_lines: Seq::empty(),
        }
    }
}

/// One blamed term traced to its producing instantiation: when the term is
/// known and carries a producer line, a half-built edge from that line is
/// recorded; a term with no producer contributes nothing; an unknown term
/// is a referential error.
pub open spec fn blame_step(
    terms: Map<(Seq<char>, int), Term>,
    from_term: Seq<char>,
    dt: DepType,
    acc: BlameAcc,
) -> Result<BlameAcc, ParseError> {
    if !terms.contains_key(id_key(from_term)) {
        Err(ParseError::ReferentialError)
    } else {
        match terms[id_key(from_term)]@.resp_inst_line_no {
            None => Ok(acc),
            Some(ln) => Ok(
                BlameAcc {
                    edges: acc.edges.push(
                        DependencyV {
                            from: ln,
                            to: 0,
                            blamed: from_term,
                            dep_type: dt,
                            quant: Seq::empty(),
                        },
                    ),
                    dep_lines: acc.dep_lines.push(ln),
                    ..acc
                },
            ),
        }
    }
}

/// The scan over the blamed-term references of a `new-match` record, from
/// token `i`: a token opening with `(` pairs with the following token and
/// cites an equality; a bare token is direct evidence; a token closing a
/// pair is skipped.
pub open spec fn scan_blames(
    terms: Map<(Seq<char>, int), Term>,
    eqs: Map<Seq<char>, EqualityExpl>,
    ld: Seq<Seq<char>>,
    i: int,
    acc: BlameAcc,
) -> Result<BlameAcc, ParseError>
    decreases ld.len() - i,
        when 0 <= i
{
    if i >= ld.len() {
        Ok(acc)
    } else {
        let w = ld[i];
        let step: Result<BlameAcc, ParseError> = if w.len() > 0 && w[0] == '(' {
            if i + 1 >= ld.len() {
                Err(ParseError::MalformedRecord)
            } else {
                let nxt = ld[i + 1];
                if nxt.len() == 0 || nxt.last() != ')' {
                    Err(ParseError::MalformedRecord)
                } else {
                    let first = w.skip(1);
                    let second = nxt.drop_last();
                    let cited: Result<BlameAcc, ParseError> = if first != second {
                        if !eqs.contains_key(first) {
                            Err(ParseError::ReferentialError)
                        } else {
                            let acc1 = BlameAcc { eq_ids: acc.eq_ids.push(first), ..acc };
                            match eqs[first]@ {
                                EqualityExplV::Literal { eq, .. } => blame_step(
                                    terms,
                                    eq,
                                    DepType::Equality,
                                    acc1,
                                ),
                                _ => Ok(acc1),
                            }
                        }
                    } else {
                        Ok(acc)
                    };
                    match cited {
                        Err(e) => Err(e),
                        Ok(a) => Ok(
                            BlameAcc { blamed: a.blamed.push(BlamedV::Pair(first, second)), ..a },
                        ),
                    }
                }
            }
        } else if w.len() == 0 || w.last() != ')' {
            match blame_step(terms, w, DepType::Term, acc) {
                Err(e) => Err(e),
                Ok(a) => Ok(BlameAcc { blamed: a.blamed.push(BlamedV::Single(w)), ..a }),
            }
        } else {
            Ok(acc)
        };
        match step {
            Err(e) => Err(e),
            Ok(a) => scan_blames(terms, eqs, ld, i + 1, a),
        }
    }
}

/// The scan over the blamed terms of an `inst-discovered … theory-solving`
/// record, from token `i`: every token is direct evidence.
pub open spec fn scan_singles(
    terms: Map<(Seq<char>, int), Term>,
    ld: Seq<Seq<char>>,
    i: int,
    acc: BlameAcc,
) -> Result<BlameAcc, ParseError>
    decreases ld.len() - i,
        when 0 <= i
{
    if i >= ld.len() {
        Ok(acc)
    } else {
        match blame_step(terms, ld[i], DepType::Term, acc) {
            Err(e) => Err(e),
            Ok(a) => scan_singles(
                terms,
                ld,
                i + 1,
                BlameAcc { blamed: a.blamed.push(BlamedV::Single(ld[i])), ..a },
            ),
        }
    }
}

/// The sentinel edge recorded for a match that derived no blame, so that
/// the quantifier is represented in the dependency relation at least once.
pub open spec fn sentinel_edge(quant: Seq<char>) -> DependencyV {
    DependencyV {
        from: 0,
        to: 0,
        blamed: Seq::empty(),
        dep_type: DepType::Blank,
        quant,
    }
}

/// The buffered edges of a match: the derived ones, or one sentinel.
pub open spec fn edges_or_sentinel(edges: Seq<DependencyV>, quant: Seq<char>) -> Seq<DependencyV> {
    if edges.len() == 0 {
        seq![sentinel_edge(quant)]
    } else {
        edges
    }
}

impl Z3Parser1 {
    /// Everything of the state but the pending matches and the deferred
    /// edges is unchanged.
    pub open spec fn same_but_match_state(&self, other: Z3Parser1) -> bool {
        &&& self.terms == other.terms
        &&& self.instantiations == other.instantiations
        &&& self.inst_stack == other.inst_stack
        &&& self.eq_expls == other.eq_expls
        &&& self.fingerprints == other.fingerprints
        &&& self.dependencies == other.dependencies
        &&& self.version_info == other.version_info
        &&& self.continue_parsing == other.continue_parsing
    }

    /// The state after a match at `line_no` was recorded: the deferred
    /// edges buffered under the match line, and the speculative
    /// instantiation keyed by its fingerprint.
    pub open spec fn match_recorded(
        &self,
        pre: Z3Parser1,
        line_no: usize,
        fp: u64,
        acc: BlameAcc,
        quant_id: Seq<char>,
        pattern_id: Seq<char>,
        bound: Seq<Seq<char>>,
        eq_ids: Seq<Seq<char>>,
    ) -> bool {
        let ml = (line_no + 1) as usize;
        &&& self.temp_dependencies@ == pre.temp_dependencies@.insert(
            ml,
            self.temp_dependencies@[ml],
        )
        &&& self.temp_dependencies@.contains_key(ml)
        &&& self.temp_dependencies@[ml].deep_view() == edges_or_sentinel(acc.edges, quant_id)
        &&& self.temp_dependencies.spec_keys() == pre.temp_dependencies.spec_keys().push(ml)
        &&& self.matches@ == pre.matches@.insert(fp, self.matches@[fp])
        &&& self.matches@.contains_key(fp)
        &&& {
            let m = self.matches@[fp]@;
            &&& m.line_no == ml
            &&& m.match_line_no == ml
            &&& m.fingerprint == fp
            &&& m.resulting_term == "N/A"@
            &&& m.z3_gen == 0
            &&& m.cost.num == 1 && m.cost.den == 1
            &&& m.quant_id == quant_id
            &&& m.pattern_id == pattern_id
            &&& m.yields_terms.len() == 0
            &&& m.bound_terms == bound
            &&& m.blamed_terms == acc.blamed
            &&& m.equality_expls == eq_ids
            &&& m.dep_instantiations == acc.dep_lines
        }
    }

    /// What `new_match` guarantees, relating the states before and after
    /// one record.
    pub open spec fn new_match_post(
        pre: Z3Parser1,
        post: Z3Parser1,
        ld: Seq<Seq<char>>,
        line_no: usize,
        r: Result<(), ParseError>,
    ) -> bool {
        let si = spec_token_index(ld, ";"@, 0);
        match r {
            Ok(()) => {
                &&& si >= 4
                &&& si < ld.len()
                &&& is_hex_u64_literal(ld[1])
                &&& scan_blames(pre.terms@, pre.eq_expls@, ld, si + 1, BlameAcc::empty()) is Ok
                &&& {
                    let acc = scan_blames(
                        pre.terms@,
                        pre.eq_expls@,
                        ld,
                        si + 1,
                        BlameAcc::empty(),
                    )->Ok_0;
                    post.match_recorded(
                        pre,
                        line_no,
                        spec_hex_u64(ld[1]) as u64,
                        acc,
                        ld[2],
                        ld[3],
                        ld.subrange(4, si),
                        acc.eq_ids,
                    )
                }
                &&& post.same_but_match_state(pre)
                &&& post.line_fresh(line_no + 2)
            },
            Err(e) => {
                &&& post == pre
                &&& if si == ld.len() || si < 4 {
                    e == ParseError::MalformedRecord
                } else if !is_hex_u64_literal(ld[1]) {
                    e == ParseError::MalformedRecord
                } else {
                    Err::<BlameAcc, ParseError>(e) == scan_blames(
                        pre.terms@,
                        pre.eq_expls@,
                        ld,
                        si + 1,
                        BlameAcc::empty(),
                    )
                }
            },
        }
    }

    /// Creates a speculative instantiation from a `new-match` record:
    /// `[new-match] fingerprint quant pattern bound… ; blamed…`. Each blamed
    /// reference is traced to its producing instantiation; a parenthesized
    /// pair cites an equality whose literal step contributes an
    /// equality-kind edge. A match with no derivable blame buffers one
    /// sentinel edge.
    pub fn new_match(&mut self, l: &Vec<String>, line_no: usize) -> (r: Result<(), ParseError>)
        requires
            old(self).wf(),
            old(self).line_fresh(line_no + 1),
            line_no < usize::MAX,
        ensures
            final(self).wf(),
            Self::new_match_post(*old(self), *final(self), l.deep_view(), line_no, r),
            final(self).line_fresh(line_no + 2),
    {
        let ghost ld = l.deep_view();
        let si = match crate::matching::find_semicolon(l, 0) {
            Some(i) => i,
            None => {
                proof {
                    crate::text::lemma_spec_token_index_agrees(ld, ";"@, 0, ld.len() as int);
                }
                return Err(ParseError::MalformedRecord);
            },
        };
        proof {
            crate::text::lemma_spec_token_index_agrees(ld, ";"@, 0, si as int);
        }
        if si < 4 {
            return Err(ParseError::MalformedRecord);
        }
        let fp = match parse_hex_u64(l[1].as_str()) {
            Some(v) => v,
            None => {
                return Err(ParseError::MalformedRecord);
            },
        };
        // the terms the match bound
        let mut bound: Vec<String> = Vec::new();
        let mut b: usize = 4;
        proof {
            assert(bound.deep_view() =~= ld.subrange(4, 4));
        }
        while b < si
            invariant
                4 <= b <= si,
                si < ld.len(),
                ld == l.deep_view(),
                bound.deep_view() =~= ld.subrange(4, b as int),
            decreases si - b,
        {
            let ghost old_dv = bound.deep_view();
            bound.push(l[b].clone());
            proof {
                assert(bound.deep_view() =~= old_dv.push(ld[b as int]));
                assert(ld.subrange(4, b + 1) =~= ld.subrange(4, b as int).push(ld[b as int]));
                assert(bound.deep_view() =~= ld.subrange(4, b + 1));
            }
            b += 1;
        }
        // scan the blamed references
        let scanned = self.scan_blamed_tokens(l, si);
        let (blamed, eq_ids, edges, dep_lines) = match scanned {
            Ok(t) => t,
            Err(e) => {
                return Err(e);
            },
        };
        // commit
        let ml = line_no + 1;
        let ghost edges_dv = edges.deep_view();
        let ghost dep_lines_g = dep_lines@;
        let buffered = finish_edges(edges, &l[2]);
        self.temp_dependencies.insert_at_end(ml, buffered);
        proof {
            old(self).instantiations.lemma_keys_dom();
            let buf = self.temp_dependencies@[ml].deep_view();
            assert forall|j: int|
                0 <= j < self.temp_dependencies@[ml]@.len() implies {
                let d = (#[trigger] self.temp_dependencies@[ml]@[j])@;
                d.to == 0 && (d.from != 0 ==> 1 <= d.from < ml)
            } by {
                assert(buf[j] == self.temp_dependencies@[ml]@[j]@);
                assert(l@[2]@ == ld[2]);
                if edges_dv.len() == 0 {
                    assert(buf =~= seq![sentinel_edge(ld[2])]);
                    assert(buf[j] == sentinel_edge(ld[2]));
                } else {
                    assert(buf[j] == edges_dv[j]);
                    assert(old(self).instantiations@.contains_key(buf[j].from));
                    assert(old(self).instantiations.spec_keys().contains(buf[j].from));
                    let wi = choose|wi: int|
                        0 <= wi < old(self).instantiations.spec_keys().len() && old(self).instantiations.spec_keys()[wi] == buf[j].from;
                    assert(old(self).instantiations.spec_keys()[wi] < line_no + 1);
                }
            }
            assert forall|j: int| 0 <= j < dep_lines_g.len() implies self.instantiations@.contains_key(
                #[trigger] dep_lines_g[j],
            ) by {}
            assert(self.insts_ok());
            assert(self.temp_ok());
        }
        let inst = Instantiation {
            line_no: ml,
            match_line_no: ml,
            fingerprint: fp,
            resulting_term: not_applicable(),
            z3_gen: 0,
            cost: crate::rational::Rational::one(),
            quant_id: l[2].clone(),
            pattern_id: l[3].clone(),
            yields_terms: Vec::new(),
            bound_terms: bound,
            blamed_terms: blamed,
            equality_expls: eq_ids,
            dep_instantiations: dep_lines,
        };
        proof {
            assert(inst@.yields_terms =~= Seq::<Seq<char>>::empty());
        }
        self.matches.insert(fp, inst);
        proof {
            assert(self.insts_ok());
            assert(self.matches_ok());
            assert(self.temp_ok());
            assert(self.line_fresh(line_no + 2));
        }
        Ok(())
    }

    /// Scans the blamed references after the separator at `si`, collecting
    /// the evidence, the cited equalities, the half-built edges and their
    /// source lines. The state is untouched.
    fn scan_blamed_tokens(&self, l: &Vec<String>, si: usize) -> (r: Result<
        (Vec<BlamedTermItem>, Vec<String>, Vec<Dependency>, Vec<usize>),
        ParseError,
    >)
        requires
            self.wf(),
            si < l.deep_view().len(),
        ensures
            ({
                let ld = l.deep_view();
                let scan = scan_blames(self.terms@, self.eq_expls@, ld, si + 1, BlameAcc::empty());
                match r {
                    Ok((blamed, eq_ids, edges, dep_lines)) => {
                        &&& scan is Ok
                        &&& scan->Ok_0 == (BlameAcc {
                            blamed: blamed.deep_view(),
                            eq_ids: eq_ids.deep_view(),
                            edges: edges.deep_view(),
                            dep_lines: dep_lines@,
                        })
                        &&& forall|j: int|
                            0 <= j < dep_lines@.len() ==> self.instantiations@.contains_key(
                                #[trigger] dep_lines@[j],
                            )
                        &&& forall|j: int|
                            0 <= j < edges.deep_view().len() ==> (#[trigger] edges.deep_view()[j]).to
                                == 0 && edges.deep_view()[j].from >= 1
                                && self.instantiations@.contains_key(edges.deep_view()[j].from)
                    },
                    Err(e) => scan == Err::<BlameAcc, ParseError>(e),
                }
            }),
    {
        let ghost ld = l.deep_view();
        let n = l.len();
        let mut blamed: Vec<BlamedTermItem> = Vec::new();
        let mut eq_ids: Vec<String> = Vec::new();
        let mut edges: Vec<Dependency> = Vec::new();
        let mut dep_lines: Vec<usize> = Vec::new();
        let mut i: usize = si + 1;
        let ghost scan0 = scan_blames(self.terms@, self.eq_expls@, ld, si + 1, BlameAcc::empty());
        proof {
            assert(BlameAcc::empty() == (BlameAcc {
                blamed: blamed.deep_view(),
                eq_ids: eq_ids.deep_view(),
                edges: edges.deep_view(),
                dep_lines: dep_lines@,
            })) by {
                assert(blamed.deep_view() =~= Seq::<BlamedV>::empty());
                assert(eq_ids.deep_view() =~= Seq::<Seq<char>>::empty());
                assert(edges.deep_view() =~= Seq::<DependencyV>::empty());
                assert(dep_lines@ =~= Seq::<usize>::empty());
            }
        }
        while i < n
            invariant
                si + 1 <= i <= n,
                n == ld.len(),
                ld == l.deep_view(),
                self.wf(),
                scan0 == scan_blames(self.terms@, self.eq_expls@, ld, si + 1, BlameAcc::empty()),
                scan0 == scan_blames(
                    self.terms@,
                    self.eq_expls@,
                    ld,
                    i as int,
                    BlameAcc {
                        blamed: blamed.deep_view(),
                        eq_ids: eq_ids.deep_view(),
                        edges: edges.deep_view(),
                        dep_lines: dep_lines@,
                    },
                ),
                forall|j: int|
                    0 <= j < dep_lines@.len() ==> self.instantiations@.contains_key(
                        #[trigger] dep_lines@[j],
                    ),
                forall|j: int|
                    0 <= j < edges.deep_view().len() ==> (#[trigger] edges.deep_view()[j]).to == 0
                        && edges.deep_view()[j].from >= 1 && self.instantiations@.contains_key(
                        edges.deep_view()[j].from,
                    ),
            decreases n - i,
        {
            let ghost acc_pre = BlameAcc {
                blamed: blamed.deep_view(),
                eq_ids: eq_ids.deep_view(),
                edges: edges.deep_view(),
                dep_lines: dep_lines@,
            };
            let w = &l[i];
            let wn = w.unicode_len();
            proof {
                assert(w@ == ld[i as int]);
            }
            if wn > 0 && w.as_str().get_char(0) == '(' {
                if i + 1 >= n {
                    return Err(ParseError::MalformedRecord);
                }
                let nxt = &l[i + 1];
                let nn = nxt.unicode_len();
                proof {
                    assert(nxt@ == ld[i + 1]);
                    if nn > 0 {
                        assert(nxt@[nn - 1] == nxt@.last());
                    }
                }
                if nn == 0 || nxt.as_str().get_char(nn - 1) != ')' {
                    return Err(ParseError::MalformedRecord);
                }
                let first = w.as_str().substring_char(1, wn).to_owned();
                let second = nxt.as_str().substring_char(0, nn - 1).to_owned();
                proof {
                    assert(first@ =~= ld[i as int].skip(1));
                    assert(second@ =~= ld[i + 1].drop_last());
                }
                let ghost first_s = ld[i as int].skip(1);
                let ghost second_s = ld[i + 1].drop_last();
                if first != second {
                    let step = match self.eq_expls.get(&first) {
                        None => {
                            return Err(ParseError::ReferentialError);
                        },
                        Some(e) => e,
                    };
                    eq_ids.push(first.clone());
                    let is_lit: Option<String> = match step {
                        EqualityExpl::Literal { eq, .. } => Some(eq.clone()),
                        _ => None,
                    };
                    if let Some(from_term) = is_lit {
                        if !self.record_blame(&from_term, DepType::Equality, &mut edges,
                            &mut dep_lines) {
                            return Err(ParseError::ReferentialError);
                        }
                    }
                }
                blamed.push(BlamedTermItem::Pair(first, second));
                proof {
                    let tmap = self.terms@;
                    let emap = self.eq_expls@;
                    assert(blamed.deep_view() =~= acc_pre.blamed.push(
                        BlamedV::Pair(first_s, second_s),
                    ));
                    let acc_post = BlameAcc {
                        blamed: blamed.deep_view(),
                        eq_ids: eq_ids.deep_view(),
                        edges: edges.deep_view(),
                        dep_lines: dep_lines@,
                    };
                    let acc_mid = BlameAcc {
                        blamed: acc_pre.blamed,
                        eq_ids: eq_ids.deep_view(),
                        edges: edges.deep_view(),
                        dep_lines: dep_lines@,
                    };
                    if first_s != second_s {
                        let acc1 = BlameAcc { eq_ids: acc_pre.eq_ids.push(first_s), ..acc_pre };
                        assert(eq_ids.deep_view() =~= acc_pre.eq_ids.push(first_s));
                        match emap[first_s]@ {
                            EqualityExplV::Literal { eq, .. } => {
                                assert(blame_step(tmap, eq, DepType::Equality, acc1) is Ok);
                                assert(blame_step(tmap, eq, DepType::Equality, acc1)->Ok_0
                                    =~= acc_mid);
                            },
                            _ => {
                                assert(acc1 =~= acc_mid);
                            },
                        }
                    } else {
                        assert(acc_mid =~= acc_pre);
                    }
                    assert(acc_post =~= BlameAcc {
                        blamed: acc_mid.blamed.push(BlamedV::Pair(first_s, second_s)),
                        ..acc_mid
                    });
                    assert(scan_blames(tmap, emap, ld, i as int, acc_pre) == scan_blames(
                        tmap,
                        emap,
                        ld,
                        i + 1,
                        acc_post,
                    ));
                }
            } else if wn == 0 || w.as_str().get_char(wn - 1) != ')' {
                if !self.record_blame(w, DepType::Term, &mut edges, &mut dep_lines) {
                    return Err(ParseError::ReferentialError);
                }
                blamed.push(BlamedTermItem::Single(w.clone()));
                proof {
                    let tmap = self.terms@;
                    let emap = self.eq_expls@;
                    assert(blamed.deep_view() =~= acc_pre.blamed.push(
                        BlamedV::Single(ld[i as int]),
                    ));
                    let acc_post = BlameAcc {
                        blamed: blamed.deep_view(),
                        eq_ids: eq_ids.deep_view(),
                        edges: edges.deep_view(),
                        dep_lines: dep_lines@,
                    };
                    assert(blame_step(tmap, ld[i as int], DepType::Term, acc_pre) is Ok);
                    assert(acc_post =~= BlameAcc {
                        blamed: blame_step(
                            tmap,
                            ld[i as int],
                            DepType::Term,
                            acc_pre,
                        )->Ok_0.blamed.push(BlamedV::Single(ld[i as int])),
                        ..blame_step(tmap, ld[i as int], DepType::Term, acc_pre)->Ok_0
                    });
                    assert(scan_blames(tmap, emap, ld, i as int, acc_pre) == scan_blames(
                        tmap,
                        emap,
                        ld,
                        i + 1,
                        acc_post,
                    ));
                }
            } else {
                proof {
                    assert(scan_blames(self.terms@, self.eq_expls@, ld, i as int, acc_pre)
                        == scan_blames(self.terms@, self.eq_expls@, ld, i + 1, acc_pre));
                }
            }
            i += 1;
        }
        Ok((blamed, eq_ids, edges, dep_lines))
    }

    /// Traces one blamed term to its producing instantiation, pushing a
    /// half-built edge and its source line when there is one. Returns false
    /// when the term was never registered.
    fn record_blame(
        &self,
        from_term: &String,
        dt: DepType,
        edges: &mut Vec<Dependency>,
        dep_lines: &mut Vec<usize>,
    ) -> (ok: bool)
        requires
            self.wf(),
        ensures
            ({
                let acc_pre = BlameAcc {
                    blamed: Seq::empty(),
                    eq_ids: Seq::empty(),
                    edges: old(edges).deep_view(),
                    dep_lines: old(dep_lines)@,
                };
                let step = blame_step(self.terms@, from_term@, dt, acc_pre);
                if ok {
                    &&& step is Ok
                    &&& final(edges).deep_view() == step->Ok_0.edges
                    &&& final(dep_lines)@ == step->Ok_0.dep_lines
                    &&& final(edges).deep_view().len() >= old(edges).deep_view().len()
                    &&& final(dep_lines)@.len() >= old(dep_lines)@.len()
                    &&& forall|j: int|
                        0 <= j < old(edges).deep_view().len()
                            ==> (#[trigger] final(edges).deep_view()[j]) == old(edges).deep_view()[j]
                    &&& forall|j: int|
                        0 <= j < old(dep_lines)@.len() ==> (#[trigger] final(dep_lines)@[j]) == old(dep_lines)@[j]
                    &&& forall|j: int|
                        old(edges).deep_view().len() <= j < final(edges).deep_view().len() ==> (
                        #[trigger] final(edges).deep_view()[j]).to == 0 && final(edges).deep_view()[j].from >= 1 && self.instantiations@.contains_key(
                            final(edges).deep_view()[j].from,
                        )
                    &&& forall|j: int|
                        old(dep_lines)@.len() <= j < final(dep_lines)@.len()
                            ==> self.instantiations@.contains_key(#[trigger] final(dep_lines)@[j])
                } else {
                    &&& step == Err::<BlameAcc, ParseError>(ParseError::ReferentialError)
                    &&& *final(edges) == *old(edges)
                    &&& *final(dep_lines) == *old(dep_lines)
                }
            }),
    {
        match self.terms.get(from_term.as_str()) {
            None => false,
            Some(t) => {
                match t.resp_inst_line_no {
                    None => true,
                    Some(ln) => {
                        proof {
                            assert(self.instantiations@.contains_key(ln));
                            assert(self.instantiations@[ln]@.line_no == ln);
                        }
                        let d = Dependency {
                            from: ln,
                            to: 0,
                            blamed: from_term.clone(),
                            dep_type: dt,
                            quant: String::new(),
                        };
                        let ghost old_edges = edges.deep_view();
                        edges.push(d);
                        dep_lines.push(ln);
                        proof {
                            assert(edges.deep_view() =~= old_edges.push(
                                DependencyV {
                                    from: ln,
                                    to: 0,
                                    blamed: from_term@,
                                    dep_type: dt,
                                    quant: Seq::empty(),
                                },
                            ));
                            assert(d@.quant =~= Seq::<char>::empty());
                        }
                        true
                    },
                }
            },
        }
    }
}



/// Whether a discovery record reports theory solving.
pub open spec fn disc_theory(ld: Seq<Seq<char>>) -> bool {
    ld.len() >= 2 && ld[1] == "theory-solving"@
}

/// Whether a discovery record reports model-based instantiation.
pub open spec fn disc_mbqi(ld: Seq<Seq<char>>) -> bool {
    ld.len() >= 2 && ld[1] == "MBQI"@
}

/// The origin name a discovery record registers its instantiation under.
pub open spec fn disc_name(ld: Seq<Seq<char>>) -> Seq<char> {
    if disc_theory(ld) {
        ld[3]
    } else if disc_mbqi(ld) {
        "MBQI"@
    } else {
        Seq::<char>::empty()
    }
}

/// The terms a discovery record binds.
pub open spec fn disc_bound(ld: Seq<Seq<char>>) -> Seq<Seq<char>> {
    if !disc_theory(ld) && disc_mbqi(ld) {
        ld.skip(3)
    } else {
        Seq::<Seq<char>>::empty()
    }
}

/// The blame scan of a theory-solving discovery record.
pub open spec fn disc_scan(terms: Map<(Seq<char>, int), Term>, ld: Seq<Seq<char>>) -> Result<
    BlameAcc,
    ParseError,
> {
    scan_singles(terms, ld, 5, BlameAcc::empty())
}

/// What a discovery record accumulates: its scan for theory solving,
/// nothing otherwise.
pub open spec fn disc_acc(terms: Map<(Seq<char>, int), Term>, ld: Seq<Seq<char>>) -> BlameAcc {
    if disc_theory(ld) {
        disc_scan(terms, ld)->Ok_0
    } else {
        BlameAcc::empty()
    }
}

/// Whether the origin of a discovery record is already registered, under
/// the raw name as a namespace.
pub open spec fn disc_registered(pre: Z3Parser1, ld: Seq<Seq<char>>) -> bool {
    exists|o: int| pre.quantifiers@.contains_key((disc_name(ld), o))
}

impl Z3Parser1 {
    /// Everything of the state but matches, deferred edges and quantifiers
    /// is unchanged.
    pub open spec fn same_but_discovery_state(&self, other: Z3Parser1) -> bool {
        &&& self.terms == other.terms
        &&& self.instantiations == other.instantiations
        &&& self.inst_stack == other.inst_stack
        &&& self.eq_expls == other.eq_expls
        &&& self.fingerprints == other.fingerprints
        &&& self.dependencies == other.dependencies
        &&& self.version_info == other.version_info
        &&& self.continue_parsing == other.continue_parsing
    }

    /// What `inst_discovered` guarantees, relating the states before and
    /// after one record.
    pub open spec fn inst_discovered_post(
        pre: Z3Parser1,
        post: Z3Parser1,
        ld: Seq<Seq<char>>,
        line_no: usize,
        r: Result<(), ParseError>,
    ) -> bool {
        match r {
            Ok(()) => {
                &&& ld.len() >= 3
                &&& is_hex_u64_literal(ld[2])
                &&& (disc_theory(ld) ==> ld.len() >= 4 && disc_scan(pre.terms@, ld) is Ok)
                &&& if disc_registered(pre, ld) {
                    post.quantifiers == pre.quantifiers
                } else {
                    &&& post.quantifiers@ == pre.quantifiers@.insert(
                        crate::ident::id_key(disc_name(ld)),
                        post.quantifiers@[crate::ident::id_key(disc_name(ld))],
                    )
                    &&& post.quantifiers@.contains_key(crate::ident::id_key(disc_name(ld)))
                    &&& {
                        let q = post.quantifiers@[crate::ident::id_key(disc_name(ld))]@;
                        &&& q.num_vars == 0
                        &&& q.name == disc_name(ld)
                        &&& q.term.len() == 0
                        &&& q.cost.num == 0 && q.cost.den == 1
                        &&& q.instances.len() == 0
                        &&& q.vars.len() == 0
                        &&& !q.vars_set
                    }
                }
                &&& post.match_recorded(
                    pre,
                    line_no,
                    spec_hex_u64(ld[2]) as u64,
                    disc_acc(pre.terms@, ld),
                    disc_name(ld),
                    "N/A"@,
                    disc_bound(ld),
                    Seq::<Seq<char>>::empty(),
                )
                &&& post.same_but_discovery_state(pre)
                &&& post.line_fresh(line_no + 2)
            },
            Err(e) => {
                &&& post == pre
                &&& if ld.len() < 3 {
                    e == ParseError::MalformedRecord
                } else if !is_hex_u64_literal(ld[2]) {
                    e == ParseError::MalformedRecord
                } else if disc_theory(ld) && ld.len() < 4 {
                    e == ParseError::MalformedRecord
                } else {
                    disc_theory(ld) && Err::<BlameAcc, ParseError>(e) == disc_scan(
                        pre.terms@,
                        ld,
                    )
                }
            },
        }
    }

    /// Creates a speculative instantiation for a discovery record:
    /// `[inst-discovered] method fingerprint …`. A `theory-solving` record
    /// names its quantifier-like origin and blames the terms after its
    /// fifth token; an `MBQI` record binds the terms after its third. The
    /// origin is lazily registered as a quantifier at first sight.
    #[verifier::rlimit(100)]
    pub fn inst_discovered(&mut self, l: &Vec<String>, line_no: usize) -> (r: Result<
        (),
        ParseError,
    >)
        requires
            old(self).wf(),
            old(self).line_fresh(line_no + 1),
            line_no < usize::MAX,
        ensures
            final(self).wf(),
            Self::inst_discovered_post(*old(self), *final(self), l.deep_view(), line_no, r),
    {
        let ghost ld = l.deep_view();
        if l.len() < 3 {
            return Err(ParseError::MalformedRecord);
        }
        let fp = match parse_hex_u64(l[2].as_str()) {
            Some(v) => v,
            None => {
                return Err(ParseError::MalformedRecord);
            },
        };
        let theory = crate::matching::token_is(l, 1, "theory-solving");
        let mbqi = crate::matching::token_is(l, 1, "MBQI");
        let mut name = String::new();
        let mut bound: Vec<String> = Vec::new();
        let mut blamed: Vec<BlamedTermItem> = Vec::new();
        let mut edges: Vec<Dependency> = Vec::new();
        let mut dep_lines: Vec<usize> = Vec::new();
        if theory {
            if l.len() < 4 {
                return Err(ParseError::MalformedRecord);
            }
            name = l[3].clone();
            proof {
                assert(l@[3]@ == ld[3]);
                assert(name@ == ld[3]);
            }
            let scanned = self.scan_single_tokens(l);
            let (bl, ed, dl) = match scanned {
                Ok(t) => t,
                Err(e) => {
                    return Err(e);
                },
            };
            blamed = bl;
            edges = ed;
            dep_lines = dl;
        } else if mbqi {
            name.append("MBQI");
            proof {
                assert(name@ =~= "MBQI"@);
            }
            let n = l.len();
            let mut b: usize = 3;
            proof {
                assert(bound.deep_view() =~= ld.subrange(3, 3));
            }
            while b < n
                invariant
                    3 <= b <= n,
                    n == ld.len(),
                    n >= 3,
                    ld == l.deep_view(),
                    bound.deep_view() =~= ld.subrange(3, b as int),
                decreases n - b,
            {
                let ghost old_dv = bound.deep_view();
                bound.push(l[b].clone());
                proof {
                    assert(bound.deep_view() =~= old_dv.push(ld[b as int]));
                    assert(ld.subrange(3, b + 1) =~= ld.subrange(3, b as int).push(ld[b as int]));
                }
                b += 1;
            }
            proof {
                assert(ld.subrange(3, n as int) =~= ld.skip(3));
            }
        }
        proof {
            if !(ld.len() >= 2 && ld[1] == "theory-solving"@) && !(ld.len() >= 2 && ld[1]
                == "MBQI"@) {
                assert(name@ =~= Seq::<char>::empty());
            }
            if (ld.len() >= 2 && ld[1] == "theory-solving"@) || !(ld.len() >= 2 && ld[1]
                == "MBQI"@) {
                assert(bound.deep_view() =~= Seq::<Seq<char>>::empty());
            }
            if !(ld.len() >= 2 && ld[1] == "theory-solving"@) {
                assert(blamed.deep_view() =~= Seq::<BlamedV>::empty());
                assert(edges.deep_view() =~= Seq::<DependencyV>::empty());
                assert(dep_lines@ =~= Seq::<usize>::empty());
            }
        }
        // lazily register the origin as a quantifier
        if !self.quantifiers.contains_namespace(&name) {
            let q = Quantifier {
                num_vars: 0,
                name: name.clone(),
                term: String::new(),
                cost: crate::rational::Rational::zero(),
                instances: Vec::new(),
                vars: Vec::new(),
                vars_set: false,
            };
            proof {
                assert(q@.instances =~= Seq::<usize>::empty());
                assert(q@.vars =~= Seq::<(Seq<char>, Seq<char>)>::empty());
            }
            self.quantifiers.insert(name.as_str(), q);
        }
        // commit the match
        let ml = line_no + 1;
        let ghost edges_dv = edges.deep_view();
        let ghost dep_lines_g = dep_lines@;
        let buffered = finish_edges(edges, &name);
        self.temp_dependencies.insert_at_end(ml, buffered);
        proof {
            old(self).instantiations.lemma_keys_dom();
            let buf = self.temp_dependencies@[ml].deep_view();
            assert forall|j: int|
                0 <= j < self.temp_dependencies@[ml]@.len() implies {
                let d = (#[trigger] self.temp_dependencies@[ml]@[j])@;
                d.to == 0 && (d.from != 0 ==> 1 <= d.from < ml)
            } by {
                assert(buf[j] == self.temp_dependencies@[ml]@[j]@);
                assert(buf == edges_or_sentinel(edges_dv, name@));
                if edges_dv.len() == 0 {
                    assert(buf.len() == 1);
                    assert(j == 0);
                    assert(buf[0] == sentinel_edge(name@));
                } else {
                    assert(buf[j] == edges_dv[j]);
                    assert(old(self).instantiations@.contains_key(buf[j].from));
                    assert(old(self).instantiations.spec_keys().contains(buf[j].from));
                    let wi = choose|wi: int|
                        0 <= wi < old(self).instantiations.spec_keys().len() && old(self).instantiations.spec_keys()[wi] == buf[j].from;
                    assert(old(self).instantiations.spec_keys()[wi] < line_no + 1);
                }
            }
        }
        let ghost bound_dv = bound.deep_view();
        let inst = Instantiation {
            line_no: ml,
            match_line_no: ml,
            fingerprint: fp,
            resulting_term: not_applicable(),
            z3_gen: 0,
            cost: crate::rational::Rational::one(),
            quant_id: name,
            pattern_id: not_applicable(),
            yields_terms: Vec::new(),
            bound_terms: bound,
            blamed_terms: blamed,
            equality_expls: Vec::new(),
            dep_instantiations: dep_lines,
        };
        proof {
            assert(inst@.yields_terms =~= Seq::<Seq<char>>::empty());
            assert(inst@.equality_expls =~= Seq::<Seq<char>>::empty());
        }
        self.matches.insert(fp, inst);
        proof {
            assert(self.insts_ok());
            assert(self.matches_ok());
            assert(self.temp_ok());
            assert(self.line_fresh(line_no + 2));
            assert(ld.len() == l@.len());
            assert(l@[2]@ == ld[2]);
            assert(l@[3 as int]@ == ld[3] || ld.len() <= 3);
            let name_g = disc_name(ld);
            let acc_g = disc_acc(old(self).terms@, ld);
            let bound_g = disc_bound(ld);
            assert(name@ == name_g);
            assert(bound_dv == bound_g);
            assert(disc_theory(ld) ==> blamed.deep_view() == acc_g.blamed && edges_dv
                == acc_g.edges && dep_lines_g == acc_g.dep_lines);
            assert(!disc_theory(ld) ==> blamed.deep_view() == acc_g.blamed && edges_dv
                == acc_g.edges && dep_lines_g == acc_g.dep_lines);
            if disc_registered(*old(self), ld) {
                assert(self.quantifiers == old(self).quantifiers);
            } else {
                assert(self.quantifiers@.contains_key(crate::ident::id_key(name_g)));
            }
            assert(self.match_recorded(
                *old(self),
                line_no,
                spec_hex_u64(ld[2]) as u64,
                acc_g,
                name_g,
                "N/A"@,
                bound_g,
                Seq::<Seq<char>>::empty(),
            ));
            assert(self.same_but_discovery_state(*old(self)));
        }
        Ok(())
    }

    /// Scans the blamed terms of a `theory-solving` discovery record, from
    /// its sixth token on. The state is untouched.
    fn scan_single_tokens(&self, l: &Vec<String>) -> (r: Result<
        (Vec<BlamedTermItem>, Vec<Dependency>, Vec<usize>),
        ParseError,
    >)
        requires
            self.wf(),
        ensures
            ({
                let ld = l.deep_view();
                let scan = scan_singles(self.terms@, ld, 5, BlameAcc::empty());
                match r {
                    Ok((blamed, edges, dep_lines)) => {
                        &&& scan is Ok
                        &&& scan->Ok_0 == (BlameAcc {
                            blamed: blamed.deep_view(),
                            eq_ids: Seq::empty(),
                            edges: edges.deep_view(),
                            dep_lines: dep_lines@,
                        })
                        &&& forall|j: int|
                            0 <= j < dep_lines@.len() ==> self.instantiations@.contains_key(
                                #[trigger] dep_lines@[j],
                            )
                        &&& forall|j: int|
                            0 <= j < edges.deep_view().len() ==> (#[trigger] edges.deep_view()[j]).to
                                == 0 && edges.deep_view()[j].from >= 1
                                && self.instantiations@.contains_key(edges.deep_view()[j].from)
                    },
                    Err(e) => scan == Err::<BlameAcc, ParseError>(e),
                }
            }),
    {
        let ghost ld = l.deep_view();
        let n = l.len();
        let mut blamed: Vec<BlamedTermItem> = Vec::new();
        let mut edges: Vec<Dependency> = Vec::new();
        let mut dep_lines: Vec<usize> = Vec::new();
        let mut i: usize = 5;
        let ghost scan0 = scan_singles(self.terms@, ld, 5, BlameAcc::empty());
        proof {
            assert(BlameAcc::empty() =~= (BlameAcc {
                blamed: blamed.deep_view(),
                eq_ids: Seq::empty(),
                edges: edges.deep_view(),
                dep_lines: dep_lines@,
            })) by {
                assert(blamed.deep_view() =~= Seq::<BlamedV>::empty());
                assert(edges.deep_view() =~= Seq::<DependencyV>::empty());
                assert(dep_lines@ =~= Seq::<usize>::empty());
            }
        }
        if n <= 5 {
            return Ok((blamed, edges, dep_lines));
        }
        while i < n
            invariant
                5 <= i <= n,
                n == ld.len(),
                ld == l.deep_view(),
                self.wf(),
                scan0 == scan_singles(self.terms@, ld, 5, BlameAcc::empty()),
                scan0 == scan_singles(
                    self.terms@,
                    ld,
                    i as int,
                    BlameAcc {
                        blamed: blamed.deep_view(),
                        eq_ids: Seq::empty(),
                        edges: edges.deep_view(),
                        dep_lines: dep_lines@,
                    },
                ),
                forall|j: int|
                    0 <= j < dep_lines@.len() ==> self.instantiations@.contains_key(
                        #[trigger] dep_lines@[j],
                    ),
                forall|j: int|
                    0 <= j < edges.deep_view().len() ==> (#[trigger] edges.deep_view()[j]).to == 0
                        && edges.deep_view()[j].from >= 1 && self.instantiations@.contains_key(
                        edges.deep_view()[j].from,
                    ),
            decreases n - i,
        {
            let ghost acc_pre = BlameAcc {
                blamed: blamed.deep_view(),
                eq_ids: Seq::empty(),
                edges: edges.deep_view(),
                dep_lines: dep_lines@,
            };
            let w = &l[i];
            proof {
                assert(w@ == ld[i as int]);
            }
            if !self.record_blame(w, DepType::Term, &mut edges, &mut dep_lines) {
                return Err(ParseError::ReferentialError);
            }
            blamed.push(BlamedTermItem::Single(w.clone()));
            proof {
                let tmap = self.terms@;
                assert(blamed.deep_view() =~= acc_pre.blamed.push(BlamedV::Single(ld[i as int])));
                let acc_post = BlameAcc {
                    blamed: blamed.deep_view(),
                    eq_ids: Seq::empty(),
                    edges: edges.deep_view(),
                    dep_lines: dep_lines@,
                };
                assert(blame_step(tmap, ld[i as int], DepType::Term, acc_pre) is Ok);
                assert(acc_post =~= BlameAcc {
                    blamed: blame_step(
                        tmap,
                        ld[i as int],
                        DepType::Term,
                        acc_pre,
                    )->Ok_0.blamed.push(BlamedV::Single(ld[i as int])),
                    ..blame_step(tmap, ld[i as int], DepType::Term, acc_pre)->Ok_0
                });
                assert(scan_singles(tmap, ld, i as int, acc_pre) == scan_singles(
                    tmap,
                    ld,
                    i + 1,
                    acc_post,
                ));
            }
            i += 1;
        }
        Ok((blamed, edges, dep_lines))
    }
}


impl Z3Parser1 {
    /// Everything of the state but matches, the fingerprint record, the
    /// stack, quantifiers and the instantiation table is unchanged.
    pub open spec fn same_but_instance_state(&self, other: Z3Parser1) -> bool {
        &&& self.terms == other.terms
        &&& self.temp_dependencies == other.temp_dependencies
        &&& self.eq_expls == other.eq_expls
        &&& self.dependencies == other.dependencies
        &&& self.version_info == other.version_info
        &&& self.continue_parsing == other.continue_parsing
    }

    /// What `instance` guarantees, relating the states before and after
    /// one record.
    pub open spec fn instance_post(
        pre: Z3Parser1,
        post: Z3Parser1,
        ld: Seq<Seq<char>>,
        line_no: usize,
        r: Result<(), ParseError>,
    ) -> bool {
        let fp = spec_hex_u64(ld[1]) as u64;
        let ml = (line_no + 1) as usize;
        let m0 = pre.matches@[fp]@;
        let qk = crate::ident::id_key(m0.quant_id);
        let has_gen = ld.len() >= 5;
        match r {
            Ok(()) => {
                &&& ld.len() >= 3
                &&& is_hex_u64_literal(ld[1])
                &&& pre.matches@.contains_key(fp)
                &&& (has_gen ==> crate::text::is_u32_literal(ld[4]))
                &&& post.matches@ == pre.matches@.insert(
                    fp,
                    post.matches@[fp],
                )
                &&& post.matches@.contains_key(fp)
                &&& {
                    let m = post.matches@[fp]@;
                    &&& m.line_no == ml
                    &&& m.resulting_term == ld[2]
                    &&& m.z3_gen == if has_gen {
                        crate::ident::digits_val(crate::ident::literal_digits(ld[4])) as u32
                    } else {
                        m0.z3_gen
                    }
                    &&& m.match_line_no == m0.match_line_no
                    &&& m.fingerprint == m0.fingerprint
                    &&& m.cost == m0.cost
                    &&& m.quant_id == m0.quant_id
                    &&& m.pattern_id == m0.pattern_id
                    &&& m.yields_terms == m0.yields_terms
                    &&& m.bound_terms == m0.bound_terms
                    &&& m.blamed_terms == m0.blamed_terms
                    &&& m.equality_expls == m0.equality_expls
                    &&& m.dep_instantiations == m0.dep_instantiations
                }
                &&& post.fingerprints@ == pre.fingerprints@.insert(ml, fp)
                &&& post.fingerprints.spec_keys() == pre.fingerprints.spec_keys().push(ml)
                &&& post.inst_stack@ == pre.inst_stack@.push((ml, fp))
                &&& if pre.quantifiers@.contains_key(qk) {
                    &&& post.quantifiers@ == pre.quantifiers@.insert(
                        qk,
                        post.quantifiers@[qk],
                    )
                    &&& {
                        let q = post.quantifiers@[qk]@;
                        let q0 = pre.quantifiers@[qk]@;
                        &&& q.instances == q0.instances.push(ml)
                        &&& (q.cost.num as int, q.cost.den as int) == q0.cost.spec_add(
                            crate::rational::Rational { num: 1, den: 1 },
                        )
                        &&& q.num_vars == q0.num_vars
                        &&& q.name == q0.name
                        &&& q.term == q0.term
                        &&& q.vars == q0.vars
                        &&& q.vars_set == q0.vars_set
                    }
                } else {
                    post.quantifiers == pre.quantifiers
                }
                &&& post.instantiations@ == pre.instantiations@.insert(
                    ml,
                    post.instantiations@[ml],
                )
                &&& post.instantiations.spec_keys() == pre.instantiations.spec_keys().push(ml)
                &&& post.instantiations@.contains_key(ml)
                &&& post.instantiations@[ml]@ == post.matches@[fp]@
                &&& post.same_but_instance_state(pre)
                &&& post.line_fresh(line_no + 2)
            },
            Err(e) => {
                &&& post == pre
                &&& if ld.len() < 2 || !is_hex_u64_literal(ld[1]) {
                    e == ParseError::MalformedRecord
                } else if !pre.matches@.contains_key(fp) {
                    e == ParseError::ReferentialError
                } else if ld.len() < 3 || (has_gen && !crate::text::is_u32_literal(
                    ld[4],
                )) {
                    e == ParseError::MalformedRecord
                } else {
                    e == ParseError::CostOverflow && pre.quantifiers@.contains_key(
                        qk,
                    ) && !pre.quantifiers@[qk]@.cost.add_fits(
                        crate::rational::Rational { num: 1, den: 1 },
                    )
                }
            },
        }

    }

    /// Finalizes the speculative instantiation for a fingerprint: the
    /// record is `[instance] fingerprint result [pattern gen]`. The pending
    /// entry gets its real line and generation, the instantiation is opened
    /// on the stack, its quantifier's instance list and running cost grow,
    /// and a copy enters the permanent line-indexed table.
    #[verifier::rlimit(100)]
    pub fn instance(&mut self, l: &Vec<String>, line_no: usize) -> (r: Result<(), ParseError>)
        requires
            old(self).wf(),
            old(self).line_fresh(line_no + 1),
            line_no < usize::MAX,
        ensures
            final(self).wf(),
            Self::instance_post(*old(self), *final(self), l.deep_view(), line_no, r),
    {
        let ghost ld = l.deep_view();
        if l.len() < 2 {
            return Err(ParseError::MalformedRecord);
        }
        let fp = match parse_hex_u64(l[1].as_str()) {
            Some(v) => v,
            None => {
                return Err(ParseError::MalformedRecord);
            },
        };
        let quant_id: String = match self.matches.get(fp) {
            Some(m) => m.quant_id.clone(),
            None => {
                return Err(ParseError::ReferentialError);
            },
        };
        if l.len() < 3 {
            return Err(ParseError::MalformedRecord);
        }
        let gen_opt: Option<u32> = if l.len() >= 5 {
            match crate::text::parse_u32(l[4].as_str()) {
                Some(g) => Some(g),
                None => {
                    return Err(ParseError::MalformedRecord);
                },
            }
        } else {
            None
        };
        // the owning quantifier's new cost, computed before any mutation
        let new_cost: Option<crate::rational::Rational> = match self.quantifiers.get(
            quant_id.as_str(),
        ) {
            Some(q) => {
                proof {
                    assert(self.quants_ok());
                }
                match q.cost.add(crate::rational::Rational::one()) {
                    Some(c) => Some(c),
                    None => {
                        return Err(ParseError::CostOverflow);
                    },
                }
            },
            None => None,
        };
        // commit
        let ml = line_no + 1;
        let ghost m0v = self.matches@[fp]@;
        self.fingerprints.insert_at_end(ml, fp);
        match self.matches.get_mut(fp) {
            Some(m) => {
                m.resulting_term = l[2].clone();
                if let Some(g) = gen_opt {
                    m.z3_gen = g;
                }
                m.line_no = ml;
            },
            None => {
                proof {
                    assert(false);
                }
                return Err(ParseError::ReferentialError);
            },
        }
        self.inst_stack.push((ml, fp));
        if let Some(c) = new_cost {
            match self.quantifiers.get_mut(quant_id.as_str()) {
                Some(q) => {
                    q.instances.push(ml);
                    q.cost = c;
                },
                None => {
                    proof {
                        assert(false);
                    }
                    return Err(ParseError::ReferentialError);
                },
            }
        }
        let copy = match self.matches.get(fp) {
            Some(m) => m.duplicate(),
            None => {
                proof {
                    assert(false);
                }
                return Err(ParseError::ReferentialError);
            },
        };
        self.instantiations.insert_at_end(ml, copy);
        proof {
            old(self).instantiations.lemma_keys_dom();
            self.instantiations.lemma_keys_dom();
            assert(self.matches@.contains_key(fp));
            assert(self.matches@[fp]@.match_line_no == m0v.match_line_no);
            assert(m0v.match_line_no < ml);
            assert(self.matches@[fp]@.line_no == ml);
            assert(self.matches@[fp]@.cost == m0v.cost && m0v.cost.wf());
            assert(self.matches@[fp]@.dep_instantiations == m0v.dep_instantiations);
            assert(self.instantiations@[ml]@ == self.matches@[fp]@);
            assert(self.temp_dependencies@.contains_key(m0v.match_line_no));
            assert(self.insts_ok());
            assert(self.matches_ok());
            assert(self.terms_ok());
            assert(self.quants_ok());
            assert(self.stack_ok());
            assert(self.temp_ok());
            assert(self.line_fresh(line_no + 2));
        }
        Ok(())
    }

    /// The permanent form of a buffered edge once its instantiation closes
    /// at `to` under quantifier `quant`.
    pub open spec fn finalized_edge(d: DependencyV, to: usize, quant: Seq<char>) -> DependencyV {
        DependencyV { to, quant, ..d }
    }

    /// What `end_of_instance` guarantees, relating the states before and
    /// after one record.
    pub open spec fn end_of_instance_post(
        pre: Z3Parser1,
        post: Z3Parser1,
        r: Result<(), ParseError>,
    ) -> bool {
        match r {
            Ok(()) => {
                let top = pre.inst_stack@.last();
                let line = top.0;
                let inst = pre.instantiations@[line]@;
                let ml = inst.match_line_no;
                let buf = pre.temp_dependencies@[ml].deep_view();
                &&& pre.inst_stack@.len() > 0
                &&& post.inst_stack@ == pre.inst_stack@.drop_last()
                &&& post.temp_dependencies@ == pre.temp_dependencies@.insert(
                    ml,
                    post.temp_dependencies@[ml],
                )
                &&& post.temp_dependencies@.contains_key(ml)
                &&& post.temp_dependencies@[ml]@.len() == 0
                &&& post.temp_dependencies.spec_keys() == pre.temp_dependencies.spec_keys()
                &&& post.dependencies.deep_view() == pre.dependencies.deep_view()
                    + buf.map_values(|d: DependencyV| Self::finalized_edge(d, line, inst.quant_id))
                &&& post.same_but_closing_state(pre)
            },
            Err(e) => {
                &&& e == ParseError::MalformedRecord
                &&& pre.inst_stack@.len() == 0
                &&& post.inst_stack@ == pre.inst_stack@
                &&& post.temp_dependencies == pre.temp_dependencies
                &&& post.dependencies == pre.dependencies
                &&& post.same_but_closing_state(pre)
            },
        }
    }

    /// Closes the innermost open instantiation: the record is
    /// `[end-of-instance]`. Every deferred edge buffered under its match
    /// line is completed with the instantiation's line and quantifier and
    /// moved into the permanent list; the buffer is left empty.
    pub fn end_of_instance(&mut self) -> (r: Result<(), ParseError>)
        requires
            old(self).wf(),
        ensures
            final(self).wf(),
            Self::end_of_instance_post(*old(self), *final(self), r),
    {
        let top = match self.inst_stack.pop() {
            Some(p) => p,
            None => {
                return Err(ParseError::MalformedRecord);
            },
        };
        let line = top.0;
        let (ml, qid): (usize, String) = match self.instantiations.get(line) {
            Some(inst) => (inst.match_line_no, inst.quant_id.clone()),
            None => {
                proof {
                    assert(old(self).inst_stack@.last()
                        == old(self).inst_stack@[old(self).inst_stack@.len() - 1]);
                    assert(false);
                }
                return Err(ParseError::ReferentialError);
            },
        };
        proof {
            assert(old(self).inst_stack@.last() == old(self).inst_stack@[old(self).inst_stack@.len() - 1]);
        }
        // complete the buffered edges
        let buf: &Vec<Dependency> = match self.temp_dependencies.get(ml) {
            Some(v) => v,
            None => {
                proof {
                    assert(false);
                }
                return Err(ParseError::ReferentialError);
            },
        };
        let ghost bufv = buf.deep_view();
        let n = buf.len();
        let mut done: Vec<Dependency> = Vec::new();
        let mut j: usize = 0;
        proof {
            assert(done.deep_view() =~= bufv.map_values(
                |d: DependencyV| Self::finalized_edge(d, line, qid@),
            ).take(0));
        }
        while j < n
            invariant
                j <= n,
                n == bufv.len(),
                self.wf(),
                self.temp_dependencies@.contains_key(ml),
                self.temp_dependencies@[ml].deep_view() == bufv,
                done.deep_view() =~= bufv.map_values(
                    |d: DependencyV| Self::finalized_edge(d, line, qid@),
                ).take(j as int),
            decreases n - j,
        {
            let src = match self.temp_dependencies.get(ml) {
                Some(v) => v,
                None => {
                    proof {
                        assert(false);
                    }
                    return Err(ParseError::ReferentialError);
                },
            };
            let d = Dependency {
                from: src[j].from,
                to: line,
                blamed: src[j].blamed.clone(),
                dep_type: src[j].dep_type,
                quant: qid.clone(),
            };
            let ghost old_done = done.deep_view();
            done.push(d);
            proof {
                let f = |d2: DependencyV| Self::finalized_edge(d2, line, qid@);
                assert(done.deep_view() =~= old_done.push(f(bufv[j as int])));
                assert(done.deep_view() =~= bufv.map_values(f).take(j + 1));
            }
            j += 1;
        }
        proof {
            let f = |d2: DependencyV| Self::finalized_edge(d2, line, qid@);
            assert(bufv.map_values(f).take(n as int) =~= bufv.map_values(f));
        }
        // move them into the permanent list, leaving the buffer empty
        self.temp_dependencies.set_existing(ml, Vec::new());
        let ghost old_deps = self.dependencies.deep_view();
        self.dependencies.append(&mut done);
        proof {
            let f = |d2: DependencyV| Self::finalized_edge(d2, line, qid@);
            assert(self.dependencies.deep_view() =~= old_deps + bufv.map_values(f));
            assert(self.temp_dependencies@[ml]@ =~= Seq::<Dependency>::empty());
            let top_g = old(self).inst_stack@.last();
            let inst_g = old(self).instantiations@[top_g.0]@;
            let fe = |d2: DependencyV| Self::finalized_edge(d2, top_g.0, inst_g.quant_id);
            assert(qid@ == inst_g.quant_id);
            assert forall|i: int| 0 <= i < bufv.len() implies #[trigger] bufv.map_values(fe)[i]
                == bufv.map_values(f)[i] by {
                assert(bufv.map_values(fe)[i] == fe(bufv[i]));
                assert(bufv.map_values(f)[i] == f(bufv[i]));
            }
            assert(bufv.map_values(fe) =~= bufv.map_values(f));
            assert(self.dependencies.deep_view() == old(self).dependencies.deep_view()
                + bufv.map_values(fe));
            assert forall|i: int| 0 <= i < self.dependencies@.len() implies {
                let d = (#[trigger] self.dependencies@[i])@;
                d.to >= 1 && (d.from != 0 ==> d.from < d.to)
            } by {
                assert(self.dependencies.deep_view()[i] == self.dependencies@[i]@);
                if i >= old_deps.len() {
                    let k = i - old_deps.len();
                    assert(self.dependencies.deep_view()[i] == f(bufv[k]));
                    assert(bufv[k] == old(self).temp_dependencies@[ml]@[k]@);
                }
            }
            assert(self.deps_ok());
            assert(self.insts_ok());
            assert(self.matches_ok());
            assert(self.stack_ok());
            assert(self.temp_ok());
            let ml_g = inst_g.match_line_no;
            let buf_g = old(self).temp_dependencies@[ml_g].deep_view();
            assert(old(self).inst_stack@.len() > 0);
            assert(self.inst_stack@ == old(self).inst_stack@.drop_last());
            assert(ml_g == ml);
            assert(buf_g == bufv);
            assert(self.temp_dependencies@ == old(self).temp_dependencies@.insert(
                ml_g,
                self.temp_dependencies@[ml_g],
            ));
            assert(self.temp_dependencies@[ml_g]@.len() == 0);
            assert(self.temp_dependencies.spec_keys() == old(self).temp_dependencies.spec_keys());
            assert(self.dependencies.deep_view() == old(self).dependencies.deep_view()
                + buf_g.map_values(|d: DependencyV| Self::finalized_edge(d, top_g.0, inst_g.quant_id)));
            assert(self.same_but_closing_state(*old(self)));
        }
        Ok(())
    }

    /// Everything of the state but the stack, the deferred edges and the
    /// permanent edge list is unchanged.
    pub open spec fn same_but_closing_state(&self, other: Z3Parser1) -> bool {
        &&& self.terms == other.terms
        &&& self.quantifiers == other.quantifiers
        &&& self.matches == other.matches
        &&& self.instantiations == other.instantiations
        &&& self.eq_expls == other.eq_expls
        &&& self.fingerprints == other.fingerprints
        &&& self.version_info == other.version_info
        &&& self.continue_parsing == other.continue_parsing
    }
}

/// The buffered edge list of a match: the derived edges, or one sentinel
/// edge carrying the quantifier when nothing was derived.
fn finish_edges(edges: Vec<Dependency>, quant_id: &String) -> (r: Vec<Dependency>)
    ensures
        r.deep_view() == edges_or_sentinel(edges.deep_view(), quant_id@),
{
    if edges.len() == 0 {
        let mut r: Vec<Dependency> = Vec::new();
        let d = Dependency {
            from: 0,
            to: 0,
            blamed: String::new(),
            dep_type: DepType::Blank,
            quant: quant_id.clone(),
        };
        r.push(d);
        proof {
            assert(edges.deep_view() =~= Seq::<DependencyV>::empty());
            assert(r.deep_view() =~= seq![sentinel_edge(quant_id@)]);
        }
        r
    } else {
        proof {
            assert(edges.deep_view().len() > 0);
        }
        edges
    }
}

/// The string `N/A`, standing for a value not yet assigned.
fn not_applicable() -> (r: String)
    ensures
        r@ == "N/A"@,
{
    let mut r = String::new();
    r.append("N/A");
    r
}

} // verus!
