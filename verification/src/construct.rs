//! Handlers that construct terms and quantifiers: `mk-quant`/`mk-lambda`,
//! `mk-proof`/`mk-app`, and the annotation handler `attach-meaning`.
//!
//! Constructing an interior node appends the new node's id to every
//! operand's back-reference list and renders a one-line text for the node
//! from its operands' names.

use vstd::prelude::*;

use crate::ident::{id_key, id_ordinal, parse_id};
use crate::items::{Quantifier, Term, TermV};
use crate::parser::{ParseError, Z3Parser1};
use crate::text::{dec_digits, to_decimal};

verus! {

/// How many of the identifiers in `children` resolve to the store key `k`.
pub open spec fn backref_count(children: Seq<Seq<char>>, k: (Seq<char>, int)) -> nat
    decreases children.len(),
{
    if children.len() == 0 {
        0
    } else {
        backref_count(children.drop_last(), k) + if id_key(children.last()) == k {
            1nat
        } else {
            0nat
        }
    }
}

/// The identifier `x`, `n` times.
pub open spec fn repeated(x: Seq<char>, n: nat) -> Seq<Seq<char>> {
    Seq::new(n, |i: int| x)
}

/// The term at `k` after the back-reference pass: every field unchanged but
/// the back-reference list, which has gained `parent` once per occurrence
/// of `k` among the operands.
pub open spec fn backrefs_applied(
    t: TermV,
    t0: TermV,
    children: Seq<Seq<char>>,
    parent: Seq<char>,
    k: (Seq<char>, int),
) -> bool {
    &&& t.kind == t0.kind
    &&& t.id == t0.id
    &&& t.name == t0.name
    &&& t.theory == t0.theory
    &&& t.child_ids == t0.child_ids
    &&& t.resp_inst_line_no == t0.resp_inst_line_no
    &&& t.text == t0.text
    &&& t.dep_term_ids == t0.dep_term_ids + repeated(parent, backref_count(children, k))
}

/// The texts joined with a comma and a space between them.
pub open spec fn join_comma(texts: Seq<Seq<char>>) -> Seq<char>
    decreases texts.len(),
{
    if texts.len() == 0 {
        Seq::empty()
    } else if texts.len() == 1 {
        texts[0]
    } else {
        texts[0] + ", "@ + join_comma(texts.skip(1))
    }
}

pub proof fn lemma_join_push(texts: Seq<Seq<char>>, x: Seq<char>)
    requires
        texts.len() >= 1,
    ensures
        join_comma(texts.push(x)) == join_comma(texts) + ", "@ + x,
    decreases texts.len(),
{
    if texts.len() == 1 {
        assert(texts.push(x).skip(1) =~= seq![x]);
        assert(join_comma(texts.push(x)) == texts.push(x)[0] + ", "@ + join_comma(seq![x]));
        assert(join_comma(texts) == texts[0]);
    } else {
        lemma_join_push(texts.skip(1), x);
        assert(texts.push(x).skip(1) =~= texts.skip(1).push(x));
        assert(join_comma(texts.push(x)) =~= join_comma(texts) + ", "@ + x);
    }
}

/// The short rendering of an operand inside a quantifier body:
/// `name[ordinal]`.
pub open spec fn quant_child_text(t: TermV) -> Seq<char> {
    t.name + "["@ + dec_digits(t.id as nat) + "]"@
}

/// The short rendering of an operand inside an application: `name[ordinal]`
/// with `(...)` appended when the operand has operands of its own.
pub open spec fn app_child_text(t: TermV) -> Seq<char> {
    t.name + "["@ + dec_digits(t.id as nat) + "]"@ + if t.child_ids.len() > 0 {
        "(...)"@
    } else {
        Seq::<char>::empty()
    }
}

/// The one-line text of a fresh quantifier node over its operands.
pub open spec fn quant_text(
    terms: Map<(Seq<char>, int), Term>,
    id: Seq<char>,
    children: Seq<Seq<char>>,
) -> Seq<char> {
    "FORALL["@ + id + "]("@ + join_comma(
        Seq::new(children.len(), |j: int| quant_child_text(terms[id_key(children[j])]@)),
    ) + ")"@
}

/// The one-line text of a fresh application node over its operands.
pub open spec fn app_text(
    terms: Map<(Seq<char>, int), Term>,
    name: Seq<char>,
    id: Seq<char>,
    children: Seq<Seq<char>>,
) -> Seq<char> {
    name + "["@ + id + "]"@ + if children.len() > 0 {
        "("@ + join_comma(
            Seq::new(children.len(), |j: int| app_child_text(terms[id_key(children[j])]@)),
        ) + ")"@
    } else {
        Seq::<char>::empty()
    }
}

/// The placeholder variable slots of a quantifier with `n` variables:
/// `qvar_0 .. qvar_{n-1}`, each with an empty sort.
pub open spec fn placeholder_vars(n: nat) -> Seq<(Seq<char>, Seq<char>)> {
    Seq::new(n, |i: int| ("qvar_"@ + dec_digits(i as nat), Seq::<char>::empty()))
}

impl Z3Parser1 {
    /// The term store after a construction pass for a node `parent` over
    /// `children`: the node is bound to a term satisfying `node`, and every
    /// operand has gained a back-reference.
    pub open spec fn terms_after_build(
        &self,
        pre: Z3Parser1,
        children: Seq<Seq<char>>,
        parent: Seq<char>,
    ) -> bool {
        &&& self.terms@.dom() == pre.terms@.dom().insert(id_key(parent))
        &&& forall|k: (Seq<char>, int)|
            #[trigger] pre.terms@.contains_key(k) && k != id_key(parent) ==> backrefs_applied(
                self.terms@[k]@,
                pre.terms@[k]@,
                children,
                parent,
                k,
            )
    }

    /// Builds a quantifier node from its operands and registers the paired
    /// quantifier with placeholder variable slots: the record is
    /// `[mk-quant] id name num_vars child…`.
    /// Collects the short renderings of the operands `l[4..]`, failing when
    /// one of them was never registered.
    fn collect_quant_texts(&self, l: &Vec<String>) -> (r: Result<Vec<String>, ParseError>)
        requires
            self.wf(),
            l.deep_view().len() >= 5,
        ensures
            ({
                let children = l.deep_view().skip(4);
                match r {
                    Ok(texts) => {
                        &&& forall|j: int|
                            0 <= j < children.len() ==> self.terms@.contains_key(
                                id_key(#[trigger] children[j]),
                            )
                        &&& texts.deep_view() == Seq::new(
                            children.len(),
                            |p: int| quant_child_text(self.terms@[id_key(children[p])]@),
                        )
                    },
                    Err(e) => {
                        &&& e == ParseError::ReferentialError
                        &&& exists|j: int|
                            0 <= j < children.len() && !self.terms@.contains_key(
                                id_key(#[trigger] children[j]),
                            )
                    },
                }
            }),
    {
        let ghost ld = l.deep_view();
        let ghost children_g = ld.skip(4);
        let mut child_texts: Vec<String> = Vec::new();
        let n = l.len() - 4;
        let mut j: usize = 0;
        while j < n
            invariant
                j <= n,
                n == children_g.len(),
                n + 4 == l.deep_view().len(),
                n <= usize::MAX - 4,
                ld == l.deep_view(),
                children_g == ld.skip(4),
                self.wf(),
                forall|p: int|
                    0 <= p < j ==> self.terms@.contains_key(id_key(#[trigger] children_g[p])),
                child_texts.deep_view() =~= Seq::new(
                    j as nat,
                    |p: int| quant_child_text(self.terms@[id_key(children_g[p])]@),
                ),
            decreases n - j,
        {
            proof {
                assert(children_g[j as int] == ld[j + 4]);
            }
            match self.terms.get(l[4 + j].as_str()) {
                None => {
                    return Err(ParseError::ReferentialError);
                },
                Some(t) => {
                    let mut text = t.name.clone();
                    text.append("[");
                    text.append(to_decimal(t.id).as_str());
                    text.append("]");
                    let ghost old_texts = child_texts.deep_view();
                    child_texts.push(text);
                    proof {
                        assert(text@ =~= quant_child_text(
                            self.terms@[id_key(children_g[j as int])]@,
                        ));
                        assert(child_texts.deep_view() =~= old_texts.push(
                            quant_child_text(self.terms@[id_key(children_g[j as int])]@),
                        ));
                        assert(child_texts.deep_view() =~= Seq::new(
                            (j + 1) as nat,
                            |p: int| quant_child_text(self.terms@[id_key(children_g[p])]@),
                        ));
                    }
                },
            }
            j += 1;
        }
        proof {
            assert(child_texts.deep_view() =~= Seq::new(
                children_g.len(),
                |p: int| quant_child_text(self.terms@[id_key(children_g[p])]@),
            ));
        }
        Ok(child_texts)
    }

    /// What `mk_quant` guarantees, relating the states before and after
    /// one record.
    pub open spec fn mk_quant_post(
        pre: Z3Parser1,
        post: Z3Parser1,
        ld: Seq<Seq<char>>,
        r: Result<(), ParseError>,
    ) -> bool {
        let children = ld.skip(4);
        match r {
            Ok(()) => {
                &&& ld.len() >= 5
                &&& crate::ident::is_usize_literal(ld[3])
                &&& forall|j: int|
                    0 <= j < children.len() ==> pre.terms@.contains_key(
                        id_key(#[trigger] children[j]),
                    )
                &&& post.terms_after_build(pre, children, ld[1])
                &&& post.terms@.contains_key(id_key(ld[1]))
                &&& {
                    let t = post.terms@[id_key(ld[1])]@;
                    &&& t.kind == "FORALL"@
                    &&& t.id == id_ordinal(ld[1])
                    &&& t.name == ld[2]
                    &&& t.theory.len() == 0
                    &&& t.child_ids == children
                    &&& t.dep_term_ids.len() == 0
                    &&& t.resp_inst_line_no is None
                    &&& t.text == quant_text(pre.terms@, ld[1], children)
                }
                &&& post.quantifiers@ == pre.quantifiers@.insert(
                    id_key(ld[1]),
                    post.quantifiers@[id_key(ld[1])],
                )
                &&& post.quantifiers@.contains_key(id_key(ld[1]))
                &&& {
                    let q = post.quantifiers@[id_key(ld[1])]@;
                    &&& q.num_vars == crate::ident::digits_val(
                        crate::ident::literal_digits(ld[3]),
                    )
                    &&& q.name == ld[2]
                    &&& q.term == ld[1]
                    &&& q.cost.num == 0 && q.cost.den == 1
                    &&& q.instances.len() == 0
                    &&& q.vars == placeholder_vars(q.num_vars as nat)
                    &&& !q.vars_set
                }
                &&& post.same_but_terms_and_quants(pre)
            },
            Err(e) => {
                &&& post == pre
                &&& (e == ParseError::MalformedRecord <==> (ld.len() < 5
                    || !crate::ident::is_usize_literal(ld[3])))
                &&& (e == ParseError::ReferentialError <==> (ld.len() >= 5
                    && crate::ident::is_usize_literal(ld[3]) && exists|j: int|
                    0 <= j < children.len() && !pre.terms@.contains_key(
                        id_key(#[trigger] children[j]),
                    )))
            },
        }
    }

    /// Builds a quantifier node from its operands and registers the paired
    /// quantifier with placeholder variable slots: the record is
    /// `[mk-quant] id name num_vars child…`.
    pub fn mk_quant(&mut self, l: &Vec<String>) -> (r: Result<(), ParseError>)
        requires
            old(self).wf(),
        ensures
            final(self).wf(),
            Self::mk_quant_post(*old(self), *final(self), l.deep_view(), r),
    {
        let ghost ld = l.deep_view();
        let ghost children_g = ld.skip(4);
        if l.len() < 5 {
            return Err(ParseError::MalformedRecord);
        }
        let num_vars = match crate::text::parse_usize(l[3].as_str()) {
            Some(n) => n,
            None => {
                return Err(ParseError::MalformedRecord);
            },
        };
        let child_texts = match self.collect_quant_texts(l) {
            Ok(ts) => ts,
            Err(e) => {
                return Err(e);
            },
        };
        // render the node text
        let mut text = String::new();
        text.append("FORALL[");
        text.append(l[1].as_str());
        text.append("](");
        let joined = join_strings(&child_texts);
        text.append(joined.as_str());
        text.append(")");
        proof {
            assert(text@ =~= quant_text(old(self).terms@, ld[1], children_g));
        }
        proof {
            assert forall|j2: int| 4 <= j2 < ld.len() implies self.terms@.contains_key(
                id_key(#[trigger] ld[j2]),
            ) by {
                assert(ld[j2] == children_g[j2 - 4]);
            }
        }
        // append the node id to every operand's back-references
        let children = match self.apply_backrefs(l, 4) {
            Ok(cs) => cs,
            Err(e) => {
                proof {
                    assert(false);
                }
                return Err(e);
            },
        };
        // the node itself
        let full_id = parse_id(l[1].as_str());
        let term = make_term(full_id, l[2].clone(), children, text);
        self.terms.insert(l[1].as_str(), term);
        let qvars = make_placeholder_vars(num_vars);
        let q = Quantifier {
            num_vars,
            name: l[2].clone(),
            term: l[1].clone(),
            cost: crate::rational::Rational::zero(),
            instances: Vec::new(),
            vars: qvars,
            vars_set: false,
        };
        proof {
            assert(q@.instances =~= Seq::<usize>::empty());
        }
        self.quantifiers.insert(l[1].as_str(), q);
        Ok(())
    }

    /// Collects the short renderings of the operands `l[3..]`, failing when
    /// one of them was never registered.
    fn collect_app_texts(&self, l: &Vec<String>) -> (r: Result<Vec<String>, ParseError>)
        requires
            self.wf(),
            l.deep_view().len() >= 3,
        ensures
            ({
                let children = l.deep_view().skip(3);
                match r {
                    Ok(texts) => {
                        &&& forall|j: int|
                            0 <= j < children.len() ==> self.terms@.contains_key(
                                id_key(#[trigger] children[j]),
                            )
                        &&& texts.deep_view() == Seq::new(
                            children.len(),
                            |p: int| app_child_text(self.terms@[id_key(children[p])]@),
                        )
                    },
                    Err(e) => {
                        &&& e == ParseError::ReferentialError
                        &&& exists|j: int|
                            0 <= j < children.len() && !self.terms@.contains_key(
                                id_key(#[trigger] children[j]),
                            )
                    },
                }
            }),
    {
        let ghost ld = l.deep_view();
        let ghost children_g = ld.skip(3);
        let mut child_texts: Vec<String> = Vec::new();
        let n = l.len() - 3;
        let mut j: usize = 0;
        while j < n
            invariant
                j <= n,
                n == children_g.len(),
                n + 3 == l.deep_view().len(),
                n <= usize::MAX - 3,
                ld == l.deep_view(),
                children_g == ld.skip(3),
                self.wf(),
                forall|p: int|
                    0 <= p < j ==> self.terms@.contains_key(id_key(#[trigger] children_g[p])),
                child_texts.deep_view() =~= Seq::new(
                    j as nat,
                    |p: int| app_child_text(self.terms@[id_key(children_g[p])]@),
                ),
            decreases n - j,
        {
            proof {
                assert(children_g[j as int] == ld[j + 3]);
            }
            match self.terms.get(l[3 + j].as_str()) {
                None => {
                    return Err(ParseError::ReferentialError);
                },
                Some(t) => {
                    let mut text = t.name.clone();
                    text.append("[");
                    text.append(to_decimal(t.id).as_str());
                    text.append("]");
                    if t.child_ids.len() > 0 {
                        text.append("(...)");
                    }
                    let ghost old_texts = child_texts.deep_view();
                    child_texts.push(text);
                    proof {
                        assert(text@ =~= app_child_text(
                            self.terms@[id_key(children_g[j as int])]@,
                        ));
                        assert(child_texts.deep_view() =~= old_texts.push(
                            app_child_text(self.terms@[id_key(children_g[j as int])]@),
                        ));
                        assert(child_texts.deep_view() =~= Seq::new(
                            (j + 1) as nat,
                            |p: int| app_child_text(self.terms@[id_key(children_g[p])]@),
                        ));
                    }
                },
            }
            j += 1;
        }
        proof {
            assert(child_texts.deep_view() =~= Seq::new(
                children_g.len(),
                |p: int| app_child_text(self.terms@[id_key(children_g[p])]@),
            ));
        }
        Ok(child_texts)
    }

    /// What `mk_proof_app` guarantees, relating the states before and
    /// after one record.
    pub open spec fn mk_proof_app_post(
        pre: Z3Parser1,
        post: Z3Parser1,
        ld: Seq<Seq<char>>,
        r: Result<(), ParseError>,
    ) -> bool {
        let children = ld.skip(3);
        match r {
            Ok(()) => {
                &&& ld.len() >= 3
                &&& forall|j: int|
                    0 <= j < children.len() ==> pre.terms@.contains_key(
                        id_key(#[trigger] children[j]),
                    )
                &&& post.terms_after_build(pre, children, ld[1])
                &&& post.terms@.contains_key(id_key(ld[1]))
                &&& {
                    let t = post.terms@[id_key(ld[1])]@;
                    &&& t.kind == ld[2]
                    &&& t.id == id_ordinal(ld[1])
                    &&& t.name == ld[2]
                    &&& t.theory.len() == 0
                    &&& t.child_ids == children
                    &&& t.dep_term_ids.len() == 0
                    &&& t.resp_inst_line_no is None
                    &&& t.text == app_text(pre.terms@, ld[2], ld[1], children)
                }
                &&& post.same_but_terms(pre)
            },
            Err(e) => {
                &&& post == pre
                &&& (e == ParseError::MalformedRecord <==> ld.len() < 3)
                &&& (e == ParseError::ReferentialError <==> (ld.len() >= 3 && exists|j: int|
                    0 <= j < children.len() && !pre.terms@.contains_key(
                        id_key(#[trigger] children[j]),
                    )))
            },
        }
    }

    /// Builds an interior application or proof node from its operands: the
    /// record is `[mk-app] id name child…` (or `[mk-proof]`), possibly with
    /// no operands.
    #[verifier::rlimit(50)]
    pub fn mk_proof_app(&mut self, l: &Vec<String>) -> (r: Result<(), ParseError>)
        requires
            old(self).wf(),
        ensures
            final(self).wf(),
            Self::mk_proof_app_post(*old(self), *final(self), l.deep_view(), r),
    {
        let ghost ld = l.deep_view();
        let ghost children_g = ld.skip(3);
        if l.len() < 3 {
            return Err(ParseError::MalformedRecord);
        }
        let child_texts = match self.collect_app_texts(l) {
            Ok(ts) => ts,
            Err(e) => {
                return Err(e);
            },
        };
        // render the node text
        let mut text = l[2].clone();
        text.append("[");
        text.append(l[1].as_str());
        text.append("]");
        if child_texts.len() > 0 {
            text.append("(");
            let joined = join_strings(&child_texts);
            text.append(joined.as_str());
            text.append(")");
        }
        proof {
            assert(text@ =~= app_text(old(self).terms@, ld[2], ld[1], children_g));
            assert forall|j2: int| 3 <= j2 < ld.len() implies self.terms@.contains_key(
                id_key(#[trigger] ld[j2]),
            ) by {
                assert(ld[j2] == children_g[j2 - 3]);
            }
        }
        // append the node id to every operand's back-references
        let children = match self.apply_backrefs(l, 3) {
            Ok(cs) => cs,
            Err(e) => {
                proof {
                    assert(false);
                }
                return Err(e);
            },
        };
        let (_, num) = parse_id(l[1].as_str());
        let term = make_term_with_kind(l[2].clone(), num, l[2].clone(), children, text);
        self.terms.insert(l[1].as_str(), term);
        Ok(())
    }

    /// What `attach_meaning` guarantees, relating the states before and
    /// after one record.
    pub open spec fn attach_meaning_post(
        pre: Z3Parser1,
        post: Z3Parser1,
        ld: Seq<Seq<char>>,
        r: Result<(), ParseError>,
    ) -> bool {
        match r {
            Ok(()) => {
                let key = id_key(ld[1]);
                let negated = ld[3] == "(-"@;
                &&& ld.len() >= 4
                &&& (negated ==> ld.len() >= 5)
                &&& pre.terms@.contains_key(key)
                &&& post.terms@ == pre.terms@.insert(key, post.terms@[key])
                &&& {
                    let t = post.terms@[key]@;
                    let t0 = pre.terms@[key]@;
                    &&& t.theory == ld[2]
                    &&& t.name == if negated {
                        ld[3] + ld[4]
                    } else {
                        ld[3]
                    }
                    &&& t.kind == t0.kind
                    &&& t.id == t0.id
                    &&& t.child_ids == t0.child_ids
                    &&& t.dep_term_ids == t0.dep_term_ids
                    &&& t.resp_inst_line_no == t0.resp_inst_line_no
                    &&& t.text == t0.text
                }
                &&& post.same_but_terms(pre)
            },
            Err(e) => {
                &&& post == pre
                &&& (e == ParseError::MalformedRecord <==> (ld.len() < 2 || (ld.len() >= 2
                    && pre.terms@.contains_key(id_key(ld[1])) && (ld.len() < 4 || (ld[3]
                    == "(-"@ && ld.len() < 5)))))
                &&& (e == ParseError::ReferentialError <==> (ld.len() >= 2
                    && !pre.terms@.contains_key(id_key(ld[1]))))
            },
        }
    }

    /// Annotates an existing term with its theory and display name: the
    /// record is `[attach-meaning] id theory name…`, where a name starting
    /// a negated numeral spans two tokens.
    pub fn attach_meaning(&mut self, l: &Vec<String>) -> (r: Result<(), ParseError>)
        requires
            old(self).wf(),
        ensures
            final(self).wf(),
            Self::attach_meaning_post(*old(self), *final(self), l.deep_view(), r),
    {
        let ghost ld = l.deep_view();
        if l.len() < 2 {
            return Err(ParseError::MalformedRecord);
        }
        if self.terms.get(l[1].as_str()).is_none() {
            return Err(ParseError::ReferentialError);
        }
        if l.len() < 4 {
            return Err(ParseError::MalformedRecord);
        }
        let mut opener = String::new();
        opener.append("(-");
        let negated = l[3] == opener;
        if negated && l.len() < 5 {
            return Err(ParseError::MalformedRecord);
        }
        let mut name = l[3].clone();
        if negated {
            name.append(l[4].as_str());
        }
        proof {
            if !negated {
                assert(name@ =~= ld[3]);
            }
        }
        let theory = l[2].clone();
        match self.terms.get_mut(l[1].as_str()) {
            Some(t) => {
                t.theory = theory;
                t.name = name;
            },
            None => {
                proof {
                    assert(false);
                }
                return Err(ParseError::ReferentialError);
            },
        }
        proof {
            let key = id_key(ld[1]);
            assert forall|k: (Seq<char>, int)| #[trigger] self.terms@.contains_key(k) implies
                forall|j: int|
                    0 <= j < self.terms@[k]@.child_ids.len() ==> self.terms@.contains_key(
                        id_key(#[trigger] self.terms@[k]@.child_ids[j]),
                    ) by {
                assert(self.terms@[k]@.child_ids == old(self).terms@[k]@.child_ids);
            }
            assert(self.terms_closed_ok());
        }
        Ok(())
    }

    /// Everything of the state but the term and quantifier stores is
    /// unchanged.
    pub open spec fn same_but_terms_and_quants(&self, other: Z3Parser1) -> bool {
        &&& self.matches == other.matches
        &&& self.instantiations == other.instantiations
        &&& self.inst_stack == other.inst_stack
        &&& self.temp_dependencies == other.temp_dependencies
        &&& self.eq_expls == other.eq_expls
        &&& self.fingerprints == other.fingerprints
        &&& self.dependencies == other.dependencies
        &&& self.version_info == other.version_info
        &&& self.continue_parsing == other.continue_parsing
    }

    /// Appends `l[1]` to the back-reference list of every operand named in
    /// `l[from..]`, returning the operand identifiers. Only the term store
    /// changes, and only in those back-reference lists.
    fn apply_backrefs(&mut self, l: &Vec<String>, from: usize) -> (r: Result<
        Vec<String>,
        ParseError,
    >)
        requires
            old(self).wf(),
            2 <= from,
            from <= l.deep_view().len(),
            l.deep_view().len() >= 2,
            forall|j: int|
                from <= j < l.deep_view().len() ==> old(self).terms@.contains_key(
                    id_key(#[trigger] l.deep_view()[j]),
                ),
        ensures
            final(self).wf(),
            r is Ok,
            ({
                let ld = l.deep_view();
                let children = ld.skip(from as int);
                &&& r->Ok_0.deep_view() == children
                &&& final(self).terms@.dom() == old(self).terms@.dom()
                &&& forall|k: (Seq<char>, int)| #[trigger] old(self).terms@.contains_key(k)
                    ==> backrefs_applied(
                        final(self).terms@[k]@,
                        old(self).terms@[k]@,
                        children,
                        ld[1],
                        k,
                    )
                &&& final(self).same_but_terms(*old(self))
            }),
    {
        let ghost ld = l.deep_view();
        let ghost children_g = ld.skip(from as int);
        let n = l.len() - from;
        let mut out: Vec<String> = Vec::new();
        let mut j: usize = 0;
        proof {
            assert forall|k: (Seq<char>, int)| #[trigger] old(self).terms@.contains_key(k) implies
                backrefs_applied(
                self.terms@[k]@,
                old(self).terms@[k]@,
                children_g.take(0),
                ld[1],
                k,
            ) by {
                assert(children_g.take(0) =~= Seq::<Seq<char>>::empty());
                assert(repeated(ld[1], 0) =~= Seq::<Seq<char>>::empty());
                assert(self.terms@[k]@.dep_term_ids =~= self.terms@[k]@.dep_term_ids + repeated(
                    ld[1],
                    0,
                ));
            }
        }
        while j < n
            invariant
                j <= n,
                n == children_g.len(),
                n + from == ld.len(),
                n + from <= usize::MAX,
                2 <= from <= ld.len(),
                ld == l.deep_view(),
                children_g == ld.skip(from as int),
                forall|p: int|
                    0 <= p < children_g.len() ==> old(self).terms@.contains_key(
                        id_key(#[trigger] children_g[p]),
                    ),
                out.deep_view() =~= children_g.take(j as int),
                self.terms.wf(),
                self.terms@.dom() == old(self).terms@.dom(),
                forall|k: (Seq<char>, int)| #[trigger] old(self).terms@.contains_key(k)
                    ==> backrefs_applied(
                    self.terms@[k]@,
                    old(self).terms@[k]@,
                    children_g.take(j as int),
                    ld[1],
                    k,
                ),
                self.same_but_terms(*old(self)),
            decreases n - j,
        {
            proof {
                assert(children_g[j as int] == ld[j + from]);
                assert(old(self).terms@.contains_key(id_key(children_g[j as int])));
                assert(self.terms@.dom().contains(id_key(children_g[j as int])));
            }
            let ghost pre_terms = self.terms@;
            let ghost key_j = id_key(children_g[j as int]);
            match self.terms.get_mut(l[from + j].as_str()) {
                None => {
                    proof {
                        assert(false);
                    }
                    return Err(ParseError::ReferentialError);
                },
                Some(t) => {
                    t.dep_term_ids.push(l[1].clone());
                },
            }
            out.push(l[from + j].clone());
            proof {
                assert(out.deep_view() =~= children_g.take(j + 1));
                let ct = children_g.take(j + 1);
                assert(ct.drop_last() =~= children_g.take(j as int));
                assert(ct.last() == children_g[j as int]);
                assert forall|k: (Seq<char>, int)| #[trigger] old(self).terms@.contains_key(
                    k,
                ) implies backrefs_applied(
                    self.terms@[k]@,
                    old(self).terms@[k]@,
                    ct,
                    ld[1],
                    k,
                ) by {
                    let t0 = old(self).terms@[k]@;
                    let tp = pre_terms[k]@;
                    let tn = self.terms@[k]@;
                    if k == key_j {
                        assert(backref_count(ct, k) == backref_count(ct.drop_last(), k) + 1);
                        assert(tn.dep_term_ids =~= tp.dep_term_ids.push(ld[1]));
                        assert(t0.dep_term_ids + repeated(ld[1], backref_count(ct, k)) =~= (
                        t0.dep_term_ids + repeated(ld[1], backref_count(ct.drop_last(), k))).push(
                            ld[1],
                        ));
                        assert(tn.dep_term_ids =~= t0.dep_term_ids + repeated(
                            ld[1],
                            backref_count(ct, k),
                        ));
                    } else {
                        assert(backref_count(ct, k) == backref_count(ct.drop_last(), k));
                        assert(self.terms@[k] == pre_terms[k]);
                    }
                }
            }
            j += 1;
        }
        proof {
            assert(children_g.take(n as int) =~= children_g);
        }
        Ok(out)
    }
}

/// A fresh quantifier-body term over the given operands, with no theory,
/// no back-references and no producing instantiation yet.
pub fn make_term(full_id: (String, usize), name: String, children: Vec<String>, text: String) -> (t:
    Term)
    ensures
        t@.kind == "FORALL"@,
        t@.id == full_id.1,
        t@.name == name@,
        t@.theory.len() == 0,
        t@.child_ids == children.deep_view(),
        t@.dep_term_ids.len() == 0,
        t@.resp_inst_line_no is None,
        t@.text == text@,
{
    let mut kind = String::new();
    kind.append("FORALL");
    let t = Term {
        kind,
        id: full_id.1,
        name,
        theory: String::new(),
        child_ids: children,
        dep_term_ids: Vec::new(),
        resp_inst_line_no: None,
        text,
    };
    proof {
        assert(t@.kind =~= "FORALL"@);
        assert(t@.dep_term_ids =~= Seq::<Seq<char>>::empty());
    }
    t
}

/// A fresh term of an explicit kind, as `make_term` otherwise.
pub fn make_term_with_kind(
    kind: String,
    id: usize,
    name: String,
    children: Vec<String>,
    text: String,
) -> (t: Term)
    ensures
        t@.kind == kind@,
        t@.id == id,
        t@.name == name@,
        t@.theory.len() == 0,
        t@.child_ids == children.deep_view(),
        t@.dep_term_ids.len() == 0,
        t@.resp_inst_line_no is None,
        t@.text == text@,
{
    let t = Term {
        kind,
        id,
        name,
        theory: String::new(),
        child_ids: children,
        dep_term_ids: Vec::new(),
        resp_inst_line_no: None,
        text,
    };
    proof {
        assert(t@.dep_term_ids =~= Seq::<Seq<char>>::empty());
    }
    t
}

/// The placeholder variable slots `qvar_0 .. qvar_{n-1}`, each with an
/// empty sort.
pub fn make_placeholder_vars(n: usize) -> (r: Vec<(String, String)>)
    ensures
        r@.map_values(|p: (String, String)| crate::items::var_pair_view(p)) == placeholder_vars(
            n as nat,
        ),
{
    let mut qvars: Vec<(String, String)> = Vec::new();
    let mut i: usize = 0;
    while i < n
        invariant
            i <= n,
            qvars@.map_values(|p: (String, String)| crate::items::var_pair_view(p))
                =~= placeholder_vars(n as nat).take(i as int),
        decreases n - i,
    {
        let mut vn = String::new();
        proof {
            reveal_strlit("qvar_");
        }
        vn.append("qvar_");
        vn.append(to_decimal(i).as_str());
        let ghost old_qv = qvars@;
        qvars.push((vn, String::new()));
        proof {
            let f = |p: (String, String)| crate::items::var_pair_view(p);
            assert(vn@ =~= "qvar_"@ + dec_digits(i as nat));
            assert(qvars@.map_values(f) =~= old_qv.map_values(f).push(
                placeholder_vars(n as nat)[i as int],
            ));
            assert(qvars@.map_values(f) =~= placeholder_vars(n as nat).take(i + 1));
        }
        i += 1;
    }
    proof {
        assert(placeholder_vars(n as nat).take(n as int) =~= placeholder_vars(n as nat));
    }
    qvars
}

/// Joins the strings with a comma and a space between them.
pub fn join_strings(v: &Vec<String>) -> (r: String)
    ensures
        r@ == join_comma(v.deep_view()),
{
    let mut r = String::new();
    let n = v.len();
    if n == 0 {
        proof {
            assert(r@ =~= join_comma(v.deep_view()));
        }
        return r;
    }
    r.append(v[0].as_str());
    let mut i: usize = 1;
    proof {
        assert(v.deep_view().take(1) =~= seq![v.deep_view()[0]]);
        assert(join_comma(v.deep_view().take(1)) == v.deep_view()[0]);
    }
    while i < n
        invariant
            1 <= i <= n,
            n == v.deep_view().len(),
            r@ == join_comma(v.deep_view().take(i as int)),
        decreases n - i,
    {
        r.append(", ");
        r.append(v[i].as_str());
        proof {
            let pre = v.deep_view().take(i as int);
            lemma_join_push(pre, v.deep_view()[i as int]);
            assert(v.deep_view().take(i + 1) =~= pre.push(v.deep_view()[i as int]));
        }
        i += 1;
    }
    proof {
        assert(v.deep_view().take(n as int) =~= v.deep_view());
    }
    r
}

} // verus!
