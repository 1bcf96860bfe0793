//! The entities a trace describes: terms, quantifiers, instantiations,
//! dependency edges, and equality-justification steps.
//!
//! Each executable type has a ghost view mirroring its fields over
//! mathematical sequences, so that contracts can speak of values
//! independently of allocation.

use vstd::prelude::*;

use crate::rational::Rational;

verus! {

/// An expression node of the solver: a constant, an application, a bound
/// variable or a quantifier body.
#[derive(Debug)]
pub struct Term {
    pub kind: String,
    pub id: usize,
    pub name: String,
    pub theory: String,
    pub child_ids: Vec<String>,
    pub dep_term_ids: Vec<String>,
    pub resp_inst_line_no: Option<usize>,
    pub text: String,
}

pub ghost struct TermV {
    pub kind: Seq<char>,
    pub id: usize,
    pub name: Seq<char>,
    pub theory: Seq<char>,
    pub child_ids: Seq<Seq<char>>,
    pub dep_term_ids: Seq<Seq<char>>,
    pub resp_inst_line_no: Option<usize>,
    pub text: Seq<char>,
}

impl View for Term {
    type V = TermV;

    open spec fn view(&self) -> TermV {
        TermV {
            kind: self.kind@,
            id: self.id,
            name: self.name@,
            theory: self.theory@,
            child_ids: self.child_ids.deep_view(),
            dep_term_ids: self.dep_term_ids.deep_view(),
            resp_inst_line_no: self.resp_inst_line_no,
            text: self.text@,
        }
    }
}

/// A term node under the identifier model: the same shape as `Term`, with
/// identifiers resolved to `Ident` values.
#[derive(Debug)]
pub struct RcTerm {
    pub id: crate::ident::Ident,
    pub name: String,
    pub theory: String,
    pub children: Vec<crate::ident::Ident>,
    pub dep_terms: Vec<crate::ident::Ident>,
    pub resp_inst_line_no: Option<usize>,
    pub text: String,
}

/// A universally quantified formula the solver can instantiate.
#[derive(Debug)]
pub struct Quantifier {
    pub num_vars: usize,
    pub name: String,
    pub term: String,
    pub cost: Rational,
    pub instances: Vec<usize>,
    pub vars: Vec<(String, String)>,
    pub vars_set: bool,
}

pub ghost struct QuantifierV {
    pub num_vars: usize,
    pub name: Seq<char>,
    pub term: Seq<char>,
    pub cost: Rational,
    pub instances: Seq<usize>,
    pub vars: Seq<(Seq<char>, Seq<char>)>,
    pub vars_set: bool,
}

pub open spec fn var_pair_view(p: (String, String)) -> (Seq<char>, Seq<char>) {
    (p.0@, p.1@)
}

impl View for Quantifier {
    type V = QuantifierV;

    open spec fn view(&self) -> QuantifierV {
        QuantifierV {
            num_vars: self.num_vars,
            name: self.name@,
            term: self.term@,
            cost: self.cost,
            instances: self.instances@,
            vars: self.vars@.map_values(|p: (String, String)| var_pair_view(p)),
            vars_set: self.vars_set,
        }
    }
}

/// A piece of evidence cited by a match: one term, or a pair of terms the
/// solver asserted equal.
#[derive(Debug)]
pub enum BlamedTermItem {
    Single(String),
    Pair(String, String),
}

pub ghost enum BlamedV {
    Single(Seq<char>),
    Pair(Seq<char>, Seq<char>),
}

impl View for BlamedTermItem {
    type V = BlamedV;

    open spec fn view(&self) -> BlamedV {
        match self {
            BlamedTermItem::Single(s) => BlamedV::Single(s@),
            BlamedTermItem::Pair(a, b) => BlamedV::Pair(a@, b@),
        }
    }
}

impl DeepView for BlamedTermItem {
    type V = BlamedV;

    open spec fn deep_view(&self) -> BlamedV {
        self.view()
    }
}

/// One firing of a quantifier: speculative when first matched, finalized
/// when actually applied.
#[derive(Debug)]
pub struct Instantiation {
    pub line_no: usize,
    pub match_line_no: usize,
    pub fingerprint: u64,
    pub resulting_term: String,
    pub z3_gen: u32,
    pub cost: Rational,
    pub quant_id: String,
    pub pattern_id: String,
    pub yields_terms: Vec<String>,
    pub bound_terms: Vec<String>,
    pub blamed_terms: Vec<BlamedTermItem>,
    pub equality_expls: Vec<String>,
    pub dep_instantiations: Vec<usize>,
}

pub ghost struct InstantiationV {
    pub line_no: usize,
    pub match_line_no: usize,
    pub fingerprint: u64,
    pub resulting_term: Seq<char>,
    pub z3_gen: u32,
    pub cost: Rational,
    pub quant_id: Seq<char>,
    pub pattern_id: Seq<char>,
    pub yields_terms: Seq<Seq<char>>,
    pub bound_terms: Seq<Seq<char>>,
    pub blamed_terms: Seq<BlamedV>,
    pub equality_expls: Seq<Seq<char>>,
    pub dep_instantiations: Seq<usize>,
}

impl View for Instantiation {
    type V = InstantiationV;

    open spec fn view(&self) -> InstantiationV {
        InstantiationV {
            line_no: self.line_no,
            match_line_no: self.match_line_no,
            fingerprint: self.fingerprint,
            resulting_term: self.resulting_term@,
            z3_gen: self.z3_gen,
            cost: self.cost,
            quant_id: self.quant_id@,
            pattern_id: self.pattern_id@,
            yields_terms: self.yields_terms.deep_view(),
            bound_terms: self.bound_terms.deep_view(),
            blamed_terms: self.blamed_terms.deep_view(),
            equality_expls: self.equality_expls.deep_view(),
            dep_instantiations: self.dep_instantiations@,
        }
    }
}

impl DeepView for Instantiation {
    type V = InstantiationV;

    open spec fn deep_view(&self) -> InstantiationV {
        self.view()
    }
}

/// What kind of evidence a dependency edge records; `Blank` marks a
/// sentinel edge recording no evidence at all.
#[derive(Debug, Clone, Copy, PartialEq, Eq, Structural)]
pub enum DepType {
    Blank,
    Term,
    Equality,
}

/// A causal edge between two instantiations: the one at line `from`
/// produced evidence the one at line `to` matched on. `from == 0` marks a
/// sentinel edge standing for a match with no derivable blame.
#[derive(Debug)]
pub struct Dependency {
    pub from: usize,
    pub to: usize,
    pub blamed: String,
    pub dep_type: DepType,
    pub quant: String,
}

pub ghost struct DependencyV {
    pub from: usize,
    pub to: usize,
    pub blamed: Seq<char>,
    pub dep_type: DepType,
    pub quant: Seq<char>,
}

impl View for Dependency {
    type V = DependencyV;

    open spec fn view(&self) -> DependencyV {
        DependencyV {
            from: self.from,
            to: self.to,
            blamed: self.blamed@,
            dep_type: self.dep_type,
            quant: self.quant@,
        }
    }
}

impl DeepView for Dependency {
    type V = DependencyV;

    open spec fn deep_view(&self) -> DependencyV {
        self.view()
    }
}

/// One step justifying an asserted equality between two terms.
#[derive(Debug)]
pub enum EqualityExpl {
    Root { id: String },
    Literal { from: String, eq: String, to: String },
    Congruence { id: String, arg_eqs: Vec<(String, String)>, to: String },
    Theory { id: String, theory: String, term: String },
    Axiom { id: String, term: String },
    Unknown { id: String, term: String },
}

pub ghost enum EqualityExplV {
    Root { id: Seq<char> },
    Literal { from: Seq<char>, eq: Seq<char>, to: Seq<char> },
    Congruence { id: Seq<char>, arg_eqs: Seq<(Seq<char>, Seq<char>)>, to: Seq<char> },
    Theory { id: Seq<char>, theory: Seq<char>, term: Seq<char> },
    Axiom { id: Seq<char>, term: Seq<char> },
    Unknown { id: Seq<char>, term: Seq<char> },
}

impl View for EqualityExpl {
    type V = EqualityExplV;

    open spec fn view(&self) -> EqualityExplV {
        match self {
            EqualityExpl::Root { id } => EqualityExplV::Root { id: id@ },
            EqualityExpl::Literal { from, eq, to } => EqualityExplV::Literal {
                from: from@,
                eq: eq@,
                to: to@,
            },
            EqualityExpl::Congruence { id, arg_eqs, to } => EqualityExplV::Congruence {
                id: id@,
                arg_eqs: arg_eqs@.map_values(|p: (String, String)| var_pair_view(p)),
                to: to@,
            },
            EqualityExpl::Theory { id, theory, term } => EqualityExplV::Theory {
                id: id@,
                theory: theory@,
                term: term@,
            },
            EqualityExpl::Axiom { id, term } => EqualityExplV::Axiom { id: id@, term: term@ },
            EqualityExpl::Unknown { id, term } => EqualityExplV::Unknown { id: id@, term: term@ },
        }
    }
}

impl DeepView for EqualityExpl {
    type V = EqualityExplV;

    open spec fn deep_view(&self) -> EqualityExplV {
        self.view()
    }
}

impl BlamedTermItem {
    /// Copies one blamed-term item; the view is unchanged.
    pub fn duplicate(&self) -> (r: BlamedTermItem)
        ensures
            r@ == self@,
    {
        match self {
            BlamedTermItem::Single(s) => BlamedTermItem::Single(s.clone()),
            BlamedTermItem::Pair(a, b) => BlamedTermItem::Pair(a.clone(), b.clone()),
        }
    }
}

/// Copies a vector of blamed-term items; the views are unchanged.
pub fn clone_blamed(v: &Vec<BlamedTermItem>) -> (r: Vec<BlamedTermItem>)
    ensures
        r.deep_view() == v.deep_view(),
{
    let n = v.len();
    let mut r: Vec<BlamedTermItem> = Vec::new();
    let mut i: usize = 0;
    while i < n
        invariant
            i <= n,
            n == v@.len(),
            r.deep_view() =~= v.deep_view().take(i as int),
        decreases n - i,
    {
        let ghost old_r = r.deep_view();
        r.push(v[i].duplicate());
        proof {
            assert(r.deep_view() =~= old_r.push(v@[i as int]@));
            assert(r.deep_view() =~= v.deep_view().take(i + 1));
        }
        i += 1;
    }
    proof {
        assert(v.deep_view().take(n as int) =~= v.deep_view());
    }
    r
}

impl Instantiation {
    /// Copies an instantiation; the view is unchanged.
    pub fn duplicate(&self) -> (r: Instantiation)
        ensures
            r@ == self@,
    {
        Instantiation {
            line_no: self.line_no,
            match_line_no: self.match_line_no,
            fingerprint: self.fingerprint,
            resulting_term: self.resulting_term.clone(),
            z3_gen: self.z3_gen,
            cost: self.cost,
            quant_id: self.quant_id.clone(),
            pattern_id: self.pattern_id.clone(),
            yields_terms: crate::text::clone_strings(&self.yields_terms),
            bound_terms: crate::text::clone_strings(&self.bound_terms),
            blamed_terms: clone_blamed(&self.blamed_terms),
            equality_expls: crate::text::clone_strings(&self.equality_expls),
            dep_instantiations: crate::text::clone_lines(&self.dep_instantiations),
        }
    }
}

/// The successor an equality step points at when walking a justification
/// chain forward, if any: a `Root` ends the walk.
pub open spec fn eq_expl_next(e: EqualityExplV) -> Option<Seq<char>> {
    match e {
        EqualityExplV::Root { .. } => None,
        EqualityExplV::Literal { to, .. } => Some(to),
        EqualityExplV::Congruence { to, .. } => Some(to),
        EqualityExplV::Theory { term, .. } => Some(term),
        EqualityExplV::Axiom { term, .. } => Some(term),
        EqualityExplV::Unknown { term, .. } => Some(term),
    }
}

/// A pending fingerprint key, together with the reuse counter
/// disambiguating reused fingerprints.
#[derive(Debug, Clone, PartialEq, Eq, Hash)]
pub struct Fingerprint {
    pub fingerprint: u64,
    pub reuse_num: usize,
}

} // verus!
