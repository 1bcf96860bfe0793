//! The streaming trace dispatcher.
//!
//! One `Z3Parser1` consumes a trace line by line; each recognized tag
//! mutates the entity store, the open-instantiation stack and the
//! deferred-edge buffer. A malformed record or a reference to an id never
//! registered is fatal: the handler reports it and leaves the state
//! untouched. Cancellation is cooperative: a shared flag is polled once per
//! line, and a parse never stops while an instantiation is open.

use std::sync::atomic::AtomicBool;
use std::sync::atomic::Ordering;
use std::sync::Arc;

use vstd::prelude::*;

use crate::items::{
    BlamedTermItem, BlamedV, DepType, Dependency, EqualityExpl, Instantiation, Quantifier, Term,
};
use crate::store::TwoDMap;
use crate::tables::{FpMap, LineMap, StrMap};

verus! {

/// Why a parse aborted.
#[derive(Debug, Clone, Copy, PartialEq, Eq, Structural)]
pub enum ParseError {
    /// A line violates its tag's expected token layout.
    MalformedRecord,
    /// A tag references an id or fingerprint never registered.
    ReferentialError,
    /// A cost component no longer fits in 64 bits.
    CostOverflow,
}

/// The solver identification captured from the trace; the last write wins.
pub struct VersionInfo {
    pub solver: String,
    pub version: String,
}

/// The dispatcher's whole state.
pub struct Z3Parser1 {
    pub terms: TwoDMap<Term>,
    pub quantifiers: TwoDMap<Quantifier>,
    /// Speculative instantiations, keyed by fingerprint.
    pub matches: FpMap<Instantiation>,
    /// Finalized instantiations, keyed by (1-based) line number.
    pub instantiations: LineMap<Instantiation>,
    /// The open instantiations: (line number, fingerprint), innermost last.
    pub inst_stack: Vec<(usize, u64)>,
    /// Deferred dependency edges, keyed by the match's line number.
    pub temp_dependencies: LineMap<Vec<Dependency>>,
    /// The latest justification step recorded for each id.
    pub eq_expls: StrMap<EqualityExpl>,
    /// The fingerprint finalized at each instantiation line.
    pub fingerprints: LineMap<u64>,
    /// The permanent edge list: finalized edges, never mutated again.
    pub dependencies: Vec<Dependency>,
    pub version_info: VersionInfo,
    /// The cooperative cancellation flag, shared with a controller.
    pub continue_parsing: Arc<AtomicBool>,
}

impl Z3Parser1 {
    /// Every finalized instantiation sits at its own line, its match line
    /// is no later, its deferred-edge buffer exists, its recorded
    /// dependencies point at finalized instantiations, and its cost is a
    /// well-formed fraction.
    pub open spec fn insts_ok(&self) -> bool {
        forall|k: usize| #[trigger] self.instantiations@.contains_key(k) ==> {
            let iv = self.instantiations@[k]@;
            &&& iv.line_no == k
            &&& 1 <= iv.match_line_no <= k
            &&& self.temp_dependencies@.contains_key(iv.match_line_no)
            &&& iv.cost.wf()
            &&& forall|j: int|
                0 <= j < iv.dep_instantiations.len() ==> self.instantiations@.contains_key(
                    #[trigger] iv.dep_instantiations[j],
                )
        }
    }

    /// Every pending instantiation has its deferred-edge buffer, points its
    /// recorded dependencies at finalized instantiations, and carries a
    /// well-formed cost.
    pub open spec fn matches_ok(&self) -> bool {
        forall|fp: u64| #[trigger] self.matches@.contains_key(fp) ==> {
            let iv = self.matches@[fp]@;
            &&& 1 <= iv.match_line_no
            &&& self.temp_dependencies@.contains_key(iv.match_line_no)
            &&& iv.cost.wf()
            &&& forall|j: int|
                0 <= j < iv.dep_instantiations.len() ==> self.instantiations@.contains_key(
                    #[trigger] iv.dep_instantiations[j],
                )
        }
    }

    /// Every operand named by a stored term is itself stored: the store is
    /// closed under children, so a rendering never meets a missing node.
    pub open spec fn terms_closed_ok(&self) -> bool {
        crate::pretty::terms_closed(self.terms@)
    }

    /// A term's producing-instantiation back-pointer always names a
    /// finalized instantiation.
    pub open spec fn terms_ok(&self) -> bool {
        forall|k: (Seq<char>, int)| #[trigger] self.terms@.contains_key(k) ==> match self.terms@[k]@.resp_inst_line_no {
            Some(l) => self.instantiations@.contains_key(l),
            None => true,
        }
    }

    pub open spec fn quants_ok(&self) -> bool {
        forall|k: (Seq<char>, int)| #[trigger] self.quantifiers@.contains_key(k)
            ==> self.quantifiers@[k]@.cost.wf()
    }

    /// Every open instantiation on the stack is finalized.
    pub open spec fn stack_ok(&self) -> bool {
        forall|i: int|
            0 <= i < self.inst_stack@.len() ==> self.instantiations@.contains_key(
                (#[trigger] self.inst_stack@[i]).0,
            )
    }

    /// A deferred edge is half-built: its target is still 0 and its source,
    /// when derived, is an earlier line than its match line.
    pub open spec fn temp_ok(&self) -> bool {
        forall|ml: usize| #[trigger] self.temp_dependencies@.contains_key(ml) ==> {
            &&& ml >= 1
            &&& forall|j: int|
                0 <= j < self.temp_dependencies@[ml]@.len() ==> {
                    let d = (#[trigger] self.temp_dependencies@[ml]@[j])@;
                    &&& d.to == 0
                    &&& (d.from != 0 ==> 1 <= d.from < ml)
                }
        }
    }

    /// A permanent edge always has a real target, and a derived source
    /// strictly precedes its target: the causal order of the trace.
    pub open spec fn deps_ok(&self) -> bool {
        forall|i: int|
            0 <= i < self.dependencies@.len() ==> {
                let d = (#[trigger] self.dependencies@[i])@;
                &&& d.to >= 1
                &&& (d.from != 0 ==> d.from < d.to)
            }
    }

    /// The dispatcher's whole invariant: established empty, preserved by
    /// every handler.
    pub open spec fn wf(&self) -> bool {
        &&& self.terms.wf()
        &&& self.quantifiers.wf()
        &&& self.matches.wf()
        &&& self.instantiations.wf()
        &&& self.temp_dependencies.wf()
        &&& self.eq_expls.wf()
        &&& self.fingerprints.wf()
        &&& self.insts_ok()
        &&& self.matches_ok()
        &&& self.terms_ok()
        &&& self.terms_closed_ok()
        &&& self.quants_ok()
        &&& self.stack_ok()
        &&& self.temp_ok()
        &&& self.deps_ok()
    }

    /// No line-keyed structure knows a line at or after `line` yet.
    pub open spec fn line_fresh(&self, line: int) -> bool {
        &&& forall|i: int|
            0 <= i < self.instantiations.spec_keys().len() ==> (
            #[trigger] self.instantiations.spec_keys()[i]) < line
        &&& forall|i: int|
            0 <= i < self.temp_dependencies.spec_keys().len() ==> (
            #[trigger] self.temp_dependencies.spec_keys()[i]) < line
        &&& forall|i: int|
            0 <= i < self.fingerprints.spec_keys().len() ==> (
            #[trigger] self.fingerprints.spec_keys()[i]) < line
        &&& forall|i: int|
            0 <= i < self.inst_stack@.len() ==> (#[trigger] self.inst_stack@[i]).0 < line
        &&& forall|fp: u64| #[trigger] self.matches@.contains_key(fp)
            ==> self.matches@[fp]@.match_line_no < line
    }

    /// Everything of the state but the version record is unchanged.
    pub open spec fn same_but_version(&self, other: Z3Parser1) -> bool {
        &&& self.terms == other.terms
        &&& self.quantifiers == other.quantifiers
        &&& self.matches == other.matches
        &&& self.instantiations == other.instantiations
        &&& self.inst_stack == other.inst_stack
        &&& self.temp_dependencies == other.temp_dependencies
        &&& self.eq_expls == other.eq_expls
        &&& self.fingerprints == other.fingerprints
        &&& self.dependencies == other.dependencies
        &&& self.continue_parsing == other.continue_parsing
    }

    /// A fresh dispatcher over an empty store, with parsing enabled.
    pub fn new() -> (r: Z3Parser1)
        ensures
            r.wf(),
            r.terms@ == Map::<(Seq<char>, int), Term>::empty(),
            r.quantifiers@ == Map::<(Seq<char>, int), Quantifier>::empty(),
            r.matches@ == Map::<u64, Instantiation>::empty(),
            r.instantiations@ == Map::<usize, Instantiation>::empty(),
            r.inst_stack@ == Seq::<(usize, u64)>::empty(),
            r.temp_dependencies@ == Map::<usize, Vec<Dependency>>::empty(),
            r.eq_expls@ == Map::<Seq<char>, EqualityExpl>::empty(),
            r.fingerprints@ == Map::<usize, u64>::empty(),
            r.dependencies@ == Seq::<Dependency>::empty(),
            r.instantiations.spec_keys() == Seq::<usize>::empty(),
            r.temp_dependencies.spec_keys() == Seq::<usize>::empty(),
            r.fingerprints.spec_keys() == Seq::<usize>::empty(),
    {
        let r = Z3Parser1 {
            terms: TwoDMap::new(),
            quantifiers: TwoDMap::new(),
            matches: FpMap::new(),
            instantiations: LineMap::new(),
            inst_stack: Vec::new(),
            temp_dependencies: LineMap::new(),
            eq_expls: StrMap::new(),
            fingerprints: LineMap::new(),
            dependencies: Vec::new(),
            version_info: VersionInfo { solver: String::new(), version: String::new() },
            continue_parsing: Arc::new(AtomicBool::new(true)),
        };
        r
    }

    /// A handle on the cancellation flag, for a controller on another
    /// thread: the same shared flag the dispatcher polls.
    pub fn get_continue_handle(&self) -> (r: Arc<AtomicBool>)
        ensures
            r == self.continue_parsing,
    {
        arc_clone(&self.continue_parsing)
    }

    /// Whether the dispatcher should consume the next line: always while an
    /// instantiation is open, so a cancellation never leaves a half-built
    /// edge; otherwise whatever the shared flag says.
    pub fn should_continue(&self) -> (r: bool)
        ensures
            self.inst_stack@.len() > 0 ==> r,
    {
        !self.inst_stack.is_empty() || flag_load(&self.continue_parsing)
    }

    /// What `version_info` guarantees, relating the states before and
    /// after one record.
    pub open spec fn version_info_post(
        pre: Z3Parser1,
        post: Z3Parser1,
        ld: Seq<Seq<char>>,
        r: Result<(), ParseError>,
    ) -> bool {
        match r {
            Ok(()) => {
                &&& ld.len() >= 3
                &&& post.same_but_version(pre)
                &&& post.version_info.solver@ == ld[1]
                &&& post.version_info.version@ == ld[2]
            },
            Err(e) => {
                &&& e == ParseError::MalformedRecord
                &&& ld.len() < 3
                &&& post == pre
            },
        }
    }

    /// Captures solver name and version; the last record wins.
    pub fn version_info(&mut self, l: &Vec<String>) -> (r: Result<(), ParseError>)
        requires
            old(self).wf(),
        ensures
            final(self).wf(),
            Self::version_info_post(*old(self), *final(self), l.deep_view(), r),
    {
        if l.len() < 3 {
            return Err(ParseError::MalformedRecord);
        }
        self.version_info = VersionInfo { solver: l[1].clone(), version: l[2].clone() };
        Ok(())
    }

    /// What `mk_var` guarantees, relating the states before and after one
    /// record.
    pub open spec fn mk_var_post(
        pre: Z3Parser1,
        post: Z3Parser1,
        ld: Seq<Seq<char>>,
        r: Result<(), ParseError>,
    ) -> bool {
        match r {
            Ok(()) => {
                let name = "qvar_"@ + ld[2];
                &&& ld.len() >= 3
                &&& post.terms@ == pre.terms@.insert(
                    crate::ident::id_key(ld[1]),
                    post.terms@[crate::ident::id_key(ld[1])],
                )
                &&& post.terms@.contains_key(crate::ident::id_key(ld[1]))
                &&& {
                    let t = post.terms@[crate::ident::id_key(ld[1])]@;
                    &&& t.kind == name
                    &&& t.name == name
                    &&& t.text == name
                    &&& t.id == crate::ident::id_ordinal(ld[1])
                    &&& t.theory.len() == 0
                    &&& t.child_ids.len() == 0
                    &&& t.dep_term_ids.len() == 0
                    &&& t.resp_inst_line_no is None
                }
                &&& post.same_but_terms(pre)
            },
            Err(e) => {
                &&& e == ParseError::MalformedRecord
                &&& ld.len() < 3
                &&& post == pre
            },
        }
    }

    /// Builds a bound-variable leaf term named by its index: the record is
    /// `[mk-var] id index`.
    pub fn mk_var(&mut self, l: &Vec<String>) -> (r: Result<(), ParseError>)
        requires
            old(self).wf(),
        ensures
            final(self).wf(),
            Self::mk_var_post(*old(self), *final(self), l.deep_view(), r),
    {
        if l.len() < 3 {
            return Err(ParseError::MalformedRecord);
        }
        let (_, num) = crate::ident::parse_id(l[1].as_str());
        let mut name = String::new();
        proof {
            reveal_strlit("qvar_");
        }
        name.append("qvar_");
        name.append(l[2].as_str());
        let term = Term {
            kind: name.clone(),
            id: num,
            name: name.clone(),
            theory: String::new(),
            child_ids: Vec::new(),
            dep_term_ids: Vec::new(),
            resp_inst_line_no: None,
            text: name,
        };
        proof {
            assert(term@.child_ids =~= Seq::<Seq<char>>::empty());
            assert(term@.dep_term_ids =~= Seq::<Seq<char>>::empty());
        }
        self.terms.insert(l[1].as_str(), term);
        Ok(())
    }

    /// Everything of the state but the term store is unchanged.
    pub open spec fn same_but_terms(&self, other: Z3Parser1) -> bool {
        &&& self.quantifiers == other.quantifiers
        &&& self.matches == other.matches
        &&& self.instantiations == other.instantiations
        &&& self.inst_stack == other.inst_stack
        &&& self.temp_dependencies == other.temp_dependencies
        &&& self.eq_expls == other.eq_expls
        &&& self.fingerprints == other.fingerprints
        &&& self.dependencies == other.dependencies
        &&& self.version_info == other.version_info
        &&& self.continue_parsing == other.continue_parsing
    }
}

/// Relies on `alloc::sync::Arc::clone`: the clone is a handle on the same
/// allocation, so under the pointee model of `Arc` it is the same value.
#[verifier::external_body]
fn arc_clone(a: &Arc<AtomicBool>) -> (r: Arc<AtomicBool>)
    ensures
        r == *a,
{
    Arc::clone(a)
}

/// Relies on `core::sync::atomic::AtomicBool::load`: the value read depends
/// on other threads, so nothing is promised of it.
#[verifier::external_body]
fn flag_load(flag: &Arc<AtomicBool>) -> bool {
    flag.load(Ordering::SeqCst)
}

/// Relies on `core::sync::atomic::AtomicBool::store`: the flag is shared,
/// so nothing is promised of later reads.
#[verifier::external_body]
pub(crate) fn flag_store(flag: &Arc<AtomicBool>, v: bool) {
    flag.store(v, Ordering::SeqCst)
}

} // verus!
