//! The line dispatch loop.
//!
//! Each record is split into its space-delimited tokens and dispatched on
//! its bracketed tag. Unrecognized tags are skipped; `[eof]` ends the
//! parse; the remaining solver bookkeeping tags are accepted as no-ops.
//! Before each line the cancellation flag is polled, but a parse never
//! stops while an instantiation is open, so an interruption leaves no
//! half-built edge behind.

use vstd::prelude::*;

use crate::parser::{ParseError, Z3Parser1};

verus! {

/// What consuming one record decided.
#[derive(Debug, Clone, Copy, PartialEq, Eq, Structural)]
pub enum LineOutcome {
    /// Go on with the next record.
    Proceed,
    /// The record's tag is unrecognized: it was skipped, and a front end
    /// may log it.
    Skipped,
    /// The trace announced its end.
    Eof,
}

/// The handler-level result a dispatch outcome corresponds to.
pub open spec fn unit_outcome(r: Result<LineOutcome, ParseError>) -> Result<(), ParseError> {
    match r {
        Ok(_) => Ok(()),
        Err(e) => Err(e),
    }
}

/// How a whole parse ended.
#[derive(Debug, Clone, Copy, PartialEq, Eq, Structural)]
pub enum ParseStatus {
    /// The trace was consumed to its end.
    Finished,
    /// A cancellation request stopped the parse between records.
    Interrupted,
}

impl Z3Parser1 {
    /// Every observable table of the state is unchanged.
    pub open spec fn views_unchanged(&self, other: Z3Parser1) -> bool {
        &&& self.terms@ == other.terms@
        &&& self.quantifiers@ == other.quantifiers@
        &&& self.matches@ == other.matches@
        &&& self.instantiations@ == other.instantiations@
        &&& self.inst_stack@ == other.inst_stack@
        &&& self.temp_dependencies@ == other.temp_dependencies@
        &&& self.eq_expls@ == other.eq_expls@
        &&& self.fingerprints@ == other.fingerprints@
        &&& self.dependencies.deep_view() == other.dependencies.deep_view()
        &&& self.instantiations.spec_keys() == other.instantiations.spec_keys()
        &&& self.temp_dependencies.spec_keys() == other.temp_dependencies.spec_keys()
        &&& self.fingerprints.spec_keys() == other.fingerprints.spec_keys()
    }

    /// Whether a tag reaches one of the record handlers.
    pub open spec fn is_handled_tag(tag: Seq<char>) -> bool {
        ||| tag == "[tool-version]"@
        ||| tag == "[mk-quant]"@
        ||| tag == "[mk-lambda]"@
        ||| tag == "[mk-var]"@
        ||| tag == "[mk-proof]"@
        ||| tag == "[mk-app]"@
        ||| tag == "[attach-meaning]"@
        ||| tag == "[attach-var-names]"@
        ||| tag == "[attach-enode]"@
        ||| tag == "[eq-expl]"@
        ||| tag == "[new-match]"@
        ||| tag == "[inst-discovered]"@
        ||| tag == "[instance]"@
        ||| tag == "[end-of-instance]"@
    }

    /// Whether a tag is one of the solver bookkeeping records the
    /// dispatcher accepts without effect.
    pub open spec fn is_noop_tag(tag: Seq<char>) -> bool {
        ||| tag == "[decide-and-or]"@
        ||| tag == "[decide]"@
        ||| tag == "[assign]"@
        ||| tag == "[push]"@
        ||| tag == "[pop]"@
        ||| tag == "[begin-check]"@
        ||| tag == "[query-done]"@
        ||| tag == "[resolve-process]"@
        ||| tag == "[resolve-lit]"@
        ||| tag == "[conflict]"@
    }

    /// What consuming one record guarantees: the record's tag selects the
    /// handler whose contract relates `pre` and `post`; bookkeeping tags,
    /// unknown tags and `[eof]` leave the state as it was; a failed record
    /// changes no table.
    pub open spec fn line_step(
        pre: Z3Parser1,
        post: Z3Parser1,
        l0: Seq<char>,
        line_no: usize,
        r: Result<LineOutcome, ParseError>,
    ) -> bool {
        let toks = crate::text::spec_split(l0, ' ');
        let tag = toks[0];
        let hr = unit_outcome(r);
        &&& (tag == "[tool-version]"@ ==> Self::version_info_post(pre, post, toks, hr))
        &&& (tag == "[mk-quant]"@ || tag == "[mk-lambda]"@ ==> Self::mk_quant_post(
            pre,
            post,
            toks,
            hr,
        ))
        &&& (tag == "[mk-var]"@ ==> Self::mk_var_post(pre, post, toks, hr))
        &&& (tag == "[mk-proof]"@ || tag == "[mk-app]"@ ==> Self::mk_proof_app_post(
            pre,
            post,
            toks,
            hr,
        ))
        &&& (tag == "[attach-meaning]"@ ==> Self::attach_meaning_post(pre, post, toks, hr))
        &&& (tag == "[attach-var-names]"@ ==> Self::attach_vars_post(pre, post, toks, l0, hr))
        &&& (tag == "[attach-enode]"@ ==> Self::attach_enode_post(pre, post, toks, hr))
        &&& (tag == "[eq-expl]"@ ==> Self::eq_expl_post(pre, post, toks, hr))
        &&& (tag == "[new-match]"@ ==> Self::new_match_post(pre, post, toks, line_no, hr))
        &&& (tag == "[inst-discovered]"@ ==> Self::inst_discovered_post(
            pre,
            post,
            toks,
            line_no,
            hr,
        ))
        &&& (tag == "[instance]"@ ==> Self::instance_post(pre, post, toks, line_no, hr))
        &&& (tag == "[end-of-instance]"@ ==> Self::end_of_instance_post(pre, post, hr))
        &&& (tag == "[eof]"@ ==> r == Ok::<LineOutcome, ParseError>(LineOutcome::Eof) && post
            == pre)
        &&& (Self::is_noop_tag(tag) ==> r == Ok::<LineOutcome, ParseError>(LineOutcome::Proceed)
            && post == pre)
        &&& (!Self::is_handled_tag(tag) && !Self::is_noop_tag(tag) && tag != "[eof]"@ ==> r
            == Ok::<LineOutcome, ParseError>(LineOutcome::Skipped) && post == pre)
        &&& (Self::is_handled_tag(tag) && r is Ok ==> r == Ok::<LineOutcome, ParseError>(
            LineOutcome::Proceed,
        ))
        &&& (r == Ok::<LineOutcome, ParseError>(LineOutcome::Eof) ==> tag == "[eof]"@)
        &&& (r is Err ==> post.views_unchanged(pre))
    }

    /// Consumes one record: splits it into tokens and dispatches on the
    /// tag, so the record's handler contract relates the states before and
    /// after; bookkeeping tags are no-ops, an unrecognized tag is reported
    /// as skipped, and `[eof]` ends the parse.
    #[verifier::rlimit(100)]
    pub fn parse_line(&mut self, l0: &str, line_no: usize) -> (r: Result<LineOutcome, ParseError>)
        requires
            old(self).wf(),
            old(self).line_fresh(line_no + 1),
            line_no < usize::MAX,
        ensures
            final(self).wf(),
            final(self).line_fresh(line_no + 2),
            Self::line_step(*old(self), *final(self), l0@, line_no, r),
    {
        proof {
            reveal_strlit("[tool-version]");
            reveal_strlit("[mk-quant]");
            reveal_strlit("[mk-lambda]");
            reveal_strlit("[mk-var]");
            reveal_strlit("[mk-proof]");
            reveal_strlit("[mk-app]");
            reveal_strlit("[attach-meaning]");
            reveal_strlit("[attach-var-names]");
            reveal_strlit("[attach-enode]");
            reveal_strlit("[eq-expl]");
            reveal_strlit("[new-match]");
            reveal_strlit("[inst-discovered]");
            reveal_strlit("[instance]");
            reveal_strlit("[end-of-instance]");
            reveal_strlit("[eof]");
            reveal_strlit("[decide-and-or]");
            reveal_strlit("[decide]");
            reveal_strlit("[assign]");
            reveal_strlit("[push]");
            reveal_strlit("[pop]");
            reveal_strlit("[begin-check]");
            reveal_strlit("[query-done]");
            reveal_strlit("[resolve-process]");
            reveal_strlit("[resolve-lit]");
            reveal_strlit("[conflict]");
            assert("[tool-version]"@.len() == 14);
            assert("[tool-version]"@[1] == 't');
            assert("[tool-version]"@[4] == 'l');
            assert("[mk-quant]"@.len() == 10);
            assert("[mk-quant]"@[1] == 'm');
            assert("[mk-quant]"@[4] == 'q');
            assert("[mk-lambda]"@.len() == 11);
            assert("[mk-lambda]"@[1] == 'm');
            assert("[mk-lambda]"@[4] == 'l');
            assert("[mk-var]"@.len() == 8);
            assert("[mk-var]"@[1] == 'm');
            assert("[mk-var]"@[4] == 'v');
            assert("[mk-proof]"@.len() == 10);
            assert("[mk-proof]"@[1] == 'm');
            assert("[mk-proof]"@[4] == 'p');
            assert("[mk-app]"@.len() == 8);
            assert("[mk-app]"@[1] == 'm');
            assert("[mk-app]"@[4] == 'a');
            assert("[attach-meaning]"@.len() == 16);
            assert("[attach-meaning]"@[1] == 'a');
            assert("[attach-meaning]"@[4] == 'a');
            assert("[attach-var-names]"@.len() == 18);
            assert("[attach-var-names]"@[1] == 'a');
            assert("[attach-var-names]"@[4] == 'a');
            assert("[attach-enode]"@.len() == 14);
            assert("[attach-enode]"@[1] == 'a');
            assert("[attach-enode]"@[4] == 'a');
            assert("[eq-expl]"@.len() == 9);
            assert("[eq-expl]"@[1] == 'e');
            assert("[eq-expl]"@[4] == 'e');
            assert("[new-match]"@.len() == 11);
            assert("[new-match]"@[1] == 'n');
            assert("[new-match]"@[4] == '-');
            assert("[inst-discovered]"@.len() == 17);
            assert("[inst-discovered]"@[1] == 'i');
            assert("[inst-discovered]"@[4] == 't');
            assert("[instance]"@.len() == 10);
            assert("[instance]"@[1] == 'i');
            assert("[instance]"@[4] == 't');
            assert("[end-of-instance]"@.len() == 17);
            assert("[end-of-instance]"@[1] == 'e');
            assert("[end-of-instance]"@[4] == '-');
            assert("[eof]"@.len() == 5);
            assert("[eof]"@[1] == 'e');
            assert("[eof]"@[4] == ']');
            assert("[decide-and-or]"@.len() == 15);
            assert("[decide-and-or]"@[1] == 'd');
            assert("[decide-and-or]"@[4] == 'i');
            assert("[decide]"@.len() == 8);
            assert("[decide]"@[1] == 'd');
            assert("[decide]"@[4] == 'i');
            assert("[assign]"@.len() == 8);
            assert("[assign]"@[1] == 'a');
            assert("[assign]"@[4] == 'i');
            assert("[push]"@.len() == 6);
            assert("[push]"@[1] == 'p');
            assert("[push]"@[4] == 'h');
            assert("[pop]"@.len() == 5);
            assert("[pop]"@[1] == 'p');
            assert("[pop]"@[4] == ']');
            assert("[begin-check]"@.len() == 13);
            assert("[begin-check]"@[1] == 'b');
            assert("[begin-check]"@[4] == 'i');
            assert("[query-done]"@.len() == 12);
            assert("[query-done]"@[1] == 'q');
            assert("[query-done]"@[4] == 'r');
            assert("[resolve-process]"@.len() == 17);
            assert("[resolve-process]"@[1] == 'r');
            assert("[resolve-process]"@[4] == 'o');
            assert("[resolve-lit]"@.len() == 13);
            assert("[resolve-lit]"@[1] == 'r');
            assert("[resolve-lit]"@[4] == 'o');
            assert("[conflict]"@.len() == 10);
            assert("[conflict]"@[1] == 'c');
            assert("[conflict]"@[4] == 'f');
        }
        let l = crate::text::split_line(l0);
        let tag = &l[0];
        proof {
            assert(l.deep_view()[0] == l@[0]@);
        }
        if str_eq(tag, "[tool-version]") {
            return outcome_of(self.version_info(&l));
        }
        if str_eq(tag, "[mk-quant]") || str_eq(tag, "[mk-lambda]") {
            return outcome_of(self.mk_quant(&l));
        }
        if str_eq(tag, "[mk-var]") {
            return outcome_of(self.mk_var(&l));
        }
        if str_eq(tag, "[mk-proof]") || str_eq(tag, "[mk-app]") {
            return outcome_of(self.mk_proof_app(&l));
        }
        if str_eq(tag, "[attach-meaning]") {
            return outcome_of(self.attach_meaning(&l));
        }
        if str_eq(tag, "[attach-var-names]") {
            return outcome_of(self.attach_vars(&l, l0));
        }
        if str_eq(tag, "[attach-enode]") {
            return outcome_of(self.attach_enode(&l));
        }
        if str_eq(tag, "[eq-expl]") {
            return outcome_of(self.eq_expl(&l));
        }
        if str_eq(tag, "[new-match]") {
            return outcome_of(self.new_match(&l, line_no));
        }
        if str_eq(tag, "[inst-discovered]") {
            return outcome_of(self.inst_discovered(&l, line_no));
        }
        if str_eq(tag, "[instance]") {
            return outcome_of(self.instance(&l, line_no));
        }
        if str_eq(tag, "[end-of-instance]") {
            return outcome_of(self.end_of_instance());
        }
        if str_eq(tag, "[eof]") {
            return Ok(LineOutcome::Eof);
        }
        if str_eq(tag, "[decide-and-or]") || str_eq(tag, "[decide]") || str_eq(tag, "[assign]")
            || str_eq(tag, "[push]") || str_eq(tag, "[pop]") || str_eq(tag, "[begin-check]")
            || str_eq(tag, "[query-done]") || str_eq(tag, "[resolve-process]") || str_eq(
            tag,
            "[resolve-lit]",
        ) || str_eq(tag, "[conflict]") {
            // solver bookkeeping: accepted without effect
            return Ok(LineOutcome::Proceed);
        }
        // an unrecognized tag is skipped, reported so a front end can log it
        Ok(LineOutcome::Skipped)
    }

    /// How a whole run relates a starting state to a final one, working
    /// down the records from position `i`: the parse either runs out of
    /// records and finishes, is interrupted between two records with no
    /// instantiation open and the state untouched since, or consumes the
    /// record at `i` under `line_step` and goes on — stopping right there
    /// when that record announced the end of the trace or failed.
    pub open spec fn run_from(
        pre: Z3Parser1,
        post: Z3Parser1,
        lines: Seq<Seq<char>>,
        i: int,
        r: Result<ParseStatus, (usize, ParseError)>,
    ) -> bool
        decreases lines.len() - i,
            when 0 <= i <= lines.len()
    {
        if i >= lines.len() {
            r == Ok::<ParseStatus, (usize, ParseError)>(ParseStatus::Finished) && post == pre
        } else {
            ||| (r == Ok::<ParseStatus, (usize, ParseError)>(ParseStatus::Interrupted) && post
                == pre && pre.inst_stack@.len() == 0)
            ||| (exists|mid: Z3Parser1, lr: Result<LineOutcome, ParseError>|
                #[trigger] Self::line_step(pre, mid, lines[i], i as usize, lr) && match lr {
                    Ok(LineOutcome::Proceed) => Self::run_from(mid, post, lines, i + 1, r),
                    Ok(LineOutcome::Skipped) => Self::run_from(mid, post, lines, i + 1, r),
                    Ok(LineOutcome::Eof) => r == Ok::<ParseStatus, (usize, ParseError)>(
                        ParseStatus::Finished,
                    ) && post == mid,
                    Err(e) => r == Err::<ParseStatus, (usize, ParseError)>((i as usize, e))
                        && post == mid,
                })
        }
    }

    /// Runs the dispatcher over a whole trace, polling the cancellation
    /// flag before each record: the result and final state are one run of
    /// the per-record transition over the given lines. An interruption
    /// takes effect only between records and only once no instantiation is
    /// open; a malformed or dangling record aborts the parse with its line
    /// index.
    #[verifier::rlimit(100)]
    pub fn main_parse_loop(&mut self, lines: &Vec<String>) -> (r: Result<
        ParseStatus,
        (usize, ParseError),
    >)
        requires
            old(self).wf(),
            old(self).line_fresh(1),
        ensures
            final(self).wf(),
            Self::run_from(*old(self), *final(self), lines.deep_view(), 0, r),
            match r {
                Ok(st) => st == ParseStatus::Interrupted ==> final(self).inst_stack@.len() == 0,
                Err(p) => p.0 < lines@.len(),
            },
    {
        let ghost linesd = lines.deep_view();
        let n = lines.len();
        let mut line_no: usize = 0;
        proof {
            assert(linesd.len() == lines@.len());
        }
        while line_no < n
            invariant
                line_no <= n,
                n == lines@.len(),
                n == linesd.len(),
                linesd == lines.deep_view(),
                self.wf(),
                self.line_fresh(line_no + 1),
                forall|post2: Z3Parser1, r2: Result<ParseStatus, (usize, ParseError)>|
                    #[trigger] Self::run_from(*self, post2, linesd, line_no as int, r2)
                        ==> Self::run_from(*old(self), post2, linesd, 0, r2),
            decreases n - line_no,
        {
            let ghost pre_iter = *self;
            if !self.should_continue() {
                proof {
                    assert(Self::run_from(
                        pre_iter,
                        pre_iter,
                        linesd,
                        line_no as int,
                        Ok::<ParseStatus, (usize, ParseError)>(ParseStatus::Interrupted),
                    ));
                }
                return Ok(ParseStatus::Interrupted);
            }
            proof {
                assert(lines@[line_no as int]@ == linesd[line_no as int]);
            }
            let outcome = self.parse_line(lines[line_no].as_str(), line_no);
            proof {
                assert(Self::line_step(pre_iter, *self, linesd[line_no as int], line_no, outcome));
                assert(Self::line_step(
                    pre_iter,
                    *self,
                    linesd[line_no as int],
                    ((line_no as int) as usize),
                    outcome,
                ));
            }
            match outcome {
                Ok(LineOutcome::Proceed) => {
                    proof {
                        lemma_run_prepend(pre_iter, *self, linesd, line_no, *old(self), outcome);
                    }
                },
                Ok(LineOutcome::Skipped) => {
                    proof {
                        lemma_run_prepend(pre_iter, *self, linesd, line_no, *old(self), outcome);
                    }
                },
                Ok(LineOutcome::Eof) => {
                    proof {
                        assert(Self::run_from(
                            pre_iter,
                            *self,
                            linesd,
                            line_no as int,
                            Ok::<ParseStatus, (usize, ParseError)>(ParseStatus::Finished),
                        ));
                    }
                    return Ok(ParseStatus::Finished);
                },
                Err(e) => {
                    proof {
                        assert(Self::run_from(
                            pre_iter,
                            *self,
                            linesd,
                            line_no as int,
                            Err::<ParseStatus, (usize, ParseError)>((line_no, e)),
                        ));
                    }
                    return Err((line_no, e));
                },
            }
            line_no += 1;
        }
        proof {
            assert(Self::run_from(
                *self,
                *self,
                linesd,
                line_no as int,
                Ok::<ParseStatus, (usize, ParseError)>(ParseStatus::Finished),
            ));
        }
        Ok(ParseStatus::Finished)
    }
}

/// A run from the next record extends to a run from this one, through the
/// record this step consumed.
proof fn lemma_run_prepend(
    pre: Z3Parser1,
    mid: Z3Parser1,
    lines: Seq<Seq<char>>,
    i: usize,
    orig: Z3Parser1,
    lr: Result<LineOutcome, ParseError>,
)
    requires
        i < lines.len(),
        Z3Parser1::line_step(pre, mid, lines[i as int], i, lr),
        lr == Ok::<LineOutcome, ParseError>(LineOutcome::Proceed) || lr == Ok::<
            LineOutcome,
            ParseError,
        >(LineOutcome::Skipped),
        forall|post2: Z3Parser1, r2: Result<ParseStatus, (usize, ParseError)>|
            #[trigger] Z3Parser1::run_from(pre, post2, lines, i as int, r2)
                ==> Z3Parser1::run_from(orig, post2, lines, 0, r2),
    ensures
        forall|post2: Z3Parser1, r2: Result<ParseStatus, (usize, ParseError)>|
            #[trigger] Z3Parser1::run_from(mid, post2, lines, i + 1, r2) ==> Z3Parser1::run_from(
                orig,
                post2,
                lines,
                0,
                r2,
            ),
{
    assert forall|post2: Z3Parser1, r2: Result<ParseStatus, (usize, ParseError)>|
        #[trigger] Z3Parser1::run_from(mid, post2, lines, i + 1, r2) implies Z3Parser1::run_from(
        orig,
        post2,
        lines,
        0,
        r2,
    ) by {
        assert(Z3Parser1::run_from(pre, post2, lines, i as int, r2)) by {
            assert(Z3Parser1::line_step(pre, mid, lines[i as int], ((i as int) as usize), lr));
            assert(Z3Parser1::line_step(pre, mid, lines[i as int], i, lr) && match lr {
                Ok(LineOutcome::Proceed) => Z3Parser1::run_from(mid, post2, lines, i + 1, r2),
                Ok(LineOutcome::Skipped) => Z3Parser1::run_from(mid, post2, lines, i + 1, r2),
                Ok(LineOutcome::Eof) => r2 == Ok::<ParseStatus, (usize, ParseError)>(
                    ParseStatus::Finished,
                ) && post2 == mid,
                Err(e) => r2 == Err::<ParseStatus, (usize, ParseError)>((i, e)) && post2 == mid,
            });
        }
    }
}

/// Lifts a handler result to a dispatch outcome: success goes on to the
/// next record, an error is passed through.
fn outcome_of(r: Result<(), ParseError>) -> (o: Result<LineOutcome, ParseError>)
    ensures
        r is Ok ==> o == Ok::<LineOutcome, ParseError>(LineOutcome::Proceed),
        r is Err ==> o == Err::<LineOutcome, ParseError>(r->Err_0),
{
    match r {
        Ok(()) => Ok(LineOutcome::Proceed),
        Err(e) => Err(e),
    }
}

/// True when `s` reads exactly the token `w`.
fn str_eq(s: &String, w: &str) -> (r: bool)
    ensures
        r == (s@ == w@),
{
    let mut probe = String::new();
    probe.append(w);
    *s == probe
}

} // verus!
