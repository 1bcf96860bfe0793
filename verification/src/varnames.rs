//! The `attach-var-names` handler: extracting a quantifier's variable
//! names and sorts from the raw record text.
//!
//! The wire format writes variable slots in one of two grammars, scanned
//! over the whole line: positional `(;sort)` groups, whose variables are
//! named `qvar_0, qvar_1, …`, and named `(|name| ; |sort|)` groups. A sort
//! or name is a non-empty run of characters other than a space or its
//! closing delimiter.

use vstd::prelude::*;

use crate::ident::id_key;
use crate::parser::{ParseError, Z3Parser1};
use crate::text::dec_digits;

verus! {

/// The first position at or after `i` whose character is a space or `stop`,
/// or the text length.
pub open spec fn run_end(s: Seq<char>, i: int, stop: char) -> int
    decreases s.len() - i,
        when 0 <= i
{
    if i >= s.len() {
        s.len() as int
    } else if s[i] == ' ' || s[i] == stop {
        i
    } else {
        run_end(s, i + 1, stop)
    }
}

pub proof fn lemma_run_end(s: Seq<char>, i: int, stop: char)
    requires
        0 <= i <= s.len(),
    ensures
        i <= run_end(s, i, stop) <= s.len(),
    decreases s.len() - i,
{
    if i < s.len() && s[i] != ' ' && s[i] != stop {
        lemma_run_end(s, i + 1, stop);
    }
}

/// A forward-scan run end agrees with `run_end`.
pub proof fn lemma_run_end_agrees(s: Seq<char>, i: int, stop: char, e: int)
    requires
        0 <= i <= e <= s.len(),
        forall|j: int| i <= j < e ==> s[j] != ' ' && s[j] != stop,
        e < s.len() ==> s[e] == ' ' || s[e] == stop,
    ensures
        run_end(s, i, stop) == e,
    decreases e - i,
{
    if i < e {
        lemma_run_end_agrees(s, i + 1, stop, e);
    }
}

/// The largest position in `[from, to)` holding a `)`, or `from - 1` when
/// there is none.
pub open spec fn last_close_before(s: Seq<char>, from: int, to: int) -> int
    decreases to - from,
        when from <= to
{
    if to <= from {
        from - 1
    } else if s[to - 1] == ')' {
        to - 1
    } else {
        last_close_before(s, from, to - 1)
    }
}

pub proof fn lemma_last_close_before(s: Seq<char>, from: int, to: int)
    requires
        from <= to,
    ensures
        from - 1 <= last_close_before(s, from, to) < to || to <= from,
        last_close_before(s, from, to) >= from ==> s[last_close_before(s, from, to)] == ')',
        forall|k: int| last_close_before(s, from, to) < k < to ==> s[k] != ')',
    decreases to - from,
{
    if to > from && s[to - 1] != ')' {
        lemma_last_close_before(s, from, to - 1);
    }
}

/// A last-occurrence position established by backward scan agrees with
/// `last_close_before`.
pub proof fn lemma_last_close_agrees(s: Seq<char>, from: int, to: int, q: int)
    requires
        from <= to,
        from - 1 <= q < to || (q == from - 1 && to <= from),
        q >= from ==> s[q] == ')',
        forall|k: int| q < k < to ==> s[k] != ')',
    ensures
        last_close_before(s, from, to) == q,
    decreases to - from,
{
    if to > from && s[to - 1] != ')' {
        lemma_last_close_agrees(s, from, to - 1, q);
    }
}

/// The sorts of the positional `(;sort)` groups of `s`, scanning from `p`:
/// at `(;` the sort runs greedily up to the last `)` of the following
/// non-space run (so a sort may itself contain `)`), and the scan resumes
/// after that delimiter; anything else moves one character on.
pub open spec fn scan_positional(s: Seq<char>, p: int) -> Seq<Seq<char>>
    decreases s.len() - p,
        when 0 <= p
        via scan_positional_decreases
{
    if p + 2 >= s.len() {
        Seq::empty()
    } else if s[p] == '(' && s[p + 1] == ';' {
        let e = run_end(s, p + 2, ' ');
        let q = last_close_before(s, p + 2, e);
        if q > p + 2 {
            seq![s.subrange(p + 2, q)] + scan_positional(s, q + 1)
        } else {
            scan_positional(s, p + 1)
        }
    } else {
        scan_positional(s, p + 1)
    }
}

#[via_fn]
proof fn scan_positional_decreases(s: Seq<char>, p: int) {
    if 0 <= p && p + 2 < s.len() && s[p] == '(' && s[p + 1] == ';' {
        lemma_run_end(s, p + 2, ' ');
        lemma_last_close_before(s, p + 2, run_end(s, p + 2, ' '));
    }
}

/// The `(name, sort)` pairs of the named `(|name| ; |sort|)` groups of `s`,
/// scanning from `p`: the name and sort are non-empty runs delimited by
/// `|`, separated by ` ; ` and closed by `)`.
pub open spec fn scan_named(s: Seq<char>, p: int) -> Seq<(Seq<char>, Seq<char>)>
    decreases s.len() - p,
        when 0 <= p
{
    if p + 2 >= s.len() {
        Seq::empty()
    } else if s[p] == '(' && s[p + 1] == '|' {
        let ne = run_end(s, p + 2, '|');
        if ne > p + 2 && ne + 4 < s.len() && s[ne] == '|' && s[ne + 1] == ' ' && s[ne + 2] == ';'
            && s[ne + 3] == ' ' && s[ne + 4] == '|' {
            let se = run_end(s, ne + 5, '|');
            if se > ne + 5 && se + 1 < s.len() && s[se] == '|' && s[se + 1] == ')' {
                seq![(s.subrange(p + 2, ne), s.subrange(ne + 5, se))] + scan_named(s, se + 2)
            } else {
                scan_named(s, p + 1)
            }
        } else {
            scan_named(s, p + 1)
        }
    } else {
        scan_named(s, p + 1)
    }
}

/// The variable slots a record line denotes: the positional sorts under
/// their index names, then the named pairs.
pub open spec fn line_var_pairs(s: Seq<char>) -> Seq<(Seq<char>, Seq<char>)> {
    Seq::new(
        scan_positional(s, 0).len(),
        |i: int| ("qvar_"@ + dec_digits(i as nat), scan_positional(s, 0)[i]),
    ) + scan_named(s, 0)
}

/// Scans the positional groups of `line`.
fn collect_positional(line: &str) -> (r: Vec<String>)
    ensures
        r.deep_view() == scan_positional(line@, 0),
{
    let n = line.unicode_len();
    let mut out: Vec<String> = Vec::new();
    let mut p: usize = 0;
    proof {
        assert(out.deep_view() =~= Seq::<Seq<char>>::empty());
    }
    while n - p > 2
        invariant
            p <= n,
            n == line@.len(),
            scan_positional(line@, 0) =~= out.deep_view() + scan_positional(line@, p as int),
        decreases n - p,
    {
        if line.get_char(p) == '(' && line.get_char(p + 1) == ';' {
            // the maximal non-space run holding the sort
            let mut e: usize = p + 2;
            while e < n && line.get_char(e) != ' '
                invariant
                    p + 2 <= e <= n,
                    n == line@.len(),
                    forall|j: int| p + 2 <= j < e ==> line@[j] != ' ',
                decreases n - e,
            {
                e += 1;
            }
            proof {
                lemma_run_end_agrees(line@, p + 2, ' ', e as int);
            }
            // the greedy closing delimiter: the run's last `)`
            let mut q: usize = e;
            let mut found = false;
            while q > p + 2 && !found
                invariant
                    p + 2 <= q <= e,
                    n == line@.len(),
                    e <= n,
                    found ==> q >= p + 2 && q < e && line@[q as int] == ')',
                    found ==> forall|k: int| q < k < e ==> line@[k] != ')',
                    !found ==> forall|k: int| q <= k < e ==> line@[k] != ')',
                decreases q + (if found { 0int } else { 1int }),
            {
                if line.get_char(q - 1) == ')' {
                    q = q - 1;
                    found = true;
                } else {
                    q = q - 1;
                }
            }
            proof {
                if found {
                    lemma_last_close_agrees(line@, p + 2, e as int, q as int);
                } else {
                    lemma_last_close_agrees(line@, p + 2, e as int, p + 2 - 1);
                }
            }
            if found && q > p + 2 {
                let sort = line.substring_char(p + 2, q).to_owned();
                let ghost old_out = out.deep_view();
                out.push(sort);
                proof {
                    assert(out.deep_view() =~= old_out.push(line@.subrange(p + 2, q as int)));
                    assert(scan_positional(line@, p as int) =~= seq![line@.subrange(
                        p + 2,
                        q as int,
                    )] + scan_positional(line@, q + 1));
                    assert(scan_positional(line@, 0) =~= out.deep_view() + scan_positional(
                        line@,
                        q + 1,
                    ));
                }
                p = q + 1;
            } else {
                proof {
                    if found {
                        assert(scan_positional(line@, p as int) == scan_positional(
                            line@,
                            p + 1,
                        ));
                    }
                }
                p += 1;
            }
        } else {
            p += 1;
        }
    }
    proof {
        assert(scan_positional(line@, p as int) =~= Seq::<Seq<char>>::empty());
        assert(out.deep_view() =~= scan_positional(line@, 0));
    }
    out
}

/// Scans the named groups of `line`.
fn collect_named(line: &str) -> (r: Vec<(String, String)>)
    ensures
        r@.map_values(|q: (String, String)| crate::items::var_pair_view(q)) == scan_named(
            line@,
            0,
        ),
{
    let n = line.unicode_len();
    let mut out: Vec<(String, String)> = Vec::new();
    let mut p: usize = 0;
    proof {
        assert(out@.map_values(|q: (String, String)| crate::items::var_pair_view(q))
            =~= Seq::<(Seq<char>, Seq<char>)>::empty());
    }
    while n - p > 2
        invariant
            p <= n,
            n == line@.len(),
            scan_named(line@, 0) =~= out@.map_values(
                |q: (String, String)| crate::items::var_pair_view(q),
            ) + scan_named(line@, p as int),
        decreases n - p,
    {
        let mut advanced = false;
        if line.get_char(p) == '(' && line.get_char(p + 1) == '|' {
            let mut ne: usize = p + 2;
            while ne < n && line.get_char(ne) != ' ' && line.get_char(ne) != '|'
                invariant
                    p + 2 <= ne <= n,
                    n == line@.len(),
                    forall|j: int| p + 2 <= j < ne ==> line@[j] != ' ' && line@[j] != '|',
                decreases n - ne,
            {
                ne += 1;
            }
            proof {
                lemma_run_end_agrees(line@, p + 2, '|', ne as int);
            }
            if ne > p + 2 && n - ne > 4 && line.get_char(ne) == '|' && line.get_char(ne + 1) == ' '
                && line.get_char(ne + 2) == ';' && line.get_char(ne + 3) == ' ' && line.get_char(
                ne + 4,
            ) == '|' {
                let mut se: usize = ne + 5;
                while se < n && line.get_char(se) != ' ' && line.get_char(se) != '|'
                    invariant
                        ne + 5 <= se <= n,
                        n == line@.len(),
                        forall|j: int| ne + 5 <= j < se ==> line@[j] != ' ' && line@[j] != '|',
                    decreases n - se,
                {
                    se += 1;
                }
                proof {
                    lemma_run_end_agrees(line@, ne + 5, '|', se as int);
                }
                if se > ne + 5 && n - se > 1 && line.get_char(se) == '|' && line.get_char(se + 1)
                    == ')' {
                    let name = line.substring_char(p + 2, ne).to_owned();
                    let sort = line.substring_char(ne + 5, se).to_owned();
                    let ghost old_out = out@.map_values(
                        |q: (String, String)| crate::items::var_pair_view(q),
                    );
                    out.push((name, sort));
                    proof {
                        let f = |q: (String, String)| crate::items::var_pair_view(q);
                        assert(out@.map_values(f) =~= old_out.push(
                            (line@.subrange(p + 2, ne as int), line@.subrange(ne + 5, se as int)),
                        ));
                        assert(scan_named(line@, p as int) =~= seq![(line@.subrange(
                            p + 2,
                            ne as int,
                        ), line@.subrange(ne + 5, se as int))] + scan_named(line@, se + 2));
                        assert(scan_named(line@, 0) =~= out@.map_values(f) + scan_named(
                            line@,
                            se + 2,
                        ));
                    }
                    p = se + 2;
                    advanced = true;
                }
            }
        }
        if !advanced {
            p += 1;
        }
    }
    proof {
        assert(scan_named(line@, p as int) =~= Seq::<(Seq<char>, Seq<char>)>::empty());
        assert(out@.map_values(|q: (String, String)| crate::items::var_pair_view(q)) =~= scan_named(
            line@,
            0,
        ));
    }
    out
}

impl Z3Parser1 {
    /// What `attach_vars` guarantees, relating the states before and
    /// after one record over the raw line text.
    pub open spec fn attach_vars_post(
        pre: Z3Parser1,
        post: Z3Parser1,
        ld: Seq<Seq<char>>,
        l0: Seq<char>,
        r: Result<(), ParseError>,
    ) -> bool {
        match r {
            Ok(()) => {
                let key = id_key(ld[1]);
                &&& ld.len() >= 2
                &&& pre.quantifiers@.contains_key(key)
                &&& post.quantifiers@ == pre.quantifiers@.insert(key, post.quantifiers@[key])
                &&& {
                    let q = post.quantifiers@[key]@;
                    let q0 = pre.quantifiers@[key]@;
                    &&& q.vars == line_var_pairs(l0)
                    &&& q.vars_set
                    &&& q.num_vars == q0.num_vars
                    &&& q.name == q0.name
                    &&& q.term == q0.term
                    &&& q.cost == q0.cost
                    &&& q.instances == q0.instances
                }
                &&& post.same_but_quants(pre)
            },
            Err(e) => {
                &&& post == pre
                &&& (e == ParseError::MalformedRecord <==> ld.len() < 2)
                &&& (e == ParseError::ReferentialError <==> (ld.len() >= 2
                    && !pre.quantifiers@.contains_key(id_key(ld[1]))))
            },
        }
    }

    /// Attaches the variable names and sorts of a quantifier, extracted
    /// from the raw record line `l0` under the two slot grammars.
    pub fn attach_vars(&mut self, l: &Vec<String>, l0: &str) -> (r: Result<(), ParseError>)
        requires
            old(self).wf(),
        ensures
            final(self).wf(),
            Self::attach_vars_post(*old(self), *final(self), l.deep_view(), l0@, r),
    {
        let ghost ld = l.deep_view();
        if l.len() < 2 {
            return Err(ParseError::MalformedRecord);
        }
        if self.quantifiers.get(l[1].as_str()).is_none() {
            return Err(ParseError::ReferentialError);
        }
        let sorts = collect_positional(l0);
        let mut vars: Vec<(String, String)> = Vec::new();
        let k = sorts.len();
        let mut i: usize = 0;
        proof {
            assert(vars@.map_values(|q: (String, String)| crate::items::var_pair_view(q))
                =~= line_var_pairs(l0@).take(0));
        }
        while i < k
            invariant
                i <= k,
                k == scan_positional(l0@, 0).len(),
                sorts.deep_view() == scan_positional(l0@, 0),
                vars@.map_values(|q: (String, String)| crate::items::var_pair_view(q))
                    =~= line_var_pairs(l0@).take(i as int),
            decreases k - i,
        {
            let mut nm = String::new();
            proof {
                reveal_strlit("qvar_");
            }
            nm.append("qvar_");
            nm.append(crate::text::to_decimal(i).as_str());
            let ghost old_vars = vars@.map_values(
                |q: (String, String)| crate::items::var_pair_view(q),
            );
            vars.push((nm, sorts[i].clone()));
            proof {
                let f = |q: (String, String)| crate::items::var_pair_view(q);
                assert(vars@.map_values(f) =~= old_vars.push(
                    ("qvar_"@ + dec_digits(i as nat), scan_positional(l0@, 0)[i as int]),
                ));
                assert(line_var_pairs(l0@)[i as int] == ("qvar_"@ + dec_digits(i as nat), scan_positional(
                    l0@,
                    0,
                )[i as int]));
                assert(vars@.map_values(f) =~= line_var_pairs(l0@).take(i + 1));
            }
            i += 1;
        }
        let mut named = collect_named(l0);
        let ghost named_view = named@.map_values(
            |q: (String, String)| crate::items::var_pair_view(q),
        );
        let ghost pos_view = vars@.map_values(|q: (String, String)| crate::items::var_pair_view(q));
        vars.append(&mut named);
        proof {
            let f = |q: (String, String)| crate::items::var_pair_view(q);
            assert(vars@.map_values(f) =~= pos_view + named_view);
            assert(line_var_pairs(l0@).take(k as int) =~= Seq::new(
                scan_positional(l0@, 0).len(),
                |i: int| ("qvar_"@ + dec_digits(i as nat), scan_positional(l0@, 0)[i]),
            ));
            assert(vars@.map_values(f) =~= line_var_pairs(l0@));
        }
        let ghost vars_view = vars@.map_values(|q: (String, String)| crate::items::var_pair_view(q));
        match self.quantifiers.get_mut(l[1].as_str()) {
            Some(q) => {
                q.vars = vars;
                q.vars_set = true;
            },
            None => {
                proof {
                    assert(false);
                }
                return Err(ParseError::ReferentialError);
            },
        }
        proof {
            let key = id_key(ld[1]);
            assert(self.quantifiers@.contains_key(key));
            assert(self.quantifiers@[key]@.vars == vars_view);
            assert(vars_view == line_var_pairs(l0@));
            assert(self.quantifiers@[key]@.vars_set);
        }
        Ok(())
    }

    /// Everything of the state but the quantifier store is unchanged.
    pub open spec fn same_but_quants(&self, other: Z3Parser1) -> bool {
        &&& self.terms == other.terms
        &&& self.matches == other.matches
        &&& self.instantiations == other.instantiations
        &&& self.inst_stack == other.inst_stack
        &&& self.temp_dependencies == other.temp_dependencies
        &&& self.eq_expls == other.eq_expls
        &&& self.fingerprints == other.fingerprints
        &&& self.dependencies == other.dependencies
        &&& self.version_info == other.version_info
        &&& self.continue_parsing == other.continue_parsing
    }
}

} // verus!
