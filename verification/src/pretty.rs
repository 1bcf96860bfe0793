//! A readable one-line rendering of a term over the store: the node's name
//! and ordinal, with its operands rendered recursively in parentheses.

use vstd::prelude::*;

use crate::ident::id_key;
use crate::items::{Quantifier, QuantifierV, Term, TermV};
use crate::store::TwoDMap;
use crate::text::{dec_digits, spec_replace, to_decimal};

verus! {

/// Every operand of every stored term is itself stored, so a rendering
/// never meets a missing node.
pub open spec fn terms_closed(m: Map<(Seq<char>, int), Term>) -> bool {
    forall|k: (Seq<char>, int)| #[trigger] m.contains_key(k) ==> forall|j: int|
        0 <= j < m[k]@.child_ids.len() ==> m.contains_key(id_key(#[trigger] m[k]@.child_ids[j]))
}

/// The renderings of the operands named by `children`, from position `i`,
/// with `fuel` bounding the remaining depth.
pub open spec fn spec_pretty_children(
    m: Map<(Seq<char>, int), Term>,
    children: Seq<Seq<char>>,
    i: int,
    fuel: nat,
) -> Seq<Seq<char>>
    decreases fuel, children.len() - i, 0int,
{
    if i < 0 || i >= children.len() {
        Seq::empty()
    } else {
        seq![spec_pretty_text(m, m[id_key(children[i])]@, fuel)] + spec_pretty_children(
            m,
            children,
            i + 1,
            fuel,
        )
    }
}

/// The rendering of one term: `name[ordinal]`, with the operand renderings
/// joined in parentheses when there are any. `fuel` bounds the depth; a
/// node out of fuel renders without its operands.
pub open spec fn spec_pretty_text(m: Map<(Seq<char>, int), Term>, t: TermV, fuel: nat) -> Seq<char>
    decreases fuel, 0int, 0int,
{
    let plain = t.name + "["@ + dec_digits(t.id as nat) + "]"@;
    if fuel == 0 || t.child_ids.len() == 0 {
        plain
    } else {
        let joined = crate::construct::join_comma(
            spec_pretty_children(m, t.child_ids, 0, (fuel - 1) as nat),
        );
        if joined.len() > 0 {
            plain + "("@ + joined + ")"@
        } else {
            plain
        }
    }
}

impl Term {
    /// Renders this term over the store, operands in parentheses,
    /// recursively. `fuel` bounds the rendering depth: any value at least
    /// the term's height renders it in full, and the bound keeps the
    /// rendering total even on a malformed, cyclic store.
    pub fn pretty_text(&self, map: &TwoDMap<Term>, fuel: usize) -> (r: String)
        requires
            map.wf(),
            terms_closed(map@),
            forall|j: int|
                0 <= j < self@.child_ids.len() ==> map@.contains_key(
                    id_key(#[trigger] self@.child_ids[j]),
                ),
        ensures
            r@ == spec_pretty_text(map@, self@, fuel as nat),
        decreases fuel, 1int,
    {
        let mut plain = self.name.clone();
        plain.append("[");
        plain.append(to_decimal(self.id).as_str());
        plain.append("]");
        proof {
            assert(plain@ =~= self@.name + "["@ + dec_digits(self@.id as nat) + "]"@);
        }
        if fuel == 0 || self.child_ids.len() == 0 {
            return plain;
        }
        let n = self.child_ids.len();
        let mut texts: Vec<String> = Vec::new();
        let mut j: usize = 0;
        proof {
            assert(texts.deep_view() =~= Seq::<Seq<char>>::empty());
        }
        while j < n
            invariant
                j <= n,
                n == self@.child_ids.len(),
                fuel >= 1,
                map.wf(),
                terms_closed(map@),
                forall|q: int|
                    0 <= q < self@.child_ids.len() ==> map@.contains_key(
                        id_key(#[trigger] self@.child_ids[q]),
                    ),
                spec_pretty_children(map@, self@.child_ids, 0, (fuel - 1) as nat) =~= texts.deep_view()
                    + spec_pretty_children(map@, self@.child_ids, j as int, (fuel - 1) as nat),
            decreases n - j,
        {
            proof {
                assert(self@.child_ids[j as int] == self.child_ids@[j as int]@);
            }
            let child = match map.get(self.child_ids[j].as_str()) {
                Some(t) => t,
                None => {
                    proof {
                        assert(false);
                    }
                    return plain;
                },
            };
            proof {
                assert forall|q: int|
                    0 <= q < child@.child_ids.len() implies map@.contains_key(
                    id_key(#[trigger] child@.child_ids[q]),
                ) by {
                    assert(map@.contains_key(id_key(self@.child_ids[j as int])));
                }
            }
            let text = child.pretty_text(map, fuel - 1);
            let ghost pre = texts.deep_view();
            texts.push(text);
            proof {
                assert(texts.deep_view() =~= pre.push(
                    spec_pretty_text(map@, child@, (fuel - 1) as nat),
                ));
                assert(spec_pretty_children(map@, self@.child_ids, j as int, (fuel - 1) as nat)
                    =~= seq![spec_pretty_text(map@, child@, (fuel - 1) as nat)]
                    + spec_pretty_children(map@, self@.child_ids, j + 1, (fuel - 1) as nat));
            }
            j += 1;
        }
        proof {
            assert(spec_pretty_children(map@, self@.child_ids, n as int, (fuel - 1) as nat)
                =~= Seq::<Seq<char>>::empty());
            assert(texts.deep_view() =~= spec_pretty_children(
                map@,
                self@.child_ids,
                0,
                (fuel - 1) as nat,
            ));
        }
        let joined = crate::construct::join_strings(&texts);
        if joined.unicode_len() > 0 {
            let mut r = plain;
            r.append("(");
            r.append(joined.as_str());
            r.append(")");
            proof {
                assert(r@ =~= spec_pretty_text(map@, self@, fuel as nat));
            }
            r
        } else {
            plain
        }
    }
}


/// The rendering of one variable slot: `name: sort`.
pub open spec fn var_slot_text(v: (Seq<char>, Seq<char>)) -> Seq<char> {
    v.0 + ": "@ + v.1
}

/// The rendering after substituting the placeholder names `qvar_i .. ` (for
/// `i` up to `n`) by the variables' own names, in order.
pub open spec fn spec_substitute_vars(
    s: Seq<char>,
    vars: Seq<(Seq<char>, Seq<char>)>,
    i: int,
    n: int,
) -> Seq<char>
    decreases n - i,
{
    if i < 0 || i >= n {
        s
    } else {
        spec_substitute_vars(
            spec_replace(s, "qvar_"@ + dec_digits(i as nat), vars[i].0),
            vars,
            i + 1,
            n,
        )
    }
}

/// The readable rendering of a quantifier: `FORALL` with its variable
/// slots and its body term rendered over the store; placeholder variable
/// names are substituted by the attached names once those are set. A
/// quantifier with no body term renders as its name.
pub open spec fn spec_quant_pretty(
    m: Map<(Seq<char>, int), Term>,
    q: QuantifierV,
    fuel: nat,
) -> Seq<char> {
    if q.term != "N/A"@ {
        let base = "FORALL "@ + crate::construct::join_comma(
            Seq::new(q.vars.len(), |i: int| var_slot_text(q.vars[i])),
        ) + "("@ + spec_pretty_text(m, m[id_key(q.term)]@, fuel) + ")"@;
        if q.vars_set {
            spec_substitute_vars(base, q.vars, 0, q.num_vars as int)
        } else {
            base
        }
    } else {
        q.name
    }
}

impl Quantifier {
    /// Renders this quantifier over the store: its variable slots and its
    /// body, with placeholder variable names substituted once the real
    /// names are attached. `fuel` bounds the body's rendering depth, as in
    /// `Term::pretty_text`.
    pub fn pretty_text(&self, map: &TwoDMap<Term>, fuel: usize) -> (r: String)
        requires
            map.wf(),
            terms_closed(map@),
            self@.term != "N/A"@ ==> map@.contains_key(id_key(self@.term)),
            self@.num_vars <= self@.vars.len(),
        ensures
            r@ == spec_quant_pretty(map@, self@, fuel as nat),
    {
        let mut na = String::new();
        na.append("N/A");
        if self.term != na {
            // the variable slots
            let mut parts: Vec<String> = Vec::new();
            let vn = self.vars.len();
            let mut i: usize = 0;
            proof {
                assert(parts.deep_view() =~= Seq::new(
                    0,
                    |p: int| var_slot_text(self@.vars[p]),
                ));
            }
            while i < vn
                invariant
                    i <= vn,
                    vn == self@.vars.len(),
                    parts.deep_view() =~= Seq::new(
                        i as nat,
                        |p: int| var_slot_text(self@.vars[p]),
                    ),
                decreases vn - i,
            {
                let mut slot = self.vars[i].0.clone();
                slot.append(": ");
                slot.append(self.vars[i].1.as_str());
                let ghost old_parts = parts.deep_view();
                parts.push(slot);
                proof {
                    assert(self@.vars[i as int] == crate::items::var_pair_view(
                        self.vars@[i as int],
                    ));
                    assert(parts.deep_view() =~= old_parts.push(var_slot_text(
                        self@.vars[i as int],
                    )));
                    assert(parts.deep_view() =~= Seq::new(
                        (i + 1) as nat,
                        |p: int| var_slot_text(self@.vars[p]),
                    ));
                }
                i += 1;
            }
            let joined = crate::construct::join_strings(&parts);
            // the body term
            let body = match map.get(self.term.as_str()) {
                Some(t) => t,
                None => {
                    proof {
                        assert(false);
                    }
                    return String::new();
                },
            };
            proof {
                assert forall|q2: int|
                    0 <= q2 < body@.child_ids.len() implies map@.contains_key(
                    id_key(#[trigger] body@.child_ids[q2]),
                ) by {
                    assert(map@.contains_key(id_key(self@.term)));
                }
            }
            let body_text = body.pretty_text(map, fuel);
            let mut base = String::new();
            base.append("FORALL ");
            base.append(joined.as_str());
            base.append("(");
            base.append(body_text.as_str());
            base.append(")");
            let ghost base0 = "FORALL "@ + crate::construct::join_comma(
                Seq::new(self@.vars.len(), |p: int| var_slot_text(self@.vars[p])),
            ) + "("@ + spec_pretty_text(map@, map@[id_key(self@.term)]@, fuel as nat) + ")"@;
            proof {
                assert(base@ =~= base0);
            }
            if !self.vars_set {
                return base;
            }
            // substitute the placeholder names by the attached ones
            let n = self.num_vars;
            let mut k: usize = 0;
            let mut result = base;
            while k < n
                invariant
                    k <= n,
                    n == self@.num_vars,
                    n <= self@.vars.len(),
                    self@.vars == self.vars@.map_values(
                        |p2: (String, String)| crate::items::var_pair_view(p2),
                    ),
                    spec_substitute_vars(base0, self@.vars, 0, n as int) == spec_substitute_vars(
                        result@,
                        self@.vars,
                        k as int,
                        n as int,
                    ),
                decreases n - k,
            {
                let mut pat = String::new();
                proof {
                    reveal_strlit("qvar_");
                }
                pat.append("qvar_");
                pat.append(to_decimal(k).as_str());
                proof {
                    assert(pat@ =~= "qvar_"@ + dec_digits(k as nat));
                    assert(pat@.len() >= 1);
                }
                let ghost pre = result@;
                result = crate::text::replace_all(
                    result.as_str(),
                    pat.as_str(),
                    self.vars[k].0.as_str(),
                );
                proof {
                    assert(self@.vars[k as int] == crate::items::var_pair_view(
                        self.vars@[k as int],
                    ));
                    assert(result@ == spec_replace(
                        pre,
                        "qvar_"@ + dec_digits(k as nat),
                        self@.vars[k as int].0,
                    ));
                    assert(spec_substitute_vars(pre, self@.vars, k as int, n as int)
                        == spec_substitute_vars(result@, self@.vars, k + 1, n as int));
                }
                k += 1;
            }
            result
        } else {
            proof {
                assert(self@.term == "N/A"@);
            }
            self.name.clone()
        }
    }
}

} // verus!
