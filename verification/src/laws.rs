//! The library's standing guarantees, written out and proved.
//!
//! Each law is stated over the same spec functions the functions' own
//! contracts use, so a caller can rely on it without reading any body.

use vstd::prelude::*;

use crate::firing::{edges_or_sentinel, sentinel_edge, BlameAcc};
use crate::items::DepType;
use crate::parser::Z3Parser1;
use crate::rational::Rational;

verus! {

/// Causality: every finalized dependency edge with a derived source points
/// strictly forward in the trace, and none ever has an unset target. This
/// holds in every well-formed dispatcher state, so it holds after every
/// handler and after a whole parse, interrupted or not.
pub proof fn lemma_causal_order(p: Z3Parser1)
    requires
        p.wf(),
    ensures
        forall|i: int|
            0 <= i < p.dependencies@.len() ==> {
                let d = (#[trigger] p.dependencies@[i])@;
                &&& d.to >= 1
                &&& (d.from != 0 ==> d.from < d.to)
            },
{
}

/// No dangling edges on interruption: a well-formed state never holds a
/// permanent edge whose target is still the sentinel value 0; since
/// well-formedness is preserved by every handler and an interrupted parse
/// stops only between records, an interrupted parse leaves no half-built
/// edge in the permanent list.
pub proof fn lemma_no_dangling_edges(p: Z3Parser1)
    requires
        p.wf(),
    ensures
        forall|i: int| 0 <= i < p.dependencies@.len() ==> (#[trigger] p.dependencies@[i])@.to != 0,
{
}

/// Sentinel coverage: a match that derived no dependency edge buffers
/// exactly one sentinel edge carrying its quantifier, so the quantifier is
/// represented in the dependency relation at least once when the
/// instantiation closes.
pub proof fn lemma_sentinel_coverage(
    pre: Z3Parser1,
    post: Z3Parser1,
    line_no: usize,
    fp: u64,
    acc: BlameAcc,
    quant_id: Seq<char>,
    pattern_id: Seq<char>,
    bound: Seq<Seq<char>>,
    eq_ids: Seq<Seq<char>>,
)
    requires
        post.match_recorded(pre, line_no, fp, acc, quant_id, pattern_id, bound, eq_ids),
        acc.edges.len() == 0,
    ensures
        post.temp_dependencies@[(line_no + 1) as usize].deep_view() == seq![
            sentinel_edge(quant_id),
        ],
        sentinel_edge(quant_id).from == 0,
        sentinel_edge(quant_id).dep_type == DepType::Blank,
        sentinel_edge(quant_id).quant == quant_id,
{
    assert(edges_or_sentinel(acc.edges, quant_id) =~= seq![sentinel_edge(quant_id)]);
}

/// Conversely, a match that did derive blame buffers exactly its derived
/// edges and no sentinel.
pub proof fn lemma_no_spurious_sentinel(
    pre: Z3Parser1,
    post: Z3Parser1,
    line_no: usize,
    fp: u64,
    acc: BlameAcc,
    quant_id: Seq<char>,
    pattern_id: Seq<char>,
    bound: Seq<Seq<char>>,
    eq_ids: Seq<Seq<char>>,
)
    requires
        post.match_recorded(pre, line_no, fp, acc, quant_id, pattern_id, bound, eq_ids),
        acc.edges.len() > 0,
    ensures
        post.temp_dependencies@[(line_no + 1) as usize].deep_view() == acc.edges,
{
}

/// A buffered sentinel edge survives the close of its instantiation: once
/// the deferred edges move into the permanent list, an edge with no source
/// and the closing instantiation's line and quantifier stands there, so the
/// quantifier is represented in the finished dependency relation.
pub proof fn lemma_sentinel_survives_close(
    deps0: Seq<crate::items::DependencyV>,
    deps1: Seq<crate::items::DependencyV>,
    buf: Seq<crate::items::DependencyV>,
    line: usize,
    q: Seq<char>,
    j: int,
)
    requires
        deps1 == deps0 + buf.map_values(
            |d: crate::items::DependencyV| Z3Parser1::finalized_edge(d, line, q),
        ),
        0 <= j < buf.len(),
        buf[j].from == 0,
    ensures
        exists|i: int|
            0 <= i < deps1.len() && (#[trigger] deps1[i]).from == 0 && deps1[i].to == line
                && deps1[i].quant == q,
{
    let i = deps0.len() + j;
    assert(deps1[i as int] == buf.map_values(
        |d: crate::items::DependencyV| Z3Parser1::finalized_edge(d, line, q),
    )[j]);
    assert(deps1[i as int].from == 0 && deps1[i as int].to == line && deps1[i as int].quant == q);
}

/// Cost split: a cost divided evenly over two dependency lines hands each
/// of them exactly half, and the two halves add back to the original
/// value.
pub proof fn lemma_even_split(c: Rational)
    requires
        c.wf(),
    ensures
        ({
            let half = Rational { num: c.num, den: (c.den * 2) as u64 };
            c.div_fits(2) ==> {
                &&& half == Rational { num: c.spec_div(2).0 as u64, den: c.spec_div(2).1 as u64 }
                &&& (half.add_fits(half) ==> crate::costs::rat_sum(half, half).same_value(c))
            }
        }),
{
    let half = Rational { num: c.num, den: (c.den * 2) as u64 };
    if c.div_fits(2) && half.add_fits(half) {
        let s = crate::costs::rat_sum(half, half);
        assert(s.num == c.num + c.num && s.den == c.den * 2) by {
            assert(half.spec_add(half) == (half.num + half.num, half.den as int));
        }
        assert((c.num + c.num) * c.den == c.num * (c.den * 2)) by (nonlinear_arith);
        assert(s.same_value(c)) by {
            assert(s.num * c.den == c.num * s.den) by {
                assert(s.num == c.num + c.num && s.den == c.den * 2);
                assert((c.num + c.num) * c.den == c.num * (c.den * 2));
            }
        }
    }
}

/// Interruption safety: in a well-formed state the innermost open
/// instantiation is always finalized and its deferred-edge buffer exists,
/// so the close record that a pending stop waits for can always complete
/// it. Together with the dispatcher's rule of never stopping while the
/// stack is non-empty, an interrupted parse drains every open
/// instantiation first.
pub proof fn lemma_interrupt_waits_for_close(p: Z3Parser1)
    requires
        p.wf(),
        p.inst_stack@.len() > 0,
    ensures
        p.instantiations@.contains_key(p.inst_stack@.last().0),
        p.temp_dependencies@.contains_key(
            p.instantiations@[p.inst_stack@.last().0]@.match_line_no,
        ),
{
    assert(p.instantiations@.contains_key(
        p.inst_stack@[p.inst_stack@.len() - 1].0,
    ));
}

/// Store round trip: fetching an identifier right after inserting under it
/// returns the inserted entity, any identifier resolving to another key is
/// untouched, and a key never inserted stays absent.
pub proof fn lemma_store_round_trip<V>(
    m: Map<(Seq<char>, int), V>,
    id: Seq<char>,
    id2: Seq<char>,
    v: V,
)
    ensures
        m.insert(crate::ident::id_key(id), v)[crate::ident::id_key(id)] == v,
        m.insert(crate::ident::id_key(id), v).contains_key(crate::ident::id_key(id)),
        crate::ident::id_key(id2) != crate::ident::id_key(id) ==> m.insert(
            crate::ident::id_key(id),
            v,
        ).contains_key(crate::ident::id_key(id2)) == m.contains_key(crate::ident::id_key(id2)),
        !m.contains_key(crate::ident::id_key(id2)) && crate::ident::id_key(id2)
            != crate::ident::id_key(id) ==> !m.insert(
            crate::ident::id_key(id),
            v,
        ).contains_key(crate::ident::id_key(id2)),
{
}

} // verus!
