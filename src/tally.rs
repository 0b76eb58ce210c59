//! Sums of a node field over the members of a queue.
use vstd::prelude::*;
use crate::node_list::Node;

verus! {

/// The node field that a sum adds up.
pub enum Tally {
    Weight,
    Freq,
    /// The weight of a slot that holds a value, zero for one that does not.
    LiveWeight,
}

pub open spec fn tally_of(n: Node, t: Tally) -> int {
    match t {
        Tally::Weight => n.weight as int,
        Tally::Freq => n.freq as int,
        Tally::LiveWeight => if n.data@.len() > 0 {
            n.weight as int
        } else {
            0
        },
    }
}

/// The sum of field `t` over the slots listed in `s`.
pub open spec fn tally(nodes: Seq<Node>, s: Seq<usize>, t: Tally) -> int
    decreases s.len(),
{
    if s.len() == 0 {
        0
    } else {
        tally(nodes, s.drop_last(), t) + tally_of(nodes[s.last() as int], t)
    }
}

/// The total weight of the slots listed in `s` that hold a value.
pub open spec fn live_weight_sum(nodes: Seq<Node>, s: Seq<usize>) -> int {
    tally(nodes, s, Tally::LiveWeight)
}

/// When every listed slot holds a value, its live weight is its weight.
pub proof fn lemma_live_weight_full(nodes: Seq<Node>, s: Seq<usize>)
    requires
        forall|i: int| 0 <= i < s.len() ==> (#[trigger] nodes[s[i] as int]).data@.len() > 0,
    ensures
        live_weight_sum(nodes, s) == weight_sum(nodes, s),
    decreases s.len(),
{
    if s.len() > 0 {
        assert forall|i: int| 0 <= i < s.drop_last().len() implies (#[trigger] nodes[s.drop_last()[i] as int]).data@.len() > 0 by {
            assert(s.drop_last()[i] == s[i]);
        }
        lemma_live_weight_full(nodes, s.drop_last());
        assert(nodes[s[s.len() - 1] as int].data@.len() > 0);
    }
}

/// The total weight of the slots listed in `s`.
pub open spec fn weight_sum(nodes: Seq<Node>, s: Seq<usize>) -> int {
    tally(nodes, s, Tally::Weight)
}

pub proof fn lemma_tally_push(nodes: Seq<Node>, s: Seq<usize>, x: usize, t: Tally)
    ensures
        tally(nodes, s.push(x), t) == tally(nodes, s, t) + tally_of(nodes[x as int], t),
{
    assert(s.push(x).drop_last() =~= s);
}

pub proof fn lemma_tally_nonneg(nodes: Seq<Node>, s: Seq<usize>, t: Tally)
    ensures
        tally(nodes, s, t) >= 0,
    decreases s.len(),
{
    if s.len() > 0 {
        lemma_tally_nonneg(nodes, s.drop_last(), t);
    }
}

/// Taking the `j`-th member out takes its field out of the sum.
pub proof fn lemma_tally_remove(nodes: Seq<Node>, s: Seq<usize>, j: int, t: Tally)
    requires
        0 <= j < s.len(),
    ensures
        tally(nodes, s, t) == tally(nodes, s.remove(j), t) + tally_of(nodes[s[j] as int], t),
    decreases s.len(),
{
    if j == s.len() - 1 {
        assert(s.remove(j) =~= s.drop_last());
    } else {
        lemma_tally_remove(nodes, s.drop_last(), j, t);
        assert(s.remove(j).drop_last() =~= s.drop_last().remove(j));
        assert(s.remove(j).last() == s.last());
    }
}

/// The sum only reads the fields of the listed slots.
pub proof fn lemma_tally_frame(a: Seq<Node>, b: Seq<Node>, s: Seq<usize>, t: Tally)
    requires
        forall|i: int| 0 <= i < s.len() ==> tally_of(#[trigger] a[s[i] as int], t) == tally_of(b[s[i] as int], t),
    ensures
        tally(a, s, t) == tally(b, s, t),
    decreases s.len(),
{
    if s.len() > 0 {
        assert forall|i: int| 0 <= i < s.drop_last().len() implies tally_of(
            #[trigger] a[s.drop_last()[i] as int],
            t,
        ) == tally_of(b[s.drop_last()[i] as int], t) by {
            assert(s.drop_last()[i] == s[i]);
        }
        lemma_tally_frame(a, b, s.drop_last(), t);
        assert(tally_of(a[s[s.len() - 1] as int], t) == tally_of(b[s[s.len() - 1] as int], t));
    }
}

} // verus!
