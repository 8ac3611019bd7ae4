use vstd::prelude::*;

use crate::chain::{assign, cascade, rebound, with_joint_position, ChainModel, NodeModel};
use crate::joint::{is_refusal_of, mimic_position_spec, JointError, Mimic};

verus! {

/// A node that mimics no other and has no followers takes a position
/// exactly when it lies inside its limits, and any position when it has
/// none; on success it holds that position.
pub proof fn lemma_limits_decide(m: ChainModel, i: int, p: int)
    requires
        m.wf(),
        0 <= i < m.nodes.len(),
        !m.nodes[i].joint.joint_type.is_fixed(),
        m.nodes[i].mimic_parent is None,
        m.nodes[i].mimic_children.len() == 0,
    ensures
        assign(m.nodes, i, p).1 is None <==> match m.nodes[i].joint.limits {
            Some(l) => l.min <= p && p <= l.max,
            None => true,
        },
        assign(m.nodes, i, p).1 is None ==> assign(m.nodes, i, p).0[i].joint.position == p,
{
}

/// A fixed node that mimics no other refuses every position, changes
/// nothing, and the only error it can give is `NotMovable`.
pub proof fn lemma_fixed_refuses(m: ChainModel, i: int, p: int)
    requires
        m.wf(),
        0 <= i < m.nodes.len(),
        m.nodes[i].joint.joint_type.is_fixed(),
        m.nodes[i].mimic_parent is None,
    ensures
        assign(m.nodes, i, p) == (m.nodes, Some(i as usize)),
        forall|e: JointError| is_refusal_of(e, m.nodes[i].joint) ==> e is NotMovable,
{
}

proof fn lemma_cascade_last(nodes: Seq<NodeModel>, es: Seq<(usize, Mimic)>, x: int)
    requires
        es.len() > 0,
        cascade(nodes, es, x).1 is None,
        es.last().0 < nodes.len(),
    ensures
        cascade(nodes, es, x).0[es.last().0 as int].joint.position == mimic_position_spec(es.last().1, x),
    decreases es.len(),
{
    let c = es[0].0;
    let v = mimic_position_spec(es[0].1, x);
    let next = with_joint_position(nodes, c as int, v);
    if es.len() == 1 {
        assert(es.drop_first().len() == 0);
    } else {
        assert(es.drop_first().last() == es.last());
        lemma_cascade_last(next, es.drop_first(), x);
    }
}

proof fn lemma_cascade_keeps_mimic_links(nodes: Seq<NodeModel>, es: Seq<(usize, Mimic)>, x: int, j: int)
    ensures
        cascade(nodes, es, x).0.len() == nodes.len(),
        0 <= j < nodes.len() ==> cascade(nodes, es, x).0[j].mimic_parent == nodes[j].mimic_parent,
    decreases es.len(),
{
    if es.len() > 0 {
        let c = es[0].0;
        let v = mimic_position_spec(es[0].1, x);
        lemma_cascade_keeps_mimic_links(with_joint_position(nodes, c as int, v), es.drop_first(), x, j);
    }
}

/// Once `c` is made to mimic `p` with `mm`, an assignment of `x` to `p`
/// that succeeds (and `p` mimics no other node) leaves `c` at the mimic
/// position of `x`; an assignment to `c` afterwards changes nothing and
/// succeeds.
pub proof fn lemma_mimic_follows(m: ChainModel, c: usize, p: usize, mm: Mimic, x: int, y: int)
    requires
        m.wf(),
        c < m.nodes.len(),
        p < m.nodes.len(),
        rebound(m.nodes, c, p, mm)[p as int].mimic_parent is None,
        assign(rebound(m.nodes, c, p, mm), p as int, x).1 is None,
    ensures
        ({
            let after = assign(rebound(m.nodes, c, p, mm), p as int, x).0;
            &&& after[c as int].joint.position == mimic_position_spec(mm, x)
            &&& assign(after, c as int, y) == (after, None::<usize>)
        }),
{
    let n1 = rebound(m.nodes, c, p, mm);
    match m.nodes[c as int].mimic_parent {
        Some(q) => assert(q < m.nodes.len()),
        None => {},
    }
    assert(n1.len() == m.nodes.len());
    let es = n1[p as int].mimic_children;
    assert(es.last() == (c, mm));
    assert(n1[p as int].joint.accepts(x));
    let start = with_joint_position(n1, p as int, x);
    lemma_cascade_last(start, es, x);
    lemma_cascade_keeps_mimic_links(start, es, x, c as int);
    assert(n1[c as int].mimic_parent == Some(p));
}

/// In the traversal order every node comes after its structural parent,
/// and the parent slots name where that parent stands.
pub proof fn lemma_parents_first(m: ChainModel, k: int)
    requires
        m.wf(),
        0 <= k < m.order.len(),
    ensures
        m.parent_slots.len() == m.order.len(),
        m.order[k] < m.nodes.len(),
        m.nodes[m.order[k] as int].parent is None <==> m.parent_slots[k] is None,
        m.nodes[m.order[k] as int].parent is Some ==> {
            let j = m.parent_slots[k]->0 as int;
            0 <= j < k && m.order[j] == m.nodes[m.order[k] as int].parent->0
        },
{
}

} // verus!
