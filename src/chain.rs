use vstd::prelude::*;

use crate::joint::{
    fits_position, is_refusal_of, mimic_position_spec, Joint, JointError, JointModel, JointType, Mimic, Range,
};

verus! {

/// A node of the tree, as contracts see it. Nodes are named by their index
/// in the chain.
pub struct NodeModel {
    pub joint: JointModel,
    /// The structural parent.
    pub parent: Option<usize>,
    /// The structural children, in the order they were attached.
    pub children: Seq<usize>,
    /// The node whose position this one follows.
    pub mimic_parent: Option<usize>,
    /// The nodes that follow this one, each with its formula.
    pub mimic_children: Seq<(usize, Mimic)>,
}

/// One joint of a chain with its links to other nodes.
pub struct JointNode {
    joint: Joint,
    parent: Option<usize>,
    children: Vec<usize>,
    mimic_parent: Option<usize>,
    mimic_children: Vec<(usize, Mimic)>,
}

impl View for JointNode {
    type V = NodeModel;

    closed spec fn view(&self) -> NodeModel {
        NodeModel {
            joint: self.joint@,
            parent: self.parent,
            children: self.children@,
            mimic_parent: self.mimic_parent,
            mimic_children: self.mimic_children@,
        }
    }
}

impl JointNode {
    /// The name of the joint.
    pub fn name(&self) -> (r: String)
        ensures
            r@ == self@.joint.name,
    {
        self.joint.name()
    }

    /// The limits of the joint, if any.
    pub fn limits(&self) -> (r: Option<Range>)
        ensures
            r == self@.joint.limits,
    {
        self.joint.limits()
    }

    /// The position of the joint; none when it is fixed.
    pub fn position(&self) -> (r: Option<i64>)
        ensures
            r is Some <==> self@.joint.position_spec() is Some,
            r is Some ==> r->0 == self@.joint.position_spec()->0,
    {
        self.joint.position()
    }

    /// The kind of the joint.
    pub fn joint_type(&self) -> (r: JointType)
        ensures
            r == self@.joint.joint_type,
    {
        self.joint.joint_type()
    }

    /// Whether the joint has a position, i.e. is not fixed.
    pub fn has_position(&self) -> (r: bool)
        ensures
            r == !self@.joint.joint_type.is_fixed(),
    {
        self.joint.has_position()
    }

    /// The structural parent, if any.
    pub fn parent(&self) -> (r: Option<usize>)
        ensures
            r == self@.parent,
    {
        self.parent
    }

    /// The node this one mimics, if any.
    pub fn mimic_parent(&self) -> (r: Option<usize>)
        ensures
            r == self@.mimic_parent,
    {
        self.mimic_parent
    }
}

/// The children lists of all nodes.
pub open spec fn kids(nodes: Seq<NodeModel>) -> Seq<Seq<usize>> {
    Seq::new(nodes.len(), |i: int| nodes[i].children)
}

/// Depth-first, parent-first enumeration of the subtrees rooted at `cs`, in
/// list order; `lo` is the index of the node that lists them, and only
/// entries above it are followed.
pub open spec fn walk(kids: Seq<Seq<usize>>, cs: Seq<usize>, lo: int) -> Seq<usize>
    decreases kids.len() - lo, cs.len(),
{
    if cs.len() == 0 {
        Seq::empty()
    } else if lo < cs[0] && cs[0] < kids.len() {
        seq![cs[0]] + walk(kids, kids[cs[0] as int], cs[0] as int) + walk(kids, cs.drop_first(), lo)
    } else {
        walk(kids, cs.drop_first(), lo)
    }
}

/// The chain's traversal order: each root's subtree in turn, depth first,
/// children in the order they were attached.
pub open spec fn traversal(nodes: Seq<NodeModel>, roots: Seq<usize>) -> Seq<usize> {
    walk(kids(nodes), roots, -1)
}

/// `slots[k]` is the place in `order` of the structural parent of
/// `order[k]`, which comes before it; none for a root.
pub open spec fn slots_ok(nodes: Seq<NodeModel>, order: Seq<usize>, slots: Seq<Option<usize>>) -> bool {
    &&& slots.len() == order.len()
    &&& forall|k: int| 0 <= k < order.len() ==> #[trigger] order[k] < nodes.len()
    &&& forall|k: int| 0 <= k < order.len() ==> match #[trigger] slots[k] {
        Some(j) => j < k && nodes[order[k] as int].parent == Some(order[j as int]),
        None => nodes[order[k] as int].parent is None,
    }
}

/// The whole chain, as contracts see it.
pub struct ChainModel {
    pub nodes: Seq<NodeModel>,
    /// Nodes without a structural parent, in the order they were added.
    pub roots: Seq<usize>,
    /// The traversal order shared by bulk assignment and pose computation.
    pub order: Seq<usize>,
    /// For each place in `order`, the place of the structural parent.
    pub parent_slots: Seq<Option<usize>>,
}

impl ChainModel {
    pub open spec fn joint(&self, i: int) -> JointModel {
        self.nodes[i].joint
    }

    /// The tree and the mimic relation are consistent and the traversal
    /// order is up to date.
    pub open spec fn wf(&self) -> bool {
        &&& self.links_ok()
        &&& self.order == traversal(self.nodes, self.roots)
        &&& slots_ok(self.nodes, self.order, self.parent_slots)
    }

    /// Parents come before their children, children and roots agree with
    /// the parent links, and the mimic lists agree with the mimic links.
    pub open spec fn links_ok(&self) -> bool {
        let n = self.nodes.len();
        &&& forall|i: int| 0 <= i < n ==> match #[trigger] self.nodes[i].parent {
            Some(p) => p < i,
            None => true,
        }
        &&& forall|i: int, k: int| 0 <= i < n && 0 <= k < self.nodes[i].children.len() ==> {
            let c = #[trigger] self.nodes[i].children[k];
            i < c && c < n && self.nodes[c as int].parent == Some(i as usize)
        }
        &&& forall|k: int| 0 <= k < self.roots.len() ==> {
            let r = #[trigger] self.roots[k];
            r < n && self.nodes[r as int].parent is None
        }
        &&& forall|i: int| 0 <= i < n ==> match #[trigger] self.nodes[i].mimic_parent {
            Some(p) => p < n,
            None => true,
        }
        &&& forall|i: int, k: int| 0 <= i < n && 0 <= k < self.nodes[i].mimic_children.len() ==> {
            let c = (#[trigger] self.nodes[i].mimic_children[k]).0;
            c < n && self.nodes[c as int].mimic_parent == Some(i as usize)
        }
        &&& forall|c: int| 0 <= c < n && (#[trigger] self.nodes[c].mimic_parent) is Some ==> {
            let p = self.nodes[c].mimic_parent->0 as int;
            exists|k: int| 0 <= k < self.nodes[p].mimic_children.len() && (#[trigger] self.nodes[p].mimic_children[k]).0 == c
        }
    }
}

/// A tree of joints with a fixed traversal order.
pub struct Chain {
    nodes: Vec<JointNode>,
    roots: Vec<usize>,
    order: Vec<usize>,
    parent_slots: Vec<Option<usize>>,
}

impl View for Chain {
    type V = ChainModel;

    closed spec fn view(&self) -> ChainModel {
        ChainModel {
            nodes: self.nodes@.map_values(|n: JointNode| n@),
            roots: self.roots@,
            order: self.order@,
            parent_slots: self.parent_slots@,
        }
    }
}

impl Chain {
    /// Appends the subtree of `i` to `order` and `slots`; `parent_slot` is
    /// where the parent of `i` stands in `order`.
    fn visit(
        &self,
        i: usize,
        parent_slot: Option<usize>,
        order: &mut Vec<usize>,
        slots: &mut Vec<Option<usize>>,
    )
        requires
            self@.links_ok(),
            i < self@.nodes.len(),
            slots_ok(self@.nodes, old(order)@, old(slots)@),
            match parent_slot {
                Some(j) => j < old(order)@.len() && self@.nodes[i as int].parent == Some(
                    old(order)@[j as int],
                ),
                None => self@.nodes[i as int].parent is None,
            },
        ensures
            final(order)@ == old(order)@ + seq![i] + walk(kids(self@.nodes), self@.nodes[i as int].children, i as int),
            slots_ok(self@.nodes, final(order)@, final(slots)@),
            final(slots)@.subrange(0, old(slots)@.len() as int) == old(slots)@,
        decreases self@.nodes.len() - i,
    {
        let ghost nodes = self@.nodes;
        let ghost ks = kids(nodes);
        let ghost order0 = order@;
        let ghost slots0 = slots@;
        let me: usize = order.len();
        order.push(i);
        slots.push(parent_slot);
        assert(slots_ok(nodes, order@, slots@)) by {
            assert forall|k: int| 0 <= k < order@.len() implies match #[trigger] slots@[k] {
                Some(j) => j < k && nodes[order@[k] as int].parent == Some(order@[j as int]),
                None => nodes[order@[k] as int].parent is None,
            } by {
                if k < order0.len() {
                    assert(order@[k] == order0[k]);
                    assert(slots@[k] == slots0[k]);
                }
            }
            assert forall|k: int| 0 <= k < order@.len() implies #[trigger] order@[k] < nodes.len() by {
                if k < order0.len() {
                    assert(order@[k] == order0[k]);
                }
            }
        }
        let ghost cs = nodes[i as int].children;
        assert(self.nodes@[i as int]@.children == cs);
        let n: usize = self.nodes[i].children.len();
        let mut k: usize = 0;
        assert(cs.subrange(0, n as int) =~= cs);
        assert(order@ =~= order0 + seq![i]);
        while k < n
            invariant
                self@.links_ok(),
                nodes == self@.nodes,
                ks == kids(nodes),
                i < nodes.len(),
                cs == nodes[i as int].children,
                n == cs.len(),
                k <= n,
                me < order@.len(),
                order@[me as int] == i,
                slots_ok(nodes, order@, slots@),
                slots@.subrange(0, slots0.len() as int) == slots0,
                slots0.len() == me,
                order0 + seq![i] + walk(ks, cs, i as int) == order@ + walk(ks, cs.subrange(k as int, n as int), i as int),
            decreases n - k,
        {
            let c: usize = self.nodes[i].children[k];
            assert(c == cs[k as int]);
            assert(self@.nodes[i as int].children[k as int] == c);
            let ghost rest = cs.subrange(k as int, n as int);
            assert(rest[0] == c);
            assert(rest.drop_first() =~= cs.subrange(k + 1, n as int));
            assert(ks[c as int] == nodes[c as int].children);
            let ghost before = order@;
            let ghost slots_before = slots@;
            self.visit(c, Some(me), order, slots);
            assert(order@[me as int] == i) by {
                assert(order@.subrange(0, before.len() as int) =~= before);
            }
            assert(slots@.subrange(0, slots0.len() as int) =~= slots0) by {
                assert(slots@.subrange(0, slots_before.len() as int) == slots_before);
                assert forall|t: int| 0 <= t < slots0.len() implies slots@[t] == slots0[t] by {
                    assert(slots@.subrange(0, slots_before.len() as int)[t] == slots_before[t]);
                    assert(slots_before.subrange(0, slots0.len() as int)[t] == slots0[t]);
                }
            }
            assert(order@ + walk(ks, cs.subrange(k + 1, n as int), i as int) =~= before + walk(ks, rest, i as int));
            k = k + 1;
        }
        assert(cs.subrange(n as int, n as int) =~= Seq::<usize>::empty());
        assert(order@ =~= order0 + seq![i] + walk(ks, cs, i as int));
    }
}

/// The nodes after a node for `j` is added under `parent`: it takes the
/// next index and becomes the last child of `parent`.
pub open spec fn attached(nodes: Seq<NodeModel>, j: JointModel, parent: Option<usize>) -> Seq<NodeModel> {
    let fresh = NodeModel {
        joint: j,
        parent,
        children: Seq::empty(),
        mimic_parent: None,
        mimic_children: Seq::empty(),
    };
    match parent {
        Some(p) => nodes.update(
            p as int,
            NodeModel { children: nodes[p as int].children.push(nodes.len() as usize), ..nodes[p as int] },
        ).push(fresh),
        None => nodes.push(fresh),
    }
}

impl Chain {
    /// A chain without joints.
    pub fn new() -> (r: Chain)
        ensures
            r@.wf(),
            r@.nodes.len() == 0,
            r@.roots.len() == 0,
    {
        let r = Chain { nodes: Vec::new(), roots: Vec::new(), order: Vec::new(), parent_slots: Vec::new() };
        assert(r@.nodes =~= Seq::<NodeModel>::empty());
        assert(walk(kids(r@.nodes), r@.roots, -1) =~= Seq::<usize>::empty());
        r
    }

    /// The traversal order of the current tree, with the parent slots.
    fn compute_order(&self) -> (r: (Vec<usize>, Vec<Option<usize>>))
        requires
            self@.links_ok(),
        ensures
            r.0@ == traversal(self@.nodes, self@.roots),
            slots_ok(self@.nodes, r.0@, r.1@),
    {
        let ghost nodes = self@.nodes;
        let ghost ks = kids(nodes);
        let ghost rs = self@.roots;
        let mut order: Vec<usize> = Vec::new();
        let mut slots: Vec<Option<usize>> = Vec::new();
        let n: usize = self.roots.len();
        let mut k: usize = 0;
        assert(rs.subrange(0, n as int) =~= rs);
        assert(order@ + walk(ks, rs, -1) =~= walk(ks, rs, -1));
        while k < n
            invariant
                self@.links_ok(),
                nodes == self@.nodes,
                ks == kids(nodes),
                rs == self@.roots,
                n == rs.len(),
                k <= n,
                slots_ok(nodes, order@, slots@),
                walk(ks, rs, -1) == order@ + walk(ks, rs.subrange(k as int, n as int), -1),
            decreases n - k,
        {
            let r: usize = self.roots[k];
            let ghost rest = rs.subrange(k as int, n as int);
            assert(rest[0] == r);
            assert(rest.drop_first() =~= rs.subrange(k + 1, n as int));
            assert(ks[r as int] == nodes[r as int].children);
            let ghost before = order@;
            self.visit(r, None, &mut order, &mut slots);
            assert(order@ + walk(ks, rs.subrange(k + 1, n as int), -1) =~= before + walk(ks, rest, -1));
            k = k + 1;
        }
        assert(rs.subrange(n as int, n as int) =~= Seq::<usize>::empty());
        assert(order@ =~= walk(ks, rs, -1));
        (order, slots)
    }

    /// Adds a node for `joint` under `parent` (a root when none) and returns
    /// its index; the traversal order is rebuilt.
    pub fn add_joint(&mut self, joint: Joint, parent: Option<usize>) -> (id: usize)
        requires
            old(self)@.wf(),
            parent is Some ==> parent->0 < old(self)@.nodes.len(),
            old(self)@.nodes.len() < usize::MAX,
        ensures
            id == old(self)@.nodes.len(),
            final(self)@.wf(),
            final(self)@.nodes == attached(old(self)@.nodes, joint@, parent),
            final(self)@.roots == (if parent is None {
                old(self)@.roots.push(id)
            } else {
                old(self)@.roots
            }),
    {
        let ghost old_nodes = self@.nodes;
        let ghost jm = joint@;
        let id: usize = self.nodes.len();
        match parent {
            Some(p) => {
                self.nodes[p].children.push(id);
            },
            None => {
                self.roots.push(id);
            },
        }
        self.nodes.push(
            JointNode {
                joint,
                parent,
                children: Vec::new(),
                mimic_parent: None,
                mimic_children: Vec::new(),
            },
        );
        assert(self@.nodes =~= attached(old_nodes, jm, parent));
        proof {
            let nn = self@.nodes;
            assert forall|i: int| 0 <= i < nn.len() implies match #[trigger] nn[i].parent {
                Some(q) => q < i,
                None => true,
            } by {
                if i < id {
                    assert(nn[i].parent == old_nodes[i].parent);
                }
            }
            assert forall|i: int, k: int| 0 <= i < nn.len() && 0 <= k < nn[i].children.len() implies {
                let c = #[trigger] nn[i].children[k];
                i < c && c < nn.len() && nn[c as int].parent == Some(i as usize)
            } by {
                if parent == Some(i as usize) && k == old_nodes[i].children.len() {
                } else {
                    assert(nn[i].children[k] == old_nodes[i].children[k]);
                }
            }
            assert forall|k: int| 0 <= k < self@.roots.len() implies {
                let r = #[trigger] self@.roots[k];
                r < nn.len() && nn[r as int].parent is None
            } by {
                if k < old(self)@.roots.len() {
                    assert(self@.roots[k] == old(self)@.roots[k]);
                }
            }
            assert forall|i: int| 0 <= i < nn.len() implies match #[trigger] nn[i].mimic_parent {
                Some(q) => q < nn.len(),
                None => true,
            } by {
                if i < id {
                    assert(nn[i].mimic_parent == old_nodes[i].mimic_parent);
                }
            }
            assert forall|i: int, k: int| 0 <= i < nn.len() && 0 <= k < nn[i].mimic_children.len() implies {
                let c = (#[trigger] nn[i].mimic_children[k]).0;
                c < nn.len() && nn[c as int].mimic_parent == Some(i as usize)
            } by {
                assert(nn[i].mimic_children == old_nodes[i].mimic_children);
                let c = old_nodes[i].mimic_children[k].0;
                assert(nn[c as int].mimic_parent == old_nodes[c as int].mimic_parent);
            }
            assert forall|c: int| 0 <= c < nn.len() && (#[trigger] nn[c].mimic_parent) is Some implies {
                let p = nn[c].mimic_parent->0 as int;
                exists|k: int| 0 <= k < nn[p].mimic_children.len() && (#[trigger] nn[p].mimic_children[k]).0 == c
            } by {
                assert(nn[c].mimic_parent == old_nodes[c].mimic_parent);
                let p = nn[c].mimic_parent->0 as int;
                let k0 = choose|k: int| 0 <= k < old_nodes[p].mimic_children.len() && (#[trigger] old_nodes[p].mimic_children[k]).0 == c;
                assert(nn[p].mimic_children == old_nodes[p].mimic_children);
                assert(nn[p].mimic_children[k0].0 == c);
            }
        }
        let (order, slots) = self.compute_order();
        self.order = order;
        self.parent_slots = slots;
        id
    }
}

/// `es` without the entries for node `c`, order kept.
pub open spec fn drop_entries(es: Seq<(usize, Mimic)>, c: usize) -> Seq<(usize, Mimic)>
    decreases es.len(),
{
    if es.len() == 0 {
        Seq::empty()
    } else {
        let rest = drop_entries(es.drop_last(), c);
        if es.last().0 == c {
            rest
        } else {
            rest.push(es.last())
        }
    }
}

/// The nodes after `c` is made to mimic `p` with `m`: the entry of `c` on
/// its former mimic parent goes, and `(c, m)` is appended to the list of `p`.
pub open spec fn rebound(nodes: Seq<NodeModel>, c: usize, p: usize, m: Mimic) -> Seq<NodeModel> {
    let n1 = match nodes[c as int].mimic_parent {
        Some(q) => nodes.update(
            q as int,
            NodeModel { mimic_children: drop_entries(nodes[q as int].mimic_children, c), ..nodes[q as int] },
        ),
        None => nodes,
    };
    let n2 = n1.update(c as int, NodeModel { mimic_parent: Some(p), ..n1[c as int] });
    n2.update(p as int, NodeModel { mimic_children: n2[p as int].mimic_children.push((c, m)), ..n2[p as int] })
}

/// `b` differs from `a` at most in the links of the mimic relation and in
/// joint positions.
pub open spec fn same_tree(a: Seq<NodeModel>, b: Seq<NodeModel>) -> bool {
    &&& a.len() == b.len()
    &&& forall|i: int| 0 <= i < a.len() ==> {
        &&& (#[trigger] a[i]).parent == b[i].parent
        &&& a[i].children == b[i].children
        &&& a[i].joint.name == b[i].joint.name
        &&& a[i].joint.joint_type == b[i].joint.joint_type
        &&& a[i].joint.limits == b[i].joint.limits
    }
}

proof fn lemma_same_tree(a: ChainModel, b: ChainModel)
    requires
        a.wf(),
        same_tree(a.nodes, b.nodes),
        a.roots == b.roots,
        a.order == b.order,
        a.parent_slots == b.parent_slots,
    ensures
        traversal(a.nodes, a.roots) == traversal(b.nodes, b.roots),
        slots_ok(b.nodes, b.order, b.parent_slots),
{
    assert(kids(a.nodes) =~= kids(b.nodes));
    assert forall|k: int| 0 <= k < b.order.len() implies match #[trigger] b.parent_slots[k] {
        Some(j) => j < k && b.nodes[b.order[k] as int].parent == Some(b.order[j as int]),
        None => b.nodes[b.order[k] as int].parent is None,
    } by {
        assert(a.nodes[a.order[k] as int].parent == b.nodes[b.order[k] as int].parent);
    }
}

proof fn lemma_mimic_entry(m: ChainModel, i: int, k: int)
    requires
        m.links_ok(),
        0 <= i < m.nodes.len(),
        0 <= k < m.nodes[i].mimic_children.len(),
    ensures
        m.nodes[i].mimic_children[k].0 < m.nodes.len(),
        m.nodes[m.nodes[i].mimic_children[k].0 as int].mimic_parent == Some(i as usize),
{
}

/// After `node` has left its former mimic parent's list (giving `n1`), making
/// it follow `parent` keeps the chain well formed.
proof fn lemma_relink_wf(
    m0: ChainModel,
    n1: Seq<NodeModel>,
    mw: ChainModel,
    node: usize,
    parent: usize,
    mimic: Mimic,
)
    requires
        m0.wf(),
        node < m0.nodes.len(),
        parent < m0.nodes.len(),
        m0.nodes.len() <= usize::MAX,
        same_tree(m0.nodes, n1),
        forall|c: int| 0 <= c < m0.nodes.len() ==> (#[trigger] n1[c]).mimic_parent == m0.nodes[c].mimic_parent,
        forall|i: int, k: int| 0 <= i < m0.nodes.len() && 0 <= k < n1[i].mimic_children.len() ==> {
            let c = (#[trigger] n1[i].mimic_children[k]).0;
            c < m0.nodes.len() && c != node && m0.nodes[c as int].mimic_parent == Some(i as usize)
        },
        forall|c: int| 0 <= c < m0.nodes.len() && c != node && (#[trigger] m0.nodes[c].mimic_parent) is Some ==> {
            let p = m0.nodes[c].mimic_parent->0 as int;
            exists|k: int| 0 <= k < n1[p].mimic_children.len() && (#[trigger] n1[p].mimic_children[k]).0 == c
        },
        mw.nodes == ({
            let t = n1.update(node as int, NodeModel { mimic_parent: Some(parent), ..n1[node as int] });
            t.update(parent as int, NodeModel { mimic_children: t[parent as int].mimic_children.push((node, mimic)), ..t[parent as int] })
        }),
        mw.roots == m0.roots,
        mw.order == m0.order,
        mw.parent_slots == m0.parent_slots,
    ensures
        mw.wf(),
{
    let nw = mw.nodes;
    let n0 = m0.nodes;
    assert(same_tree(m0.nodes, mw.nodes)) by {
        assert forall|i: int| 0 <= i < nw.len() implies {
            &&& (#[trigger] n0[i]).parent == nw[i].parent
            &&& n0[i].children == nw[i].children
            &&& n0[i].joint.name == nw[i].joint.name
            &&& n0[i].joint.joint_type == nw[i].joint.joint_type
            &&& n0[i].joint.limits == nw[i].joint.limits
        } by {
            assert(n0[i].parent == n1[i].parent);
        }
    }
    lemma_same_tree(m0, mw);
    assert forall|i: int| 0 <= i < nw.len() implies match #[trigger] nw[i].parent {
        Some(p) => p < i,
        None => true,
    } by {
        assert(n0[i].parent == nw[i].parent);
    }
    assert forall|i: int, k: int| 0 <= i < nw.len() && 0 <= k < nw[i].children.len() implies {
        let c = #[trigger] nw[i].children[k];
        i < c && c < nw.len() && nw[c as int].parent == Some(i as usize)
    } by {
        assert(n0[i].children == nw[i].children);
        let c = nw[i].children[k];
        assert(n0[c as int].parent == nw[c as int].parent);
    }
    assert forall|k: int| 0 <= k < mw.roots.len() implies {
        let r = #[trigger] mw.roots[k];
        r < nw.len() && nw[r as int].parent is None
    } by {
        let r = mw.roots[k];
        assert(n0[r as int].parent == nw[r as int].parent);
    }
    assert forall|i: int| 0 <= i < nw.len() implies match #[trigger] nw[i].mimic_parent {
        Some(p) => p < nw.len(),
        None => true,
    } by {}
    assert forall|i: int, k: int| 0 <= i < nw.len() && 0 <= k < nw[i].mimic_children.len() implies {
        let c = (#[trigger] nw[i].mimic_children[k]).0;
        c < nw.len() && nw[c as int].mimic_parent == Some(i as usize)
    } by {
        let c = nw[i].mimic_children[k].0;
        if i == parent && k == nw[i].mimic_children.len() - 1 {
        } else {
            assert(nw[i].mimic_children[k] == n1[i].mimic_children[k]);
            assert(n1[c as int].mimic_parent == n0[c as int].mimic_parent);
        }
    }
    assert forall|c: int| 0 <= c < nw.len() && (#[trigger] nw[c].mimic_parent) is Some implies {
        let p = nw[c].mimic_parent->0 as int;
        exists|k: int| 0 <= k < nw[p].mimic_children.len() && (#[trigger] nw[p].mimic_children[k]).0 == c
    } by {
        if c == node {
            let last = nw[parent as int].mimic_children.len() - 1;
            assert(nw[parent as int].mimic_children[last].0 == c);
        } else {
            assert(n1[c].mimic_parent == n0[c].mimic_parent);
            assert(nw[c].mimic_parent == n0[c].mimic_parent);
            let p = nw[c].mimic_parent->0 as int;
            let k0 = choose|k: int| 0 <= k < n1[p].mimic_children.len() && (#[trigger] n1[p].mimic_children[k]).0 == c;
            assert(nw[p].mimic_children[k0] == n1[p].mimic_children[k0]);
        }
    }
}

impl Chain {
    /// Removes the entries for `node` from the list of its mimic parent.
    fn detach_mimic(&mut self, node: usize)
        requires
            old(self)@.wf(),
            node < old(self)@.nodes.len(),
        ensures
            final(self)@.roots == old(self)@.roots,
            final(self)@.order == old(self)@.order,
            final(self)@.parent_slots == old(self)@.parent_slots,
            final(self)@.nodes == (match old(self)@.nodes[node as int].mimic_parent {
                Some(q) => old(self)@.nodes.update(
                    q as int,
                    NodeModel {
                        mimic_children: drop_entries(old(self)@.nodes[q as int].mimic_children, node),
                        ..old(self)@.nodes[q as int]
                    },
                ),
                None => old(self)@.nodes,
            }),
            final(self)@.nodes.len() == old(self)@.nodes.len(),
            final(self)@.nodes.len() <= usize::MAX,
            forall|c: int| 0 <= c < old(self)@.nodes.len() ==> (#[trigger] final(self)@.nodes[c]).mimic_parent == old(self)@.nodes[c].mimic_parent,
            forall|i: int, k: int| 0 <= i < old(self)@.nodes.len() && 0 <= k < final(self)@.nodes[i].mimic_children.len() ==> {
                let c = (#[trigger] final(self)@.nodes[i].mimic_children[k]).0;
                c < old(self)@.nodes.len() && c != node && old(self)@.nodes[c as int].mimic_parent == Some(i as usize)
            },
            forall|c: int| 0 <= c < old(self)@.nodes.len() && c != node && (#[trigger] old(self)@.nodes[c].mimic_parent) is Some ==> {
                let p = old(self)@.nodes[c].mimic_parent->0 as int;
                exists|k: int| 0 <= k < final(self)@.nodes[p].mimic_children.len() && (#[trigger] final(self)@.nodes[p].mimic_children[k]).0 == c
            },
    {
        let ghost n0 = self@.nodes;
        let ghost nn = n0.len();
        let nlen: usize = self.nodes.len();
        assert(nn == nlen);
        match self.nodes[node].mimic_parent {
            Some(q) => {
                assert(self.nodes@[node as int]@ == n0[node as int]);
                assert(n0[node as int].mimic_parent == Some(q));
                let len: usize = self.nodes[q].mimic_children.len();
                let ghost es = n0[q as int].mimic_children;
                assert(self.nodes@[q as int]@.mimic_children == es);
                let mut kept: Vec<(usize, Mimic)> = Vec::new();
                let mut k: usize = 0;
                while k < len
                    invariant
                        self@.nodes == n0,
                        self@.links_ok(),
                        nn == n0.len(),
                        nn == nlen,
                        q < nn,
                        node < nn,
                        es == n0[q as int].mimic_children,
                        len == es.len(),
                        k <= len,
                        kept@ == drop_entries(es.subrange(0, k as int), node),
                        forall|t: int| 0 <= t < k && (#[trigger] es[t]).0 != node ==> exists|u: int|
                            0 <= u < kept@.len() && #[trigger] kept@[u] == es[t],
                        forall|t: int| 0 <= t < kept@.len() ==> {
                            let c = (#[trigger] kept@[t]).0;
                            c != node && c < nn && n0[c as int].mimic_parent == Some(q)
                        },
                    decreases len - k,
                {
                    let e: (usize, Mimic) = self.nodes[q].mimic_children[k];
                    assert(e == es[k as int]);
                    assert(es.subrange(0, k + 1).drop_last() =~= es.subrange(0, k as int));
                    let ghost kept0 = kept@;
                    if e.0 != node {
                        kept.push(e);
                    }
                    assert forall|t: int| 0 <= t < k + 1 && (#[trigger] es[t]).0 != node implies exists|u: int|
                        0 <= u < kept@.len() && #[trigger] kept@[u] == es[t] by {
                        if t < k {
                            let u0 = choose|u: int| 0 <= u < kept0.len() && #[trigger] kept0[u] == es[t];
                            assert(kept@[u0] == kept0[u0]);
                        } else {
                            assert(kept@[kept0.len() as int] == es[t]);
                        }
                    }
                    k = k + 1;
                }
                assert(es.subrange(0, len as int) =~= es);
                let ghost kv = kept@;
                assert(forall|t: int| 0 <= t < len && (#[trigger] es[t]).0 != node ==> exists|u: int|
                    0 <= u < kv.len() && #[trigger] kv[u] == es[t]);
                assert(forall|t: int| 0 <= t < kv.len() ==> {
                    let c = (#[trigger] kv[t]).0;
                    c != node && c < nn && n0[c as int].mimic_parent == Some(q)
                });
                self.nodes[q].mimic_children = kept;
                proof {
                    let n1 = self@.nodes;
                    assert forall|i: int, k: int| 0 <= i < nn && 0 <= k < n1[i].mimic_children.len() implies {
                        let c = (#[trigger] n1[i].mimic_children[k]).0;
                        c < nn && c != node && n0[c as int].mimic_parent == Some(i as usize)
                    } by {
                        if i != q {
                            assert(n1[i].mimic_children[k] == n0[i].mimic_children[k]);
                            assert(old(self)@.links_ok());
                            assert(old(self)@.nodes == n0);
                            lemma_mimic_entry(old(self)@, i, k);
                            let c = n0[i].mimic_children[k].0;
                            assert(n0[c as int].mimic_parent == Some(i as usize));
                            assert(c != node);
                        } else {
                            assert(n1[i].mimic_children[k] == kv[k]);
                            let c = kv[k].0;
                            assert(c != node && c < nn && n0[c as int].mimic_parent == Some(q));
                        }
                    }
                    assert forall|c: int| 0 <= c < nn && c != node && (#[trigger] n0[c].mimic_parent) is Some implies {
                        let p = n0[c].mimic_parent->0 as int;
                        exists|k: int| 0 <= k < n1[p].mimic_children.len() && (#[trigger] n1[p].mimic_children[k]).0 == c
                    } by {
                        assert(old(self)@.wf());
                        assert(old(self)@.nodes[c].mimic_parent is Some);
                        let p = n0[c].mimic_parent->0 as int;
                        let k0 = choose|k: int| 0 <= k < n0[p].mimic_children.len() && (#[trigger] n0[p].mimic_children[k]).0 == c;
                        if p == q {
                            assert(es[k0].0 == c);
                            let u = choose|u: int| 0 <= u < kv.len() && #[trigger] kv[u] == es[k0];
                            assert(n1[p].mimic_children[u].0 == c);
                        } else {
                            assert(n1[p].mimic_children[k0].0 == c);
                        }
                    }
                }
            },
            None => {
                assert(self@.nodes =~= n0);
            },
        }
        proof {
            let n1 = self@.nodes;
            assert forall|c: int| 0 <= c < nn implies (#[trigger] n1[c]).mimic_parent == n0[c].mimic_parent by {}
        }
    }

    /// Makes `node` follow `parent` through `mimic`. A former mimic parent
    /// loses its entry for `node`.
    pub fn set_mimic_parent(&mut self, node: usize, parent: usize, mimic: Mimic)
        requires
            old(self)@.wf(),
            node < old(self)@.nodes.len(),
            parent < old(self)@.nodes.len(),
        ensures
            final(self)@.wf(),
            final(self)@.nodes == rebound(old(self)@.nodes, node, parent, mimic),
            final(self)@.roots == old(self)@.roots,
            final(self)@.order == old(self)@.order,
            final(self)@.parent_slots == old(self)@.parent_slots,
    {
        let ghost n0 = self@.nodes;
        let ghost nn = n0.len();
        self.detach_mimic(node);
        let ghost n1 = self@.nodes;
        assert(same_tree(n0, n1)) by {
            assert forall|i: int| 0 <= i < n0.len() implies {
                &&& (#[trigger] n0[i]).parent == n1[i].parent
                &&& n0[i].children == n1[i].children
                &&& n0[i].joint.name == n1[i].joint.name
                &&& n0[i].joint.joint_type == n1[i].joint.joint_type
                &&& n0[i].joint.limits == n1[i].joint.limits
            } by {}
        }
        self.nodes[node].mimic_parent = Some(parent);
        self.nodes[parent].mimic_children.push((node, mimic));
        proof {
            let t = n1.update(node as int, NodeModel { mimic_parent: Some(parent), ..n1[node as int] });
            assert(self@.nodes =~= t.update(
                parent as int,
                NodeModel { mimic_children: t[parent as int].mimic_children.push((node, mimic)), ..t[parent as int] },
            ));
            assert(self@.nodes =~= rebound(n0, node, parent, mimic));
            lemma_relink_wf(old(self)@, n1, self@, node, parent, mimic);
        }
    }
}

/// The nodes with the joint of node `i` at position `v`.
pub open spec fn with_joint_position(nodes: Seq<NodeModel>, i: int, v: int) -> Seq<NodeModel> {
    if 0 <= i < nodes.len() {
        nodes.update(i, NodeModel { joint: nodes[i].joint.with_position(v), ..nodes[i] })
    } else {
        nodes
    }
}

/// Whether node `i` takes position `v`: its joint accepts it and a
/// position can hold it.
pub open spec fn takes(nodes: Seq<NodeModel>, i: int, v: int) -> bool {
    fits_position(v) && nodes[i].joint.accepts(v)
}

/// Writes the dependent positions for driver position `p` through `entries`
/// in turn. Gives the nodes afterwards and the first node that refused, at
/// which the writing stopped.
pub open spec fn cascade(nodes: Seq<NodeModel>, entries: Seq<(usize, Mimic)>, p: int) -> (
    Seq<NodeModel>,
    Option<usize>,
)
    decreases entries.len(),
{
    if entries.len() == 0 {
        (nodes, None)
    } else {
        let c = entries[0].0;
        let v = mimic_position_spec(entries[0].1, p);
        if takes(nodes, c as int, v) {
            cascade(with_joint_position(nodes, c as int, v), entries.drop_first(), p)
        } else {
            (nodes, Some(c))
        }
    }
}

/// What assigning `p` to node `i` does: nothing for a node that mimics
/// another; otherwise its joint takes `p` or refuses, and on success its
/// mimic children follow. Gives the nodes afterwards and the node that
/// refused, if one did.
pub open spec fn assign(nodes: Seq<NodeModel>, i: int, p: int) -> (Seq<NodeModel>, Option<usize>) {
    if nodes[i].mimic_parent is Some {
        (nodes, None)
    } else if !nodes[i].joint.accepts(p) {
        (nodes, Some(i as usize))
    } else {
        cascade(with_joint_position(nodes, i, p), nodes[i].mimic_children, p)
    }
}

proof fn lemma_position_keeps_tree(m: ChainModel, b: ChainModel, i: int, v: int)
    requires
        m.wf(),
        0 <= i < m.nodes.len(),
        b == (ChainModel { nodes: with_joint_position(m.nodes, i, v), ..m }),
    ensures
        b.wf(),
        same_tree(m.nodes, b.nodes),
{
    let nw = b.nodes;
    let n0 = m.nodes;
    assert forall|j: int| 0 <= j < nw.len() implies {
        &&& (#[trigger] n0[j]).parent == nw[j].parent
        &&& n0[j].children == nw[j].children
        &&& n0[j].joint.name == nw[j].joint.name
        &&& n0[j].joint.joint_type == nw[j].joint.joint_type
        &&& n0[j].joint.limits == nw[j].joint.limits
    } by {}
    lemma_same_tree(m, b);
    assert forall|j: int| 0 <= j < nw.len() implies match #[trigger] nw[j].parent {
        Some(p) => p < j,
        None => true,
    } by {
        assert(n0[j].parent == nw[j].parent);
    }
    assert forall|j: int, k: int| 0 <= j < nw.len() && 0 <= k < nw[j].children.len() implies {
        let c = #[trigger] nw[j].children[k];
        j < c && c < nw.len() && nw[c as int].parent == Some(j as usize)
    } by {
        assert(n0[j].children == nw[j].children);
        let c = nw[j].children[k];
        assert(n0[c as int].parent == nw[c as int].parent);
    }
    assert forall|k: int| 0 <= k < b.roots.len() implies {
        let r = #[trigger] b.roots[k];
        r < nw.len() && nw[r as int].parent is None
    } by {
        let r = b.roots[k];
        assert(n0[r as int].parent == nw[r as int].parent);
    }
    assert forall|j: int| 0 <= j < nw.len() implies match #[trigger] nw[j].mimic_parent {
        Some(p) => p < nw.len(),
        None => true,
    } by {
        assert(n0[j].mimic_parent == nw[j].mimic_parent);
    }
    assert forall|j: int, k: int| 0 <= j < nw.len() && 0 <= k < nw[j].mimic_children.len() implies {
        let c = (#[trigger] nw[j].mimic_children[k]).0;
        c < nw.len() && nw[c as int].mimic_parent == Some(j as usize)
    } by {
        assert(n0[j].mimic_children == nw[j].mimic_children);
        lemma_mimic_entry(m, j, k);
        let c = nw[j].mimic_children[k].0;
        assert(n0[c as int].mimic_parent == nw[c as int].mimic_parent);
    }
    assert forall|c: int| 0 <= c < nw.len() && (#[trigger] nw[c].mimic_parent) is Some implies {
        let p = nw[c].mimic_parent->0 as int;
        exists|k: int| 0 <= k < nw[p].mimic_children.len() && (#[trigger] nw[p].mimic_children[k]).0 == c
    } by {
        assert(nw[c].mimic_parent == n0[c].mimic_parent);
        let p = nw[c].mimic_parent->0 as int;
        let k0 = choose|k: int| 0 <= k < n0[p].mimic_children.len() && (#[trigger] n0[p].mimic_children[k]).0 == c;
        assert(nw[p].mimic_children == n0[p].mimic_children);
        assert(nw[p].mimic_children[k0].0 == c);
    }
}

impl Chain {
    /// Sets the joint of node `i` to `v` and keeps everything else.
    fn write_position(&mut self, i: usize, v: i64) -> (r: Result<(), JointError>)
        requires
            old(self)@.wf(),
            i < old(self)@.nodes.len(),
        ensures
            final(self)@.wf(),
            r is Ok <==> takes(old(self)@.nodes, i as int, v as int),
            r is Ok ==> final(self)@ == (ChainModel {
                nodes: with_joint_position(old(self)@.nodes, i as int, v as int),
                ..old(self)@
            }),
            r is Err ==> final(self)@ == old(self)@,
            r is Err ==> is_refusal_of(r->Err_0, old(self)@.nodes[i as int].joint),
    {
        let ghost m = self@;
        let r = self.nodes[i].joint.set_position(v);
        if r.is_ok() {
            assert(self@.nodes =~= with_joint_position(m.nodes, i as int, v as int));
            proof {
                lemma_position_keeps_tree(m, self@, i as int, v as int);
            }
        } else {
            assert(self@.nodes =~= m.nodes);
        }
        r
    }

    /// Assigns `p` to node `i`. A node that mimics another is left as it is
    /// and the call succeeds. Otherwise the joint takes `p` (or refuses with
    /// `NotMovable` or `OutOfLimits`), then each of its mimic children in
    /// turn takes its derived position; the first refusal stops the
    /// cascade, and what was written before it stays.
    pub fn set_position(&mut self, i: usize, p: i64) -> (r: Result<(), JointError>)
        requires
            old(self)@.wf(),
            i < old(self)@.nodes.len(),
        ensures
            final(self)@.wf(),
            final(self)@ == (ChainModel { nodes: assign(old(self)@.nodes, i as int, p as int).0, ..old(self)@ }),
            same_tree(old(self)@.nodes, final(self)@.nodes),
            r is Ok <==> assign(old(self)@.nodes, i as int, p as int).1 is None,
            r is Err ==> is_refusal_of(
                r->Err_0,
                final(self)@.nodes[assign(old(self)@.nodes, i as int, p as int).1->0 as int].joint,
            ),
    {
        let ghost m0 = self@;
        assert(self.nodes@[i as int]@ == m0.nodes[i as int]);
        if self.nodes[i].mimic_parent.is_some() {
            return Ok(());
        }
        let first = self.write_position(i, p);
        if first.is_err() {
            return first;
        }
        let ghost es = m0.nodes[i as int].mimic_children;
        let ghost total = cascade(self@.nodes, es, p as int);
        let len: usize = self.nodes[i].mimic_children.len();
        let mut k: usize = 0;
        assert(es.subrange(0, len as int) =~= es);
        while k < len
            invariant
                self@.wf(),
                m0 == old(self)@,
                total == assign(m0.nodes, i as int, p as int),
                self@.roots == m0.roots,
                self@.order == m0.order,
                self@.parent_slots == m0.parent_slots,
                same_tree(m0.nodes, self@.nodes),
                i < self@.nodes.len(),
                self@.nodes[i as int].mimic_children == es,
                len == es.len(),
                k <= len,
                total == cascade(self@.nodes, es.subrange(k as int, len as int), p as int),
            decreases len - k,
        {
            assert(self.nodes@[i as int]@ == self@.nodes[i as int]);
            let (c, mm) = self.nodes[i].mimic_children[k];
            let ghost rest = es.subrange(k as int, len as int);
            assert(rest[0] == (c, mm));
            assert(rest.drop_first() =~= es.subrange(k + 1, len as int));
            proof {
                lemma_mimic_entry(self@, i as int, k as int);
            }
            let ghost before = self@;
            match mm.mimic_position(p) {
                Some(v) => {
                    let w = self.write_position(c, v);
                    if w.is_err() {
                        assert(!takes(before.nodes, c as int, mimic_position_spec(mm, p as int)));
                        assert(cascade(before.nodes, rest, p as int) == (before.nodes, Some(c)));
                        return w;
                    }
                    assert(cascade(before.nodes, rest, p as int) == cascade(
                        self@.nodes,
                        es.subrange(k + 1, len as int),
                        p as int,
                    ));
                    assert(same_tree(m0.nodes, self@.nodes)) by {
                        assert forall|j: int| 0 <= j < m0.nodes.len() implies {
                            &&& (#[trigger] m0.nodes[j]).parent == self@.nodes[j].parent
                            &&& m0.nodes[j].children == self@.nodes[j].children
                            &&& m0.nodes[j].joint.name == self@.nodes[j].joint.name
                            &&& m0.nodes[j].joint.joint_type == self@.nodes[j].joint.joint_type
                            &&& m0.nodes[j].joint.limits == self@.nodes[j].joint.limits
                        } by {
                            assert(before.nodes[j].parent == m0.nodes[j].parent);
                        }
                    }
                },
                None => {
                    assert(self.nodes@[c as int]@ == self@.nodes[c as int]);
                    let name = self.nodes[c].joint.name();
                    assert(!takes(before.nodes, c as int, mimic_position_spec(mm, p as int)));
                    assert(cascade(before.nodes, rest, p as int) == (before.nodes, Some(c)));
                    if self.nodes[c].joint.has_position() {
                        return Err(JointError::OutOfLimits { name });
                    } else {
                        return Err(JointError::NotMovable { name });
                    }
                },
            }
            k = k + 1;
        }
        assert(es.subrange(len as int, len as int) =~= Seq::<(usize, Mimic)>::empty());
        Ok(())
    }
}

/// How many of `ids` name joints that are not fixed.
pub open spec fn movable_count(nodes: Seq<NodeModel>, ids: Seq<usize>) -> nat
    decreases ids.len(),
{
    if ids.len() == 0 {
        0
    } else {
        (if nodes[ids[0] as int].joint.joint_type.is_fixed() {
            0nat
        } else {
            1nat
        }) + movable_count(nodes, ids.drop_first())
    }
}

/// The positions of the joints of `ids` that are not fixed, in order.
pub open spec fn movable_positions(nodes: Seq<NodeModel>, ids: Seq<usize>) -> Seq<int>
    decreases ids.len(),
{
    if ids.len() == 0 {
        Seq::empty()
    } else if nodes[ids[0] as int].joint.joint_type.is_fixed() {
        movable_positions(nodes, ids.drop_first())
    } else {
        seq![nodes[ids[0] as int].joint.position] + movable_positions(nodes, ids.drop_first())
    }
}

/// Assigns `values` in turn to the joints of `ids` that are not fixed, as
/// `assign` does, until one refuses.
pub open spec fn assign_all(nodes: Seq<NodeModel>, ids: Seq<usize>, values: Seq<i64>) -> (
    Seq<NodeModel>,
    Option<usize>,
)
    decreases ids.len(),
{
    if ids.len() == 0 {
        (nodes, None)
    } else if nodes[ids[0] as int].joint.joint_type.is_fixed() {
        assign_all(nodes, ids.drop_first(), values)
    } else if values.len() == 0 {
        (nodes, None)
    } else {
        let s = assign(nodes, ids[0] as int, values[0] as int);
        if s.1 is Some {
            s
        } else {
            assign_all(s.0, ids.drop_first(), values.drop_first())
        }
    }
}

proof fn lemma_same_tree_trans(a: Seq<NodeModel>, b: Seq<NodeModel>, c: Seq<NodeModel>)
    requires
        same_tree(a, b),
        same_tree(b, c),
    ensures
        same_tree(a, c),
{
    assert forall|i: int| 0 <= i < a.len() implies {
        &&& (#[trigger] a[i]).parent == c[i].parent
        &&& a[i].children == c[i].children
        &&& a[i].joint.name == c[i].joint.name
        &&& a[i].joint.joint_type == c[i].joint.joint_type
        &&& a[i].joint.limits == c[i].joint.limits
    } by {
        assert(a[i].parent == b[i].parent);
        assert(b[i].parent == c[i].parent);
    }
}

proof fn lemma_movable_count_same_tree(a: Seq<NodeModel>, b: Seq<NodeModel>, ids: Seq<usize>)
    requires
        same_tree(a, b),
        forall|k: int| 0 <= k < ids.len() ==> #[trigger] ids[k] < a.len(),
    ensures
        movable_count(a, ids) == movable_count(b, ids),
    decreases ids.len(),
{
    if ids.len() > 0 {
        assert(a[ids[0] as int].parent == b[ids[0] as int].parent);
        assert forall|k: int| 0 <= k < ids.drop_first().len() implies #[trigger] ids.drop_first()[k] < a.len() by {
            assert(ids.drop_first()[k] == ids[k + 1]);
        }
        lemma_movable_count_same_tree(a, b, ids.drop_first());
    }
}

impl Chain {
    /// The number of nodes.
    pub fn len(&self) -> (r: usize)
        ensures
            r == self@.nodes.len(),
    {
        self.nodes.len()
    }

    /// The node at index `i`.
    pub fn node(&self, i: usize) -> (r: &JointNode)
        requires
            i < self@.nodes.len(),
        ensures
            r@ == self@.nodes[i as int],
    {
        &self.nodes[i]
    }

    /// The traversal order: node indices, each root's subtree in turn,
    /// parents before their children.
    pub fn traversal_order(&self) -> (r: Vec<usize>)
        ensures
            r@ == self@.order,
    {
        let mut r: Vec<usize> = Vec::new();
        let mut k: usize = 0;
        while k < self.order.len()
            invariant
                k <= self.order@.len(),
                r@ == self.order@.subrange(0, k as int),
            decreases self.order@.len() - k,
        {
            r.push(self.order[k]);
            k = k + 1;
            assert(r@ =~= self.order@.subrange(0, k as int));
        }
        assert(self.order@.subrange(0, k as int) =~= self.order@);
        r
    }

    /// For each place in the traversal order, the place of the structural
    /// parent, which comes earlier; none for a root.
    pub fn parent_slots(&self) -> (r: Vec<Option<usize>>)
        ensures
            r@ == self@.parent_slots,
    {
        let mut r: Vec<Option<usize>> = Vec::new();
        let mut k: usize = 0;
        while k < self.parent_slots.len()
            invariant
                k <= self.parent_slots@.len(),
                r@ == self.parent_slots@.subrange(0, k as int),
            decreases self.parent_slots@.len() - k,
        {
            r.push(self.parent_slots[k]);
            k = k + 1;
            assert(r@ =~= self.parent_slots@.subrange(0, k as int));
        }
        assert(self.parent_slots@.subrange(0, k as int) =~= self.parent_slots@);
        r
    }

    /// The number of joints that are not fixed: the length bulk assignment
    /// expects.
    pub fn dof(&self) -> (r: usize)
        requires
            self@.wf(),
        ensures
            r == movable_count(self@.nodes, self@.order),
    {
        let ghost nodes = self@.nodes;
        let ghost ord = self@.order;
        let n: usize = self.order.len();
        let mut count: usize = 0;
        let mut k: usize = 0;
        assert(ord.subrange(0, n as int) =~= ord);
        while k < n
            invariant
                self@.wf(),
                nodes == self@.nodes,
                ord == self@.order,
                n == ord.len(),
                k <= n,
                count <= k,
                movable_count(nodes, ord) == count + movable_count(nodes, ord.subrange(k as int, n as int)),
            decreases n - k,
        {
            let id: usize = self.order[k];
            assert(ord[k as int] == id);
            assert(id < nodes.len());
            assert(self.nodes@[id as int]@ == nodes[id as int]);
            let ghost rest = ord.subrange(k as int, n as int);
            assert(rest[0] == id);
            assert(rest.drop_first() =~= ord.subrange(k + 1, n as int));
            if self.nodes[id].joint.has_position() {
                count = count + 1;
            }
            k = k + 1;
        }
        count
    }

    /// The positions of the joints that are not fixed, in traversal order.
    pub fn joint_positions(&self) -> (r: Vec<i64>)
        requires
            self@.wf(),
        ensures
            r@.map_values(|v: i64| v as int) == movable_positions(self@.nodes, self@.order),
    {
        let ghost nodes = self@.nodes;
        let ghost ord = self@.order;
        let n: usize = self.order.len();
        let mut r: Vec<i64> = Vec::new();
        let mut k: usize = 0;
        assert(ord.subrange(0, n as int) =~= ord);
        assert(r@.map_values(|v: i64| v as int) =~= Seq::<int>::empty());
        while k < n
            invariant
                self@.wf(),
                nodes == self@.nodes,
                ord == self@.order,
                n == ord.len(),
                k <= n,
                movable_positions(nodes, ord) == r@.map_values(|v: i64| v as int) + movable_positions(
                    nodes,
                    ord.subrange(k as int, n as int),
                ),
            decreases n - k,
        {
            let id: usize = self.order[k];
            assert(ord[k as int] == id);
            assert(id < nodes.len());
            assert(self.nodes@[id as int]@ == nodes[id as int]);
            let ghost rest = ord.subrange(k as int, n as int);
            assert(rest[0] == id);
            assert(rest.drop_first() =~= ord.subrange(k + 1, n as int));
            let ghost before = r@.map_values(|v: i64| v as int);
            match self.nodes[id].joint.position() {
                Some(v) => {
                    r.push(v);
                    assert(r@.map_values(|v: i64| v as int) =~= before.push(v as int));
                    assert(before.push(v as int) + movable_positions(nodes, rest.drop_first()) =~= before + (
                    seq![v as int] + movable_positions(nodes, rest.drop_first())));
                },
                None => {},
            }
            k = k + 1;
        }
        assert(ord.subrange(n as int, n as int) =~= Seq::<usize>::empty());
        assert(r@.map_values(|v: i64| v as int) + Seq::<int>::empty() =~= r@.map_values(|v: i64| v as int));
        r
    }

    /// Assigns `values` to the joints that are not fixed, in traversal
    /// order, each as `set_position` does. A count other than `dof()` is
    /// refused with `LengthMismatch` before anything is written; otherwise
    /// the first refusal stops the assignment and what was written before
    /// it stays.
    pub fn set_joint_positions(&mut self, values: &Vec<i64>) -> (r: Result<(), JointError>)
        requires
            old(self)@.wf(),
        ensures
            final(self)@.wf(),
            values@.len() != movable_count(old(self)@.nodes, old(self)@.order) ==> {
                &&& final(self)@ == old(self)@
                &&& r == Err::<(), JointError>(
                    JointError::LengthMismatch {
                        expected: movable_count(old(self)@.nodes, old(self)@.order) as usize,
                        actual: values@.len() as usize,
                    },
                )
            },
            values@.len() == movable_count(old(self)@.nodes, old(self)@.order) ==> {
                let s = assign_all(old(self)@.nodes, old(self)@.order, values@);
                &&& final(self)@ == (ChainModel { nodes: s.0, ..old(self)@ })
                &&& (r is Ok <==> s.1 is None)
                &&& (r is Err ==> is_refusal_of(r->Err_0, final(self)@.nodes[s.1->0 as int].joint))
            },
    {
        let expected = self.dof();
        if values.len() != expected {
            return Err(JointError::LengthMismatch { expected, actual: values.len() });
        }
        let ghost m0 = self@;
        let ghost ord = m0.order;
        let ghost vals = values@;
        let ghost total = assign_all(m0.nodes, ord, vals);
        let n: usize = self.order.len();
        let vlen: usize = values.len();
        let mut k: usize = 0;
        let mut j: usize = 0;
        assert(ord.subrange(0, n as int) =~= ord);
        assert(vals.subrange(0, vlen as int) =~= vals);
        assert(same_tree(m0.nodes, m0.nodes));
        while k < n
            invariant
                self@.wf(),
                m0 == old(self)@,
                ord == m0.order,
                vals == values@,
                self@.roots == m0.roots,
                self@.order == m0.order,
                self@.parent_slots == m0.parent_slots,
                same_tree(m0.nodes, self@.nodes),
                n == ord.len(),
                vlen == vals.len(),
                vlen == movable_count(m0.nodes, ord),
                k <= n,
                j <= vlen,
                movable_count(self@.nodes, ord.subrange(k as int, n as int)) == vlen - j,
                total == assign_all(m0.nodes, ord, vals),
                total == assign_all(self@.nodes, ord.subrange(k as int, n as int), vals.subrange(j as int, vlen as int)),
            decreases n - k,
        {
            let id: usize = self.order[k];
            assert(ord[k as int] == id);
            assert(id < self@.nodes.len());
            assert(self.nodes@[id as int]@ == self@.nodes[id as int]);
            let ghost rest = ord.subrange(k as int, n as int);
            let ghost vrest = vals.subrange(j as int, vlen as int);
            assert(rest[0] == id);
            assert(rest.drop_first() =~= ord.subrange(k + 1, n as int));
            let ghost before = self@;
            if self.nodes[id].joint.has_position() {
                assert(j < vlen);
                assert(vrest[0] == values@[j as int]);
                assert(vrest.drop_first() =~= vals.subrange(j + 1, vlen as int));
                let res = self.set_position(id, values[j]);
                let ghost s1 = assign(before.nodes, id as int, vrest[0] as int);
                assert(!before.nodes[rest[0] as int].joint.joint_type.is_fixed());
                assert(total == (if s1.1 is Some {
                    s1
                } else {
                    assign_all(s1.0, rest.drop_first(), vrest.drop_first())
                }));
                if res.is_err() {
                    assert(total == s1);
                    return res;
                }
                proof {
                    lemma_same_tree_trans(m0.nodes, before.nodes, self@.nodes);
                    assert forall|t: int| 0 <= t < rest.drop_first().len() implies #[trigger] rest.drop_first()[t] < before.nodes.len() by {
                        assert(rest.drop_first()[t] == ord[k + 1 + t]);
                    }
                    lemma_movable_count_same_tree(before.nodes, self@.nodes, rest.drop_first());
                }
                j = j + 1;
            }
            k = k + 1;
        }
        assert(ord.subrange(n as int, n as int) =~= Seq::<usize>::empty());
        Ok(())
    }
}

} // verus!
