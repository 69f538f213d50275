use vstd::prelude::*;

use crate::node::{Component, Node, NodeId, NodeType, NodeView};

verus! {

/// Time range and step of a simulation. The three numbers are kept as the
/// text of JSON numbers; the graph logic passes them through unread.
/// Callers are expected to give `start_time <= end_time` and a positive
/// `delta_time`; the C interface refuses other values.
#[derive(Debug)]
pub struct MetaData {
    pub start_time: String,
    pub end_time: String,
    pub delta_time: String,
}

pub struct MetaDataView {
    pub start_time: Seq<char>,
    pub end_time: Seq<char>,
    pub delta_time: Seq<char>,
}

impl View for MetaData {
    type V = MetaDataView;

    open spec fn view(&self) -> MetaDataView {
        MetaDataView {
            start_time: self.start_time@,
            end_time: self.end_time@,
            delta_time: self.delta_time@,
        }
    }
}

impl MetaData {
    pub fn new(start_time: String, end_time: String, delta_time: String) -> (r: MetaData)
        ensures
            r.start_time == start_time,
            r.end_time == end_time,
            r.delta_time == delta_time,
    {
        MetaData { start_time, end_time, delta_time }
    }
}

/// Why an operation on the graph was refused. The model is left unchanged.
#[derive(Clone, Copy, Debug, PartialEq, Eq, Structural)]
pub enum ModelError {
    /// No node has this id.
    UnknownNode(NodeId),
    /// The node exists but is of a variant that the operation does not apply to.
    InvalidNodeKind(NodeId),
    /// A link names this node as its receiver, and it is not a combinator.
    StructuralViolation(NodeId),
}

/// Node ids strictly increase along the sequence.
pub open spec fn ids_increasing(s: Seq<NodeView>) -> bool {
    forall|i: int, j: int| 0 <= i < j < s.len() ==> s[i].id() < s[j].id()
}

/// The nodes of a sequence keyed by id; a later node replaces an earlier one
/// with the same id.
pub open spec fn seq_to_map(s: Seq<NodeView>) -> Map<NodeId, NodeView>
    decreases s.len(),
{
    if s.len() == 0 {
        Map::empty()
    } else {
        seq_to_map(s.drop_last()).insert(s.last().id(), s.last())
    }
}

/// A combinator with one more input at the end; any other node as it is.
pub open spec fn with_input(n: NodeView, e: Component) -> NodeView {
    match n {
        NodeView::Combinator { id, name, operation, inputs } => NodeView::Combinator {
            id,
            name,
            operation,
            inputs: inputs.push(e),
        },
        _ => n,
    }
}

/// A population with one more outgoing link at the end; any other node as it is.
pub open spec fn with_output(n: NodeView, e: Component) -> NodeView {
    match n {
        NodeView::Population { id, name, related_constant_name, outgoing_links } =>
            NodeView::Population {
            id,
            name,
            related_constant_name,
            outgoing_links: outgoing_links.push(e),
        },
        _ => n,
    }
}

/// On a sequence with increasing ids, the map holds exactly the ids of the
/// sequence, each with its node.
pub proof fn lemma_seq_to_map(s: Seq<NodeView>)
    requires
        ids_increasing(s),
    ensures
        forall|k: NodeId| #[trigger]
            seq_to_map(s).contains_key(k) <==> exists|i: int| 0 <= i < s.len() && s[i].id() == k,
        forall|i: int| 0 <= i < s.len() ==> #[trigger] seq_to_map(s)[s[i].id()] == s[i],
    decreases s.len(),
{
    if s.len() > 0 {
        let p = s.drop_last();
        assert(seq_to_map(s) == seq_to_map(p).insert(s.last().id(), s.last()));
        assert(s.last() == s[s.len() - 1]);
        assert(ids_increasing(p));
        lemma_seq_to_map(p);
        assert forall|k: NodeId| #[trigger]
            seq_to_map(s).contains_key(k) <==> exists|i: int| 0 <= i < s.len() && s[i].id() == k by {
            if seq_to_map(s).contains_key(k) {
                if k == s.last().id() {
                    assert(s[s.len() - 1].id() == k);
                } else {
                    assert(seq_to_map(p).contains_key(k));
                    let i = choose|i: int| 0 <= i < p.len() && p[i].id() == k;
                    assert(s[i].id() == k);
                }
            }
            if exists|i: int| 0 <= i < s.len() && s[i].id() == k {
                let i = choose|i: int| 0 <= i < s.len() && s[i].id() == k;
                if i < s.len() - 1 {
                    assert(p[i].id() == k);
                }
            }
        }
        assert forall|i: int| 0 <= i < s.len() implies #[trigger] seq_to_map(s)[s[i].id()]
            == s[i] by {
            if i < s.len() - 1 {
                assert(p[i] == s[i]);
                assert(s[i].id() < s.last().id());
            }
        }
    }
}

/// Replacing the node at a position by one with the same id updates the map
/// at that id.
proof fn lemma_replace(s1: Seq<NodeView>, p: int, n: NodeView)
    requires
        ids_increasing(s1),
        0 <= p < s1.len(),
        s1[p].id() == n.id(),
    ensures
        ids_increasing(s1.update(p, n)),
        seq_to_map(s1.update(p, n)) == seq_to_map(s1).insert(n.id(), n),
{
    let s2 = s1.update(p, n);
    assert(ids_increasing(s2));
    lemma_seq_to_map(s1);
    lemma_seq_to_map(s2);
    let m1 = seq_to_map(s1).insert(n.id(), n);
    let m2 = seq_to_map(s2);
    assert forall|k: NodeId| m2.contains_key(k) <==> m1.contains_key(k) by {
        if m2.contains_key(k) {
            let i = choose|i: int| 0 <= i < s2.len() && s2[i].id() == k;
            if i != p {
                assert(s1[i].id() == k);
            }
        }
        if m1.contains_key(k) {
            if k != n.id() {
                let i = choose|i: int| 0 <= i < s1.len() && s1[i].id() == k;
                assert(s2[i].id() == k);
            } else {
                assert(s2[p].id() == k);
            }
        }
    }
    assert forall|k: NodeId| m2.contains_key(k) implies m2[k] == m1[k] by {
        let i = choose|i: int| 0 <= i < s2.len() && s2[i].id() == k;
        if i != p {
            assert(s1[i] == s2[i]);
        }
    }
    assert(m2 =~= m1);
}

/// Inserting a node at the position that keeps the ids increasing adds it
/// to the map.
proof fn lemma_insert(s1: Seq<NodeView>, p: int, n: NodeView)
    requires
        ids_increasing(s1),
        0 <= p <= s1.len(),
        forall|j: int| 0 <= j < p ==> s1[j].id() < n.id(),
        forall|j: int| p <= j < s1.len() ==> s1[j].id() > n.id(),
    ensures
        ids_increasing(s1.insert(p, n)),
        seq_to_map(s1.insert(p, n)) == seq_to_map(s1).insert(n.id(), n),
{
    let s2 = s1.insert(p, n);
    assert forall|i: int, j: int| 0 <= i < j < s2.len() implies s2[i].id() < s2[j].id() by {
        if i < p && j > p {
            assert(s2[j] == s1[j - 1]);
        } else if i > p {
            assert(s2[i] == s1[i - 1]);
            assert(s2[j] == s1[j - 1]);
        } else if i == p {
            assert(s2[j] == s1[j - 1]);
        }
    }
    lemma_seq_to_map(s1);
    lemma_seq_to_map(s2);
    let m1 = seq_to_map(s1).insert(n.id(), n);
    let m2 = seq_to_map(s2);
    assert forall|k: NodeId| m2.contains_key(k) <==> m1.contains_key(k) by {
        if m2.contains_key(k) {
            let i = choose|i: int| 0 <= i < s2.len() && s2[i].id() == k;
            if i < p {
                assert(s1[i].id() == k);
            } else if i > p {
                assert(s1[i - 1].id() == k);
            }
        }
        if m1.contains_key(k) {
            if k != n.id() {
                let i = choose|i: int| 0 <= i < s1.len() && s1[i].id() == k;
                if i < p {
                    assert(s2[i].id() == k);
                } else {
                    assert(s2[i + 1].id() == k);
                }
            } else {
                assert(s2[p].id() == k);
            }
        }
    }
    assert forall|k: NodeId| m2.contains_key(k) implies m2[k] == m1[k] by {
        let i = choose|i: int| 0 <= i < s2.len() && s2[i].id() == k;
        if i < p {
            assert(s1[i] == s2[i]);
        } else if i > p {
            assert(s1[i - 1] == s2[i]);
        }
    }
    assert(m2 =~= m1);
}

/// The outcome of an operation that applies to nodes of one variant.
pub open spec fn kind_check(nodes: Map<NodeId, NodeView>, id: NodeId, t: NodeType) -> Result<
    (),
    ModelError,
> {
    if !nodes.contains_key(id) {
        Err(ModelError::UnknownNode(id))
    } else if nodes[id].node_type() != t {
        Err(ModelError::InvalidNodeKind(id))
    } else {
        Ok(())
    }
}

/// Whether a component may be appended to the inputs of node `id`: it must
/// be a combinator, and the source must exist.
pub open spec fn input_check(nodes: Map<NodeId, NodeView>, id: NodeId, e: Component) -> Result<
    (),
    ModelError,
> {
    match kind_check(nodes, id, NodeType::Combinator) {
        Err(err) => Err(err),
        Ok(_) => if !nodes.contains_key(e.node_id) {
            Err(ModelError::UnknownNode(e.node_id))
        } else {
            Ok(())
        },
    }
}

/// Whether a component may be appended to the outgoing links of node `id`:
/// it must be a population, and the target must exist and be a combinator.
pub open spec fn output_check(nodes: Map<NodeId, NodeView>, id: NodeId, e: Component) -> Result<
    (),
    ModelError,
> {
    match kind_check(nodes, id, NodeType::Population) {
        Err(err) => Err(err),
        Ok(_) => if !nodes.contains_key(e.node_id) {
            Err(ModelError::UnknownNode(e.node_id))
        } else if nodes[e.node_id].node_type() != NodeType::Combinator {
            Err(ModelError::StructuralViolation(e.node_id))
        } else {
            Ok(())
        },
    }
}

/// The embedded inputs of a node: empty but on a combinator.
pub open spec fn inputs_of(n: NodeView) -> Seq<Component> {
    match n {
        NodeView::Combinator { inputs, .. } => inputs,
        _ => Seq::empty(),
    }
}

/// The outgoing links of a node: empty but on a population.
pub open spec fn outputs_of(n: NodeView) -> Seq<Component> {
    match n {
        NodeView::Population { outgoing_links, .. } => outgoing_links,
        _ => Seq::empty(),
    }
}

/// Every input of the node names an existing node, and every outgoing link
/// names an existing combinator.
pub open spec fn node_ok(nodes: Map<NodeId, NodeView>, n: NodeView) -> bool {
    &&& forall|i: int|
        0 <= i < inputs_of(n).len() ==> nodes.contains_key(#[trigger] inputs_of(n)[i].node_id)
    &&& forall|i: int|
        0 <= i < outputs_of(n).len() ==> {
            &&& nodes.contains_key(#[trigger] outputs_of(n)[i].node_id)
            &&& nodes[outputs_of(n)[i].node_id].node_type() == NodeType::Combinator
        }
}

/// The link invariant of a model: every link embedded in its nodes has an
/// existing sender and a combinator as receiver.
pub open spec fn links_resolve(nodes: Map<NodeId, NodeView>) -> bool {
    forall|k: NodeId| nodes.contains_key(k) ==> node_ok(nodes, #[trigger] nodes[k])
}

/// Replacing a node by one of the same variant, whose own components
/// resolve, keeps the link invariant.
proof fn lemma_resolve_replace(nodes: Map<NodeId, NodeView>, id: NodeId, n: NodeView)
    requires
        links_resolve(nodes),
        nodes.contains_key(id),
        nodes[id].node_type() == n.node_type(),
        node_ok(nodes, n),
    ensures
        links_resolve(nodes.insert(id, n)),
{
    let m = nodes.insert(id, n);
    assert(m.dom() =~= nodes.dom());
    assert forall|k: NodeId| m.contains_key(k) implies node_ok(m, #[trigger] m[k]) by {
        let x = m[k];
        assert(node_ok(nodes, x));
        assert forall|i: int| 0 <= i < outputs_of(x).len() implies {
            &&& m.contains_key(#[trigger] outputs_of(x)[i].node_id)
            &&& m[outputs_of(x)[i].node_id].node_type() == NodeType::Combinator
        } by {
            let t = outputs_of(x)[i].node_id;
            assert(nodes.contains_key(t));
            assert(nodes[t].node_type() == NodeType::Combinator);
        }
        assert forall|i: int| 0 <= i < inputs_of(x).len() implies m.contains_key(
            #[trigger] inputs_of(x)[i].node_id,
        ) by {
            assert(nodes.contains_key(inputs_of(x)[i].node_id));
        }
    }
}

pub proof fn lemma_resolve_with_input(nodes: Map<NodeId, NodeView>, id: NodeId, e: Component)
    requires
        links_resolve(nodes),
        input_check(nodes, id, e) is Ok,
    ensures
        links_resolve(nodes.insert(id, with_input(nodes[id], e))),
{
    let n = with_input(nodes[id], e);
    assert(node_ok(nodes, nodes[id]));
    assert(inputs_of(n) == inputs_of(nodes[id]).push(e));
    assert forall|i: int| 0 <= i < inputs_of(n).len() implies nodes.contains_key(
        #[trigger] inputs_of(n)[i].node_id,
    ) by {
        if i < inputs_of(nodes[id]).len() {
            assert(inputs_of(n)[i] == inputs_of(nodes[id])[i]);
        }
    }
    assert(outputs_of(n).len() == 0);
    lemma_resolve_replace(nodes, id, n);
}

pub proof fn lemma_resolve_with_output(nodes: Map<NodeId, NodeView>, id: NodeId, e: Component)
    requires
        links_resolve(nodes),
        output_check(nodes, id, e) is Ok,
    ensures
        links_resolve(nodes.insert(id, with_output(nodes[id], e))),
{
    let n = with_output(nodes[id], e);
    assert(node_ok(nodes, nodes[id]));
    assert(outputs_of(n) == outputs_of(nodes[id]).push(e));
    assert forall|i: int| 0 <= i < outputs_of(n).len() implies {
        &&& nodes.contains_key(#[trigger] outputs_of(n)[i].node_id)
        &&& nodes[outputs_of(n)[i].node_id].node_type() == NodeType::Combinator
    } by {
        if i < outputs_of(nodes[id]).len() {
            assert(outputs_of(n)[i] == outputs_of(nodes[id])[i]);
        }
    }
    assert(inputs_of(n).len() == 0);
    lemma_resolve_replace(nodes, id, n);
}

/// Along increasing ids, each id is at least its position.
proof fn lemma_ids_at_least_index(s: Seq<NodeView>)
    requires
        ids_increasing(s),
    ensures
        forall|j: int| 0 <= j < s.len() ==> #[trigger] s[j].id() >= j,
    decreases s.len(),
{
    if s.len() > 0 {
        let p = s.drop_last();
        assert(ids_increasing(p));
        lemma_ids_at_least_index(p);
        assert forall|j: int| 0 <= j < s.len() implies #[trigger] s[j].id() >= j by {
            if j < s.len() - 1 {
                assert(p[j] == s[j]);
            }
            if j > 0 {
                assert(p[j - 1] == s[j - 1]);
                assert(s[j - 1].id() < s[j].id());
            }
        }
    }
}

/// A map of nodes has one sequence in increasing order of id: two such
/// sequences with the same map are equal. With `lemma_seq_to_map`, this
/// fixes `Model::ordered` from the model's view.
pub proof fn lemma_sorted_unique(s1: Seq<NodeView>, s2: Seq<NodeView>)
    requires
        ids_increasing(s1),
        ids_increasing(s2),
        seq_to_map(s1) == seq_to_map(s2),
    ensures
        s1 == s2,
    decreases s1.len(),
{
    lemma_seq_to_map(s1);
    lemma_seq_to_map(s2);
    let m = seq_to_map(s1);
    if s1.len() == 0 {
        if s2.len() > 0 {
            assert(m.contains_key(s2[0].id()));
        }
        assert(s1 =~= s2);
    } else if s2.len() == 0 {
        assert(m.contains_key(s1[0].id()));
    } else {
        let a = s1.last().id();
        let b = s2.last().id();
        assert(s1[s1.len() - 1].id() == a);
        assert(s2[s2.len() - 1].id() == b);
        assert(m.contains_key(a));
        assert(m.contains_key(b));
        let j = choose|j: int| 0 <= j < s2.len() && s2[j].id() == a;
        let k = choose|k: int| 0 <= k < s1.len() && s1[k].id() == b;
        if j < s2.len() - 1 {
            assert(s2[j].id() < s2[s2.len() - 1].id());
        }
        if k < s1.len() - 1 {
            assert(s1[k].id() < s1[s1.len() - 1].id());
        }
        assert(a == b);
        let p1 = s1.drop_last();
        let p2 = s2.drop_last();
        assert(ids_increasing(p1));
        assert(ids_increasing(p2));
        lemma_seq_to_map(p1);
        lemma_seq_to_map(p2);
        assert(!seq_to_map(p1).contains_key(a)) by {
            if seq_to_map(p1).contains_key(a) {
                let i = choose|i: int| 0 <= i < p1.len() && p1[i].id() == a;
                assert(s1[i].id() < s1[s1.len() - 1].id());
            }
        }
        assert(!seq_to_map(p2).contains_key(a)) by {
            if seq_to_map(p2).contains_key(a) {
                let i = choose|i: int| 0 <= i < p2.len() && p2[i].id() == a;
                assert(s2[i].id() < s2[s2.len() - 1].id());
            }
        }
        assert(seq_to_map(p1) =~= m.remove(a));
        assert(seq_to_map(p2) =~= m.remove(a));
        lemma_sorted_unique(p1, p2);
        assert(s1.last() == m[a]);
        assert(s2.last() == m[a]);
        assert(s1 =~= p1.push(s1.last()));
        assert(s2 =~= p2.push(s2.last()));
    }
}

/// A model: its metadata and its nodes, keyed by id. The nodes are held in
/// a vector in increasing order of id, which gives the model a canonical
/// order to walk them in.
#[derive(Debug)]
pub struct Model {
    meta_data: MetaData,
    nodes: Vec<Node>,
}

pub struct ModelView {
    pub meta_data: MetaDataView,
    pub nodes: Map<NodeId, NodeView>,
}

impl View for Model {
    type V = ModelView;

    open spec fn view(&self) -> ModelView {
        ModelView { meta_data: self.meta(), nodes: seq_to_map(self.ordered()) }
    }
}

impl Model {
    /// The nodes in increasing order of id: for a well-formed model, the one
    /// sequence with increasing ids whose map is `self@.nodes` (see
    /// `lemma_sorted_unique`).
    pub closed spec fn ordered(&self) -> Seq<NodeView> {
        self.nodes@.map_values(|n: Node| n@)
    }

    pub closed spec fn meta(&self) -> MetaDataView {
        self.meta_data@
    }

    pub open spec fn wf(&self) -> bool {
        ids_increasing(self.ordered())
    }

    /// An empty model with the given metadata.
    pub fn new(meta_data: MetaData) -> (r: Model)
        ensures
            r.wf(),
            r@.meta_data == meta_data@,
            r.ordered() == Seq::<NodeView>::empty(),
            r@.nodes == Map::<NodeId, NodeView>::empty(),
    {
        let r = Model { meta_data, nodes: Vec::new() };
        assert(r.ordered() =~= Seq::<NodeView>::empty());
        r
    }

    pub fn meta_data(&self) -> (r: &MetaData)
        ensures
            r@ == self@.meta_data,
    {
        &self.meta_data
    }

    pub fn set_meta_data(&mut self, meta_data: MetaData)
        ensures
            final(self)@.meta_data == meta_data@,
            final(self).ordered() == old(self).ordered(),
    {
        self.meta_data = meta_data;
    }

    /// Number of nodes.
    pub fn len(&self) -> (r: usize)
        ensures
            r == self.ordered().len(),
    {
        self.nodes.len()
    }

    /// The node at position `i` in increasing order of id.
    pub fn node_at(&self, i: usize) -> (r: &Node)
        requires
            i < self.ordered().len(),
        ensures
            r@ == self.ordered()[i as int],
    {
        &self.nodes[i]
    }

    /// Position of the first node whose id is not below `id`.
    fn position(&self, id: NodeId) -> (p: usize)
        requires
            self.wf(),
        ensures
            p <= self.ordered().len(),
            forall|j: int| 0 <= j < p ==> self.ordered()[j].id() < id,
            forall|j: int| p <= j < self.ordered().len() ==> self.ordered()[j].id() >= id,
    {
        let mut p: usize = 0;
        while p < self.nodes.len() && self.nodes[p].id() < id
            invariant
                p <= self.nodes@.len(),
                self.wf(),
                forall|j: int| 0 <= j < p ==> self.ordered()[j].id() < id,
            decreases self.nodes@.len() - p,
        {
            p = p + 1;
        }
        proof {
            if p < self.nodes@.len() {
                assert forall|j: int| p <= j < self.ordered().len() implies self.ordered()[j].id()
                    >= id by {
                    if j > p {
                        assert(self.ordered()[p as int].id() < self.ordered()[j].id());
                    }
                }
            }
        }
        p
    }

    /// Position of the node with this id, if there is one.
    fn index_of(&self, id: NodeId) -> (r: Option<usize>)
        requires
            self.wf(),
        ensures
            match r {
                Some(i) => i < self.ordered().len() && self.ordered()[i as int].id() == id
                    && self@.nodes.contains_key(id) && self@.nodes[id] == self.ordered()[i as int],
                None => !self@.nodes.contains_key(id),
            },
    {
        let p = self.position(id);
        proof {
            lemma_seq_to_map(self.ordered());
        }
        if p < self.nodes.len() && self.nodes[p].id() == id {
            Some(p)
        } else {
            proof {
                if self@.nodes.contains_key(id) {
                    let i = choose|i: int| 0 <= i < self.ordered().len() && self.ordered()[i].id() == id;
                    if i > p {
                        assert(self.ordered()[p as int].id() < self.ordered()[i].id());
                    }
                }
            }
            None
        }
    }

    /// Inserts a node under its id. A node already there with the same id is
    /// replaced (last write wins).
    pub fn insert_node(&mut self, node: Node)
        requires
            old(self).wf(),
        ensures
            final(self).wf(),
            final(self)@.meta_data == old(self)@.meta_data,
            final(self)@.nodes == old(self)@.nodes.insert(node@.id(), node@),
    {
        let ghost nv = node@;
        let ghost s1 = self.ordered();
        let id = node.id();
        let p = self.position(id);
        if p < self.nodes.len() && self.nodes[p].id() == id {
            self.nodes.set(p, node);
            proof {
                lemma_replace(s1, p as int, nv);
                assert(self.ordered() =~= s1.update(p as int, nv));
            }
        } else {
            proof {
                assert forall|j: int| p <= j < s1.len() implies s1[j].id() > nv.id() by {
                    if j > p {
                        assert(s1[p as int].id() < s1[j].id());
                    }
                }
            }
            self.nodes.insert(p, node);
            proof {
                lemma_insert(s1, p as int, nv);
                assert(self.ordered() =~= s1.insert(p as int, nv));
            }
        }
    }

    /// Adds a constant under the smallest id not in use and returns that
    /// id; `None`, with the model unchanged, only when every id is in use.
    pub fn insert_constant(&mut self, name: String, value: String) -> (r: Option<NodeId>)
        requires
            old(self).wf(),
        ensures
            final(self).wf(),
            final(self)@.meta_data == old(self)@.meta_data,
            r is None <==> forall|k: NodeId| old(self)@.nodes.contains_key(k),
            match r {
                Some(id) => {
                    &&& !old(self)@.nodes.contains_key(id)
                    &&& forall|k: NodeId| k < id ==> old(self)@.nodes.contains_key(k)
                    &&& final(self)@.nodes == old(self)@.nodes.insert(
                        id,
                        NodeView::Constant { id, name: name@, value: value@ },
                    )
                },
                None => *final(self) == *old(self),
            },
    {
        let ghost s1 = self.ordered();
        proof {
            lemma_seq_to_map(s1);
            lemma_ids_at_least_index(s1);
        }
        let n = self.nodes.len();
        let mut i: usize = 0;
        while i < n && (self.nodes[i].id() as usize) == i
            invariant
                n == s1.len(),
                self.ordered() == s1,
                i <= n,
                forall|j: int| 0 <= j < i ==> s1[j].id() == j,
            decreases n - i,
        {
            i = i + 1;
        }
        if i > u32::MAX as usize {
            proof {
                assert(i == s1.len());
                assert forall|k: NodeId| old(self)@.nodes.contains_key(k) by {
                    assert(s1[k as int].id() == k);
                }
            }
            return None;
        }
        let id = i as NodeId;
        proof {
            assert forall|k: NodeId| k < id implies old(self)@.nodes.contains_key(k) by {
                assert(s1[k as int].id() == k);
            }
            assert forall|j: int| i <= j < s1.len() implies s1[j].id() > id by {
                assert(s1[i as int].id() >= i && s1[i as int].id() != i);
                if j > i {
                    assert(s1[i as int].id() < s1[j].id());
                }
            }
            if old(self)@.nodes.contains_key(id) {
                let j = choose|j: int| 0 <= j < s1.len() && s1[j].id() == id;
                if j < i {
                    assert(s1[j].id() == j);
                }
            }
        }
        let ghost nv = NodeView::Constant { id, name: name@, value: value@ };
        self.nodes.insert(i, Node::Constant { id, name, value });
        proof {
            lemma_insert(s1, i as int, nv);
            assert(self.ordered() =~= s1.insert(i as int, nv));
        }
        Some(id)
    }

    /// Appends an input to the combinator with this id. The input's source
    /// must exist.
    pub fn add_input(&mut self, id: NodeId, e: Component) -> (r: Result<(), ModelError>)
        requires
            old(self).wf(),
        ensures
            final(self).wf(),
            r == input_check(old(self)@.nodes, id, e),
            r is Ok ==> final(self)@ == (ModelView {
                meta_data: old(self)@.meta_data,
                nodes: old(self)@.nodes.insert(id, with_input(old(self)@.nodes[id], e)),
            }),
            r is Ok && links_resolve(old(self)@.nodes) ==> links_resolve(final(self)@.nodes),
            r is Err ==> *final(self) == *old(self),
    {
        let ghost s0 = self.ordered();
        proof {
            if input_check(self@.nodes, id, e) is Ok && links_resolve(self@.nodes) {
                lemma_resolve_with_input(self@.nodes, id, e);
            }
        }
        match self.index_of(id) {
            None => Err(ModelError::UnknownNode(id)),
            Some(i) => {
                if self.nodes[i].node_type() != NodeType::Combinator {
                    return Err(ModelError::InvalidNodeKind(id));
                }
                if self.index_of(e.node_id).is_none() {
                    return Err(ModelError::UnknownNode(e.node_id));
                }
                let node = self.nodes.remove(i);
                let ghost old_node = node@;
                let updated = match node {
                    Node::Combinator { id: nid, name, operation, inputs } => {
                        let mut inputs = inputs;
                        inputs.push(e);
                        Node::Combinator { id: nid, name, operation, inputs }
                    },
                    other => other,
                };
                let ghost nv = updated@;
                self.nodes.insert(i, updated);
                proof {
                    assert(nv == with_input(old_node, e));
                    assert(self.ordered() =~= s0.update(i as int, nv));
                    lemma_replace(s0, i as int, nv);
                }
                Ok(())
            },
        }
    }

    /// Appends an outgoing link to the population with this id. The link's
    /// target must exist and be a combinator.
    pub fn add_link(&mut self, id: NodeId, e: Component) -> (r: Result<(), ModelError>)
        requires
            old(self).wf(),
        ensures
            final(self).wf(),
            r == output_check(old(self)@.nodes, id, e),
            r is Ok ==> final(self)@ == (ModelView {
                meta_data: old(self)@.meta_data,
                nodes: old(self)@.nodes.insert(id, with_output(old(self)@.nodes[id], e)),
            }),
            r is Ok && links_resolve(old(self)@.nodes) ==> links_resolve(final(self)@.nodes),
            r is Err ==> *final(self) == *old(self),
    {
        let ghost s0 = self.ordered();
        proof {
            if output_check(self@.nodes, id, e) is Ok && links_resolve(self@.nodes) {
                lemma_resolve_with_output(self@.nodes, id, e);
            }
        }
        match self.index_of(id) {
            None => Err(ModelError::UnknownNode(id)),
            Some(i) => {
                if self.nodes[i].node_type() != NodeType::Population {
                    return Err(ModelError::InvalidNodeKind(id));
                }
                match self.index_of(e.node_id) {
                    None => return Err(ModelError::UnknownNode(e.node_id)),
                    Some(t) => {
                        if self.nodes[t].node_type() != NodeType::Combinator {
                            return Err(ModelError::StructuralViolation(e.node_id));
                        }
                    },
                }
                let node = self.nodes.remove(i);
                let ghost old_node = node@;
                let updated = match node {
                    Node::Population { id: nid, name, related_constant_name, outgoing_links } => {
                        let mut outgoing_links = outgoing_links;
                        outgoing_links.push(e);
                        Node::Population { id: nid, name, related_constant_name, outgoing_links }
                    },
                    other => other,
                };
                let ghost nv = updated@;
                self.nodes.insert(i, updated);
                proof {
                    assert(nv == with_output(old_node, e));
                    assert(self.ordered() =~= s0.update(i as int, nv));
                    lemma_replace(s0, i as int, nv);
                }
                Ok(())
            },
        }
    }

    /// The node with this id, if any.
    pub fn get_node(&self, id: NodeId) -> (r: Option<&Node>)
        requires
            self.wf(),
        ensures
            match r {
                Some(n) => self@.nodes.contains_key(id) && n@ == self@.nodes[id],
                None => !self@.nodes.contains_key(id),
            },
    {
        match self.index_of(id) {
            Some(i) => Some(&self.nodes[i]),
            None => None,
        }
    }

    /// The ids of all nodes, in increasing order.
    pub fn node_ids(&self) -> (r: Vec<NodeId>)
        requires
            self.wf(),
        ensures
            r@ == self.ordered().map_values(|n: NodeView| n.id()),
    {
        let mut r: Vec<NodeId> = Vec::new();
        let mut i: usize = 0;
        while i < self.nodes.len()
            invariant
                i <= self.nodes@.len(),
                r@ == self.ordered().take(i as int).map_values(|n: NodeView| n.id()),
            decreases self.nodes@.len() - i,
        {
            r.push(self.nodes[i].id());
            i = i + 1;
            assert(self.ordered().take(i as int) =~= self.ordered().take(i - 1).push(
                self.ordered()[i - 1],
            ));
        }
        assert(self.ordered().take(i as int) =~= self.ordered());
        r
    }
}

} // verus!
