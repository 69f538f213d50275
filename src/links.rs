use vstd::prelude::*;

use crate::model::{
    ids_increasing, input_check, inputs_of, lemma_resolve_with_input, lemma_resolve_with_output,
    lemma_seq_to_map, links_resolve, node_ok, output_check, outputs_of, with_input, with_output,
    Model, ModelError, ModelView,
};
use crate::node::{Component, Link, Node, NodeId, NodeType, NodeView};

verus! {

/// Whether a link may be attached to these nodes: its receiver must exist
/// and be a combinator, and its sender must exist.
pub open spec fn link_check(nodes: Map<NodeId, NodeView>, l: Link) -> Result<(), ModelError> {
    if !nodes.contains_key(l.receiver) {
        Err(ModelError::UnknownNode(l.receiver))
    } else if nodes[l.receiver].node_type() != NodeType::Combinator {
        Err(ModelError::StructuralViolation(l.receiver))
    } else if !nodes.contains_key(l.sender) {
        Err(ModelError::UnknownNode(l.sender))
    } else {
        Ok(())
    }
}

/// The error of the first link of the list that may not be attached, if any.
pub open spec fn first_violation(nodes: Map<NodeId, NodeView>, links: Seq<Link>) -> Option<
    ModelError,
>
    decreases links.len(),
{
    if links.len() == 0 {
        None
    } else {
        match link_check(nodes, links[0]) {
            Err(e) => Some(e),
            Ok(_) => first_violation(nodes, links.drop_first()),
        }
    }
}

/// The entry that a link adds to its receiver's inputs.
pub open spec fn input_component(l: Link) -> Component {
    Component { node_id: l.sender, sign: l.link_type }
}

/// The entry that a link adds to its sender's outgoing links.
pub open spec fn output_component(l: Link) -> Component {
    Component { node_id: l.receiver, sign: l.link_type }
}

/// One link attached: appended to the receiver's inputs and, where the
/// sender is a population, to the sender's outgoing links.
pub open spec fn attach(nodes: Map<NodeId, NodeView>, l: Link) -> Map<NodeId, NodeView> {
    let m = nodes.insert(l.receiver, with_input(nodes[l.receiver], input_component(l)));
    m.insert(l.sender, with_output(m[l.sender], output_component(l)))
}

/// All links attached, in list order.
pub open spec fn attach_all(nodes: Map<NodeId, NodeView>, links: Seq<Link>) -> Map<
    NodeId,
    NodeView,
>
    decreases links.len(),
{
    if links.len() == 0 {
        nodes
    } else {
        attach(attach_all(nodes, links.drop_last()), links.last())
    }
}

/// Flat to embedded: the first offending link's error, or every link
/// attached in list order.
pub open spec fn embed_spec(nodes: Map<NodeId, NodeView>, links: Seq<Link>) -> Result<
    Map<NodeId, NodeView>,
    ModelError,
> {
    match first_violation(nodes, links) {
        Some(e) => Err(e),
        None => Ok(attach_all(nodes, links)),
    }
}

/// The links that a node's embedded inputs stand for.
pub open spec fn node_links(n: NodeView) -> Seq<Link> {
    match n {
        NodeView::Combinator { id, inputs, .. } => inputs.map_values(
            |e: Component| Link { sender: e.node_id, receiver: id, link_type: e.sign },
        ),
        _ => Seq::empty(),
    }
}

/// Embedded to flat: the inputs of each combinator, nodes taken in order.
pub open spec fn flat_links(s: Seq<NodeView>) -> Seq<Link>
    decreases s.len(),
{
    if s.len() == 0 {
        Seq::empty()
    } else {
        flat_links(s.drop_last()) + node_links(s.last())
    }
}

/// The links of the list whose receiver is `c`, in list order.
pub open spec fn links_to(links: Seq<Link>, c: NodeId) -> Seq<Link>
    decreases links.len(),
{
    if links.len() == 0 {
        Seq::empty()
    } else if links.last().receiver == c {
        links_to(links.drop_last(), c).push(links.last())
    } else {
        links_to(links.drop_last(), c)
    }
}

proof fn lemma_first_violation_none(nodes: Map<NodeId, NodeView>, links: Seq<Link>)
    requires
        forall|j: int| 0 <= j < links.len() ==> link_check(nodes, #[trigger] links[j]) is Ok,
    ensures
        first_violation(nodes, links) is None,
    decreases links.len(),
{
    if links.len() > 0 {
        assert(link_check(nodes, links[0]) is Ok);
        let rest = links.drop_first();
        assert forall|j: int| 0 <= j < rest.len() implies link_check(nodes, #[trigger] rest[j]) is Ok by {
            assert(rest[j] == links[j + 1]);
        }
        lemma_first_violation_none(nodes, rest);
    }
}

proof fn lemma_first_violation_at(nodes: Map<NodeId, NodeView>, links: Seq<Link>, i: int)
    requires
        0 <= i < links.len(),
        forall|j: int| 0 <= j < i ==> link_check(nodes, #[trigger] links[j]) is Ok,
        link_check(nodes, links[i]) is Err,
    ensures
        first_violation(nodes, links) == Some(link_check(nodes, links[i])->Err_0),
    decreases i,
{
    if i > 0 {
        assert(link_check(nodes, links[0]) is Ok);
        let rest = links.drop_first();
        assert forall|j: int| 0 <= j < i - 1 implies link_check(nodes, #[trigger] rest[j]) is Ok by {
            assert(rest[j] == links[j + 1]);
        }
        assert(rest[i - 1] == links[i]);
        lemma_first_violation_at(nodes, rest, i - 1);
    }
}

/// The first violation is the error of some link, all links before it being fine.
proof fn lemma_first_violation_some(nodes: Map<NodeId, NodeView>, links: Seq<Link>) -> (i: int)
    requires
        first_violation(nodes, links) is Some,
    ensures
        0 <= i < links.len(),
        forall|j: int| 0 <= j < i ==> link_check(nodes, #[trigger] links[j]) is Ok,
        link_check(nodes, links[i]) == Err::<(), ModelError>(first_violation(nodes, links)->Some_0),
    decreases links.len(),
{
    if link_check(nodes, links[0]) is Err {
        0
    } else {
        let rest = links.drop_first();
        let k = lemma_first_violation_some(nodes, rest);
        assert forall|j: int| 0 <= j < k + 1 implies link_check(nodes, #[trigger] links[j]) is Ok by {
            if j > 0 {
                assert(links[j] == rest[j - 1]);
            }
        }
        assert(links[k + 1] == rest[k]);
        k + 1
    }
}

/// Attaching a link that passes the check keeps every node's presence and variant.
proof fn lemma_attach_keeps_kinds(nodes: Map<NodeId, NodeView>, l: Link)
    requires
        link_check(nodes, l) is Ok,
    ensures
        attach(nodes, l).dom() == nodes.dom(),
        forall|k: NodeId| #[trigger]
            nodes.contains_key(k) ==> attach(nodes, l)[k].node_type() == nodes[k].node_type(),
{
    let m = nodes.insert(l.receiver, with_input(nodes[l.receiver], input_component(l)));
    assert(m.dom() =~= nodes.dom());
    assert(attach(nodes, l).dom() =~= nodes.dom());
}

proof fn lemma_attach_all_keeps_kinds(nodes: Map<NodeId, NodeView>, links: Seq<Link>)
    requires
        forall|j: int| 0 <= j < links.len() ==> link_check(nodes, #[trigger] links[j]) is Ok,
    ensures
        attach_all(nodes, links).dom() == nodes.dom(),
        forall|k: NodeId| #[trigger]
            nodes.contains_key(k) ==> attach_all(nodes, links)[k].node_type()
                == nodes[k].node_type(),
    decreases links.len(),
{
    if links.len() > 0 {
        let p = links.drop_last();
        assert forall|j: int| 0 <= j < p.len() implies link_check(nodes, #[trigger] p[j]) is Ok by {
            assert(p[j] == links[j]);
        }
        lemma_attach_all_keeps_kinds(nodes, p);
        let m = attach_all(nodes, p);
        assert(link_check(nodes, links[links.len() - 1]) is Ok);
        assert(link_check(m, links.last()) is Ok);
        lemma_attach_keeps_kinds(m, links.last());
    }
}

/// Rejection of malformed links: a list in which some link's receiver is a
/// node other than a combinator fails to embed, and it fails with a
/// structural violation naming that receiver when the links before it are
/// fine.
pub proof fn lemma_non_combinator_receiver_rejected(
    nodes: Map<NodeId, NodeView>,
    links: Seq<Link>,
    i: int,
)
    requires
        0 <= i < links.len(),
        nodes.contains_key(links[i].receiver),
        nodes[links[i].receiver].node_type() != NodeType::Combinator,
    ensures
        embed_spec(nodes, links) is Err,
        (forall|j: int| 0 <= j < i ==> link_check(nodes, #[trigger] links[j]) is Ok) ==> embed_spec(
            nodes,
            links,
        ) == Err::<Map<NodeId, NodeView>, ModelError>(
            ModelError::StructuralViolation(links[i].receiver),
        ),
{
    if first_violation(nodes, links) is None {
        assert(link_check(nodes, links[i]) is Err);
        assert forall|j: int| 0 <= j < links.len() implies link_check(nodes, #[trigger] links[j])
            is Ok by {
            lemma_no_violation_means_all_ok(nodes, links, j);
        }
    }
    if forall|j: int| 0 <= j < i ==> link_check(nodes, #[trigger] links[j]) is Ok {
        lemma_first_violation_at(nodes, links, i);
    }
}

proof fn lemma_no_violation_means_all_ok(nodes: Map<NodeId, NodeView>, links: Seq<Link>, j: int)
    requires
        first_violation(nodes, links) is None,
        0 <= j < links.len(),
    ensures
        link_check(nodes, links[j]) is Ok,
    decreases links.len(),
{
    if j > 0 {
        let rest = links.drop_first();
        assert(rest[j - 1] == links[j]);
        lemma_no_violation_means_all_ok(nodes, rest, j - 1);
    }
}

/// The links of each node's inputs, node by node: for every node, the links
/// of the list that it receives.
pub open spec fn grouped(links: Seq<Link>, s: Seq<NodeView>) -> Seq<Link>
    decreases s.len(),
{
    if s.len() == 0 {
        Seq::empty()
    } else {
        grouped(links, s.drop_last()) + links_to(links, s.last().id())
    }
}

proof fn lemma_links_to_receiver(links: Seq<Link>, c: NodeId)
    ensures
        forall|i: int| 0 <= i < links_to(links, c).len() ==> #[trigger] links_to(links, c)[i].receiver == c,
    decreases links.len(),
{
    if links.len() > 0 {
        lemma_links_to_receiver(links.drop_last(), c);
    }
}

proof fn lemma_links_to_none(links: Seq<Link>, c: NodeId)
    requires
        forall|j: int| 0 <= j < links.len() ==> #[trigger] links[j].receiver != c,
    ensures
        links_to(links, c) == Seq::<Link>::empty(),
    decreases links.len(),
{
    if links.len() > 0 {
        let p = links.drop_last();
        assert forall|j: int| 0 <= j < p.len() implies #[trigger] p[j].receiver != c by {
            assert(p[j] == links[j]);
        }
        assert(links[links.len() - 1].receiver != c);
        lemma_links_to_none(p, c);
    }
}

proof fn lemma_links_to_push(links: Seq<Link>, l: Link, c: NodeId)
    ensures
        links_to(links.push(l), c) == if l.receiver == c {
            links_to(links, c).push(l)
        } else {
            links_to(links, c)
        },
{
    assert(links.push(l).drop_last() =~= links);
}

/// The inputs of a node after attaching links that pass the check: those
/// it had, then one per link that it receives, in list order.
proof fn lemma_inputs_after_attach(nodes: Map<NodeId, NodeView>, links: Seq<Link>, c: NodeId)
    requires
        forall|j: int| 0 <= j < links.len() ==> link_check(nodes, #[trigger] links[j]) is Ok,
        nodes.contains_key(c),
    ensures
        inputs_of(attach_all(nodes, links)[c]) == inputs_of(nodes[c]) + links_to(
            links,
            c,
        ).map_values(|l: Link| input_component(l)),
    decreases links.len(),
{
    if links.len() == 0 {
        assert(links_to(links, c).map_values(|l: Link| input_component(l)) =~= Seq::<Component>::empty());
        assert(inputs_of(nodes[c]) + Seq::<Component>::empty() =~= inputs_of(nodes[c]));
    } else {
        let p = links.drop_last();
        let l = links.last();
        assert forall|j: int| 0 <= j < p.len() implies link_check(nodes, #[trigger] p[j]) is Ok by {
            assert(p[j] == links[j]);
        }
        lemma_inputs_after_attach(nodes, p, c);
        lemma_attach_all_keeps_kinds(nodes, p);
        let m = attach_all(nodes, p);
        assert(link_check(nodes, links[links.len() - 1]) is Ok);
        assert(m.contains_key(l.receiver) && m[l.receiver].node_type() == NodeType::Combinator);
        assert(m.contains_key(l.sender));
        let m1 = m.insert(l.receiver, with_input(m[l.receiver], input_component(l)));
        assert(inputs_of(attach(m, l)[c]) == inputs_of(m1[c]));
        assert(p.push(l) =~= links);
        lemma_links_to_push(p, l, c);
        if l.receiver == c {
            assert(inputs_of(m1[c]) == inputs_of(m[c]).push(input_component(l)));
            assert(links_to(p, c).push(l).map_values(|l: Link| input_component(l)) =~= links_to(
                p,
                c,
            ).map_values(|l: Link| input_component(l)).push(input_component(l)));
            assert(inputs_of(nodes[c]) + links_to(p, c).map_values(|l: Link| input_component(l)).push(
                input_component(l),
            ) =~= (inputs_of(nodes[c]) + links_to(p, c).map_values(|l: Link| input_component(l))).push(
                input_component(l),
            ));
        }
    }
}

proof fn lemma_grouped_of_nodes(links: Seq<Link>, s: Seq<NodeView>)
    requires
        forall|i: int| 0 <= i < s.len() ==> node_links(#[trigger] s[i]) == links_to(links, s[i].id()),
    ensures
        flat_links(s) == grouped(links, s),
    decreases s.len(),
{
    if s.len() > 0 {
        let p = s.drop_last();
        assert forall|i: int| 0 <= i < p.len() implies node_links(#[trigger] p[i]) == links_to(
            links,
            p[i].id(),
        ) by {
            assert(p[i] == s[i]);
        }
        lemma_grouped_of_nodes(links, p);
        assert(node_links(s[s.len() - 1]) == links_to(links, s[s.len() - 1].id()));
    }
}

proof fn lemma_grouped_empty(s: Seq<NodeView>)
    ensures
        grouped(Seq::<Link>::empty(), s) == Seq::<Link>::empty(),
    decreases s.len(),
{
    if s.len() > 0 {
        lemma_grouped_empty(s.drop_last());
        assert(Seq::<Link>::empty() + Seq::<Link>::empty() =~= Seq::<Link>::empty());
    }
}

/// Adding one link to the list adds it once to the grouping, if some node
/// receives it.
proof fn lemma_grouped_push(links: Seq<Link>, s: Seq<NodeView>, l: Link)
    requires
        ids_increasing(s),
    ensures
        grouped(links.push(l), s).to_multiset() == if exists|i: int|
            0 <= i < s.len() && #[trigger] s[i].id() == l.receiver {
            grouped(links, s).to_multiset().insert(l)
        } else {
            grouped(links, s).to_multiset()
        },
    decreases s.len(),
{
    broadcast use vstd::seq_lib::lemma_multiset_commutative;
    broadcast use vstd::seq_lib::to_multiset_build;
    broadcast use vstd::multiset::group_multiset_axioms;

    if s.len() > 0 {
        let p = s.drop_last();
        let n = s.last();
        assert(ids_increasing(p));
        lemma_grouped_push(links, p, l);
        lemma_links_to_push(links, l, n.id());
        let in_p = exists|i: int| 0 <= i < p.len() && #[trigger] p[i].id() == l.receiver;
        let in_s = exists|i: int| 0 <= i < s.len() && #[trigger] s[i].id() == l.receiver;
        let gp = grouped(links, p).to_multiset();
        let lt = links_to(links, n.id()).to_multiset();
        assert(grouped(links, s).to_multiset() =~= gp.add(lt));
        assert(grouped(links.push(l), s).to_multiset() =~= grouped(links.push(l), p).to_multiset().add(
            links_to(links.push(l), n.id()).to_multiset(),
        ));
        if n.id() == l.receiver {
            assert(s[s.len() - 1].id() == l.receiver);
            if in_p {
                let i = choose|i: int| 0 <= i < p.len() && #[trigger] p[i].id() == l.receiver;
                assert(s[i].id() < s[s.len() - 1].id());
            }
            assert(links_to(links.push(l), n.id()).to_multiset() =~= lt.insert(l));
            assert(gp.add(lt.insert(l)) =~= gp.add(lt).insert(l));
        } else {
            if in_s {
                let i = choose|i: int| 0 <= i < s.len() && #[trigger] s[i].id() == l.receiver;
                assert(p[i].id() == l.receiver);
            }
            if in_p {
                let i = choose|i: int| 0 <= i < p.len() && #[trigger] p[i].id() == l.receiver;
                assert(s[i].id() == l.receiver);
                assert(gp.insert(l).add(lt) =~= gp.add(lt).insert(l));
            }
        }
    }
}

proof fn lemma_grouped_multiset(links: Seq<Link>, s: Seq<NodeView>)
    requires
        ids_increasing(s),
        forall|j: int|
            0 <= j < links.len() ==> exists|i: int|
                0 <= i < s.len() && #[trigger] s[i].id() == (#[trigger] links[j]).receiver,
    ensures
        grouped(links, s).to_multiset() == links.to_multiset(),
    decreases links.len(),
{
    broadcast use vstd::seq_lib::to_multiset_build;
    broadcast use vstd::multiset::group_multiset_axioms;

    if links.len() == 0 {
        assert(links =~= Seq::<Link>::empty());
        lemma_grouped_empty(s);
    } else {
        let p = links.drop_last();
        let l = links.last();
        assert forall|j: int| 0 <= j < p.len() implies exists|i: int|
            0 <= i < s.len() && #[trigger] s[i].id() == (#[trigger] p[j]).receiver by {
            assert(p[j] == links[j]);
        }
        lemma_grouped_multiset(p, s);
        lemma_grouped_push(p, s, l);
        assert(links[links.len() - 1] == l);
        assert(p.push(l) =~= links);
    }
}

/// Link resolution inverse law: embedding a flat list of links into a model
/// whose nodes carry no inputs yet, then flattening the result, gives back
/// the same multiset of links; and each combinator's inputs are exactly the
/// links that it receives, in list order.
pub proof fn lemma_flatten_after_embed(m: Model, links: Seq<Link>, m2: Model)
    requires
        m.wf(),
        m2.wf(),
        forall|k: NodeId| m@.nodes.contains_key(k) ==> inputs_of(#[trigger] m@.nodes[k]).len() == 0,
        embed_spec(m@.nodes, links) == Ok::<Map<NodeId, NodeView>, ModelError>(m2@.nodes),
    ensures
        flat_links(m2.ordered()).to_multiset() == links.to_multiset(),
        forall|c: NodeId| #[trigger]
            m2@.nodes.contains_key(c) ==> inputs_of(m2@.nodes[c]) == links_to(links, c).map_values(
                |l: Link| input_component(l),
            ),
{
    let nodes = m@.nodes;
    let s2 = m2.ordered();
    assert forall|j: int| 0 <= j < links.len() implies link_check(nodes, #[trigger] links[j])
        is Ok by {
        lemma_no_violation_means_all_ok(nodes, links, j);
    }
    lemma_attach_all_keeps_kinds(nodes, links);
    lemma_seq_to_map(s2);
    assert forall|c: NodeId| #[trigger] m2@.nodes.contains_key(c) implies inputs_of(m2@.nodes[c])
        == links_to(links, c).map_values(|l: Link| input_component(l)) by {
        lemma_inputs_after_attach(nodes, links, c);
        assert(inputs_of(nodes[c]) =~= Seq::<Component>::empty());
        assert(Seq::<Component>::empty() + links_to(links, c).map_values(|l: Link| input_component(l))
            =~= links_to(links, c).map_values(|l: Link| input_component(l)));
    }
    assert forall|i: int| 0 <= i < s2.len() implies node_links(#[trigger] s2[i]) == links_to(
        links,
        s2[i].id(),
    ) by {
        let c = s2[i].id();
        assert(m2@.nodes[c] == s2[i]);
        assert(m2@.nodes.contains_key(c));
        lemma_links_to_receiver(links, c);
        if s2[i].node_type() == NodeType::Combinator {
            let lt = links_to(links, c);
            assert(inputs_of(s2[i]) == lt.map_values(|l: Link| input_component(l)));
            assert(s2[i] is Combinator);
            assert(node_links(s2[i]).len() == lt.len());
            assert forall|k: int| 0 <= k < lt.len() implies node_links(s2[i])[k] == lt[k] by {
                assert(lt[k].receiver == c);
            }
            assert(node_links(s2[i]) =~= lt);
        } else {
            assert forall|j: int| 0 <= j < links.len() implies #[trigger] links[j].receiver != c by {
                assert(link_check(nodes, links[j]) is Ok);
            }
            lemma_links_to_none(links, c);
            assert(node_links(s2[i]) =~= Seq::<Link>::empty());
        }
    }
    lemma_grouped_of_nodes(links, s2);
    assert forall|j: int| 0 <= j < links.len() implies exists|i: int|
        0 <= i < s2.len() && #[trigger] s2[i].id() == (#[trigger] links[j]).receiver by {
        assert(link_check(nodes, links[j]) is Ok);
        assert(m2@.nodes.contains_key(links[j].receiver));
    }
    lemma_grouped_multiset(links, s2);
}


/// The first component of the list that does not resolve: its node is
/// missing, or, where a combinator is needed, is not one.
pub open spec fn seq_fault(
    nodes: Map<NodeId, NodeView>,
    cs: Seq<Component>,
    need_combinator: bool,
) -> Option<ModelError>
    decreases cs.len(),
{
    if cs.len() == 0 {
        None
    } else if !nodes.contains_key(cs[0].node_id) {
        Some(ModelError::UnknownNode(cs[0].node_id))
    } else if need_combinator && nodes[cs[0].node_id].node_type() != NodeType::Combinator {
        Some(ModelError::StructuralViolation(cs[0].node_id))
    } else {
        seq_fault(nodes, cs.drop_first(), need_combinator)
    }
}

/// The first fault among a node's inputs, or among its outgoing links.
pub open spec fn node_fault(nodes: Map<NodeId, NodeView>, n: NodeView) -> Option<ModelError> {
    match seq_fault(nodes, inputs_of(n), false) {
        Some(e) => Some(e),
        None => seq_fault(nodes, outputs_of(n), true),
    }
}

pub open spec fn is_faulty(nodes: Map<NodeId, NodeView>, k: NodeId) -> bool {
    nodes.contains_key(k) && !node_ok(nodes, nodes[k])
}

/// The first fault of the node with the smallest id among those whose
/// links do not resolve; `None` when the link invariant holds.
pub open spec fn first_fault(nodes: Map<NodeId, NodeView>) -> Option<ModelError> {
    if exists|k: NodeId| is_faulty(nodes, k) {
        let k = choose|k: NodeId|
            is_faulty(nodes, k) && forall|j: NodeId| is_faulty(nodes, j) ==> k <= j;
        node_fault(nodes, nodes[k])
    } else {
        None
    }
}

proof fn lemma_seq_fault(nodes: Map<NodeId, NodeView>, cs: Seq<Component>, need_combinator: bool)
    ensures
        seq_fault(nodes, cs, need_combinator) is None <==> forall|i: int|
            0 <= i < cs.len() ==> nodes.contains_key(#[trigger] cs[i].node_id) && (need_combinator
                ==> nodes[cs[i].node_id].node_type() == NodeType::Combinator),
    decreases cs.len(),
{
    if cs.len() > 0 {
        let rest = cs.drop_first();
        lemma_seq_fault(nodes, rest, need_combinator);
        assert forall|i: int| 0 < i < cs.len() implies cs[i] == rest[i - 1] by {}
        if forall|i: int|
            0 <= i < rest.len() ==> nodes.contains_key(#[trigger] rest[i].node_id) && (
            need_combinator ==> nodes[rest[i].node_id].node_type() == NodeType::Combinator) {
            assert forall|i: int| 0 < i < cs.len() implies nodes.contains_key(
                #[trigger] cs[i].node_id,
            ) && (need_combinator ==> nodes[cs[i].node_id].node_type() == NodeType::Combinator) by {
                assert(cs[i] == rest[i - 1]);
            }
        } else {
            let i = choose|i: int|
                0 <= i < rest.len() && !(nodes.contains_key(#[trigger] rest[i].node_id) && (
                need_combinator ==> nodes[rest[i].node_id].node_type() == NodeType::Combinator));
            assert(cs[i + 1] == rest[i]);
        }
    }
}

proof fn lemma_node_fault(nodes: Map<NodeId, NodeView>, n: NodeView)
    ensures
        node_fault(nodes, n) is None <==> node_ok(nodes, n),
{
    lemma_seq_fault(nodes, inputs_of(n), false);
    lemma_seq_fault(nodes, outputs_of(n), true);
}

pub proof fn lemma_links_resolve_no_fault(nodes: Map<NodeId, NodeView>)
    ensures
        links_resolve(nodes) <==> !exists|k: NodeId| is_faulty(nodes, k),
{
    if !links_resolve(nodes) {
        let k = choose|k: NodeId| nodes.contains_key(k) && !node_ok(nodes, #[trigger] nodes[k]);
        assert(is_faulty(nodes, k));
    }
}

/// Attaching links that pass the check keeps the link invariant.
proof fn lemma_attach_all_resolves(nodes: Map<NodeId, NodeView>, links: Seq<Link>)
    requires
        links_resolve(nodes),
        forall|j: int| 0 <= j < links.len() ==> link_check(nodes, #[trigger] links[j]) is Ok,
    ensures
        links_resolve(attach_all(nodes, links)),
    decreases links.len(),
{
    if links.len() > 0 {
        let p = links.drop_last();
        let l = links.last();
        assert forall|j: int| 0 <= j < p.len() implies link_check(nodes, #[trigger] p[j]) is Ok by {
            assert(p[j] == links[j]);
        }
        lemma_attach_all_resolves(nodes, p);
        lemma_attach_all_keeps_kinds(nodes, p);
        let m = attach_all(nodes, p);
        assert(link_check(nodes, links[links.len() - 1]) is Ok);
        assert(link_check(m, l) is Ok);
        assert(input_check(m, l.receiver, input_component(l)) is Ok);
        lemma_resolve_with_input(m, l.receiver, input_component(l));
        let m1 = m.insert(l.receiver, with_input(m[l.receiver], input_component(l)));
        assert(m1.contains_key(l.sender));
        if m1[l.sender].node_type() == NodeType::Population {
            assert(m1[l.receiver].node_type() == NodeType::Combinator);
            assert(output_check(m1, l.sender, output_component(l)) is Ok);
            lemma_resolve_with_output(m1, l.sender, output_component(l));
        } else {
            assert(with_output(m1[l.sender], output_component(l)) == m1[l.sender]);
            assert(m1.insert(l.sender, m1[l.sender]) =~= m1);
        }
    }
}

impl Model {
    /// Flat to embedded: attaches each link in list order to its receiver's
    /// inputs and, where the sender is a population, to the sender's outgoing
    /// links. Every link is checked first: on the first one whose receiver is
    /// missing or not a combinator, or whose sender is missing, the model is
    /// left as it was and that link's error returned.
    pub fn embed_links(&mut self, links: &Vec<Link>) -> (r: Result<(), ModelError>)
        requires
            old(self).wf(),
        ensures
            final(self).wf(),
            match embed_spec(old(self)@.nodes, links@) {
                Ok(m) => r is Ok && final(self)@ == (ModelView {
                    meta_data: old(self)@.meta_data,
                    nodes: m,
                }),
                Err(e) => r == Err::<(), ModelError>(e) && *final(self) == *old(self),
            },
            links_resolve(old(self)@.nodes) ==> links_resolve(final(self)@.nodes),
    {
        let ghost nodes0 = self@.nodes;
        let mut i: usize = 0;
        while i < links.len()
            invariant
                i <= links@.len(),
                *self == *old(self),
                self.wf(),
                nodes0 == self@.nodes,
                forall|j: int| 0 <= j < i ==> link_check(nodes0, #[trigger] links@[j]) is Ok,
            decreases links@.len() - i,
        {
            let l = links[i];
            let err: Option<ModelError> = match self.get_node(l.receiver) {
                None => Some(ModelError::UnknownNode(l.receiver)),
                Some(n) => {
                    if n.node_type() != NodeType::Combinator {
                        Some(ModelError::StructuralViolation(l.receiver))
                    } else {
                        match self.get_node(l.sender) {
                            None => Some(ModelError::UnknownNode(l.sender)),
                            Some(_) => None,
                        }
                    }
                },
            };
            match err {
                Some(e) => {
                    proof {
                        assert(link_check(nodes0, links@[i as int]) == Err::<(), ModelError>(e));
                        lemma_first_violation_at(nodes0, links@, i as int);
                    }
                    return Err(e);
                },
                None => {},
            }
            i = i + 1;
        }
        proof {
            lemma_first_violation_none(nodes0, links@);
            if links_resolve(nodes0) {
                lemma_attach_all_resolves(nodes0, links@);
            }
        }
        let mut i: usize = 0;
        while i < links.len()
            invariant
                i <= links@.len(),
                self.wf(),
                self@.meta_data == old(self)@.meta_data,
                self@.nodes == attach_all(nodes0, links@.take(i as int)),
                forall|j: int| 0 <= j < links@.len() ==> link_check(nodes0, #[trigger] links@[j]) is Ok,
            decreases links@.len() - i,
        {
            let l = links[i];
            let ghost before = self@.nodes;
            proof {
                let pre = links@.take(i as int);
                assert forall|j: int| 0 <= j < pre.len() implies link_check(nodes0, #[trigger] pre[j])
                    is Ok by {
                    assert(pre[j] == links@[j]);
                }
                lemma_attach_all_keeps_kinds(nodes0, pre);
                assert(link_check(nodes0, links@[i as int]) is Ok);
                assert(link_check(before, l) is Ok);
            }
            let _ = self.add_input(l.receiver, Component { node_id: l.sender, sign: l.link_type });
            let ghost mid = self@.nodes;
            assert(mid == before.insert(l.receiver, with_input(before[l.receiver], input_component(l))));
            let is_population = match self.get_node(l.sender) {
                Some(n) => n.node_type() == NodeType::Population,
                None => false,
            };
            if is_population {
                let _ = self.add_link(l.sender, Component { node_id: l.receiver, sign: l.link_type });
            }
            proof {
                assert(mid.contains_key(l.sender));
                if !is_population {
                    assert(with_output(mid[l.sender], output_component(l)) == mid[l.sender]);
                    assert(mid.insert(l.sender, mid[l.sender]) =~= mid);
                }
                assert(self@.nodes == attach(before, l));
                assert(links@.take(i + 1).drop_last() =~= links@.take(i as int));
            }
            i = i + 1;
        }
        proof {
            assert(links@.take(i as int) =~= links@);
        }
        Ok(())
    }

    /// Checks the link invariant (see `links_resolve`): `Ok` when every
    /// embedded link resolves, else the first fault of the node with the
    /// smallest id that has one.
    pub fn check_links(&self) -> (r: Result<(), ModelError>)
        requires
            self.wf(),
        ensures
            r is Ok <==> links_resolve(self@.nodes),
            r == match first_fault(self@.nodes) {
                None => Ok::<(), ModelError>(()),
                Some(e) => Err(e),
            },
    {
        let ghost m = self@.nodes;
        let ghost s = self.ordered();
        proof {
            lemma_seq_to_map(s);
        }
        let mut i: usize = 0;
        while i < self.len()
            invariant
                i <= s.len(),
                s == self.ordered(),
                m == self@.nodes,
                ids_increasing(s),
                forall|k: NodeId| #[trigger]
                    m.contains_key(k) <==> exists|j: int| 0 <= j < s.len() && s[j].id() == k,
                forall|j: int| 0 <= j < s.len() ==> #[trigger] m[s[j].id()] == s[j],
                forall|j: int| 0 <= j < i ==> node_ok(m, #[trigger] s[j]),
            decreases s.len() - i,
        {
            let fault = match self.node_at(i) {
                Node::Combinator { inputs, .. } => self.seq_check(inputs, false),
                Node::Population { outgoing_links, .. } => self.seq_check(outgoing_links, true),
                Node::Constant { .. } => None,
            };
            proof {
                let n = s[i as int];
                lemma_node_fault(m, n);
                assert(fault == node_fault(m, n)) by {
                    reveal_with_fuel(seq_fault, 1);
                }
            }
            match fault {
                Some(e) => {
                    proof {
                        let k0 = s[i as int].id();
                        assert(is_faulty(m, k0));
                        assert forall|j: NodeId| is_faulty(m, j) implies k0 <= j by {
                            let jj = choose|jj: int| 0 <= jj < s.len() && s[jj].id() == j;
                            if jj < i {
                                assert(node_ok(m, s[jj]));
                            } else if jj > i {
                                assert(s[i as int].id() < s[jj].id());
                            }
                        }
                        let k = choose|k: NodeId|
                            is_faulty(m, k) && forall|j: NodeId| is_faulty(m, j) ==> k <= j;
                        assert(k == k0);
                        lemma_links_resolve_no_fault(m);
                    }
                    return Err(e);
                },
                None => {},
            }
            i = i + 1;
        }
        proof {
            assert forall|k: NodeId| m.contains_key(k) implies node_ok(m, #[trigger] m[k]) by {
                let j = choose|j: int| 0 <= j < s.len() && s[j].id() == k;
                assert(node_ok(m, s[j]));
            }
            lemma_links_resolve_no_fault(m);
        }
        Ok(())
    }

    fn seq_check(&self, cs: &Vec<Component>, need_combinator: bool) -> (r: Option<ModelError>)
        requires
            self.wf(),
        ensures
            r == seq_fault(self@.nodes, cs@, need_combinator),
    {
        let mut i: usize = 0;
        assert(cs@.skip(0) =~= cs@);
        while i < cs.len()
            invariant
                i <= cs@.len(),
                self.wf(),
                seq_fault(self@.nodes, cs@, need_combinator) == seq_fault(
                    self@.nodes,
                    cs@.skip(i as int),
                    need_combinator,
                ),
            decreases cs@.len() - i,
        {
            let c = cs[i];
            proof {
                assert(cs@.skip(i as int)[0] == c);
                assert(cs@.skip(i as int).drop_first() =~= cs@.skip(i + 1));
            }
            match self.get_node(c.node_id) {
                None => return Some(ModelError::UnknownNode(c.node_id)),
                Some(n) => {
                    if need_combinator && n.node_type() != NodeType::Combinator {
                        return Some(ModelError::StructuralViolation(c.node_id));
                    }
                },
            }
            i = i + 1;
        }
        proof {
            assert(cs@.skip(i as int).len() == 0);
        }
        None
    }

    /// Embedded to flat: for each combinator in increasing order of id, one
    /// link per input, in input order, with the combinator as receiver.
    pub fn flatten_links(&self) -> (r: Vec<Link>)
        requires
            self.wf(),
        ensures
            r@ == flat_links(self.ordered()),
    {
        let mut r: Vec<Link> = Vec::new();
        let mut i: usize = 0;
        while i < self.len()
            invariant
                i <= self.ordered().len(),
                r@ == flat_links(self.ordered().take(i as int)),
            decreases self.ordered().len() - i,
        {
            let ghost start = r@;
            match self.node_at(i) {
                Node::Combinator { id, inputs, .. } => {
                    let mut j: usize = 0;
                    while j < inputs.len()
                        invariant
                            j <= inputs@.len(),
                            r@ == start + inputs@.take(j as int).map_values(
                                |e: Component| Link { sender: e.node_id, receiver: *id, link_type: e.sign },
                            ),
                        decreases inputs@.len() - j,
                    {
                        let e = inputs[j];
                        r.push(Link { sender: e.node_id, receiver: *id, link_type: e.sign });
                        j = j + 1;
                        assert(inputs@.take(j as int) =~= inputs@.take(j - 1).push(e));
                    }
                    assert(inputs@.take(j as int) =~= inputs@);
                },
                _ => {
                    assert(r@ =~= start + node_links(self.ordered()[i as int]));
                },
            }
            proof {
                let s = self.ordered().take(i + 1);
                assert(s.drop_last() =~= self.ordered().take(i as int));
                assert(s.last() == self.ordered()[i as int]);
                assert(r@ =~= flat_links(s.drop_last()) + node_links(s.last()));
            }
            i = i + 1;
        }
        proof {
            assert(self.ordered().take(i as int) =~= self.ordered());
        }
        r
    }
}

} // verus!
