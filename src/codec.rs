use vstd::prelude::*;

use crate::json::{
    field, get_field, lemma_field_at, lemma_field_none, lemma_view_items, lemma_view_members,
    opt_view, view_items, view_members, Json, JsonView,
};
use crate::links::{
    attach_all, embed_spec, first_fault, first_violation, lemma_links_resolve_no_fault,
};
use crate::model::{
    links_resolve, seq_to_map, MetaData, MetaDataView, Model, ModelError, ModelView,
};
use crate::node::{
    operation_char, operation_of_char, sign_char, sign_of_char, Component, Link, Node, NodeId,
    NodeView, Operation, Sign,
};
use crate::text::{chars_of, decimal, id_of_text, id_text, lemma_id_text_round_trip, parse_id};

verus! {

/// Why a JSON tree is not a model document.
#[derive(Clone, Copy, Debug, PartialEq, Eq, Structural)]
pub enum DecodeError {
    /// A member is missing or of the wrong JSON kind, an id is not a 32-bit
    /// unsigned integer, or an object matches no node variant.
    Malformed,
    /// A sign or an operation is written with a character that encodes none.
    InvalidEnumEncoding(char),
    /// The flat links of the document cannot be attached to its nodes.
    UnresolvedLinks(ModelError),
}

pub open spec fn id_of(j: Option<JsonView>) -> Result<NodeId, DecodeError> {
    match j {
        Some(JsonView::Number(t)) => match id_of_text(t) {
            Some(n) => Ok(n),
            None => Err(DecodeError::Malformed),
        },
        _ => Err(DecodeError::Malformed),
    }
}

pub open spec fn text_of(j: Option<JsonView>) -> Result<Seq<char>, DecodeError> {
    match j {
        Some(JsonView::Str(t)) => Ok(t),
        _ => Err(DecodeError::Malformed),
    }
}

pub open spec fn number_of(j: Option<JsonView>) -> Result<Seq<char>, DecodeError> {
    match j {
        Some(JsonView::Number(t)) => Ok(t),
        _ => Err(DecodeError::Malformed),
    }
}

/// A string of exactly one character.
pub open spec fn char_of(j: Option<JsonView>) -> Result<char, DecodeError> {
    match j {
        Some(JsonView::Str(t)) => if t.len() == 1 {
            Ok(t[0])
        } else {
            Err(DecodeError::Malformed)
        },
        _ => Err(DecodeError::Malformed),
    }
}

pub open spec fn sign_of(j: Option<JsonView>) -> Result<Sign, DecodeError> {
    match char_of(j) {
        Err(e) => Err(e),
        Ok(c) => match sign_of_char(c) {
            Some(s) => Ok(s),
            None => Err(DecodeError::InvalidEnumEncoding(c)),
        },
    }
}

pub open spec fn operation_of(j: Option<JsonView>) -> Result<Operation, DecodeError> {
    match char_of(j) {
        Err(e) => Err(e),
        Ok(c) => match operation_of_char(c) {
            Some(o) => Ok(o),
            None => Err(DecodeError::InvalidEnumEncoding(c)),
        },
    }
}

/// An embedded adjacency entry: `{"nodeId": <id>, "sign": "+" | "-"}`.
pub open spec fn component_of(j: JsonView) -> Result<Component, DecodeError> {
    match j {
        JsonView::Object(ms) => match id_of(field(ms, "nodeId"@)) {
            Err(e) => Err(e),
            Ok(node_id) => match sign_of(field(ms, "sign"@)) {
                Err(e) => Err(e),
                Ok(sign) => Ok(Component { node_id, sign }),
            },
        },
        _ => Err(DecodeError::Malformed),
    }
}

/// Each item decoded in order; the first failure wins.
pub open spec fn list_of<T>(items: Seq<JsonView>, f: spec_fn(JsonView) -> Result<T, DecodeError>) -> Result<
    Seq<T>,
    DecodeError,
>
    decreases items.len(),
{
    if items.len() == 0 {
        Ok(Seq::empty())
    } else {
        match list_of(items.drop_last(), f) {
            Err(e) => Err(e),
            Ok(xs) => match f(items.last()) {
                Err(e) => Err(e),
                Ok(x) => Ok(xs.push(x)),
            },
        }
    }
}

/// A failure on a prefix is the failure of the whole list.
proof fn lemma_list_prefix_error<T>(
    items: Seq<JsonView>,
    f: spec_fn(JsonView) -> Result<T, DecodeError>,
    k: int,
)
    requires
        0 <= k <= items.len(),
        list_of(items.take(k), f) is Err,
    ensures
        list_of(items, f) == list_of(items.take(k), f),
    decreases items.len() - k,
{
    if k == items.len() {
        assert(items.take(k) =~= items);
    } else {
        let p = items.drop_last();
        assert(p.take(k) =~= items.take(k));
        lemma_list_prefix_error(p, f, k);
    }
}

/// One more item decoded after a prefix that decoded.
proof fn lemma_list_step<T>(
    items: Seq<JsonView>,
    f: spec_fn(JsonView) -> Result<T, DecodeError>,
    i: int,
)
    requires
        0 <= i < items.len(),
    ensures
        list_of(items.take(i + 1), f) == match list_of(items.take(i), f) {
            Err(e) => Err(e),
            Ok(xs) => match f(items[i]) {
                Err(e) => Err(e),
                Ok(x) => Ok(xs.push(x)),
            },
        },
{
    let pre = items.take(i + 1);
    assert(pre.drop_last() =~= items.take(i));
    assert(pre.last() == items[i]);
}

pub open spec fn component_decoder() -> spec_fn(JsonView) -> Result<Component, DecodeError> {
    |j: JsonView| component_of(j)
}

pub open spec fn components_of(items: Seq<JsonView>) -> Result<Seq<Component>, DecodeError> {
    list_of(items, component_decoder())
}

pub open spec fn component_list_of(j: Option<JsonView>) -> Result<Seq<Component>, DecodeError> {
    match j {
        Some(JsonView::Array(items)) => components_of(items),
        _ => Err(DecodeError::Malformed),
    }
}

/// A node object. Its variant is told by which members it has, tried in a
/// fixed order: `value` makes a constant; `operation` with `inputs` a
/// combinator; `relatedConstantName` a population.
pub open spec fn node_of(j: JsonView) -> Result<NodeView, DecodeError> {
    match j {
        JsonView::Object(ms) => match id_of(field(ms, "id"@)) {
            Err(e) => Err(e),
            Ok(id) => match text_of(field(ms, "name"@)) {
                Err(e) => Err(e),
                Ok(name) => if field(ms, "value"@) is Some {
                    match number_of(field(ms, "value"@)) {
                        Err(e) => Err(e),
                        Ok(value) => Ok(NodeView::Constant { id, name, value }),
                    }
                } else if field(ms, "operation"@) is Some && field(ms, "inputs"@) is Some {
                    match operation_of(field(ms, "operation"@)) {
                        Err(e) => Err(e),
                        Ok(operation) => match component_list_of(field(ms, "inputs"@)) {
                            Err(e) => Err(e),
                            Ok(inputs) => Ok(NodeView::Combinator { id, name, operation, inputs }),
                        },
                    }
                } else if field(ms, "relatedConstantName"@) is Some {
                    match text_of(field(ms, "relatedConstantName"@)) {
                        Err(e) => Err(e),
                        Ok(related_constant_name) => match field(ms, "outgoingLinks"@) {
                            None => Ok(
                                NodeView::Population {
                                    id,
                                    name,
                                    related_constant_name,
                                    outgoing_links: Seq::empty(),
                                },
                            ),
                            Some(_) => match component_list_of(field(ms, "outgoingLinks"@)) {
                                Err(e) => Err(e),
                                Ok(outgoing_links) => Ok(
                                    NodeView::Population {
                                        id,
                                        name,
                                        related_constant_name,
                                        outgoing_links,
                                    },
                                ),
                            },
                        },
                    }
                } else {
                    Err(DecodeError::Malformed)
                },
            },
        },
        _ => Err(DecodeError::Malformed),
    }
}

pub open spec fn node_decoder() -> spec_fn(JsonView) -> Result<NodeView, DecodeError> {
    |j: JsonView| node_of(j)
}

pub open spec fn nodes_of(items: Seq<JsonView>) -> Result<Seq<NodeView>, DecodeError> {
    list_of(items, node_decoder())
}

/// A flat link: `{"sender": <id>, "receiver": <id>, "linkType": "+" | "-"}`.
pub open spec fn link_of(j: JsonView) -> Result<Link, DecodeError> {
    match j {
        JsonView::Object(ms) => match id_of(field(ms, "sender"@)) {
            Err(e) => Err(e),
            Ok(sender) => match id_of(field(ms, "receiver"@)) {
                Err(e) => Err(e),
                Ok(receiver) => match sign_of(field(ms, "linkType"@)) {
                    Err(e) => Err(e),
                    Ok(link_type) => Ok(Link { sender, receiver, link_type }),
                },
            },
        },
        _ => Err(DecodeError::Malformed),
    }
}

pub open spec fn link_decoder() -> spec_fn(JsonView) -> Result<Link, DecodeError> {
    |j: JsonView| link_of(j)
}

pub open spec fn links_of(items: Seq<JsonView>) -> Result<Seq<Link>, DecodeError> {
    list_of(items, link_decoder())
}

/// `{"startTime": <number>, "endTime": <number>, "deltaTime": <number>}`.
pub open spec fn meta_of(j: Option<JsonView>) -> Result<MetaDataView, DecodeError> {
    match j {
        Some(JsonView::Object(ms)) => match number_of(field(ms, "startTime"@)) {
            Err(e) => Err(e),
            Ok(start_time) => match number_of(field(ms, "endTime"@)) {
                Err(e) => Err(e),
                Ok(end_time) => match number_of(field(ms, "deltaTime"@)) {
                    Err(e) => Err(e),
                    Ok(delta_time) => Ok(MetaDataView { start_time, end_time, delta_time }),
                },
            },
        },
        _ => Err(DecodeError::Malformed),
    }
}

/// The flat links of a document: none where the member is absent.
pub open spec fn flat_list_of(j: Option<JsonView>) -> Result<Seq<Link>, DecodeError> {
    match j {
        None => Ok(Seq::empty()),
        Some(JsonView::Array(items)) => links_of(items),
        Some(_) => Err(DecodeError::Malformed),
    }
}

/// A model document: `{"metaData": .., "nodes": [..], "links": [..]}`, the
/// flat `links` being optional. Nodes are inserted in document order (a
/// later node replaces an earlier one with the same id); then the flat
/// links are attached to them, and a link that cannot be attached fails
/// the whole document. Last, every embedded link must resolve (see
/// `links_resolve`); the first fault (see `first_fault`) fails the document.
pub open spec fn decode_spec(j: JsonView) -> Result<ModelView, DecodeError> {
    match j {
        JsonView::Object(ms) => match meta_of(field(ms, "metaData"@)) {
            Err(e) => Err(e),
            Ok(meta_data) => match field(ms, "nodes"@) {
                Some(JsonView::Array(items)) => match nodes_of(items) {
                    Err(e) => Err(e),
                    Ok(ns) => match flat_list_of(field(ms, "links"@)) {
                        Err(e) => Err(e),
                        Ok(ls) => match embed_spec(seq_to_map(ns), ls) {
                            Err(e) => Err(DecodeError::UnresolvedLinks(e)),
                            Ok(nodes) => match first_fault(nodes) {
                                Some(e) => Err(DecodeError::UnresolvedLinks(e)),
                                None => Ok(ModelView { meta_data, nodes }),
                            },
                        },
                    },
                },
                _ => Err(DecodeError::Malformed),
            },
        },
        _ => Err(DecodeError::Malformed),
    }
}

fn read_id(j: Option<&Json>) -> (r: Result<NodeId, DecodeError>)
    ensures
        r == id_of(opt_view(j)),
{
    match j {
        Some(Json::Number(t)) => match parse_id(t.as_str()) {
            Some(n) => Ok(n),
            None => Err(DecodeError::Malformed),
        },
        _ => Err(DecodeError::Malformed),
    }
}

fn read_text(j: Option<&Json>) -> (r: Result<String, DecodeError>)
    ensures
        match text_of(opt_view(j)) {
            Ok(t) => r is Ok && r->Ok_0@ == t,
            Err(e) => r == Err::<String, DecodeError>(e),
        },
{
    match j {
        Some(Json::Str(t)) => Ok(t.clone()),
        _ => Err(DecodeError::Malformed),
    }
}

fn read_number(j: Option<&Json>) -> (r: Result<String, DecodeError>)
    ensures
        match number_of(opt_view(j)) {
            Ok(t) => r is Ok && r->Ok_0@ == t,
            Err(e) => r == Err::<String, DecodeError>(e),
        },
{
    match j {
        Some(Json::Number(t)) => Ok(t.clone()),
        _ => Err(DecodeError::Malformed),
    }
}

fn read_char(j: Option<&Json>) -> (r: Result<char, DecodeError>)
    ensures
        r == char_of(opt_view(j)),
{
    match j {
        Some(Json::Str(t)) => {
            let cs = chars_of(t.as_str());
            if cs.len() == 1 {
                Ok(cs[0])
            } else {
                Err(DecodeError::Malformed)
            }
        },
        _ => Err(DecodeError::Malformed),
    }
}

fn read_sign(j: Option<&Json>) -> (r: Result<Sign, DecodeError>)
    ensures
        r == sign_of(opt_view(j)),
{
    match read_char(j) {
        Err(e) => Err(e),
        Ok(c) => match Sign::from_char(c) {
            Some(s) => Ok(s),
            None => Err(DecodeError::InvalidEnumEncoding(c)),
        },
    }
}

fn read_operation(j: Option<&Json>) -> (r: Result<Operation, DecodeError>)
    ensures
        r == operation_of(opt_view(j)),
{
    match read_char(j) {
        Err(e) => Err(e),
        Ok(c) => match Operation::from_char(c) {
            Some(o) => Ok(o),
            None => Err(DecodeError::InvalidEnumEncoding(c)),
        },
    }
}

fn read_component(j: &Json) -> (r: Result<Component, DecodeError>)
    ensures
        r == component_of(j@),
{
    match j {
        Json::Object(ms) => {
            let node_id = match read_id(get_field(ms, "nodeId")) {
                Err(e) => return Err(e),
                Ok(n) => n,
            };
            let sign = match read_sign(get_field(ms, "sign")) {
                Err(e) => return Err(e),
                Ok(s) => s,
            };
            Ok(Component { node_id, sign })
        },
        _ => Err(DecodeError::Malformed),
    }
}

fn read_components(j: Option<&Json>) -> (r: Result<Vec<Component>, DecodeError>)
    ensures
        match component_list_of(opt_view(j)) {
            Ok(es) => r is Ok && r->Ok_0@ == es,
            Err(e) => r == Err::<Vec<Component>, DecodeError>(e),
        },
{
    match j {
        Some(Json::Array(items)) => {
            proof {
                lemma_view_items(items@);
                assert(opt_view(j) == Some(JsonView::Array(view_items(items@))));
            }
            let mut es: Vec<Component> = Vec::new();
            let mut i: usize = 0;
            while i < items.len()
                invariant
                    i <= items@.len(),
                    opt_view(j) == Some(JsonView::Array(view_items(items@))),
                    view_items(items@).len() == items@.len(),
                    forall|k: int|
                        0 <= k < items@.len() ==> #[trigger] view_items(items@)[k] == items@[k]@,
                    components_of(view_items(items@).take(i as int)) == Ok::<Seq<Component>, DecodeError>(
                        es@,
                    ),
                decreases items@.len() - i,
            {
                proof {
                    lemma_list_step(view_items(items@), component_decoder(), i as int);
                }
                match read_component(&items[i]) {
                    Err(e) => {
                        proof {
                            lemma_list_prefix_error(
                                view_items(items@),
                                component_decoder(),
                                i + 1,
                            );
                        }
                        return Err(e);
                    },
                    Ok(x) => es.push(x),
                }
                i = i + 1;
            }
            proof {
                assert(view_items(items@).take(i as int) =~= view_items(items@));
            }
            Ok(es)
        },
        _ => Err(DecodeError::Malformed),
    }
}

fn read_node(j: &Json) -> (r: Result<Node, DecodeError>)
    ensures
        match node_of(j@) {
            Ok(n) => r is Ok && r->Ok_0@ == n,
            Err(e) => r is Err && r->Err_0 == e,
        },
{
    match j {
        Json::Object(ms) => {
            let id = match read_id(get_field(ms, "id")) {
                Err(e) => return Err(e),
                Ok(n) => n,
            };
            let name = match read_text(get_field(ms, "name")) {
                Err(e) => return Err(e),
                Ok(t) => t,
            };
            let value = get_field(ms, "value");
            if value.is_some() {
                let value = match read_number(value) {
                    Err(e) => return Err(e),
                    Ok(t) => t,
                };
                return Ok(Node::Constant { id, name, value });
            }
            let operation = get_field(ms, "operation");
            let inputs = get_field(ms, "inputs");
            if operation.is_some() && inputs.is_some() {
                let operation = match read_operation(operation) {
                    Err(e) => return Err(e),
                    Ok(o) => o,
                };
                let inputs = match read_components(inputs) {
                    Err(e) => return Err(e),
                    Ok(es) => es,
                };
                return Ok(Node::Combinator { id, name, operation, inputs });
            }
            let related = get_field(ms, "relatedConstantName");
            if related.is_some() {
                let related_constant_name = match read_text(related) {
                    Err(e) => return Err(e),
                    Ok(t) => t,
                };
                let outgoing = get_field(ms, "outgoingLinks");
                let outgoing_links = if outgoing.is_none() {
                    Vec::new()
                } else {
                    match read_components(outgoing) {
                        Err(e) => return Err(e),
                        Ok(es) => es,
                    }
                };
                proof {
                    if outgoing.is_none() {
                        assert(outgoing_links@ =~= Seq::<Component>::empty());
                    }
                }
                return Ok(Node::Population { id, name, related_constant_name, outgoing_links });
            }
            Err(DecodeError::Malformed)
        },
        _ => Err(DecodeError::Malformed),
    }
}

fn read_link(j: &Json) -> (r: Result<Link, DecodeError>)
    ensures
        r == link_of(j@),
{
    match j {
        Json::Object(ms) => {
            let sender = match read_id(get_field(ms, "sender")) {
                Err(e) => return Err(e),
                Ok(n) => n,
            };
            let receiver = match read_id(get_field(ms, "receiver")) {
                Err(e) => return Err(e),
                Ok(n) => n,
            };
            let link_type = match read_sign(get_field(ms, "linkType")) {
                Err(e) => return Err(e),
                Ok(s) => s,
            };
            Ok(Link { sender, receiver, link_type })
        },
        _ => Err(DecodeError::Malformed),
    }
}

fn read_links(j: Option<&Json>) -> (r: Result<Vec<Link>, DecodeError>)
    ensures
        match flat_list_of(opt_view(j)) {
            Ok(ls) => r is Ok && r->Ok_0@ == ls,
            Err(e) => r == Err::<Vec<Link>, DecodeError>(e),
        },
{
    match j {
        None => {
            let ls: Vec<Link> = Vec::new();
            proof {
                assert(ls@ =~= Seq::<Link>::empty());
            }
            Ok(ls)
        },
        Some(Json::Array(items)) => {
            proof {
                lemma_view_items(items@);
            }
            let mut ls: Vec<Link> = Vec::new();
            let mut i: usize = 0;
            while i < items.len()
                invariant
                    i <= items@.len(),
                    opt_view(j) == Some(JsonView::Array(view_items(items@))),
                    view_items(items@).len() == items@.len(),
                    forall|k: int|
                        0 <= k < items@.len() ==> #[trigger] view_items(items@)[k] == items@[k]@,
                    links_of(view_items(items@).take(i as int)) == Ok::<Seq<Link>, DecodeError>(
                        ls@,
                    ),
                decreases items@.len() - i,
            {
                proof {
                    lemma_list_step(view_items(items@), link_decoder(), i as int);
                }
                match read_link(&items[i]) {
                    Err(e) => {
                        proof {
                            lemma_list_prefix_error(view_items(items@), link_decoder(), i + 1);
                        }
                        return Err(e);
                    },
                    Ok(l) => ls.push(l),
                }
                i = i + 1;
            }
            proof {
                assert(view_items(items@).take(i as int) =~= view_items(items@));
            }
            Ok(ls)
        },
        _ => Err(DecodeError::Malformed),
    }
}

fn read_meta(j: Option<&Json>) -> (r: Result<MetaData, DecodeError>)
    ensures
        match meta_of(opt_view(j)) {
            Ok(m) => r is Ok && r->Ok_0@ == m,
            Err(e) => r is Err && r->Err_0 == e,
        },
{
    match j {
        Some(Json::Object(ms)) => {
            let start_time = match read_number(get_field(ms, "startTime")) {
                Err(e) => return Err(e),
                Ok(t) => t,
            };
            let end_time = match read_number(get_field(ms, "endTime")) {
                Err(e) => return Err(e),
                Ok(t) => t,
            };
            let delta_time = match read_number(get_field(ms, "deltaTime")) {
                Err(e) => return Err(e),
                Ok(t) => t,
            };
            Ok(MetaData::new(start_time, end_time, delta_time))
        },
        _ => Err(DecodeError::Malformed),
    }
}

/// Decodes a model document (see `decode_spec`). On failure no model is
/// built.
pub fn decode_model(j: &Json) -> (r: Result<Model, DecodeError>)
    ensures
        match decode_spec(j@) {
            Ok(v) => r is Ok && r->Ok_0.wf() && r->Ok_0@ == v && links_resolve(v.nodes),
            Err(e) => r is Err && r->Err_0 == e,
        },
{
    match j {
        Json::Object(ms) => {
            let meta = match read_meta(get_field(ms, "metaData")) {
                Err(e) => return Err(e),
                Ok(m) => m,
            };
            let ghost meta_view = meta@;
            let nodes = get_field(ms, "nodes");
            let items = match nodes {
                Some(Json::Array(items)) => items,
                _ => return Err(DecodeError::Malformed),
            };
            proof {
                lemma_view_items(items@);
            }
            let mut model = Model::new(meta);
            let ghost mut ns: Seq<NodeView> = Seq::empty();
            let mut i: usize = 0;
            while i < items.len()
                invariant
                    i <= items@.len(),
                    opt_view(nodes) == Some(JsonView::Array(view_items(items@))),
                    view_items(items@).len() == items@.len(),
                    forall|k: int|
                        0 <= k < items@.len() ==> #[trigger] view_items(items@)[k] == items@[k]@,
                    nodes_of(view_items(items@).take(i as int)) == Ok::<Seq<NodeView>, DecodeError>(ns),
                    j@ == JsonView::Object(view_members(ms@)),
                    meta_of(field(view_members(ms@), "metaData"@)) == Ok::<MetaDataView, DecodeError>(
                        meta_view,
                    ),
                    field(view_members(ms@), "nodes"@) == opt_view(nodes),
                    model.wf(),
                    model@.meta_data == meta_view,
                    model@.nodes == seq_to_map(ns),
                decreases items@.len() - i,
            {
                proof {
                    lemma_list_step(view_items(items@), node_decoder(), i as int);
                }
                match read_node(&items[i]) {
                    Err(e) => {
                        proof {
                            lemma_list_prefix_error(view_items(items@), node_decoder(), i + 1);
                        }
                        return Err(e);
                    },
                    Ok(n) => {
                        let ghost prev = ns;
                        proof {
                            ns = ns.push(n@);
                            assert(ns.drop_last() =~= prev);
                        }
                        model.insert_node(n);
                        proof {
                            assert(seq_to_map(ns) == seq_to_map(ns.drop_last()).insert(
                                ns.last().id(),
                                ns.last(),
                            ));
                        }
                    },
                }
                i = i + 1;
            }
            proof {
                assert(view_items(items@).take(i as int) =~= view_items(items@));
            }
            let links = match read_links(get_field(ms, "links")) {
                Err(e) => return Err(e),
                Ok(ls) => ls,
            };
            match model.embed_links(&links) {
                Err(e) => Err(DecodeError::UnresolvedLinks(e)),
                Ok(()) => match model.check_links() {
                    Err(e) => Err(DecodeError::UnresolvedLinks(e)),
                    Ok(()) => Ok(model),
                },
            }
        },
        _ => Err(DecodeError::Malformed),
    }
}

pub open spec fn id_json(id: NodeId) -> JsonView {
    JsonView::Number(decimal(id as nat))
}

pub open spec fn component_json(e: Component) -> JsonView {
    JsonView::Object(
        seq![("nodeId"@, id_json(e.node_id)), ("sign"@, JsonView::Str(seq![sign_char(e.sign)]))],
    )
}

pub open spec fn components_json(es: Seq<Component>) -> JsonView {
    JsonView::Array(es.map_values(|e: Component| component_json(e)))
}

/// The canonical object of a node: its adjacency embedded.
pub open spec fn node_json(n: NodeView) -> JsonView {
    match n {
        NodeView::Constant { id, name, value } => JsonView::Object(
            seq![
                ("id"@, id_json(id)),
                ("name"@, JsonView::Str(name)),
                ("value"@, JsonView::Number(value)),
            ],
        ),
        NodeView::Population { id, name, related_constant_name, outgoing_links } =>
            JsonView::Object(
            seq![
                ("id"@, id_json(id)),
                ("name"@, JsonView::Str(name)),
                ("relatedConstantName"@, JsonView::Str(related_constant_name)),
                ("outgoingLinks"@, components_json(outgoing_links)),
            ],
        ),
        NodeView::Combinator { id, name, operation, inputs } => JsonView::Object(
            seq![
                ("id"@, id_json(id)),
                ("name"@, JsonView::Str(name)),
                ("operation"@, JsonView::Str(seq![operation_char(operation)])),
                ("inputs"@, components_json(inputs)),
            ],
        ),
    }
}

pub open spec fn meta_json(m: MetaDataView) -> JsonView {
    JsonView::Object(
        seq![
            ("startTime"@, JsonView::Number(m.start_time)),
            ("endTime"@, JsonView::Number(m.end_time)),
            ("deltaTime"@, JsonView::Number(m.delta_time)),
        ],
    )
}

/// The canonical document of a model: metadata, then the nodes in the
/// order given, each with its links embedded; no flat link list.
pub open spec fn encode_spec(meta: MetaDataView, nodes: Seq<NodeView>) -> JsonView {
    JsonView::Object(
        seq![
            ("metaData"@, meta_json(meta)),
            ("nodes"@, JsonView::Array(nodes.map_values(|n: NodeView| node_json(n)))),
        ],
    )
}

proof fn lemma_object2(v: Vec<(String, Json)>, a: (Seq<char>, JsonView), b: (Seq<char>, JsonView))
    requires
        v@.len() == 2,
        (v@[0].0@, v@[0].1@) == a,
        (v@[1].0@, v@[1].1@) == b,
    ensures
        view_members(v@) == seq![a, b],
{
    lemma_view_members(v@);
    assert(view_members(v@) =~= seq![a, b]);
}

proof fn lemma_object3(
    v: Vec<(String, Json)>,
    a: (Seq<char>, JsonView),
    b: (Seq<char>, JsonView),
    c: (Seq<char>, JsonView),
)
    requires
        v@.len() == 3,
        (v@[0].0@, v@[0].1@) == a,
        (v@[1].0@, v@[1].1@) == b,
        (v@[2].0@, v@[2].1@) == c,
    ensures
        view_members(v@) == seq![a, b, c],
{
    lemma_view_members(v@);
    assert(view_members(v@) =~= seq![a, b, c]);
}

proof fn lemma_object4(
    v: Vec<(String, Json)>,
    a: (Seq<char>, JsonView),
    b: (Seq<char>, JsonView),
    c: (Seq<char>, JsonView),
    d: (Seq<char>, JsonView),
)
    requires
        v@.len() == 4,
        (v@[0].0@, v@[0].1@) == a,
        (v@[1].0@, v@[1].1@) == b,
        (v@[2].0@, v@[2].1@) == c,
        (v@[3].0@, v@[3].1@) == d,
    ensures
        view_members(v@) == seq![a, b, c, d],
{
    lemma_view_members(v@);
    assert(view_members(v@) =~= seq![a, b, c, d]);
}

fn key(k: &str) -> (r: String)
    ensures
        r@ == k@,
{
    k.to_owned()
}

fn one_char_text(c: char) -> (r: String)
    requires
        c == '+' || c == '-' || c == '*' || c == '/',
    ensures
        r@ == seq![c],
{
    if c == '+' {
        proof { reveal_strlit("+"); }
        "+".to_owned()
    } else if c == '-' {
        proof { reveal_strlit("-"); }
        "-".to_owned()
    } else if c == '*' {
        proof { reveal_strlit("*"); }
        "*".to_owned()
    } else {
        proof { reveal_strlit("/"); }
        "/".to_owned()
    }
}

fn write_component(e: Component) -> (r: Json)
    ensures
        r@ == component_json(e),
{
    let v = vec![
        (key("nodeId"), Json::Number(id_text(e.node_id))),
        (key("sign"), Json::Str(one_char_text(e.sign.to_char()))),
    ];
    proof {
        lemma_object2(v, ("nodeId"@, id_json(e.node_id)), ("sign"@, JsonView::Str(seq![sign_char(e.sign)])));
    }
    Json::Object(v)
}

fn write_components(es: &Vec<Component>) -> (r: Json)
    ensures
        r@ == components_json(es@),
{
    let mut items: Vec<Json> = Vec::new();
    let mut i: usize = 0;
    while i < es.len()
        invariant
            i <= es@.len(),
            items@.len() == i,
            forall|k: int| 0 <= k < i ==> #[trigger] items@[k]@ == component_json(es@[k]),
        decreases es@.len() - i,
    {
        items.push(write_component(es[i]));
        i = i + 1;
    }
    proof {
        lemma_view_items(items@);
        assert forall|k: int| 0 <= k < es@.len() implies #[trigger] view_items(items@)[k]
            == es@.map_values(|e: Component| component_json(e))[k] by {
            assert(items@[k]@ == component_json(es@[k]));
        }
        assert(view_items(items@) =~= es@.map_values(|e: Component| component_json(e)));
    }
    Json::Array(items)
}

fn write_node(n: &Node) -> (r: Json)
    ensures
        r@ == node_json(n@),
{
    match n {
        Node::Constant { id, name, value } => {
            let v = vec![
                (key("id"), Json::Number(id_text(*id))),
                (key("name"), Json::Str(name.clone())),
                (key("value"), Json::Number(value.clone())),
            ];
            proof {
                lemma_object3(
                    v,
                    ("id"@, id_json(*id)),
                    ("name"@, JsonView::Str(name@)),
                    ("value"@, JsonView::Number(value@)),
                );
            }
            Json::Object(v)
        },
        Node::Population { id, name, related_constant_name, outgoing_links } => {
            let v = vec![
                (key("id"), Json::Number(id_text(*id))),
                (key("name"), Json::Str(name.clone())),
                (key("relatedConstantName"), Json::Str(related_constant_name.clone())),
                (key("outgoingLinks"), write_components(outgoing_links)),
            ];
            proof {
                lemma_object4(
                    v,
                    ("id"@, id_json(*id)),
                    ("name"@, JsonView::Str(name@)),
                    ("relatedConstantName"@, JsonView::Str(related_constant_name@)),
                    ("outgoingLinks"@, components_json(outgoing_links@)),
                );
            }
            Json::Object(v)
        },
        Node::Combinator { id, name, operation, inputs } => {
            let v = vec![
                (key("id"), Json::Number(id_text(*id))),
                (key("name"), Json::Str(name.clone())),
                (key("operation"), Json::Str(one_char_text(operation.to_char()))),
                (key("inputs"), write_components(inputs)),
            ];
            proof {
                lemma_object4(
                    v,
                    ("id"@, id_json(*id)),
                    ("name"@, JsonView::Str(name@)),
                    ("operation"@, JsonView::Str(seq![operation_char(*operation)])),
                    ("inputs"@, components_json(inputs@)),
                );
            }
            Json::Object(v)
        },
    }
}

fn write_meta(m: &MetaData) -> (r: Json)
    ensures
        r@ == meta_json(m@),
{
    let v = vec![
        (key("startTime"), Json::Number(m.start_time.clone())),
        (key("endTime"), Json::Number(m.end_time.clone())),
        (key("deltaTime"), Json::Number(m.delta_time.clone())),
    ];
    proof {
        lemma_object3(
            v,
            ("startTime"@, JsonView::Number(m.start_time@)),
            ("endTime"@, JsonView::Number(m.end_time@)),
            ("deltaTime"@, JsonView::Number(m.delta_time@)),
        );
    }
    Json::Object(v)
}

/// Encodes a model as its canonical document (see `encode_spec`), nodes in
/// increasing order of id.
pub fn encode_model(m: &Model) -> (r: Json)
    requires
        m.wf(),
    ensures
        r@ == encode_spec(m@.meta_data, m.ordered()),
{
    let mut items: Vec<Json> = Vec::new();
    let mut i: usize = 0;
    while i < m.len()
        invariant
            i <= m.ordered().len(),
            items@.len() == i,
            forall|k: int| 0 <= k < i ==> #[trigger] items@[k]@ == node_json(m.ordered()[k]),
        decreases m.ordered().len() - i,
    {
        items.push(write_node(m.node_at(i)));
        i = i + 1;
    }
    proof {
        lemma_view_items(items@);
        assert forall|k: int| 0 <= k < m.ordered().len() implies #[trigger] view_items(items@)[k]
            == m.ordered().map_values(|n: NodeView| node_json(n))[k] by {
            assert(items@[k]@ == node_json(m.ordered()[k]));
        }
        assert(view_items(items@) =~= m.ordered().map_values(|n: NodeView| node_json(n)));
    }
    let v = vec![(key("metaData"), write_meta(m.meta_data())), (key("nodes"), Json::Array(items))];
    proof {
        lemma_object2(
            v,
            ("metaData"@, meta_json(m@.meta_data)),
            ("nodes"@, JsonView::Array(m.ordered().map_values(|n: NodeView| node_json(n)))),
        );
    }
    Json::Object(v)
}

proof fn lemma_keys_distinct()
    ensures
        "nodeId"@ != "sign"@,
        "id"@ != "name"@,
        "value"@ != "id"@ && "value"@ != "name"@ && "value"@ != "operation"@ && "value"@ != "inputs"@,
        "value"@ != "relatedConstantName"@ && "value"@ != "outgoingLinks"@,
        "operation"@ != "id"@ && "operation"@ != "name"@ && "operation"@ != "relatedConstantName"@
            && "operation"@ != "outgoingLinks"@,
        "relatedConstantName"@ != "id"@ && "relatedConstantName"@ != "name"@,
        "outgoingLinks"@ != "id"@ && "outgoingLinks"@ != "name"@ && "outgoingLinks"@
            != "relatedConstantName"@,
        "inputs"@ != "id"@ && "inputs"@ != "name"@ && "inputs"@ != "operation"@,
        "startTime"@ != "endTime"@ && "startTime"@ != "deltaTime"@ && "endTime"@ != "deltaTime"@,
        "metaData"@ != "nodes"@ && "links"@ != "metaData"@ && "links"@ != "nodes"@,
{
    reveal_strlit("nodeId");
    reveal_strlit("sign");
    reveal_strlit("id");
    reveal_strlit("name");
    reveal_strlit("value");
    reveal_strlit("operation");
    reveal_strlit("inputs");
    reveal_strlit("relatedConstantName");
    reveal_strlit("outgoingLinks");
    reveal_strlit("startTime");
    reveal_strlit("endTime");
    reveal_strlit("deltaTime");
    reveal_strlit("metaData");
    reveal_strlit("nodes");
    reveal_strlit("links");
    assert("nodeId"@.len() != "sign"@.len());
    assert("id"@.len() != "name"@.len());
    assert("value"@.len() != "id"@.len());
    assert("value"@.len() != "name"@.len());
    assert("value"@.len() != "operation"@.len());
    assert("value"@.len() != "inputs"@.len());
    assert("value"@.len() != "relatedConstantName"@.len());
    assert("value"@.len() != "outgoingLinks"@.len());
    assert("operation"@.len() != "id"@.len());
    assert("operation"@.len() != "name"@.len());
    assert("operation"@.len() != "relatedConstantName"@.len());
    assert("operation"@.len() != "outgoingLinks"@.len());
    assert("relatedConstantName"@.len() != "id"@.len());
    assert("relatedConstantName"@.len() != "name"@.len());
    assert("outgoingLinks"@.len() != "id"@.len());
    assert("outgoingLinks"@.len() != "name"@.len());
    assert("outgoingLinks"@.len() != "relatedConstantName"@.len());
    assert("inputs"@.len() != "id"@.len());
    assert("inputs"@.len() != "name"@.len());
    assert("inputs"@.len() != "operation"@.len());
    assert("startTime"@.len() != "endTime"@.len());
    assert("startTime"@[0] != "deltaTime"@[0]);
    assert("endTime"@.len() != "deltaTime"@.len());
    assert("metaData"@.len() != "nodes"@.len());
    assert("links"@.len() != "metaData"@.len());
    assert("links"@[0] != "nodes"@[0]);
}

proof fn lemma_component_round_trip(e: Component)
    ensures
        component_of(component_json(e)) == Ok::<Component, DecodeError>(e),
{
    lemma_keys_distinct();
    let ms = seq![("nodeId"@, id_json(e.node_id)), ("sign"@, JsonView::Str(seq![sign_char(e.sign)]))];
    lemma_field_at(ms, "nodeId"@, 0);
    lemma_field_at(ms, "sign"@, 1);
    lemma_id_text_round_trip(e.node_id);
}

proof fn lemma_components_round_trip(es: Seq<Component>)
    ensures
        components_of(es.map_values(|e: Component| component_json(e))) == Ok::<Seq<Component>, DecodeError>(es),
    decreases es.len(),
{
    let items = es.map_values(|e: Component| component_json(e));
    if es.len() == 0 {
        assert(items.len() == 0);
        assert(es =~= Seq::<Component>::empty());
    } else {
        lemma_components_round_trip(es.drop_last());
        assert(items.drop_last() =~= es.drop_last().map_values(|e: Component| component_json(e)));
        lemma_component_round_trip(es.last());
        assert(items.last() == component_json(es.last()));
        assert(es.drop_last().push(es.last()) =~= es);
    }
}

proof fn lemma_node_round_trip(n: NodeView)
    ensures
        node_of(node_json(n)) == Ok::<NodeView, DecodeError>(n),
{
    lemma_keys_distinct();
    lemma_id_text_round_trip(n.id());
    match n {
        NodeView::Constant { id, name, value } => {
            let ms = seq![
                ("id"@, id_json(id)),
                ("name"@, JsonView::Str(name)),
                ("value"@, JsonView::Number(value)),
            ];
            lemma_field_at(ms, "id"@, 0);
            lemma_field_at(ms, "name"@, 1);
            lemma_field_at(ms, "value"@, 2);
        },
        NodeView::Population { id, name, related_constant_name, outgoing_links } => {
            let ms = seq![
                ("id"@, id_json(id)),
                ("name"@, JsonView::Str(name)),
                ("relatedConstantName"@, JsonView::Str(related_constant_name)),
                ("outgoingLinks"@, components_json(outgoing_links)),
            ];
            lemma_field_at(ms, "id"@, 0);
            lemma_field_at(ms, "name"@, 1);
            lemma_field_none(ms, "value"@);
            lemma_field_none(ms, "operation"@);
            lemma_field_at(ms, "relatedConstantName"@, 2);
            lemma_field_at(ms, "outgoingLinks"@, 3);
            lemma_components_round_trip(outgoing_links);
        },
        NodeView::Combinator { id, name, operation, inputs } => {
            let ms = seq![
                ("id"@, id_json(id)),
                ("name"@, JsonView::Str(name)),
                ("operation"@, JsonView::Str(seq![operation_char(operation)])),
                ("inputs"@, components_json(inputs)),
            ];
            lemma_field_at(ms, "id"@, 0);
            lemma_field_at(ms, "name"@, 1);
            lemma_field_none(ms, "value"@);
            lemma_field_at(ms, "operation"@, 2);
            lemma_field_at(ms, "inputs"@, 3);
            lemma_components_round_trip(inputs);
        },
    }
}

proof fn lemma_nodes_round_trip(ns: Seq<NodeView>)
    ensures
        nodes_of(ns.map_values(|n: NodeView| node_json(n))) == Ok::<Seq<NodeView>, DecodeError>(ns),
    decreases ns.len(),
{
    let items = ns.map_values(|n: NodeView| node_json(n));
    if ns.len() == 0 {
        assert(items.len() == 0);
        assert(ns =~= Seq::<NodeView>::empty());
    } else {
        lemma_nodes_round_trip(ns.drop_last());
        assert(items.drop_last() =~= ns.drop_last().map_values(|n: NodeView| node_json(n)));
        lemma_node_round_trip(ns.last());
        assert(items.last() == node_json(ns.last()));
        assert(ns.drop_last().push(ns.last()) =~= ns);
    }
}

/// Round trip: decoding the canonical document of a well-formed model whose
/// links all resolve gives back the same model, metadata and nodes alike.
pub proof fn lemma_decode_encode(m: Model)
    requires
        m.wf(),
        links_resolve(m@.nodes),
    ensures
        decode_spec(encode_spec(m@.meta_data, m.ordered())) == Ok::<ModelView, DecodeError>(m@),
{
    lemma_keys_distinct();
    let meta = m@.meta_data;
    let mms = seq![
        ("startTime"@, JsonView::Number(meta.start_time)),
        ("endTime"@, JsonView::Number(meta.end_time)),
        ("deltaTime"@, JsonView::Number(meta.delta_time)),
    ];
    lemma_field_at(mms, "startTime"@, 0);
    lemma_field_at(mms, "endTime"@, 1);
    lemma_field_at(mms, "deltaTime"@, 2);
    let ms = seq![
        ("metaData"@, meta_json(meta)),
        ("nodes"@, JsonView::Array(m.ordered().map_values(|n: NodeView| node_json(n)))),
    ];
    lemma_field_at(ms, "metaData"@, 0);
    lemma_field_at(ms, "nodes"@, 1);
    lemma_field_none(ms, "links"@);
    lemma_nodes_round_trip(m.ordered());
    let nodes = seq_to_map(m.ordered());
    assert(first_violation(nodes, Seq::<Link>::empty()) is None);
    assert(attach_all(nodes, Seq::<Link>::empty()) == nodes);
    lemma_links_resolve_no_fault(nodes);
}

} // verus!
