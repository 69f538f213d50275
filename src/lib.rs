//! Interchange representation of small population / combinator / constant
//! simulation graphs, with the link-resolution rules, a codec to and from a
//! JSON document tree, and the ownership bookkeeping of buffers handed across
//! a foreign-function boundary.

mod buffer;
mod codec;
mod json;
mod links;
mod model;
mod node;
mod text;

pub use buffer::{
    acquired, destructor, lemma_release_after_acquire, lemma_release_empty,
    lemma_second_release_refused, occupied, release_spec, result_to_int, vec_to_ptr, BufferHandle,
    Registry, FAILURE, SUCCESS,
};
pub use codec::{
    char_of, decode_model, decode_spec, component_json, component_list_of, component_of,
    components_json, components_of, encode_model, encode_spec, flat_list_of, id_json, id_of,
    lemma_decode_encode, link_of, links_of, list_of, meta_json, meta_of, node_json, node_of,
    nodes_of, number_of, operation_of, sign_of, text_of, DecodeError,
};
pub use json::{
    field, get_field, opt_view, view_items, view_json, view_members, Json, JsonView,
};
pub use links::{
    attach, attach_all, embed_spec, first_fault, first_violation, is_faulty, node_fault, seq_fault, flat_links, grouped, input_component,
    lemma_flatten_after_embed, lemma_links_resolve_no_fault, lemma_non_combinator_receiver_rejected, link_check,
    links_to, node_links, output_component,
};
pub use model::{
    ids_increasing, input_check, inputs_of, kind_check, lemma_resolve_with_input,
    lemma_resolve_with_output, lemma_seq_to_map, lemma_sorted_unique, links_resolve, node_ok, output_check, outputs_of, seq_to_map, with_input, with_output, MetaData,
    MetaDataView, Model, ModelError, ModelView,
};
pub use node::{
    operation_char, operation_of_char, sign_char, sign_of_char, Component, Link, Node, NodeId,
    NodeType, NodeView, Operation, Sign,
};
pub use text::{
    all_digits, chars_of, check_c_text, decimal, digit_char, digit_value, digits_value, id_of_text,
    id_text, is_digit, lemma_decimal_digits, lemma_id_text_round_trip, parse_id, EncodingError,
};
