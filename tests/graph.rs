use odeir::{
    decode_model, destructor, encode_model, parse_id, id_text, result_to_int, vec_to_ptr,
    BufferHandle, DecodeError, Component, Json, Link, MetaData, Model, ModelError, Node, NodeType,
    Operation, Registry, Sign, FAILURE, SUCCESS,
};

fn meta() -> MetaData {
    MetaData::new("0".to_string(), "10".to_string(), "0.5".to_string())
}

fn constant(id: u32, name: &str, value: &str) -> Node {
    Node::Constant { id, name: name.to_string(), value: value.to_string() }
}

fn combinator(id: u32, name: &str, operation: Operation) -> Node {
    Node::Combinator { id, name: name.to_string(), operation, inputs: vec![] }
}

fn population(id: u32, name: &str, related: &str) -> Node {
    Node::Population {
        id,
        name: name.to_string(),
        related_constant_name: related.to_string(),
        outgoing_links: vec![],
    }
}

fn link(sender: u32, receiver: u32, link_type: Sign) -> Link {
    Link { sender, receiver, link_type }
}

fn component(node_id: u32, sign: Sign) -> Component {
    Component { node_id, sign }
}

fn abc() -> Model {
    let mut m = Model::new(meta());
    m.insert_node(constant(1, "A", "10"));
    m.insert_node(constant(2, "B", "20"));
    m.insert_node(combinator(3, "C", Operation::Add));
    m
}

fn num(t: &str) -> Json {
    Json::Number(t.to_string())
}

fn text(t: &str) -> Json {
    Json::Str(t.to_string())
}

fn object(members: Vec<(&str, Json)>) -> Json {
    Json::Object(members.into_iter().map(|(k, v)| (k.to_string(), v)).collect())
}

fn meta_json() -> Json {
    object(vec![("startTime", num("0")), ("endTime", num("10")), ("deltaTime", num("0.5"))])
}

#[test]
fn abc_round_trip_keeps_input_order_and_flat_view() {
    let mut m = abc();
    let links = vec![link(1, 3, Sign::Normal), link(2, 3, Sign::Normal)];
    assert_eq!(m.embed_links(&links), Ok(()));
    let decoded = decode_model(&encode_model(&m)).unwrap();
    let c = decoded.get_node(3).unwrap();
    assert_eq!(c.inputs(), Some(vec![component(1, Sign::Normal), component(2, Sign::Normal)]));
    assert_eq!(decoded.flatten_links(), links);
    assert_eq!(decoded.node_ids(), vec![1, 2, 3]);
    match decoded.get_node(1).unwrap() {
        Node::Constant { name, value, .. } => {
            assert_eq!(name, "A");
            assert_eq!(value, "10");
        },
        _ => panic!("A is a constant"),
    }
    assert_eq!(decoded.meta_data().delta_time, "0.5");
}

#[test]
fn link_to_constant_is_a_structural_violation_and_changes_nothing() {
    let mut m = abc();
    let r = m.embed_links(&vec![link(2, 1, Sign::Normal)]);
    assert_eq!(r, Err(ModelError::StructuralViolation(1)));
    let a = m.get_node(1).unwrap();
    assert_eq!(a.node_type(), NodeType::Constant);
    assert_eq!(a.inputs(), None);
    assert_eq!(a.outgoing_links(), None);
    assert_eq!(m.get_node(2).unwrap().node_type(), NodeType::Constant);
    assert_eq!(m.flatten_links(), vec![]);
}

#[test]
fn link_to_population_is_rejected_atomically() {
    let mut m = abc();
    m.insert_node(population(4, "P", "k"));
    let links = vec![link(1, 3, Sign::Normal), link(3, 4, Sign::Negative)];
    assert_eq!(m.embed_links(&links), Err(ModelError::StructuralViolation(4)));
    assert_eq!(m.get_node(3).unwrap().inputs(), Some(vec![]));
    assert_eq!(m.flatten_links(), vec![]);
}

#[test]
fn dangling_sender_and_receiver_are_unknown_nodes() {
    let mut m = abc();
    assert_eq!(m.embed_links(&vec![link(9, 3, Sign::Normal)]), Err(ModelError::UnknownNode(9)));
    assert_eq!(m.embed_links(&vec![link(1, 8, Sign::Normal)]), Err(ModelError::UnknownNode(8)));
}

#[test]
fn flatten_after_embed_gives_back_links_in_input_order() {
    let mut m = Model::new(meta());
    m.insert_node(population(1, "P", "p0"));
    m.insert_node(constant(2, "k", "0.3"));
    m.insert_node(combinator(5, "D", Operation::Sub));
    m.insert_node(combinator(4, "E", Operation::Div));
    let links = vec![
        link(2, 5, Sign::Normal),
        link(1, 4, Sign::Negative),
        link(1, 5, Sign::Negative),
        link(5, 4, Sign::Normal),
    ];
    assert_eq!(m.embed_links(&links), Ok(()));
    assert_eq!(
        m.get_node(5).unwrap().inputs(),
        Some(vec![component(2, Sign::Normal), component(1, Sign::Negative)])
    );
    assert_eq!(
        m.get_node(1).unwrap().outgoing_links(),
        Some(vec![component(4, Sign::Negative), component(5, Sign::Negative)])
    );
    // Combinators are walked by increasing id: 4, then 5.
    assert_eq!(
        m.flatten_links(),
        vec![
            link(1, 4, Sign::Negative),
            link(5, 4, Sign::Normal),
            link(2, 5, Sign::Normal),
            link(1, 5, Sign::Negative),
        ]
    );
}

#[test]
fn insert_node_last_write_wins() {
    let mut m = abc();
    m.insert_node(population(2, "B2", "b"));
    assert_eq!(m.len(), 3);
    assert_eq!(m.get_node(2).unwrap().node_type(), NodeType::Population);
    assert_eq!(m.get_node(2).unwrap().name(), "B2");
    assert!(m.get_node(7).is_none());
}

#[test]
fn insert_constant_takes_smallest_free_id() {
    let mut m = Model::new(meta());
    assert_eq!(m.insert_constant("k".to_string(), "1".to_string()), Some(0));
    m.insert_node(combinator(10, "C", Operation::Mul));
    assert_eq!(m.insert_constant("j".to_string(), "2".to_string()), Some(1));
    assert_eq!(m.node_ids(), vec![0, 1, 10]);
    m.insert_node(constant(u32::MAX, "top", "3"));
    assert_eq!(m.insert_constant("x".to_string(), "4".to_string()), Some(2));
    assert_eq!(m.node_ids(), vec![0, 1, 2, 10, u32::MAX]);
    match m.get_node(2).unwrap() {
        Node::Constant { name, value, .. } => {
            assert_eq!(name, "x");
            assert_eq!(value, "4");
        },
        _ => panic!("a constant"),
    }
}

#[test]
fn add_input_and_add_link_check_the_variant() {
    let mut m = abc();
    m.insert_node(population(4, "P", "p0"));
    assert_eq!(m.add_input(4, component(1, Sign::Normal)), Err(ModelError::InvalidNodeKind(4)));
    assert_eq!(m.add_link(3, component(4, Sign::Normal)), Err(ModelError::InvalidNodeKind(3)));
    assert_eq!(m.add_input(9, component(1, Sign::Normal)), Err(ModelError::UnknownNode(9)));
    assert_eq!(m.add_input(3, component(4, Sign::Negative)), Ok(()));
    assert_eq!(m.add_link(4, component(3, Sign::Negative)), Ok(()));
    assert_eq!(m.get_node(3).unwrap().inputs(), Some(vec![component(4, Sign::Negative)]));
    assert_eq!(m.get_node(4).unwrap().outgoing_links(), Some(vec![component(3, Sign::Negative)]));
}

#[test]
fn population_link_target_must_be_an_existing_combinator() {
    let mut m = abc();
    m.insert_node(population(4, "P", "p0"));
    assert_eq!(m.add_link(4, component(1, Sign::Normal)), Err(ModelError::StructuralViolation(1)));
    assert_eq!(m.add_link(4, component(4, Sign::Normal)), Err(ModelError::StructuralViolation(4)));
    assert_eq!(m.add_link(4, component(9, Sign::Normal)), Err(ModelError::UnknownNode(9)));
    assert_eq!(m.get_node(4).unwrap().outgoing_links(), Some(vec![]));
    assert_eq!(m.check_links(), Ok(()));
}

#[test]
fn combinator_input_source_must_exist() {
    let mut m = abc();
    assert_eq!(m.add_input(3, component(9, Sign::Normal)), Err(ModelError::UnknownNode(9)));
    assert_eq!(m.get_node(3).unwrap().inputs(), Some(vec![]));
    assert_eq!(m.add_input(3, component(3, Sign::Normal)), Ok(()));
    assert_eq!(m.check_links(), Ok(()));
}

#[test]
fn check_links_reports_first_fault_by_id() {
    let mut m = abc();
    m.insert_node(Node::Combinator {
        id: 5,
        name: "D".to_string(),
        operation: Operation::Add,
        inputs: vec![component(1, Sign::Normal), component(8, Sign::Normal)],
    });
    m.insert_node(Node::Population {
        id: 4,
        name: "P".to_string(),
        related_constant_name: "A".to_string(),
        outgoing_links: vec![component(2, Sign::Normal)],
    });
    assert_eq!(m.check_links(), Err(ModelError::StructuralViolation(2)));
    m.insert_node(population(4, "P", "A"));
    assert_eq!(m.check_links(), Err(ModelError::UnknownNode(8)));
}

#[test]
fn decode_rejects_dangling_embedded_links() {
    let doc = |inputs: Vec<Json>, outgoing: Vec<Json>| {
        object(vec![
            ("metaData", meta_json()),
            (
                "nodes",
                Json::Array(vec![
                    object(vec![("id", num("1")), ("name", text("A")), ("value", num("10"))]),
                    object(vec![
                        ("id", num("2")),
                        ("name", text("P")),
                        ("relatedConstantName", text("A")),
                        ("outgoingLinks", Json::Array(outgoing)),
                    ]),
                    object(vec![
                        ("id", num("3")),
                        ("name", text("C")),
                        ("operation", text("+")),
                        ("inputs", Json::Array(inputs)),
                    ]),
                ]),
            ),
        ])
    };
    let entry = |id: &str| object(vec![("nodeId", num(id)), ("sign", text("+"))]);
    assert!(matches!(
        decode_model(&doc(vec![entry("7")], vec![])),
        Err(DecodeError::UnresolvedLinks(ModelError::UnknownNode(7)))
    ));
    assert!(matches!(
        decode_model(&doc(vec![], vec![entry("1")])),
        Err(DecodeError::UnresolvedLinks(ModelError::StructuralViolation(1)))
    ));
    let m = decode_model(&doc(vec![entry("2")], vec![entry("3")])).unwrap();
    assert_eq!(m.flatten_links(), vec![link(2, 3, Sign::Normal)]);
}

#[test]
fn decode_flat_document_resolves_links() {
    let doc = object(vec![
        ("metaData", meta_json()),
        (
            "nodes",
            Json::Array(vec![
                object(vec![("id", num("1")), ("name", text("A")), ("value", num("10"))]),
                object(vec![("id", num("2")), ("name", text("P")), ("relatedConstantName", text("A"))]),
                object(vec![
                    ("id", num("3")),
                    ("name", text("C")),
                    ("operation", text("-")),
                    ("inputs", Json::Array(vec![])),
                ]),
            ]),
        ),
        (
            "links",
            Json::Array(vec![
                object(vec![("sender", num("2")), ("receiver", num("3")), ("linkType", text("+"))]),
                object(vec![("sender", num("1")), ("receiver", num("3")), ("linkType", text("-"))]),
            ]),
        ),
    ]);
    let m = decode_model(&doc).unwrap();
    assert_eq!(
        m.get_node(3).unwrap().inputs(),
        Some(vec![component(2, Sign::Normal), component(1, Sign::Negative)])
    );
    assert_eq!(m.get_node(2).unwrap().outgoing_links(), Some(vec![component(3, Sign::Normal)]));
    match m.get_node(3).unwrap() {
        Node::Combinator { operation, .. } => assert_eq!(*operation, Operation::Sub),
        _ => panic!("C is a combinator"),
    }
}

#[test]
fn decode_rejects_a_flat_link_into_a_constant() {
    let doc = object(vec![
        ("metaData", meta_json()),
        (
            "nodes",
            Json::Array(vec![
                object(vec![("id", num("1")), ("name", text("A")), ("value", num("10"))]),
                object(vec![("id", num("2")), ("name", text("B")), ("value", num("20"))]),
            ]),
        ),
        (
            "links",
            Json::Array(vec![object(vec![
                ("sender", num("2")),
                ("receiver", num("1")),
                ("linkType", text("+")),
            ])]),
        ),
    ]);
    assert!(matches!(
        decode_model(&doc),
        Err(DecodeError::UnresolvedLinks(ModelError::StructuralViolation(1)))
    ));
}

#[test]
fn decode_reports_unknown_enum_character() {
    let doc = object(vec![
        ("metaData", meta_json()),
        (
            "nodes",
            Json::Array(vec![object(vec![
                ("id", num("3")),
                ("name", text("C")),
                ("operation", text("%")),
                ("inputs", Json::Array(vec![])),
            ])]),
        ),
    ]);
    assert!(matches!(decode_model(&doc), Err(DecodeError::InvalidEnumEncoding('%'))));
}

#[test]
fn decode_rejects_malformed_documents() {
    let no_meta = object(vec![("nodes", Json::Array(vec![]))]);
    assert!(matches!(decode_model(&no_meta), Err(DecodeError::Malformed)));
    let no_variant = object(vec![
        ("metaData", meta_json()),
        ("nodes", Json::Array(vec![object(vec![("id", num("3")), ("name", text("C"))])])),
    ]);
    assert!(matches!(decode_model(&no_variant), Err(DecodeError::Malformed)));
    let bad_id = object(vec![
        ("metaData", meta_json()),
        (
            "nodes",
            Json::Array(vec![object(vec![("id", num("-1")), ("name", text("A")), ("value", num("1"))])]),
        ),
    ]);
    assert!(matches!(decode_model(&bad_id), Err(DecodeError::Malformed)));
    assert!(matches!(decode_model(&Json::Null), Err(DecodeError::Malformed)));
}

#[test]
fn encode_writes_canonical_embedded_document() {
    let mut m = abc();
    m.embed_links(&vec![link(2, 3, Sign::Negative)]).unwrap();
    match encode_model(&m) {
        Json::Object(members) => {
            assert_eq!(members.len(), 2);
            assert_eq!(members[0].0, "metaData");
            assert_eq!(members[1].0, "nodes");
            match &members[1].1 {
                Json::Array(nodes) => match &nodes[2] {
                    Json::Object(c) => {
                        assert_eq!(c[0].0, "id");
                        assert!(matches!(&c[0].1, Json::Number(t) if t == "3"));
                        assert_eq!(c[2].0, "operation");
                        assert!(matches!(&c[2].1, Json::Str(t) if t == "+"));
                        assert_eq!(c[3].0, "inputs");
                        match &c[3].1 {
                            Json::Array(es) => match &es[0] {
                                Json::Object(e) => {
                                    assert!(matches!(&e[0].1, Json::Number(t) if t == "2"));
                                    assert!(matches!(&e[1].1, Json::Str(t) if t == "-"));
                                },
                                _ => panic!("edge object"),
                            },
                            _ => panic!("inputs array"),
                        }
                    },
                    _ => panic!("node object"),
                },
                _ => panic!("nodes array"),
            }
        },
        _ => panic!("document object"),
    }
}

#[test]
fn ids_are_read_and_written_in_decimal() {
    assert_eq!(parse_id("0"), Some(0));
    assert_eq!(parse_id("4294967295"), Some(u32::MAX));
    assert_eq!(parse_id("4294967296"), None);
    assert_eq!(parse_id(""), None);
    assert_eq!(parse_id("12a"), None);
    assert_eq!(parse_id("1.5"), None);
    assert_eq!(id_text(0), "0");
    assert_eq!(id_text(1234), "1234");
    assert_eq!(id_text(u32::MAX), "4294967295");
}

#[test]
fn sign_and_operation_characters() {
    assert_eq!(Sign::from_char('+'), Some(Sign::Normal));
    assert_eq!(Sign::from_char('-'), Some(Sign::Negative));
    assert_eq!(Sign::from_char('*'), None);
    assert_eq!(Sign::Negative.to_char(), '-');
    assert_eq!(Operation::from_char('/'), Some(Operation::Div));
    assert_eq!(Operation::from_char('x'), None);
    assert_eq!(Operation::Mul.to_char(), '*');
}

#[test]
fn buffer_released_once_leaves_nothing_lent() {
    let mut r: Registry<u32> = Registry::new();
    let h = vec_to_ptr(&mut r, vec![3, 1, 2]);
    assert_eq!(h.len, 3);
    assert_eq!(r.live_count(), 1);
    assert_eq!(r.get(h), Some(&vec![3, 1, 2]));
    assert_eq!(destructor(&mut r, h), SUCCESS);
    assert_eq!(r.live_count(), 0);
    assert_eq!(r.get(h), None);
    assert_eq!(destructor(&mut r, h), FAILURE);
}

#[test]
fn empty_buffer_release_is_a_no_op() {
    let mut r: Registry<u32> = Registry::new();
    let kept = vec_to_ptr(&mut r, vec![7]);
    let h = vec_to_ptr(&mut r, vec![]);
    assert_eq!(h.len, 0);
    assert_eq!(r.live_count(), 1);
    assert_eq!(destructor(&mut r, h), SUCCESS);
    assert_eq!(destructor(&mut r, h), SUCCESS);
    assert_eq!(r.live_count(), 1);
    assert_eq!(r.get(kept), Some(&vec![7]));
}

#[test]
fn released_slots_are_reused_and_foreign_handles_refused() {
    let mut r: Registry<u32> = Registry::new();
    let a = vec_to_ptr(&mut r, vec![1]);
    let b = vec_to_ptr(&mut r, vec![2, 2]);
    assert_ne!(a.slot, b.slot);
    assert_eq!(destructor(&mut r, BufferHandle { slot: b.slot, len: 5 }), FAILURE);
    assert_eq!(destructor(&mut r, BufferHandle { slot: 99, len: 1 }), FAILURE);
    assert_eq!(destructor(&mut r, a), SUCCESS);
    let c = vec_to_ptr(&mut r, vec![4, 4, 4]);
    assert_eq!(c.slot, a.slot);
    assert_eq!(r.live_count(), 2);
}

#[test]
fn status_of_results() {
    let ok: Result<u8, ()> = Ok(1);
    let err: Result<u8, ()> = Err(());
    assert_eq!(result_to_int(&ok), 1);
    assert_eq!(result_to_int(&err), 0);
}

#[test]
fn strings_with_nul_are_refused_for_c() {
    assert_eq!(odeir::check_c_text("dA/dt"), Ok(()));
    assert_eq!(odeir::check_c_text(""), Ok(()));
    assert_eq!(odeir::check_c_text("ab\0c\0"), Err(odeir::EncodingError::EmbeddedNul(2)));
}

#[test]
fn empty_model_round_trips() {
    let m = Model::new(meta());
    let decoded = decode_model(&encode_model(&m)).unwrap();
    assert_eq!(decoded.len(), 0);
    assert_eq!(decoded.node_ids(), Vec::<u32>::new());
    assert_eq!(decoded.meta_data().start_time, "0");
    assert_eq!(decoded.meta_data().end_time, "10");
}

#[test]
fn population_round_trips_with_its_outgoing_links() {
    let mut m = abc();
    m.insert_node(population(7, "P", "A"));
    let links = vec![link(7, 3, Sign::Negative), link(1, 3, Sign::Normal)];
    m.embed_links(&links).unwrap();
    let decoded = decode_model(&encode_model(&m)).unwrap();
    assert_eq!(decoded.get_node(7).unwrap().outgoing_links(), Some(vec![component(3, Sign::Negative)]));
    match decoded.get_node(7).unwrap() {
        Node::Population { related_constant_name, .. } => assert_eq!(related_constant_name, "A"),
        _ => panic!("P is a population"),
    }
    assert_eq!(decoded.flatten_links(), links);
}

#[test]
fn decode_link_sign_must_be_one_known_character() {
    let nodes = || {
        Json::Array(vec![
            object(vec![("id", num("1")), ("name", text("A")), ("value", num("10"))]),
            object(vec![
                ("id", num("3")),
                ("name", text("C")),
                ("operation", text("*")),
                ("inputs", Json::Array(vec![])),
            ]),
        ])
    };
    let with_sign = |s: &str| {
        object(vec![
            ("metaData", meta_json()),
            ("nodes", nodes()),
            (
                "links",
                Json::Array(vec![object(vec![
                    ("sender", num("1")),
                    ("receiver", num("3")),
                    ("linkType", text(s)),
                ])]),
            ),
        ])
    };
    assert!(matches!(decode_model(&with_sign("x")), Err(DecodeError::InvalidEnumEncoding('x'))));
    assert!(matches!(decode_model(&with_sign("+-")), Err(DecodeError::Malformed)));
    assert!(matches!(decode_model(&with_sign("")), Err(DecodeError::Malformed)));
    let m = decode_model(&with_sign("-")).unwrap();
    assert_eq!(m.get_node(3).unwrap().inputs(), Some(vec![component(1, Sign::Negative)]));
}

#[test]
fn later_node_with_same_id_wins_when_decoding() {
    let doc = object(vec![
        ("metaData", meta_json()),
        (
            "nodes",
            Json::Array(vec![
                object(vec![("id", num("1")), ("name", text("A")), ("value", num("10"))]),
                object(vec![("id", num("1")), ("name", text("A2")), ("relatedConstantName", text("k"))]),
            ]),
        ),
    ]);
    let m = decode_model(&doc).unwrap();
    assert_eq!(m.len(), 1);
    assert_eq!(m.get_node(1).unwrap().node_type(), NodeType::Population);
    assert_eq!(m.get_node(1).unwrap().outgoing_links(), Some(vec![]));
}
