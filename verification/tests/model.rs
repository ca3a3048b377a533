use inox2d::decimal::{parts_from_micros, zsort_from_parts};
use inox2d::error::PuppetError;
use inox2d::json_data::Json;
use inox2d::model::{encode_inp, frame_inp, model_from_payload, parse_inp, Model};
use inox2d::node::{Node, NodeKind, NodeUuid, ZSort};
use inox2d::node_tree::NodeTree;
use inox2d::reader::ByteReader;
use inox2d::scene::SceneNode;
use inox2d::scene_json::{scene_from_json, scene_to_json};
use inox2d::texture::CompressedTexture;

fn container(payload: &[u8], textures: &[u8]) -> Vec<u8> {
    let mut bytes = b"TRNSRTS\0".to_vec();
    bytes.extend_from_slice(&(payload.len() as u32).to_be_bytes());
    bytes.extend_from_slice(payload);
    bytes.extend_from_slice(textures);
    bytes
}

fn no_textures() -> Vec<u8> {
    let mut bytes = b"TEX_SECT".to_vec();
    bytes.extend_from_slice(&[0, 0, 0, 0]);
    bytes
}

const RIG: &str = r#"{
    "uuid": 1, "name": "root", "type": "Node", "zsort": 0,
    "children": [
        {"uuid": 2, "name": "body", "type": "Part", "zsort": 0.5, "extra": [1, 2, {"a": null}],
         "children": [
            {"uuid": 4, "name": "arm", "type": "SimplePhysics", "zsort": -0.25}
         ]},
        {"uuid": 3, "name": "face", "type": "Composite", "zsort": 2,
         "children": [{"uuid": 5, "name": "eye", "type": "Part", "zsort": 100.0}]}
    ]
}"#;

#[test]
fn parse_inp_reads_the_scene_and_the_textures() {
    let mut textures = b"TEX_SECT".to_vec();
    textures.extend_from_slice(&[0, 0, 0, 2]);
    textures.extend_from_slice(&[0, 0, 0, 2, 1, 0xaa, 0xbb]);
    textures.extend_from_slice(&[0, 0, 0, 0, 0]);
    let model = parse_inp(&container(RIG.as_bytes(), &textures)).unwrap();
    assert_eq!(
        model.textures,
        vec![CompressedTexture::Tga(vec![0xaa, 0xbb]), CompressedTexture::Png(vec![])]
    );
    let tree = &model.puppet;
    assert_eq!(tree.get_children_uuids(NodeUuid(1)), Some(vec![NodeUuid(2), NodeUuid(3)]));
    assert_eq!(tree.get_children_uuids(NodeUuid(2)), Some(vec![NodeUuid(4)]));
    let arm = tree.get_node(NodeUuid(4)).unwrap();
    assert_eq!(arm.get_node_state().name, "arm");
    assert_eq!(arm.kind(), NodeKind::SimplePhysics);
    assert_eq!(arm.zsort(), ZSort::Value(-250_000));
    assert_eq!(tree.get_node(NodeUuid(2)).unwrap().zsort(), ZSort::Value(500_000));
    assert_eq!(tree.get_parent(NodeUuid(5)).unwrap().uuid(), NodeUuid(3));
    assert_eq!(tree.ancestors(NodeUuid(4)), vec![NodeUuid(2), NodeUuid(1)]);
    // face 2, body 0.5, arm 0.25, root 0; the eye is below a composite.
    assert_eq!(
        tree.zsorted().unwrap(),
        vec![NodeUuid(3), NodeUuid(2), NodeUuid(4), NodeUuid(1)]
    );
}

#[test]
fn parse_inp_refuses_a_wrong_first_marker() {
    let mut bytes = container(RIG.as_bytes(), &no_textures());
    bytes[7] = b'!';
    assert_eq!(parse_inp(&bytes).err(), Some(PuppetError::MalformedMagic));
    // Nothing behind the marker is looked at.
    assert_eq!(parse_inp(b"INOCHI02").err(), Some(PuppetError::MalformedMagic));
    assert_eq!(parse_inp(b"TEX_SECT\0\0\0\0").err(), Some(PuppetError::MalformedMagic));
}

#[test]
fn parse_inp_reports_truncated_input() {
    assert_eq!(parse_inp(b"").err(), Some(PuppetError::TruncatedInput));
    assert_eq!(parse_inp(b"TRNSRTS").err(), Some(PuppetError::TruncatedInput));
    let whole = container(RIG.as_bytes(), &no_textures());
    assert!(parse_inp(&whole).is_ok());
    assert_eq!(parse_inp(&whole[..whole.len() - 1]).err(), Some(PuppetError::TruncatedInput));
    assert_eq!(parse_inp(&whole[..whole.len() - 12]).err(), Some(PuppetError::TruncatedInput));
    assert_eq!(parse_inp(&whole[..40]).err(), Some(PuppetError::TruncatedInput));
}

#[test]
fn parse_inp_refuses_a_truncated_texture_list() {
    let mut textures = b"TEX_SECT".to_vec();
    textures.extend_from_slice(&[0, 0, 0, 2]);
    textures.extend_from_slice(&[0, 0, 0, 1, 0, 42]);
    textures.extend_from_slice(&[0, 0, 0, 9]);
    assert_eq!(
        parse_inp(&container(RIG.as_bytes(), &textures)).err(),
        Some(PuppetError::TruncatedInput)
    );
}

#[test]
fn parse_inp_refuses_an_unknown_texture_tag() {
    let mut textures = b"TEX_SECT".to_vec();
    textures.extend_from_slice(&[0, 0, 0, 2]);
    textures.extend_from_slice(&[0, 0, 0, 1, 7, 42]);
    textures.extend_from_slice(&[0, 0, 0, 1, 0, 42]);
    assert_eq!(
        parse_inp(&container(RIG.as_bytes(), &textures)).err(),
        Some(PuppetError::UnsupportedTextureFormat)
    );
}

#[test]
fn parse_inp_checks_the_encoding_of_the_payload() {
    let mut payload = RIG.as_bytes().to_vec();
    payload[30] = 0xff;
    assert_eq!(
        parse_inp(&container(&payload, &no_textures())).err(),
        Some(PuppetError::InvalidPayloadEncoding)
    );
    assert_eq!(
        parse_inp(&container(&[0xc3], &no_textures())).err(),
        Some(PuppetError::InvalidPayloadEncoding)
    );
}

#[test]
fn parse_inp_accepts_text_beyond_ascii() {
    let payload = r#"{"uuid": 1, "name": "目 ö", "type": "Node", "zsort": 0}"#;
    let model = parse_inp(&container(payload.as_bytes(), &no_textures())).unwrap();
    assert_eq!(model.puppet.get_node(NodeUuid(1)).unwrap().get_node_state().name, "目 ö");
}

fn scene_error(payload: &str) -> Option<PuppetError> {
    parse_inp(&container(payload.as_bytes(), &no_textures())).err()
}

#[test]
fn parse_inp_refuses_a_malformed_scene() {
    let invalid = Some(PuppetError::InvalidSceneStructure);
    assert_eq!(scene_error(""), invalid);
    assert_eq!(scene_error("{"), invalid);
    assert_eq!(scene_error("[]"), invalid);
    assert_eq!(scene_error("7"), invalid);
    assert_eq!(scene_error(r#"{"name": "n", "type": "Node", "zsort": 0}"#), invalid);
    assert_eq!(scene_error(r#"{"uuid": 1, "type": "Node", "zsort": 0}"#), invalid);
    assert_eq!(scene_error(r#"{"uuid": 1, "name": "n", "zsort": 0}"#), invalid);
    assert_eq!(scene_error(r#"{"uuid": 1, "name": "n", "type": "Node"}"#), invalid);
    assert_eq!(scene_error(r#"{"uuid": -1, "name": "n", "type": "Node", "zsort": 0}"#), invalid);
    assert_eq!(scene_error(r#"{"uuid": 1.5, "name": "n", "type": "Node", "zsort": 0}"#), invalid);
    assert_eq!(
        scene_error(r#"{"uuid": 4294967296, "name": "n", "type": "Node", "zsort": 0}"#),
        invalid
    );
    assert_eq!(scene_error(r#"{"uuid": "1", "name": "n", "type": "Node", "zsort": 0}"#), invalid);
    assert_eq!(scene_error(r#"{"uuid": 1, "name": 2, "type": "Node", "zsort": 0}"#), invalid);
    assert_eq!(scene_error(r#"{"uuid": 1, "name": "n", "type": 3, "zsort": 0}"#), invalid);
    assert_eq!(scene_error(r#"{"uuid": 1, "name": "n", "type": "Node", "zsort": "0"}"#), invalid);
    assert_eq!(scene_error(r#"{"uuid": 1, "name": "n", "type": "Node", "zsort": 1e13}"#), invalid);
    assert_eq!(
        scene_error(r#"{"uuid": 1, "name": "n", "type": "Node", "zsort": 0, "children": {}}"#),
        invalid
    );
    assert_eq!(
        scene_error(r#"{"uuid": 1, "name": "n", "type": "Node", "zsort": 0, "children": [1]}"#),
        invalid
    );
    assert_eq!(
        scene_error(r#"{"uuid": 4294967295, "name": "n", "type": "Node", "zsort": 0}"#),
        None
    );
}

#[test]
fn parse_inp_refuses_an_unknown_node_type() {
    let unknown = Some(PuppetError::UnknownNodeType);
    assert_eq!(scene_error(r#"{"uuid": 1, "name": "n", "type": "Camera", "zsort": 0}"#), unknown);
    assert_eq!(scene_error(r#"{"uuid": 1, "name": "n", "type": "", "zsort": 0}"#), unknown);
    assert_eq!(
        scene_error(
            r#"{"uuid": 1, "name": "n", "type": "Node", "zsort": 0,
                "children": [{"uuid": 2, "name": "m", "type": "Nodes", "zsort": 0}]}"#
        ),
        unknown
    );
}

#[test]
fn parse_inp_refuses_a_repeated_identifier() {
    assert_eq!(
        scene_error(
            r#"{"uuid": 1, "name": "n", "type": "Node", "zsort": 0,
                "children": [{"uuid": 2, "name": "a", "type": "Part", "zsort": 0},
                             {"uuid": 3, "name": "b", "type": "Part", "zsort": 0,
                              "children": [{"uuid": 2, "name": "c", "type": "Part", "zsort": 0}]}]}"#
        ),
        Some(PuppetError::DuplicateExternalId)
    );
}

#[test]
fn parse_inp_judges_the_scene_before_the_textures() {
    let bad_scene = r#"{"uuid": 1, "name": "n", "type": "Camera", "zsort": 0}"#;
    assert_eq!(
        parse_inp(&container(bad_scene.as_bytes(), b"TEX_")).err(),
        Some(PuppetError::UnknownNodeType)
    );
    let good_scene = r#"{"uuid": 1, "name": "n", "type": "Node", "zsort": 0}"#;
    assert_eq!(
        parse_inp(&container(good_scene.as_bytes(), b"TEX_SECX\0\0\0\0")).err(),
        Some(PuppetError::MalformedMagic)
    );
}

#[test]
fn a_weight_of_null_is_not_a_number() {
    let payload = r#"{"uuid": 1, "name": "n", "type": "Node", "zsort": 0,
        "children": [{"uuid": 2, "name": "m", "type": "Part", "zsort": null}]}"#;
    let model = parse_inp(&container(payload.as_bytes(), &no_textures())).unwrap();
    assert_eq!(model.puppet.get_node(NodeUuid(2)).unwrap().zsort(), ZSort::NotANumber);
    assert_eq!(model.puppet.zsorted(), Err(PuppetError::IncomparableZOrder));
}

fn sample_model() -> Model {
    let eye = SceneNode::new(
        Node::new(NodeKind::Part, NodeUuid(5), "eye \"left\"".to_string(), ZSort::Value(i64::MAX)),
        Vec::new(),
    );
    let face = SceneNode::new(
        Node::new(NodeKind::Composite, NodeUuid(3), "face".to_string(), ZSort::Value(-1_500_000)),
        vec![eye],
    );
    let arm = SceneNode::new(
        Node::new(NodeKind::SimplePhysics, NodeUuid(4), "腕".to_string(), ZSort::Value(i64::MIN)),
        Vec::new(),
    );
    let nan = SceneNode::new(
        Node::new(NodeKind::Part, NodeUuid(6), String::new(), ZSort::NotANumber),
        Vec::new(),
    );
    let small = SceneNode::new(
        Node::new(NodeKind::Part, NodeUuid(u32::MAX), "small".to_string(), ZSort::Value(1)),
        Vec::new(),
    );
    let root = SceneNode::new(
        Node::new(NodeKind::Node, NodeUuid(0), "root".to_string(), ZSort::Value(120)),
        vec![face, arm, nan, small],
    );
    Model {
        puppet: NodeTree::build(&root).unwrap(),
        textures: vec![
            CompressedTexture::Bc7(vec![0, 1, 2, 255]),
            CompressedTexture::Png(vec![]),
            CompressedTexture::Tga(vec![7; 300]),
        ],
    }
}

#[test]
fn decoding_what_was_encoded_gives_the_same_model() {
    let model = sample_model();
    let bytes = encode_inp(&model).unwrap();
    let again = parse_inp(&bytes).unwrap();
    assert_eq!(again.puppet.to_scene(), model.puppet.to_scene());
    assert_eq!(again.textures, model.textures);
    assert_eq!(encode_inp(&again).unwrap(), bytes);
}

#[test]
fn the_deepest_scene_survives_encoding() {
    let mut scene = SceneNode::new(
        Node::new(NodeKind::Part, NodeUuid(0), "bottom".to_string(), ZSort::Value(0)),
        Vec::new(),
    );
    for i in 0..inox2d::scene::MAX_DEPTH {
        scene = SceneNode::new(
            Node::new(NodeKind::Node, NodeUuid(i as u32 + 1), "level".to_string(), ZSort::Value(1)),
            vec![scene],
        );
    }
    let model = Model { puppet: NodeTree::build(&scene).unwrap(), textures: Vec::new() };
    let again = parse_inp(&encode_inp(&model).unwrap()).unwrap();
    assert_eq!(again.puppet.to_scene(), scene);
}

#[test]
fn encode_inp_writes_the_documented_bytes() {
    let root = SceneNode::new(
        Node::new(NodeKind::Node, NodeUuid(1), "root".to_string(), ZSort::Value(500_000)),
        vec![SceneNode::new(
            Node::new(NodeKind::Part, NodeUuid(2), "p".to_string(), ZSort::Value(-3_000_000)),
            Vec::new(),
        )],
    );
    let model = Model {
        puppet: NodeTree::build(&root).unwrap(),
        textures: vec![CompressedTexture::Tga(vec![9])],
    };
    let text = concat_payload();
    let mut expected = b"TRNSRTS\0".to_vec();
    expected.extend_from_slice(&(text.len() as u32).to_be_bytes());
    expected.extend_from_slice(text.as_bytes());
    expected.extend_from_slice(b"TEX_SECT");
    expected.extend_from_slice(&[0, 0, 0, 1]);
    expected.extend_from_slice(&[0, 0, 0, 1, 1, 9]);
    assert_eq!(encode_inp(&model).unwrap(), expected);
}

fn concat_payload() -> String {
    let child = r#"{"uuid":2,"name":"p","type":"Part","zsort":-3,"children":[]}"#;
    format!(
        "{}{}{}",
        r#"{"uuid":1,"name":"root","type":"Node","zsort":0.5,"children":["#, child, "]}"
    )
}

#[test]
fn frame_inp_puts_the_sections_one_after_the_other() {
    let bytes = frame_inp(b"[1]", &vec![CompressedTexture::Png(vec![1, 2])]);
    let mut expected = b"TRNSRTS\0".to_vec();
    expected.extend_from_slice(&[0, 0, 0, 3]);
    expected.extend_from_slice(b"[1]");
    expected.extend_from_slice(b"TEX_SECT");
    expected.extend_from_slice(&[0, 0, 0, 1, 0, 0, 0, 2, 0, 1, 2]);
    assert_eq!(bytes, expected);
}

#[test]
fn model_from_payload_takes_what_the_reader_made_of_the_text() {
    let payload = Json::Object(vec![
        ("type".to_string(), Json::Text("Part".to_string())),
        ("zsort".to_string(), Json::Number { positive: false, mantissa: 15, exponent: -1 }),
        ("name".to_string(), Json::Text("n".to_string())),
        ("uuid".to_string(), Json::Number { positive: true, mantissa: 8, exponent: 0 }),
        ("uuid".to_string(), Json::Number { positive: true, mantissa: 9, exponent: 0 }),
    ]);
    let textures = no_textures();
    let mut reader = ByteReader::new(&textures);
    let model = model_from_payload(Some(payload), &mut reader).unwrap();
    assert_eq!(reader.remaining_len(), 0);
    let node = model.puppet.get_node(NodeUuid(8)).unwrap();
    assert_eq!(node.zsort(), ZSort::Value(-1_500_000));
    assert_eq!(node.kind(), NodeKind::Part);
    assert!(model.textures.is_empty());
    let mut reader = ByteReader::new(&textures);
    assert_eq!(
        model_from_payload(None, &mut reader).err(),
        Some(PuppetError::InvalidSceneStructure)
    );
    assert_eq!(reader.remaining_len(), textures.len());
}

#[test]
fn scene_from_json_reads_what_scene_to_json_wrote() {
    let scene = sample_model().puppet.to_scene();
    let json = scene_to_json(&scene);
    assert_eq!(scene_from_json(&json), Ok(scene));
}

fn record(uuid: u64, children: Vec<Json>) -> Json {
    Json::Object(vec![
        ("uuid".to_string(), Json::Number { positive: true, mantissa: uuid, exponent: 0 }),
        ("name".to_string(), Json::Text("n".to_string())),
        ("type".to_string(), Json::Text("Node".to_string())),
        ("zsort".to_string(), Json::NotANumber),
        ("children".to_string(), Json::Array(children)),
    ])
}

fn nested(levels: usize, bottom: u64) -> Json {
    let mut json = record(bottom, Vec::new());
    for i in 0..levels {
        json = record(1000 + i as u64, vec![json]);
    }
    json
}

#[test]
fn scene_from_json_reads_a_scene_of_any_depth() {
    let levels = 2 * inox2d::scene::MAX_DEPTH;
    let scene = scene_from_json(&nested(levels, 7)).unwrap();
    assert!(!scene.fits_depth(inox2d::scene::MAX_DEPTH));
    assert!(scene.fits_depth(levels));
    assert!(!scene.fits_depth(levels - 1));
}

#[test]
fn model_from_payload_judges_identifiers_before_depth() {
    let top = inox2d::scene::MAX_DEPTH;
    let textures = no_textures();
    let outcome = |json: Json| {
        let mut reader = ByteReader::new(&textures);
        model_from_payload(Some(json), &mut reader).err()
    };
    assert_eq!(outcome(nested(top, 7)), None);
    assert_eq!(outcome(nested(top + 1, 7)), Some(PuppetError::InvalidSceneStructure));
    // The bottom carries the identifier of the node two levels above it.
    assert_eq!(outcome(nested(top, 1001)), Some(PuppetError::DuplicateExternalId));
    assert_eq!(outcome(nested(top + 1, 1001)), Some(PuppetError::DuplicateExternalId));
    assert_eq!(outcome(nested(3 * top, 1001)), Some(PuppetError::DuplicateExternalId));
}

#[test]
fn parse_inp_judges_identifiers_before_depth() {
    let payload = |levels: usize, bottom: u32| {
        let mut text = format!(r#"{{"uuid":{bottom},"name":"b","type":"Part","zsort":0}}"#);
        for i in 0..levels {
            text = format!(
                r#"{{"uuid":{},"name":"l","type":"Node","zsort":0,"children":[{}]}}"#,
                1000 + i,
                text
            );
        }
        container(text.as_bytes(), &no_textures())
    };
    let top = inox2d::scene::MAX_DEPTH;
    assert!(parse_inp(&payload(top, 7)).is_ok());
    assert_eq!(
        parse_inp(&payload(top + 1, 7)).err(),
        Some(PuppetError::InvalidSceneStructure)
    );
    assert_eq!(
        parse_inp(&payload(top + 50, 1003)).err(),
        Some(PuppetError::DuplicateExternalId)
    );
    assert_eq!(parse_inp(&payload(top, 1000)).err(), Some(PuppetError::DuplicateExternalId));
}

#[test]
fn weights_are_read_in_millionths() {
    assert_eq!(zsort_from_parts(true, 5, -1), Some(ZSort::Value(500_000)));
    assert_eq!(zsort_from_parts(false, 5, -1), Some(ZSort::Value(-500_000)));
    assert_eq!(zsort_from_parts(true, 3, 0), Some(ZSort::Value(3_000_000)));
    assert_eq!(zsort_from_parts(true, 3, 2), Some(ZSort::Value(300_000_000)));
    assert_eq!(zsort_from_parts(true, 1, -6), Some(ZSort::Value(1)));
    // Digits beyond the sixth decimal place are cut off.
    assert_eq!(zsort_from_parts(true, 9_499_999_88, -9), Some(ZSort::Value(949_999)));
    assert_eq!(zsort_from_parts(false, 19, -7), Some(ZSort::Value(-1)));
    assert_eq!(zsort_from_parts(true, 9, -7), Some(ZSort::Value(0)));
    assert_eq!(zsort_from_parts(true, u64::MAX, -32768), Some(ZSort::Value(0)));
    assert_eq!(zsort_from_parts(true, 0, 32767), Some(ZSort::Value(0)));
    assert_eq!(zsort_from_parts(false, 0, 0), Some(ZSort::Value(0)));
}

#[test]
fn weights_beyond_64_bits_are_refused() {
    assert_eq!(zsort_from_parts(true, i64::MAX as u64, -6), Some(ZSort::Value(i64::MAX)));
    assert_eq!(zsort_from_parts(true, i64::MAX as u64 + 1, -6), None);
    assert_eq!(zsort_from_parts(false, i64::MAX as u64 + 1, -6), Some(ZSort::Value(i64::MIN)));
    assert_eq!(zsort_from_parts(false, i64::MAX as u64 + 2, -6), None);
    assert_eq!(zsort_from_parts(true, 9_223_372_036_854, 0), Some(ZSort::Value(9_223_372_036_854_000_000)));
    assert_eq!(zsort_from_parts(true, 9_223_372_036_855, 0), None);
    assert_eq!(zsort_from_parts(true, 1, 13), None);
    assert_eq!(zsort_from_parts(true, 1, 32767), None);
    assert_eq!(zsort_from_parts(true, u64::MAX, 0), None);
}

#[test]
fn weights_are_written_with_the_shortest_mantissa() {
    assert_eq!(parts_from_micros(500_000), (true, 5, -1));
    assert_eq!(parts_from_micros(-3_000_000), (false, 3, 0));
    assert_eq!(parts_from_micros(0), (true, 0, 0));
    assert_eq!(parts_from_micros(1), (true, 1, -6));
    assert_eq!(parts_from_micros(120), (true, 12, -5));
    assert_eq!(parts_from_micros(i64::MIN), (false, 9_223_372_036_854_775_808, -6));
    assert_eq!(parts_from_micros(i64::MAX), (true, 9_223_372_036_854_775_807, -6));
    assert_eq!(parts_from_micros(70_000_000), (true, 70, 0));
    for micros in [0, 1, -1, 10, 1_000_000, -999_999, 123_456_789, i64::MAX, i64::MIN] {
        let (positive, mantissa, exponent) = parts_from_micros(micros);
        assert_eq!(zsort_from_parts(positive, mantissa, exponent), Some(ZSort::Value(micros)));
    }
}

fn payload_with_fraction(zeros: usize) -> String {
    format!(
        r#"{{"uuid": 1, "name": "n", "type": "Node", "zsort": 0.{}}}"#,
        "0".repeat(zeros)
    )
}

#[test]
fn parse_inp_refuses_a_fraction_too_long_to_count() {
    let payload = payload_with_fraction(32769);
    assert_eq!(
        parse_inp(&container(payload.as_bytes(), &no_textures())).err(),
        Some(PuppetError::InvalidSceneStructure)
    );
    let payload = payload_with_fraction(32768);
    assert_eq!(
        parse_inp(&container(payload.as_bytes(), &no_textures())).err(),
        Some(PuppetError::InvalidSceneStructure)
    );
    let payload = payload_with_fraction(100_000);
    assert_eq!(
        parse_inp(&container(payload.as_bytes(), &no_textures())).err(),
        Some(PuppetError::InvalidSceneStructure)
    );
}

#[test]
fn parse_inp_reads_the_longest_fraction_that_can_be_counted() {
    let payload = payload_with_fraction(32767);
    let model = parse_inp(&container(payload.as_bytes(), &no_textures())).unwrap();
    assert_eq!(model.puppet.get_node(NodeUuid(1)).unwrap().zsort(), ZSort::Value(0));
}

#[test]
fn a_long_run_of_digits_is_refused_wherever_it_stands() {
    let payload = format!(
        r#"{{"uuid": 1, "name": "{}", "type": "Node", "zsort": 0}}"#,
        "7".repeat(32768)
    );
    assert_eq!(
        parse_inp(&container(payload.as_bytes(), &no_textures())).err(),
        Some(PuppetError::InvalidSceneStructure)
    );
    let payload = format!(
        r#"{{"uuid": 1, "name": "{}", "type": "Node", "zsort": 0}}"#,
        "7".repeat(32767)
    );
    assert!(parse_inp(&container(payload.as_bytes(), &no_textures())).is_ok());
}

#[test]
fn encode_inp_writes_nothing_that_could_not_be_read_again() {
    let named = |digits: usize| Model {
        puppet: NodeTree::new(Node::new(
            NodeKind::Part,
            NodeUuid(1),
            "9".repeat(digits),
            ZSort::Value(0),
        )),
        textures: Vec::new(),
    };
    assert_eq!(encode_inp(&named(32768)), None);
    let bytes = encode_inp(&named(32767)).unwrap();
    let again = parse_inp(&bytes).unwrap();
    assert_eq!(again.puppet.get_node(NodeUuid(1)).unwrap().get_node_state().name.len(), 32767);
}

#[test]
fn model_from_payload_leaves_the_reader_where_reading_ended() {
    let good = || {
        Some(Json::Object(vec![
            ("uuid".to_string(), Json::Number { positive: true, mantissa: 1, exponent: 0 }),
            ("name".to_string(), Json::Text("n".to_string())),
            ("type".to_string(), Json::Text("Node".to_string())),
            ("zsort".to_string(), Json::Null),
        ]))
    };
    // A scene that fails leaves the texture section untouched.
    let textures = no_textures();
    let mut reader = ByteReader::new(&textures);
    assert!(model_from_payload(Some(Json::Null), &mut reader).is_err());
    assert_eq!(reader.remaining_len(), textures.len());
    // A wrong marker has been taken, and nothing behind it.
    let wrong = b"TEX_SECX\0\0\0\0rest".to_vec();
    let mut reader = ByteReader::new(&wrong);
    assert_eq!(
        model_from_payload(good(), &mut reader).err(),
        Some(PuppetError::MalformedMagic)
    );
    assert_eq!(reader.remaining_len(), wrong.len() - 8);
    // An unknown tag is found once its entry has been taken.
    let mut tagged = b"TEX_SECT".to_vec();
    tagged.extend_from_slice(&[0, 0, 0, 2, 0, 0, 0, 1, 7, 42, 0, 0, 0, 0, 0]);
    let mut reader = ByteReader::new(&tagged);
    assert_eq!(
        model_from_payload(good(), &mut reader).err(),
        Some(PuppetError::UnsupportedTextureFormat)
    );
    assert_eq!(reader.remaining_len(), 5);
}
