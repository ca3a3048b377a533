//! The scene payload: how a tree of nodes is read from a JSON value and
//! written as one. A node is an object with the fields `uuid`, `name`,
//! `type` and `zsort`, and with its subtrees, in order, under `children`.

use vstd::prelude::*;
use crate::decimal::lemma_micros_of_parts;
use crate::decimal::micros_of;
use crate::decimal::parts_from_micros;
use crate::decimal::parts_of_micros;
use crate::decimal::zsort_from_parts;
use crate::error::PuppetError;
use crate::json_data::canonical;
use crate::json_data::distinct_keys;
use crate::json_data::entry_views;
use crate::json_data::item_views;
use crate::json_data::lemma_entry_views;
use crate::json_data::lemma_item_views;
use crate::json_data::Json;
use crate::json_data::JsonView;
use crate::node::kind_of_name;
use crate::node::lemma_kind_of_name_of_kind;
use crate::node::name_of_kind;
use crate::node::Node;
use crate::node::NodeKind;
use crate::node::NodeUuid;
use crate::node::NodeView;
use crate::node::ZSort;
use crate::scene::views_of;
use crate::scene::SceneNode;
use crate::scene::TreeView;

verus! {

/// The value of the first entry of an object that has the key `key`.
pub open spec fn field(entries: Seq<(Seq<char>, JsonView)>, key: Seq<char>) -> Option<JsonView>
    decreases entries.len(),
{
    if entries.len() == 0 {
        None
    } else if entries[0].0 == key {
        Some(entries[0].1)
    } else {
        field(entries.skip(1), key)
    }
}

/// The identifier that a `uuid` field holds: a whole number that fits in
/// 32 bits, written without exponent.
pub open spec fn uuid_of_json(value: Option<JsonView>) -> Option<u32> {
    match value {
        Some(JsonView::Number { positive, mantissa, exponent }) => if positive && exponent == 0
            && mantissa <= u32::MAX {
            Some(mantissa as u32)
        } else {
            None
        },
        _ => None,
    }
}

/// The text that a field holds, if it holds text.
pub open spec fn text_of_json(value: Option<JsonView>) -> Option<Seq<char>> {
    match value {
        Some(JsonView::Text(text)) => Some(text),
        _ => None,
    }
}

/// The weight that a `zsort` field holds: a number within range, or a
/// weight that is not a number, which is written as `null`.
pub open spec fn zsort_of_json(value: Option<JsonView>) -> Option<ZSort> {
    match value {
        Some(JsonView::Number { positive, mantissa, exponent }) => micros_of(
            positive,
            mantissa,
            exponent,
        ),
        Some(JsonView::Null) => Some(ZSort::NotANumber),
        Some(JsonView::NotANumber) => Some(ZSort::NotANumber),
        _ => None,
    }
}

/// The node that the fields of an object describe. The fields are judged
/// in the order `uuid`, `name`, `type`, `zsort`; a field that is missing or
/// of the wrong form makes the payload malformed, a type name that names no
/// node type is reported as such.
pub open spec fn node_of_json(entries: Seq<(Seq<char>, JsonView)>) -> Result<NodeView, PuppetError> {
    let uuid = uuid_of_json(field(entries, "uuid"@));
    let name = text_of_json(field(entries, "name"@));
    let kind_name = text_of_json(field(entries, "type"@));
    let zsort = zsort_of_json(field(entries, "zsort"@));
    if uuid is None || name is None || kind_name is None {
        Err(PuppetError::InvalidSceneStructure)
    } else if kind_of_name(kind_name->Some_0) is None {
        Err(PuppetError::UnknownNodeType)
    } else if zsort is None {
        Err(PuppetError::InvalidSceneStructure)
    } else {
        Ok(
            NodeView {
                kind: kind_of_name(kind_name->Some_0)->Some_0,
                uuid: uuid->Some_0,
                name: name->Some_0,
                zsort: zsort->Some_0,
            },
        )
    }
}

/// The tree that a JSON value describes. The value must be an object that
/// describes a node; its subtrees are those that its `children` describe.
pub open spec fn scene_of_json(json: JsonView) -> Result<TreeView, PuppetError>
    decreases json,
{
    match json {
        JsonView::Object(entries) => match node_of_json(entries) {
            Err(e) => Err(e),
            Ok(node) => match children_of_json(entries) {
                Err(e) => Err(e),
                Ok(children) => Ok(TreeView { node, children }),
            },
        },
        _ => Err(PuppetError::InvalidSceneStructure),
    }
}

/// The subtrees that the first `children` entry of an object describes:
/// none where the object has no such entry; where it has one, its value
/// must be an array, each item of which describes a subtree.
pub open spec fn children_of_json(entries: Seq<(Seq<char>, JsonView)>) -> Result<
    Seq<TreeView>,
    PuppetError,
>
    decreases entries,
{
    if entries.len() == 0 {
        Ok(Seq::empty())
    } else if entries[0].0 == "children"@ {
        match entries[0].1 {
            JsonView::Array(items) => scenes_of_json(items),
            _ => Err(PuppetError::InvalidSceneStructure),
        }
    } else {
        children_of_json(entries.skip(1))
    }
}

/// The trees that the items of a `children` array describe, in order; the
/// first item that fails decides the error.
pub open spec fn scenes_of_json(items: Seq<JsonView>) -> Result<Seq<TreeView>, PuppetError>
    decreases items,
{
    if items.len() == 0 {
        Ok(Seq::empty())
    } else {
        match scenes_of_json(items.drop_last()) {
            Err(e) => Err(e),
            Ok(before) => match scene_of_json(items.last()) {
                Err(e) => Err(e),
                Ok(last) => Ok(before.push(last)),
            },
        }
    }
}

/// The subtrees of an object are those of the value that is found under
/// `children`.
pub proof fn lemma_children_of_json(entries: Seq<(Seq<char>, JsonView)>)
    ensures
        children_of_json(entries) == match field(entries, "children"@) {
            None => Ok::<Seq<TreeView>, PuppetError>(Seq::empty()),
            Some(JsonView::Array(items)) => scenes_of_json(items),
            Some(_) => Err::<Seq<TreeView>, PuppetError>(PuppetError::InvalidSceneStructure),
        },
    decreases entries.len(),
{
    if entries.len() > 0 && entries[0].0 != "children"@ {
        lemma_children_of_json(entries.skip(1));
    }
}

/// The value found under a key lies within the entries.
pub proof fn lemma_field_is_within(entries: Seq<(Seq<char>, JsonView)>, key: Seq<char>)
    requires
        field(entries, key) is Some,
    ensures
        decreases_to!(entries => field(entries, key)->Some_0),
    decreases entries.len(),
{
    if entries[0].0 == key {
        assert(decreases_to!(entries => entries[0]));
        assert(decreases_to!(entries[0] => entries[0].1));
    } else {
        lemma_field_is_within(entries.skip(1), key);
        assert(entries.skip(1) =~= entries.subrange(1, entries.len() as int));
        assert(decreases_to!(entries => entries.subrange(1, entries.len() as int)));
    }
}

/// The JSON value under which a weight is written.
pub open spec fn json_of_zsort(zsort: ZSort) -> JsonView {
    match zsort {
        ZSort::Value(micros) => {
            let (positive, mantissa, exponent) = parts_of_micros(micros);
            JsonView::Number { positive, mantissa: mantissa as u64, exponent: exponent as i16 }
        },
        ZSort::NotANumber => JsonView::Null,
    }
}

/// The JSON value that describes a tree.
pub open spec fn json_of_scene(tree: TreeView) -> JsonView
    decreases tree,
{
    JsonView::Object(
        seq![
            (
                "uuid"@,
                JsonView::Number { positive: true, mantissa: tree.node.uuid as u64, exponent: 0 },
            ),
            ("name"@, JsonView::Text(tree.node.name)),
            ("type"@, JsonView::Text(name_of_kind(tree.node.kind))),
            ("zsort"@, json_of_zsort(tree.node.zsort)),
            ("children"@, JsonView::Array(jsons_of_scenes(tree.children))),
        ],
    )
}

/// The JSON values that describe a sequence of trees, in order.
pub open spec fn jsons_of_scenes(trees: Seq<TreeView>) -> Seq<JsonView>
    decreases trees,
{
    if trees.len() == 0 {
        Seq::empty()
    } else {
        jsons_of_scenes(trees.drop_last()).push(json_of_scene(trees.last()))
    }
}

/// The five field names differ from one another.
proof fn lemma_field_names()
    ensures
        "uuid"@ != "name"@,
        "uuid"@ != "type"@,
        "uuid"@ != "zsort"@,
        "uuid"@ != "children"@,
        "name"@ != "type"@,
        "name"@ != "zsort"@,
        "name"@ != "children"@,
        "type"@ != "zsort"@,
        "type"@ != "children"@,
        "zsort"@ != "children"@,
{
    reveal_strlit("uuid");
    reveal_strlit("name");
    reveal_strlit("type");
    reveal_strlit("zsort");
    reveal_strlit("children");
    assert("uuid"@[0] != "name"@[0]);
    assert("uuid"@[0] != "type"@[0]);
    assert("uuid"@[0] != "zsort"@[0]);
    assert("uuid"@[0] != "children"@[0]);
    assert("name"@[0] != "type"@[0]);
    assert("name"@[0] != "zsort"@[0]);
    assert("name"@[0] != "children"@[0]);
    assert("type"@[0] != "zsort"@[0]);
    assert("type"@[0] != "children"@[0]);
    assert("zsort"@[0] != "children"@[0]);
}

/// The fields of a written node are found again, each with its value.
proof fn lemma_fields_of_scene(tree: TreeView)
    ensures
        json_of_scene(tree) matches JsonView::Object(entries) && {
            &&& distinct_keys(entries)
            &&& field(entries, "uuid"@) == Some(entries[0].1)
            &&& field(entries, "name"@) == Some(entries[1].1)
            &&& field(entries, "type"@) == Some(entries[2].1)
            &&& field(entries, "zsort"@) == Some(entries[3].1)
            &&& field(entries, "children"@) == Some(entries[4].1)
        },
{
    lemma_field_names();
    let entries = json_of_scene(tree)->Object_0;
    let e1 = entries.skip(1);
    let e2 = e1.skip(1);
    let e3 = e2.skip(1);
    let e4 = e3.skip(1);
    assert(e1[0] == entries[1]);
    assert(e2[0] == entries[2]);
    assert(e3[0] == entries[3]);
    assert(e4[0] == entries[4]);
    assert(field(e4, "children"@) == Some(entries[4].1));
    assert(field(e3, "children"@) == field(e4, "children"@));
    assert(field(e2, "children"@) == field(e3, "children"@));
    assert(field(e1, "children"@) == field(e2, "children"@));
    assert(field(e3, "zsort"@) == Some(entries[3].1));
    assert(field(e2, "zsort"@) == field(e3, "zsort"@));
    assert(field(e1, "zsort"@) == field(e2, "zsort"@));
    assert(field(e2, "type"@) == Some(entries[2].1));
    assert(field(e1, "type"@) == field(e2, "type"@));
    assert(field(e1, "name"@) == Some(entries[1].1));
}

/// The written trees stand one for one in their places.
proof fn lemma_jsons_of_scenes(trees: Seq<TreeView>)
    ensures
        jsons_of_scenes(trees).len() == trees.len(),
        forall|i: int|
            0 <= i < trees.len() ==> #[trigger] jsons_of_scenes(trees)[i] == json_of_scene(
                trees[i],
            ),
    decreases trees.len(),
{
    if trees.len() > 0 {
        lemma_jsons_of_scenes(trees.drop_last());
    }
}

/// A tree that is written and read again is the same tree.
pub proof fn lemma_scene_json_round_trip(tree: TreeView)
    ensures
        scene_of_json(json_of_scene(tree)) == Ok::<TreeView, PuppetError>(tree),
    decreases tree,
{
    lemma_fields_of_scene(tree);
    lemma_kind_of_name_of_kind(tree.node.kind);
    match tree.node.zsort {
        ZSort::Value(micros) => {
            lemma_micros_of_parts(micros);
        },
        ZSort::NotANumber => {},
    }
    let entries = json_of_scene(tree)->Object_0;
    assert(node_of_json(entries) == Ok::<NodeView, PuppetError>(tree.node));
    lemma_children_of_json(entries);
    lemma_scenes_json_round_trip(tree.children);
}

/// The subtrees of a tree that are written and read again are the same
/// subtrees.
proof fn lemma_scenes_json_round_trip(trees: Seq<TreeView>)
    ensures
        scenes_of_json(jsons_of_scenes(trees)) == Ok::<Seq<TreeView>, PuppetError>(trees),
    decreases trees,
{
    if trees.len() == 0 {
        assert(trees =~= Seq::<TreeView>::empty());
    } else {
        let items = jsons_of_scenes(trees);
        assert(items.drop_last() =~= jsons_of_scenes(trees.drop_last()));
        assert(items.last() == json_of_scene(trees.last()));
        lemma_scenes_json_round_trip(trees.drop_last());
        lemma_scene_json_round_trip(trees.last());
        assert(trees.drop_last().push(trees.last()) =~= trees);
    }
}

/// An error among the first items of an array is the error of the array.
proof fn lemma_scenes_of_json_prefix(items: Seq<JsonView>, k: int)
    requires
        0 <= k <= items.len(),
        scenes_of_json(items.take(k)) is Err,
    ensures
        scenes_of_json(items) == scenes_of_json(items.take(k)),
    decreases items.len(),
{
    if k == items.len() {
        assert(items.take(k) =~= items);
    } else {
        assert(items.drop_last().take(k) =~= items.take(k));
        lemma_scenes_of_json_prefix(items.drop_last(), k);
    }
}

/// The value of the first entry of `entries` that has the key `key`.
fn find_field<'a>(entries: &'a Vec<(String, Json)>, key: &str) -> (res: Option<&'a Json>)
    ensures
        match res {
            Some(value) => field(entry_views(entries@), key@) == Some(value@),
            None => field(entry_views(entries@), key@) is None,
        },
{
    let wanted = key.to_owned();
    let ghost views = entry_views(entries@);
    proof {
        lemma_entry_views(entries@);
        assert(views.skip(0) =~= views);
    }
    let mut i: usize = 0;
    while i < entries.len()
        invariant
            i <= entries@.len(),
            wanted@ == key@,
            views == entry_views(entries@),
            views.len() == entries@.len(),
            forall|j: int|
                0 <= j < entries@.len() ==> #[trigger] views[j] == (entries@[j].0@, entries@[j].1@),
            field(views, key@) == field(views.skip(i as int), key@),
        decreases entries@.len() - i,
    {
        proof {
            assert(views.skip(i as int)[0] == views[i as int]);
            assert(views.skip(i as int).skip(1) =~= views.skip(i + 1));
        }
        if entries[i].0 == wanted {
            return Some(&entries[i].1);
        }
        i += 1;
    }
    None
}

/// The node that the fields of an object describe.
fn node_from_json(entries: &Vec<(String, Json)>) -> (res: Result<Node, PuppetError>)
    ensures
        match res {
            Ok(node) => node_of_json(entry_views(entries@)) == Ok::<NodeView, PuppetError>(node@),
            Err(e) => node_of_json(entry_views(entries@)) == Err::<NodeView, PuppetError>(e),
        },
{
    let uuid = match find_field(entries, "uuid") {
        Some(Json::Number { positive, mantissa, exponent }) => {
            if *positive && *exponent == 0 && *mantissa <= 0xffff_ffff {
                NodeUuid(*mantissa as u32)
            } else {
                return Err(PuppetError::InvalidSceneStructure);
            }
        },
        _ => {
            return Err(PuppetError::InvalidSceneStructure);
        },
    };
    let name = match find_field(entries, "name") {
        Some(Json::Text(text)) => text.clone(),
        _ => {
            return Err(PuppetError::InvalidSceneStructure);
        },
    };
    let kind = match find_field(entries, "type") {
        Some(Json::Text(text)) => match NodeKind::from_name(text) {
            Some(kind) => kind,
            None => {
                return Err(PuppetError::UnknownNodeType);
            },
        },
        _ => {
            return Err(PuppetError::InvalidSceneStructure);
        },
    };
    let zsort = match find_field(entries, "zsort") {
        Some(Json::Number { positive, mantissa, exponent }) => match zsort_from_parts(
            *positive,
            *mantissa,
            *exponent,
        ) {
            Some(zsort) => zsort,
            None => {
                return Err(PuppetError::InvalidSceneStructure);
            },
        },
        Some(Json::Null) => ZSort::NotANumber,
        Some(Json::NotANumber) => ZSort::NotANumber,
        _ => {
            return Err(PuppetError::InvalidSceneStructure);
        },
    };
    Ok(Node::new(kind, uuid, name, zsort))
}

/// Reads the tree that `json` describes.
#[verifier::loop_isolation(false)]
pub fn scene_from_json(json: &Json) -> (res: Result<SceneNode, PuppetError>)
    ensures
        match res {
            Ok(scene) => scene_of_json(json@) == Ok::<TreeView, PuppetError>(scene@),
            Err(e) => scene_of_json(json@) == Err::<TreeView, PuppetError>(e),
        },
    decreases json@,
{
    let entries = match json {
        Json::Object(entries) => entries,
        _ => {
            return Err(PuppetError::InvalidSceneStructure);
        },
    };
    let ghost fields = entry_views(entries@);
    proof {
        lemma_children_of_json(fields);
    }
    let node = node_from_json(entries)?;
    let items = match find_field(entries, "children") {
        None => {
            let scene = SceneNode::new(node, Vec::new());
            proof {
                scene.lemma_view();
                assert(scene@.children =~= Seq::<TreeView>::empty());
            }
            return Ok(scene);
        },
        Some(Json::Array(items)) => items,
        Some(_) => {
            return Err(PuppetError::InvalidSceneStructure);
        },
    };
    let ghost views = item_views(items@);
    proof {
        lemma_item_views(items@);
        lemma_field_is_within(fields, "children"@);
        assert(field(fields, "children"@)->Some_0 == JsonView::Array(views));
        assert(decreases_to!(json@ => json@->Object_0));
        assert(decreases_to!(JsonView::Array(views) => JsonView::Array(views)->Array_0));
    }
    let mut children: Vec<SceneNode> = Vec::new();
    let mut i: usize = 0;
    proof {
        assert(views.take(0) =~= Seq::<JsonView>::empty());
        assert(views_of(children@) =~= Seq::<TreeView>::empty());
    }
    while i < items.len()
        invariant
            i <= items@.len(),
            views == item_views(items@),
            views.len() == items@.len(),
            forall|j: int| 0 <= j < items@.len() ==> #[trigger] views[j] == items@[j]@,
            children@.len() == i,
            scenes_of_json(views.take(i as int)) == Ok::<Seq<TreeView>, PuppetError>(
                views_of(children@),
            ),
        decreases items@.len() - i,
    {
        let ghost before = views_of(children@);
        let ghost held = children@;
        proof {
            let next = views.take(i + 1);
            assert(next.drop_last() =~= views.take(i as int));
            assert(next.last() == items@[i as int]@);
            assert(decreases_to!(views => views[i as int]));
        }
        let child = match scene_from_json(&items[i]) {
            Ok(child) => child,
            Err(e) => {
                proof {
                    lemma_scenes_of_json_prefix(views, i + 1);
                }
                return Err(e);
            },
        };
        children.push(child);
        proof {
            assert(children@.drop_last() =~= held);
            assert(views_of(children@) == before.push(child@));
            assert(views_of(children@).drop_last() =~= before);
        }
        i += 1;
    }
    proof {
        assert(views.take(i as int) =~= views);
    }
    let scene = SceneNode::new(node, children);
    proof {
        scene.lemma_view();
    }
    Ok(scene)
}

/// Writes a weight as a JSON value.
fn zsort_to_json(zsort: ZSort) -> (res: Json)
    ensures
        res@ == json_of_zsort(zsort),
        canonical(res@),
{
    match zsort {
        ZSort::Value(micros) => {
            let (positive, mantissa, exponent) = parts_from_micros(micros);
            Json::Number { positive, mantissa, exponent }
        },
        ZSort::NotANumber => Json::Null,
    }
}

/// Writes the tree of `scene` as a JSON value, in the form that the `json`
/// crate keeps.
pub fn scene_to_json(scene: &SceneNode) -> (res: Json)
    ensures
        res@ == json_of_scene(scene@),
        canonical(res@),
    decreases scene,
{
    let ghost trees = scene@.children;
    proof {
        scene.lemma_view();
        lemma_jsons_of_scenes(trees);
    }
    let mut items: Vec<Json> = Vec::new();
    let mut i: usize = 0;
    proof {
        assert(item_views(items@) =~= jsons_of_scenes(trees).take(0));
    }
    while i < scene.children.len()
        invariant
            i <= scene.children@.len(),
            trees == scene@.children,
            trees.len() == scene.children@.len(),
            forall|j: int| 0 <= j < trees.len() ==> #[trigger] trees[j] == scene.children@[j]@,
            jsons_of_scenes(trees).len() == trees.len(),
            forall|j: int|
                0 <= j < trees.len() ==> #[trigger] jsons_of_scenes(trees)[j] == json_of_scene(
                    trees[j],
                ),
            item_views(items@) == jsons_of_scenes(trees).take(i as int),
            forall|j: int| 0 <= j < i ==> canonical(#[trigger] item_views(items@)[j]),
        decreases scene.children@.len() - i,
    {
        let ghost before = item_views(items@);
        let ghost held = items@;
        let item = scene_to_json(&scene.children[i]);
        items.push(item);
        proof {
            assert(items@.drop_last() =~= held);
            assert(item_views(items@) == before.push(item@));
            assert(item_views(items@) =~= jsons_of_scenes(trees).take(i + 1));
        }
        i += 1;
    }
    proof {
        assert(jsons_of_scenes(trees).take(i as int) =~= jsons_of_scenes(trees));
    }
    let node = &scene.node;
    let uuid = Json::Number { positive: true, mantissa: node.uuid().0 as u64, exponent: 0 };
    let name = Json::Text(node.get_node_state().name.clone());
    let kind = Json::Text(node.kind().name());
    let zsort = zsort_to_json(node.zsort());
    let children = Json::Array(items);
    let mut entries: Vec<(String, Json)> = Vec::new();
    entries.push(("uuid".to_owned(), uuid));
    entries.push(("name".to_owned(), name));
    entries.push(("type".to_owned(), kind));
    entries.push(("zsort".to_owned(), zsort));
    entries.push(("children".to_owned(), children));
    let res = Json::Object(entries);
    proof {
        lemma_entry_views(entries@);
        lemma_field_names();
        let views = entry_views(entries@);
        assert(views =~= json_of_scene(scene@)->Object_0);
        assert(distinct_keys(views));
        assert forall|j: int| 0 <= j < views.len() implies canonical((#[trigger] views[j]).1) by {
            if j == 4 {
                assert(views[j].1 == JsonView::Array(item_views(items@)));
            }
        }
    }
    res
}

} // verus!
