//! A loaded puppet: its scene graph and its textures, read from the bytes
//! of a container and written back to them.

use vstd::prelude::*;
use vstd::utf8::decode_utf8;
use vstd::utf8::encode_utf8;
use vstd::utf8::valid_utf8;
use crate::container::encode_scene_section;
use crate::container::encode_texture_section;
use crate::container::lemma_scene_section_round_trip;
use crate::container::lemma_texture_section_round_trip;
use crate::container::parse_scene_section;
use crate::container::parse_texture_section;
use crate::container::read_scene_section;
use crate::container::read_texture_section;
use crate::container::texture_section_stop;
use crate::container::textures_fit;
use crate::container::write_scene_section;
use crate::container::write_texture_section;
use crate::error::PuppetError;
use crate::json_data::digit_runs_fit;
use crate::json_data::has_fitting_digit_runs;
use crate::json_data::json_dump;
use crate::json_data::json_lower;
use crate::json_data::json_parse;
use crate::json_data::json_raise;
use crate::json_data::json_text;
use crate::json_data::parsed_json;
use crate::json_data::Json;
use crate::json_data::JsonView;
use crate::node_tree::NodeTree;
use crate::reader::ByteReader;
use crate::scene::TreeView;
use crate::scene::MAX_DEPTH;
use crate::scene_json::json_of_scene;
use crate::scene_json::scene_from_json;
use crate::scene_json::scene_of_json;
use crate::scene_json::scene_to_json;
use crate::texture::texture_views;
use crate::texture::CompressedTexture;
use crate::texture::TextureView;

verus! {

/// A loaded puppet. The order of the textures is the order in which the
/// container lists them; the rig refers to a texture by its place in it.
pub struct Model {
    pub puppet: NodeTree,
    pub textures: Vec<CompressedTexture>,
}

/// A puppet as a value.
pub struct ModelView {
    pub puppet: TreeView,
    pub textures: Seq<TextureView>,
}

impl View for Model {
    type V = ModelView;

    open spec fn view(&self) -> ModelView {
        ModelView { puppet: self.puppet@, textures: texture_views(self.textures@) }
    }
}

/// The scene that a payload describes, given what the JSON reader made of
/// its text: a payload that is not JSON is malformed, as is one that does
/// not describe a tree. A tree that uses an identifier twice, wherever the
/// two nodes stand, is refused as such; otherwise one deeper than
/// `MAX_DEPTH` is malformed.
pub open spec fn scene_of_payload(parsed: Option<JsonView>) -> Result<TreeView, PuppetError> {
    match parsed {
        None => Err(PuppetError::InvalidSceneStructure),
        Some(json) => match scene_of_json(json) {
            Err(e) => Err(e),
            Ok(tree) => if !tree.uuids().no_duplicates() {
                Err(PuppetError::DuplicateExternalId)
            } else if tree.height() > MAX_DEPTH {
                Err(PuppetError::InvalidSceneStructure)
            } else {
                Ok(tree)
            },
        },
    }
}

/// The text of the payload of a container, where its scene section is
/// complete.
pub open spec fn payload_text(bytes: Seq<u8>) -> Seq<char> {
    match parse_scene_section(bytes) {
        Ok((payload, rest)) => decode_utf8(payload),
        Err(_) => Seq::empty(),
    }
}

/// What decoding a container gives, where `parsed` is what the JSON reader
/// makes of the payload's text. The sections are read in order and the
/// first failure decides: the scene section's framing, the payload's
/// encoding, the scene it describes, then the texture section. A payload
/// with a run of more than `MAX_DIGIT_RUN` digits is malformed: the JSON
/// reader is never given one.
pub open spec fn decode_given(bytes: Seq<u8>, parsed: Option<JsonView>) -> Result<
    ModelView,
    PuppetError,
> {
    match parse_scene_section(bytes) {
        Err(e) => Err(e),
        Ok((payload, rest)) => if !valid_utf8(payload) {
            Err(PuppetError::InvalidPayloadEncoding)
        } else if !digit_runs_fit(payload) {
            Err(PuppetError::InvalidSceneStructure)
        } else {
            match scene_of_payload(parsed) {
                Err(e) => Err(e),
                Ok(puppet) => match parse_texture_section(rest) {
                    Err(e) => Err(e),
                    Ok((textures, after)) => Ok(ModelView { puppet, textures }),
                },
            }
        },
    }
}

/// What decoding a container gives.
pub open spec fn decode(bytes: Seq<u8>) -> Result<ModelView, PuppetError> {
    decode_given(bytes, parsed_json(payload_text(bytes)))
}

/// The bytes of a container that holds `payload` and `textures`.
pub open spec fn encode_given(payload: Seq<u8>, textures: Seq<TextureView>) -> Seq<u8> {
    encode_scene_section(payload) + encode_texture_section(textures)
}

/// The bytes of the container of a puppet: its scene written as JSON text,
/// then its textures.
pub open spec fn encode(model: ModelView) -> Seq<u8> {
    encode_given(encode_utf8(json_text(json_of_scene(model.puppet))), model.textures)
}

/// `std::str::from_utf8`: the bytes as text, if and only if they are valid
/// UTF-8.
#[verifier::external_body]
pub(crate) fn str_from_utf8(bytes: &[u8]) -> (res: Option<&str>)
    ensures
        res is Some == valid_utf8(bytes@),
        res is Some ==> res->Some_0@ == decode_utf8(bytes@),
{
    std::str::from_utf8(bytes).ok()
}

/// Builds the model from what the JSON reader made of the payload, and
/// from the texture section that `reader` stands in front of.
pub fn model_from_payload(parsed: Option<Json>, reader: &mut ByteReader) -> (res: Result<
    Model,
    PuppetError,
>)
    ensures
        match res {
            Ok(model) => {
                &&& model.puppet.wf()
                &&& scene_of_payload(
                    match parsed {
                        Some(json) => Some(json@),
                        None => None,
                    },
                ) == Ok::<TreeView, PuppetError>(model@.puppet)
                &&& parse_texture_section(old(reader).remaining()) == Ok::<
                    (Seq<TextureView>, Seq<u8>),
                    PuppetError,
                >((model@.textures, final(reader).remaining()))
            },
            Err(e) => match scene_of_payload(
                match parsed {
                    Some(json) => Some(json@),
                    None => None,
                },
            ) {
                Err(scene_error) => e == scene_error && final(reader).remaining()
                    == old(reader).remaining(),
                Ok(_) => parse_texture_section(old(reader).remaining()) == Err::<
                    (Seq<TextureView>, Seq<u8>),
                    PuppetError,
                >(e) && final(reader).remaining() == texture_section_stop(
                    old(reader).remaining(),
                ),
            },
        },
{
    let json = match parsed {
        Some(json) => json,
        None => {
            return Err(PuppetError::InvalidSceneStructure);
        },
    };
    let scene = scene_from_json(&json)?;
    let puppet = NodeTree::build(&scene)?;
    let textures = read_texture_section(reader)?;
    Ok(Model { puppet, textures })
}

/// Decodes a puppet container held in memory: the scene section, whose
/// payload must be UTF-8 text that the JSON reader can take and that
/// describes a tree, then the texture section. Nothing behind a field
/// that fails is looked at.
pub fn parse_inp(bytes: &[u8]) -> (res: Result<Model, PuppetError>)
    ensures
        match res {
            Ok(model) => model.puppet.wf() && decode(bytes@) == Ok::<ModelView, PuppetError>(
                model@,
            ),
            Err(e) => decode(bytes@) == Err::<ModelView, PuppetError>(e),
        },
{
    let mut reader = ByteReader::new(bytes);
    let payload = read_scene_section(&mut reader)?;
    let text = match str_from_utf8(payload.as_slice()) {
        Some(text) => text,
        None => {
            return Err(PuppetError::InvalidPayloadEncoding);
        },
    };
    proof {
        vstd::utf8::decode_utf8_encode_utf8(payload@);
    }
    if !has_fitting_digit_runs(payload.as_slice()) {
        return Err(PuppetError::InvalidSceneStructure);
    }
    let parsed = match json_parse(text) {
        Some(value) => Some(json_lower(&value)),
        None => None,
    };
    model_from_payload(parsed, &mut reader)
}

/// The bytes of a container that holds `payload` as its scene payload and
/// `textures`, in their order, as its textures.
pub fn frame_inp(payload: &[u8], textures: &Vec<CompressedTexture>) -> (bytes: Vec<u8>)
    requires
        payload@.len() <= u32::MAX,
        textures_fit(texture_views(textures@)),
    ensures
        bytes@ == encode_given(payload@, texture_views(textures@)),
{
    let mut bytes: Vec<u8> = Vec::new();
    write_scene_section(&mut bytes, payload);
    write_texture_section(&mut bytes, textures);
    assert(bytes@ =~= encode_given(payload@, texture_views(textures@)));
    bytes
}

/// Whether a texture sequence can be framed: at most `u32::MAX` textures,
/// none longer than `u32::MAX` bytes.
pub fn textures_can_be_framed(textures: &Vec<CompressedTexture>) -> (fit: bool)
    ensures
        fit == textures_fit(texture_views(textures@)),
{
    if textures.len() > 0xffff_ffff {
        return false;
    }
    let mut i: usize = 0;
    while i < textures.len()
        invariant
            i <= textures@.len(),
            textures@.len() <= u32::MAX,
            forall|j: int|
                0 <= j < i ==> crate::container::texture_fits(
                    #[trigger] texture_views(textures@)[j],
                ),
        decreases textures@.len() - i,
    {
        if textures[i].data().len() > 0xffff_ffff {
            assert(!crate::container::texture_fits(texture_views(textures@)[i as int]));
            return false;
        }
        i += 1;
    }
    true
}

/// Encodes a puppet as a container: the scene written as JSON text, then
/// the textures. Gives nothing where a length does not fit the four bytes
/// that the framing has for it, nor where the text holds a run of digits
/// too long to be read again.
pub fn encode_inp(model: &Model) -> (res: Option<Vec<u8>>)
    requires
        model.puppet.wf(),
    ensures
        match res {
            Some(bytes) => {
                &&& bytes@ == encode(model@)
                &&& encode_utf8(json_text(json_of_scene(model@.puppet))).len() <= u32::MAX
                &&& digit_runs_fit(encode_utf8(json_text(json_of_scene(model@.puppet))))
                &&& valid_model(model@)
            },
            None => encode_utf8(json_text(json_of_scene(model@.puppet))).len() > u32::MAX
                || !digit_runs_fit(encode_utf8(json_text(json_of_scene(model@.puppet))))
                || !textures_fit(model@.textures),
        },
{
    proof {
        model.puppet.lemma_view_is_valid();
    }
    let scene = model.puppet.to_scene();
    let json = scene_to_json(&scene);
    let value = json_raise(&json);
    let text = json_dump(&value);
    let payload = text.as_str().as_bytes();
    if payload.len() > 0xffff_ffff || !has_fitting_digit_runs(payload)
        || !textures_can_be_framed(&model.textures) {
        return None;
    }
    Some(frame_inp(payload, &model.textures))
}

/// A payload that describes a scene in which two nodes carry the same
/// identifier is refused for that, however deep the scene is and wherever
/// the two nodes stand; a scene without such a pair gives a tree whose
/// identifiers are pairwise distinct, or none.
pub proof fn lemma_repeated_identifier_is_refused(json: JsonView, tree: TreeView)
    requires
        scene_of_json(json) == Ok::<TreeView, PuppetError>(tree),
    ensures
        !tree.uuids().no_duplicates() ==> scene_of_payload(Some(json)) == Err::<
            TreeView,
            PuppetError,
        >(PuppetError::DuplicateExternalId),
        scene_of_payload(Some(json)) is Ok ==> scene_of_payload(Some(json)) == Ok::<
            TreeView,
            PuppetError,
        >(tree) && tree.uuids().no_duplicates(),
{
}

/// A container whose first eight bytes are not the scene marker is refused
/// for that, whatever follows them.
pub proof fn lemma_wrong_marker_is_refused(bytes: Seq<u8>, parsed: Option<JsonView>)
    requires
        bytes.len() >= 8,
        bytes.take(8) != crate::container::scene_magic(),
    ensures
        decode_given(bytes, parsed) == Err::<ModelView, PuppetError>(PuppetError::MalformedMagic),
        decode(bytes) == Err::<ModelView, PuppetError>(PuppetError::MalformedMagic),
{
}

/// A container that is shorter than the scene marker is truncated.
pub proof fn lemma_short_input_is_truncated(bytes: Seq<u8>)
    requires
        bytes.len() < 8,
    ensures
        decode(bytes) == Err::<ModelView, PuppetError>(PuppetError::TruncatedInput),
{
}

/// Whether a puppet is one that decoding can give: no node deeper than
/// `MAX_DEPTH`, no identifier used twice, textures that can be framed.
pub open spec fn valid_model(model: ModelView) -> bool {
    &&& model.puppet.height() <= MAX_DEPTH
    &&& model.puppet.uuids().no_duplicates()
    &&& textures_fit(model.textures)
}

/// Decoding what was encoded gives the same puppet: the same tree with the
/// same identifiers, names, types and weights, and the same textures in
/// the same order. `text` is the scene's text in the container and `parsed`
/// what the JSON reader makes of it; the law holds whenever the text can be
/// framed and read and `parsed` describes the puppet's scene, whatever the
/// text looks like.
pub proof fn lemma_decode_of_encode(model: ModelView, text: Seq<char>, parsed: JsonView)
    requires
        valid_model(model),
        encode_utf8(text).len() <= u32::MAX,
        digit_runs_fit(encode_utf8(text)),
        scene_of_json(parsed) == Ok::<TreeView, PuppetError>(model.puppet),
    ensures
        decode_given(encode_given(encode_utf8(text), model.textures), Some(parsed)) == Ok::<
            ModelView,
            PuppetError,
        >(model),
        payload_text(encode_given(encode_utf8(text), model.textures)) == text,
        parsed_json(text) == Some(parsed) ==> decode(
            encode_given(encode_utf8(text), model.textures),
        ) == Ok::<ModelView, PuppetError>(model),
{
    let payload = encode_utf8(text);
    let tail = encode_texture_section(model.textures);
    lemma_scene_section_round_trip(payload, tail);
    lemma_texture_section_round_trip(model.textures, Seq::empty());
    assert(tail + Seq::<u8>::empty() =~= tail);
    vstd::utf8::encode_utf8_valid_utf8(text);
    vstd::utf8::encode_utf8_decode_utf8(text);
}

/// Decoding the container of a puppet gives the puppet back, as long as the
/// written text fits its length field, holds no run of digits too long to
/// be read, and the JSON reader makes of it a value that describes the
/// puppet's scene. `encode_inp` writes a container only where the first
/// two hold.
pub proof fn lemma_decode_of_encoded_model(model: ModelView, parsed: JsonView)
    requires
        valid_model(model),
    ensures
        ({
            let text = json_text(json_of_scene(model.puppet));
            encode_utf8(text).len() <= u32::MAX && digit_runs_fit(encode_utf8(text))
                && parsed_json(text) == Some(parsed) && scene_of_json(parsed) == Ok::<
                TreeView,
                PuppetError,
            >(model.puppet) ==> decode(encode(model)) == Ok::<ModelView, PuppetError>(model)
        }),
{
    let text = json_text(json_of_scene(model.puppet));
    if encode_utf8(text).len() <= u32::MAX && digit_runs_fit(encode_utf8(text)) && scene_of_json(
        parsed,
    ) == Ok::<TreeView, PuppetError>(model.puppet) {
        lemma_decode_of_encode(model, text, parsed);
    }
}

/// A scene written as JSON describes itself: reading the written value
/// gives the scene back. With the law above, a puppet survives encoding
/// and decoding as soon as the JSON reader returns, for the text written,
/// a value that describes the same scene as the value written.
pub proof fn lemma_written_scene_describes_itself(model: ModelView)
    requires
        valid_model(model),
    ensures
        scene_of_payload(Some(json_of_scene(model.puppet))) == Ok::<TreeView, PuppetError>(
            model.puppet,
        ),
{
    crate::scene_json::lemma_scene_json_round_trip(model.puppet);
}

} // verus!
