//! The binary framing of a puppet container: a scene section that holds a
//! length-prefixed payload, then a texture section that holds a counted list
//! of tagged blobs. All integers are big-endian.

use vstd::prelude::*;
use crate::error::PuppetError;
use crate::reader::be_bytes;
use crate::reader::be_u32;
use crate::reader::read_array;
use crate::reader::read_be_u32;
use crate::reader::read_u8;
use crate::reader::read_vec;
use crate::reader::ByteReader;
use crate::texture::texture_views;
use crate::texture::CompressedTexture;
use crate::texture::TextureView;
use crate::texture::TAG_BC7;

verus! {

/// The marker that opens the scene section.
pub const MAGIC: [u8; 8] = [0x54, 0x52, 0x4e, 0x53, 0x52, 0x54, 0x53, 0x00];

/// The marker that opens the texture section.
pub const TEX: [u8; 8] = [0x54, 0x45, 0x58, 0x5f, 0x53, 0x45, 0x43, 0x54];

/// The bytes of the scene marker.
pub open spec fn scene_magic() -> Seq<u8> {
    seq![0x54u8, 0x52u8, 0x4eu8, 0x53u8, 0x52u8, 0x54u8, 0x53u8, 0x00u8]
}

/// The bytes of the texture marker.
pub open spec fn texture_magic() -> Seq<u8> {
    seq![0x54u8, 0x45u8, 0x58u8, 0x5fu8, 0x53u8, 0x45u8, 0x43u8, 0x54u8]
}

/// Strips an eight-byte marker from the front of `bytes`.
pub open spec fn expect_magic(bytes: Seq<u8>, magic: Seq<u8>) -> Result<Seq<u8>, PuppetError> {
    if bytes.len() < 8 {
        Err(PuppetError::TruncatedInput)
    } else if bytes.take(8) != magic {
        Err(PuppetError::MalformedMagic)
    } else {
        Ok(bytes.skip(8))
    }
}

/// Strips a big-endian `u32` from the front of `bytes`.
pub open spec fn take_u32(bytes: Seq<u8>) -> Result<(int, Seq<u8>), PuppetError> {
    if bytes.len() < 4 {
        Err(PuppetError::TruncatedInput)
    } else {
        Ok((be_u32(bytes.take(4)), bytes.skip(4)))
    }
}

/// Strips `n` bytes from the front of `bytes`.
pub open spec fn take_block(bytes: Seq<u8>, n: int) -> Result<(Seq<u8>, Seq<u8>), PuppetError> {
    if bytes.len() < n {
        Err(PuppetError::TruncatedInput)
    } else {
        Ok((bytes.take(n), bytes.skip(n)))
    }
}

/// The scene section at the front of `bytes`: its payload and what follows it.
pub open spec fn parse_scene_section(bytes: Seq<u8>) -> Result<(Seq<u8>, Seq<u8>), PuppetError> {
    match expect_magic(bytes, scene_magic()) {
        Err(e) => Err(e),
        Ok(rest) => match take_u32(rest) {
            Err(e) => Err(e),
            Ok((len, rest)) => take_block(rest, len),
        },
    }
}

/// One texture entry at the front of `bytes`: length, tag, then that many
/// bytes. The tag is judged once the whole entry has been read.
pub open spec fn parse_texture(bytes: Seq<u8>) -> Result<(TextureView, Seq<u8>), PuppetError> {
    match take_u32(bytes) {
        Err(e) => Err(e),
        Ok((len, rest)) => if rest.len() < 1 {
            Err(PuppetError::TruncatedInput)
        } else {
            match take_block(rest.skip(1), len) {
                Err(e) => Err(e),
                Ok((data, after)) => if rest[0] > TAG_BC7 {
                    Err(PuppetError::UnsupportedTextureFormat)
                } else {
                    Ok((TextureView { tag: rest[0], data }, after))
                },
            }
        },
    }
}

/// `count` texture entries at the front of `bytes`, in order; the first
/// entry that fails decides the error.
pub open spec fn parse_textures(bytes: Seq<u8>, count: nat) -> Result<
    (Seq<TextureView>, Seq<u8>),
    PuppetError,
>
    decreases count,
{
    if count == 0 {
        Ok((Seq::empty(), bytes))
    } else {
        match parse_texture(bytes) {
            Err(e) => Err(e),
            Ok((first, rest)) => match parse_textures(rest, (count - 1) as nat) {
                Err(e) => Err(e),
                Ok((others, after)) => Ok((seq![first] + others, after)),
            },
        }
    }
}

/// The texture section at the front of `bytes`: its textures and what
/// follows them.
pub open spec fn parse_texture_section(bytes: Seq<u8>) -> Result<
    (Seq<TextureView>, Seq<u8>),
    PuppetError,
> {
    match expect_magic(bytes, texture_magic()) {
        Err(e) => Err(e),
        Ok(rest) => match take_u32(rest) {
            Err(e) => Err(e),
            Ok((count, rest)) => parse_textures(rest, count as nat),
        },
    }
}

/// What is left of `bytes` where reading a marker ends without success:
/// eight bytes that are there are taken before they are judged, fewer are
/// left where they lie.
pub open spec fn magic_stop(bytes: Seq<u8>) -> Seq<u8> {
    if bytes.len() < 8 {
        bytes
    } else {
        bytes.skip(8)
    }
}

/// What is left of `bytes` where reading the scene section ends without
/// success: every field that was complete has been taken, the one that
/// was not lies untouched.
pub open spec fn scene_section_stop(bytes: Seq<u8>) -> Seq<u8> {
    match expect_magic(bytes, scene_magic()) {
        Err(_) => magic_stop(bytes),
        Ok(rest) => match take_u32(rest) {
            Err(_) => rest,
            Ok((len, after)) => after,
        },
    }
}

/// What is left of `bytes` where reading a texture entry ends without
/// success. An entry with an unknown tag has been taken whole.
pub open spec fn texture_stop(bytes: Seq<u8>) -> Seq<u8> {
    match take_u32(bytes) {
        Err(_) => bytes,
        Ok((len, rest)) => if rest.len() < 1 {
            rest
        } else {
            match take_block(rest.skip(1), len) {
                Err(_) => rest.skip(1),
                Ok((data, after)) => after,
            }
        },
    }
}

/// What is left of `bytes` where reading `count` texture entries ends
/// without success: the entries before the failing one have been taken.
pub open spec fn textures_stop(bytes: Seq<u8>, count: nat) -> Seq<u8>
    decreases count,
{
    if count == 0 {
        bytes
    } else {
        match parse_texture(bytes) {
            Err(_) => texture_stop(bytes),
            Ok((first, rest)) => textures_stop(rest, (count - 1) as nat),
        }
    }
}

/// What is left of `bytes` where reading the texture section ends without
/// success.
pub open spec fn texture_section_stop(bytes: Seq<u8>) -> Seq<u8> {
    match expect_magic(bytes, texture_magic()) {
        Err(_) => magic_stop(bytes),
        Ok(rest) => match take_u32(rest) {
            Err(_) => rest,
            Ok((count, after)) => textures_stop(after, count as nat),
        },
    }
}

/// The bytes of a scene section that holds `payload`.
pub open spec fn encode_scene_section(payload: Seq<u8>) -> Seq<u8> {
    scene_magic() + be_bytes(payload.len() as int) + payload
}

/// The bytes of one texture entry.
pub open spec fn encode_texture(texture: TextureView) -> Seq<u8> {
    be_bytes(texture.data.len() as int) + seq![texture.tag] + texture.data
}

/// The bytes of the entries of `textures`, one after the other.
pub open spec fn encode_textures(textures: Seq<TextureView>) -> Seq<u8>
    decreases textures.len(),
{
    if textures.len() == 0 {
        Seq::empty()
    } else {
        encode_textures(textures.drop_last()) + encode_texture(textures.last())
    }
}

/// The bytes of a texture section that holds `textures`.
pub open spec fn encode_texture_section(textures: Seq<TextureView>) -> Seq<u8> {
    texture_magic() + be_bytes(textures.len() as int) + encode_textures(textures)
}

/// Whether a texture can be framed: a known tag and a length that fits the
/// entry's length field.
pub open spec fn texture_fits(texture: TextureView) -> bool {
    texture.tag <= TAG_BC7 && texture.data.len() <= u32::MAX
}

/// Whether a texture sequence can be framed.
pub open spec fn textures_fit(textures: Seq<TextureView>) -> bool {
    &&& textures.len() <= u32::MAX
    &&& forall|i: int| 0 <= i < textures.len() ==> texture_fits(#[trigger] textures[i])
}

/// Whether `bytes` holds the same eight bytes as `magic`.
fn magic_matches(bytes: &[u8; 8], magic: &[u8; 8]) -> (same: bool)
    ensures
        same == (bytes@ == magic@),
{
    let mut i: usize = 0;
    while i < 8
        invariant
            i <= 8,
            forall|j: int| 0 <= j < i ==> bytes@[j] == magic@[j],
        decreases 8 - i,
    {
        if bytes[i] != magic[i] {
            return false;
        }
        i += 1;
    }
    assert(bytes@ =~= magic@);
    true
}

/// Reads a section marker and compares it with `magic`.
fn read_magic(reader: &mut ByteReader, magic: &[u8; 8]) -> (res: Result<(), PuppetError>)
    ensures
        match res {
            Ok(_) => expect_magic(old(reader).remaining(), magic@) == Ok::<Seq<u8>, PuppetError>(
                final(reader).remaining(),
            ),
            Err(e) => expect_magic(old(reader).remaining(), magic@) == Err::<Seq<u8>, PuppetError>(
                e,
            ) && final(reader).remaining() == magic_stop(old(reader).remaining()),
        },
{
    let found = read_array::<8>(reader)?;
    if !magic_matches(&found, magic) {
        return Err(PuppetError::MalformedMagic);
    }
    Ok(())
}

/// Reads the scene section and returns its payload.
pub fn read_scene_section(reader: &mut ByteReader) -> (res: Result<Vec<u8>, PuppetError>)
    ensures
        match res {
            Ok(payload) => parse_scene_section(old(reader).remaining()) == Ok::<
                (Seq<u8>, Seq<u8>),
                PuppetError,
            >((payload@, final(reader).remaining())),
            Err(e) => parse_scene_section(old(reader).remaining()) == Err::<
                (Seq<u8>, Seq<u8>),
                PuppetError,
            >(e) && final(reader).remaining() == scene_section_stop(old(reader).remaining()),
        },
{
    proof {
        assert(MAGIC@ =~= scene_magic());
    }
    read_magic(reader, &MAGIC)?;
    let length = read_be_u32(reader)?;
    let payload = read_vec(reader, length)?;
    Ok(payload)
}

/// Reads one texture entry.
pub fn read_texture(reader: &mut ByteReader) -> (res: Result<CompressedTexture, PuppetError>)
    ensures
        match res {
            Ok(texture) => parse_texture(old(reader).remaining()) == Ok::<
                (TextureView, Seq<u8>),
                PuppetError,
            >((texture@, final(reader).remaining())),
            Err(e) => parse_texture(old(reader).remaining()) == Err::<
                (TextureView, Seq<u8>),
                PuppetError,
            >(e) && final(reader).remaining() == texture_stop(old(reader).remaining()),
        },
{
    let length = read_be_u32(reader)?;
    let tag = read_u8(reader)?;
    let data = read_vec(reader, length)?;
    CompressedTexture::from_tag(tag, data)
}

/// Reads the texture section and returns its textures in the order in which
/// the container lists them.
pub fn read_texture_section(reader: &mut ByteReader) -> (res: Result<
    Vec<CompressedTexture>,
    PuppetError,
>)
    ensures
        match res {
            Ok(textures) => parse_texture_section(old(reader).remaining()) == Ok::<
                (Seq<TextureView>, Seq<u8>),
                PuppetError,
            >((texture_views(textures@), final(reader).remaining())),
            Err(e) => parse_texture_section(old(reader).remaining()) == Err::<
                (Seq<TextureView>, Seq<u8>),
                PuppetError,
            >(e) && final(reader).remaining() == texture_section_stop(old(reader).remaining()),
        },
{
    proof {
        assert(TEX@ =~= texture_magic());
    }
    read_magic(reader, &TEX)?;
    let count = read_be_u32(reader)?;
    let ghost start = reader.remaining();
    let mut textures: Vec<CompressedTexture> = Vec::new();
    let mut i: u32 = 0;
    proof {
        assert(texture_views(textures@) =~= Seq::<TextureView>::empty());
        lemma_parse_textures_prepend(Seq::empty(), start, count as nat);
    }
    while i < count
        invariant
            i <= count,
            textures@.len() == i,
            parse_texture_section(old(reader).remaining()) == parse_textures(start, count as nat),
            texture_section_stop(old(reader).remaining()) == textures_stop(start, count as nat),
            textures_stop(start, count as nat) == textures_stop(
                reader.remaining(),
                (count - i) as nat,
            ),
            parse_textures(start, count as nat) == prepend_textures(
                texture_views(textures@),
                parse_textures(reader.remaining(), (count - i) as nat),
            ),
        decreases count - i,
    {
        let ghost before = reader.remaining();
        let ghost done = texture_views(textures@);
        match read_texture(reader) {
            Err(e) => {
                return Err(e);
            },
            Ok(texture) => {
                textures.push(texture);
                proof {
                    let rest = parse_textures(reader.remaining(), (count - i - 1) as nat);
                    assert(texture_views(textures@) =~= done.push(texture@));
                    match rest {
                        Ok((others, after)) => {
                            assert(done + (seq![texture@] + others) =~= done.push(texture@)
                                + others);
                        },
                        Err(_) => {},
                    }
                }
            },
        }
        i += 1;
    }
    proof {
        assert(texture_views(textures@) + Seq::<TextureView>::empty() =~= texture_views(
            textures@,
        ));
    }
    Ok(textures)
}

/// The outcome `parsed` with `done` put in front of the textures it holds.
pub open spec fn prepend_textures(
    done: Seq<TextureView>,
    parsed: Result<(Seq<TextureView>, Seq<u8>), PuppetError>,
) -> Result<(Seq<TextureView>, Seq<u8>), PuppetError> {
    match parsed {
        Ok((others, after)) => Ok((done + others, after)),
        Err(e) => Err(e),
    }
}

proof fn lemma_parse_textures_prepend(done: Seq<TextureView>, bytes: Seq<u8>, count: nat)
    requires
        done.len() == 0,
    ensures
        prepend_textures(done, parse_textures(bytes, count)) == parse_textures(bytes, count),
{
    match parse_textures(bytes, count) {
        Ok((others, after)) => {
            assert(done + others =~= others);
        },
        Err(_) => {},
    }
}

/// Appends `bytes` to `out`.
pub fn write_bytes(out: &mut Vec<u8>, bytes: &[u8])
    ensures
        final(out)@ == old(out)@ + bytes@,
{
    let mut i: usize = 0;
    while i < bytes.len()
        invariant
            i <= bytes@.len(),
            out@ == old(out)@ + bytes@.take(i as int),
        decreases bytes@.len() - i,
    {
        out.push(bytes[i]);
        i += 1;
        assert(out@ =~= old(out)@ + bytes@.take(i as int));
    }
    assert(bytes@.take(i as int) =~= bytes@);
}

/// Appends `value` to `out` as four big-endian bytes.
pub fn write_be_u32(out: &mut Vec<u8>, value: u32)
    ensures
        final(out)@ == old(out)@ + be_bytes(value as int),
{
    out.push((value / 0x100_0000) as u8);
    out.push((value / 0x1_0000 % 0x100) as u8);
    out.push((value / 0x100 % 0x100) as u8);
    out.push((value % 0x100) as u8);
    assert(out@ =~= old(out)@ + be_bytes(value as int));
}

/// Appends a scene section that holds `payload` to `out`.
pub fn write_scene_section(out: &mut Vec<u8>, payload: &[u8])
    requires
        payload@.len() <= u32::MAX,
    ensures
        final(out)@ == old(out)@ + encode_scene_section(payload@),
{
    proof {
        assert(MAGIC@ =~= scene_magic());
    }
    write_bytes(out, MAGIC.as_slice());
    write_be_u32(out, payload.len() as u32);
    write_bytes(out, payload);
    assert(out@ =~= old(out)@ + encode_scene_section(payload@));
}

/// Appends one texture entry to `out`.
pub fn write_texture(out: &mut Vec<u8>, texture: &CompressedTexture)
    requires
        texture_fits(texture@),
    ensures
        final(out)@ == old(out)@ + encode_texture(texture@),
{
    let data = texture.data();
    write_be_u32(out, data.len() as u32);
    out.push(texture.format_tag());
    write_bytes(out, data.as_slice());
    assert(out@ =~= old(out)@ + encode_texture(texture@));
}

/// Appends a texture section that holds `textures`, in their order, to `out`.
pub fn write_texture_section(out: &mut Vec<u8>, textures: &Vec<CompressedTexture>)
    requires
        textures_fit(texture_views(textures@)),
    ensures
        final(out)@ == old(out)@ + encode_texture_section(texture_views(textures@)),
{
    proof {
        assert(TEX@ =~= texture_magic());
    }
    let ghost views = texture_views(textures@);
    write_bytes(out, TEX.as_slice());
    write_be_u32(out, textures.len() as u32);
    let ghost head = out@;
    let mut i: usize = 0;
    assert(views.take(0) =~= Seq::<TextureView>::empty());
    assert(out@ =~= head + encode_textures(views.take(0)));
    while i < textures.len()
        invariant
            i <= textures@.len(),
            views == texture_views(textures@),
            textures_fit(views),
            out@ == head + encode_textures(views.take(i as int)),
        decreases textures@.len() - i,
    {
        assert(texture_fits(views[i as int]));
        write_texture(out, &textures[i]);
        proof {
            let next = views.take(i + 1);
            assert(next.drop_last() =~= views.take(i as int));
            assert(next.last() == views[i as int]);
            assert(out@ =~= head + encode_textures(next));
        }
        i += 1;
    }
    assert(views.take(i as int) =~= views);
    assert(out@ =~= old(out)@ + encode_texture_section(views));
}

/// Reading back the four bytes written for a value gives that value.
pub proof fn lemma_be_u32_of_be_bytes(value: int)
    requires
        0 <= value <= u32::MAX,
    ensures
        be_bytes(value).len() == 4,
        be_u32(be_bytes(value)) == value,
{
}

/// A scene section that was written is read back as the same payload, with
/// whatever followed it left over.
pub proof fn lemma_scene_section_round_trip(payload: Seq<u8>, tail: Seq<u8>)
    requires
        payload.len() <= u32::MAX,
    ensures
        parse_scene_section(encode_scene_section(payload) + tail) == Ok::<
            (Seq<u8>, Seq<u8>),
            PuppetError,
        >((payload, tail)),
{
    let bytes = encode_scene_section(payload) + tail;
    let len = be_bytes(payload.len() as int);
    lemma_be_u32_of_be_bytes(payload.len() as int);
    assert(bytes.take(8) =~= scene_magic());
    let rest = bytes.skip(8);
    assert(rest =~= len + payload + tail);
    assert(rest.take(4) =~= len);
    let body = rest.skip(4);
    assert(body =~= payload + tail);
    assert(body.take(payload.len() as int) =~= payload);
    assert(body.skip(payload.len() as int) =~= tail);
}

/// A texture entry that was written is read back as the same texture.
pub proof fn lemma_texture_round_trip(texture: TextureView, tail: Seq<u8>)
    requires
        texture_fits(texture),
    ensures
        parse_texture(encode_texture(texture) + tail) == Ok::<(TextureView, Seq<u8>), PuppetError>(
            (texture, tail),
        ),
{
    let bytes = encode_texture(texture) + tail;
    let len = be_bytes(texture.data.len() as int);
    lemma_be_u32_of_be_bytes(texture.data.len() as int);
    assert(bytes.take(4) =~= len);
    let rest = bytes.skip(4);
    assert(rest =~= seq![texture.tag] + texture.data + tail);
    let body = rest.skip(1);
    assert(body =~= texture.data + tail);
    assert(body.take(texture.data.len() as int) =~= texture.data);
    assert(body.skip(texture.data.len() as int) =~= tail);
}

/// The entries of a sequence that starts with `first` are the entry of
/// `first`, then those of the others.
pub proof fn lemma_encode_textures_first(first: TextureView, others: Seq<TextureView>)
    ensures
        encode_textures(seq![first] + others) == encode_texture(first) + encode_textures(others),
    decreases others.len(),
{
    let all = seq![first] + others;
    if others.len() == 0 {
        assert(all.drop_last() =~= Seq::<TextureView>::empty());
        assert(encode_textures(all.drop_last()) =~= Seq::<u8>::empty());
        assert(encode_textures(all) =~= encode_texture(first) + encode_textures(others));
    } else {
        lemma_encode_textures_first(first, others.drop_last());
        assert(all.drop_last() =~= seq![first] + others.drop_last());
        assert(all.last() == others.last());
        assert(encode_textures(all) =~= encode_texture(first) + encode_textures(others));
    }
}

/// Texture entries that were written are read back as the same textures in
/// the same order.
pub proof fn lemma_textures_round_trip(textures: Seq<TextureView>, tail: Seq<u8>)
    requires
        forall|i: int| 0 <= i < textures.len() ==> texture_fits(#[trigger] textures[i]),
    ensures
        parse_textures(encode_textures(textures) + tail, textures.len()) == Ok::<
            (Seq<TextureView>, Seq<u8>),
            PuppetError,
        >((textures, tail)),
    decreases textures.len(),
{
    if textures.len() == 0 {
        assert(encode_textures(textures) + tail =~= tail);
        assert(textures =~= Seq::<TextureView>::empty());
    } else {
        let first = textures[0];
        let others = textures.skip(1);
        assert(textures =~= seq![first] + others);
        lemma_encode_textures_first(first, others);
        assert(texture_fits(first));
        assert forall|i: int| 0 <= i < others.len() implies texture_fits(
            #[trigger] others[i],
        ) by {
            assert(others[i] == textures[i + 1]);
        }
        let rest = encode_textures(others) + tail;
        assert(encode_textures(textures) + tail =~= encode_texture(first) + rest);
        lemma_texture_round_trip(first, rest);
        lemma_textures_round_trip(others, tail);
    }
}

/// A texture section that was written is read back as the same textures.
pub proof fn lemma_texture_section_round_trip(textures: Seq<TextureView>, tail: Seq<u8>)
    requires
        textures_fit(textures),
    ensures
        parse_texture_section(encode_texture_section(textures) + tail) == Ok::<
            (Seq<TextureView>, Seq<u8>),
            PuppetError,
        >((textures, tail)),
{
    let bytes = encode_texture_section(textures) + tail;
    let count = be_bytes(textures.len() as int);
    lemma_be_u32_of_be_bytes(textures.len() as int);
    assert(bytes.take(8) =~= texture_magic());
    let rest = bytes.skip(8);
    assert(rest =~= count + encode_textures(textures) + tail);
    assert(rest.take(4) =~= count);
    assert(rest.skip(4) =~= encode_textures(textures) + tail);
    lemma_textures_round_trip(textures, tail);
}

} // verus!
