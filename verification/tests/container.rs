use inox2d::container::{
    read_scene_section, read_texture, read_texture_section, write_be_u32, write_bytes,
    write_scene_section, write_texture_section, MAGIC, TEX,
};
use inox2d::error::PuppetError;
use inox2d::reader::{read_array, read_be_u32, read_u8, read_vec, ByteReader};
use inox2d::texture::CompressedTexture;

#[test]
fn read_u8_takes_one_byte() {
    let data = [7u8, 9];
    let mut reader = ByteReader::new(&data);
    assert_eq!(read_u8(&mut reader), Ok(7));
    assert_eq!(read_u8(&mut reader), Ok(9));
    assert_eq!(read_u8(&mut reader), Err(PuppetError::TruncatedInput));
}

#[test]
fn read_be_u32_is_big_endian() {
    let data = [0x01u8, 0x02, 0x03, 0x04, 0xff, 0xff, 0xff, 0xff, 0x00];
    let mut reader = ByteReader::new(&data);
    assert_eq!(read_be_u32(&mut reader), Ok(0x0102_0304));
    assert_eq!(read_be_u32(&mut reader), Ok(u32::MAX));
    assert_eq!(read_be_u32(&mut reader), Err(PuppetError::TruncatedInput));
    // A failed read leaves the reader where it was.
    assert_eq!(reader.remaining_len(), 1);
    assert_eq!(read_u8(&mut reader), Ok(0));
}

#[test]
fn read_array_takes_exactly_its_length() {
    let data = [1u8, 2, 3, 4, 5];
    let mut reader = ByteReader::new(&data);
    assert_eq!(read_array::<3>(&mut reader), Ok([1, 2, 3]));
    assert_eq!(read_array::<3>(&mut reader), Err(PuppetError::TruncatedInput));
    assert_eq!(read_array::<2>(&mut reader), Ok([4, 5]));
    assert_eq!(read_array::<0>(&mut reader), Ok([]));
}

#[test]
fn read_vec_takes_exactly_its_length() {
    let data = [1u8, 2, 3];
    let mut reader = ByteReader::new(&data);
    assert_eq!(read_vec(&mut reader, 2), Ok(vec![1, 2]));
    assert_eq!(read_vec(&mut reader, 2), Err(PuppetError::TruncatedInput));
    assert_eq!(read_vec(&mut reader, 0), Ok(vec![]));
    assert_eq!(read_vec(&mut reader, 1), Ok(vec![3]));
}

#[test]
fn the_markers_are_the_documented_bytes() {
    assert_eq!(&MAGIC, b"TRNSRTS\0");
    assert_eq!(&TEX, b"TEX_SECT");
}

#[test]
fn write_be_u32_is_big_endian() {
    let mut out = vec![9u8];
    write_be_u32(&mut out, 0x0102_0304);
    write_be_u32(&mut out, 258);
    assert_eq!(out, vec![9, 1, 2, 3, 4, 0, 0, 1, 2]);
    let mut reader = ByteReader::new(&out[1..]);
    assert_eq!(read_be_u32(&mut reader), Ok(0x0102_0304));
    assert_eq!(read_be_u32(&mut reader), Ok(258));
}

#[test]
fn scene_section_is_marker_length_payload() {
    let mut out = Vec::new();
    write_scene_section(&mut out, b"{}");
    let mut expected = b"TRNSRTS\0".to_vec();
    expected.extend_from_slice(&[0, 0, 0, 2]);
    expected.extend_from_slice(b"{}");
    assert_eq!(out, expected);
    out.extend_from_slice(b"rest");
    let mut reader = ByteReader::new(&out);
    assert_eq!(read_scene_section(&mut reader), Ok(b"{}".to_vec()));
    assert_eq!(reader.remaining_len(), 4);
}

#[test]
fn scene_section_with_a_wrong_marker_is_refused() {
    let mut bytes = b"TRNSRTS!".to_vec();
    bytes.extend_from_slice(&[0, 0, 0, 0]);
    let mut reader = ByteReader::new(&bytes);
    assert_eq!(read_scene_section(&mut reader), Err(PuppetError::MalformedMagic));
}

#[test]
fn scene_section_that_ends_early_is_truncated() {
    let mut reader = ByteReader::new(b"TRNS");
    assert_eq!(read_scene_section(&mut reader), Err(PuppetError::TruncatedInput));
    let mut bytes = b"TRNSRTS\0".to_vec();
    bytes.extend_from_slice(&[0, 0, 0]);
    let mut reader = ByteReader::new(&bytes);
    assert_eq!(read_scene_section(&mut reader), Err(PuppetError::TruncatedInput));
    bytes.extend_from_slice(&[5, b'a', b'b']);
    let mut reader = ByteReader::new(&bytes);
    assert_eq!(read_scene_section(&mut reader), Err(PuppetError::TruncatedInput));
}

#[test]
fn texture_entry_is_length_tag_bytes() {
    let bytes = [0u8, 0, 0, 3, 1, 10, 20, 30, 99];
    let mut reader = ByteReader::new(&bytes);
    assert_eq!(read_texture(&mut reader), Ok(CompressedTexture::Tga(vec![10, 20, 30])));
    assert_eq!(reader.remaining_len(), 1);
    let bytes = [0u8, 0, 0, 0, 0];
    let mut reader = ByteReader::new(&bytes);
    assert_eq!(read_texture(&mut reader), Ok(CompressedTexture::Png(vec![])));
    let bytes = [0u8, 0, 0, 1, 2, 5];
    let mut reader = ByteReader::new(&bytes);
    assert_eq!(read_texture(&mut reader), Ok(CompressedTexture::Bc7(vec![5])));
}

#[test]
fn texture_section_round_trips_in_order() {
    let textures = vec![
        CompressedTexture::Png(vec![1, 2, 3]),
        CompressedTexture::Bc7(vec![]),
        CompressedTexture::Tga(vec![4]),
    ];
    let mut out = Vec::new();
    write_texture_section(&mut out, &textures);
    let mut expected = b"TEX_SECT".to_vec();
    expected.extend_from_slice(&[0, 0, 0, 3]);
    expected.extend_from_slice(&[0, 0, 0, 3, 0, 1, 2, 3]);
    expected.extend_from_slice(&[0, 0, 0, 0, 2]);
    expected.extend_from_slice(&[0, 0, 0, 1, 1, 4]);
    assert_eq!(out, expected);
    let mut reader = ByteReader::new(&out);
    assert_eq!(read_texture_section(&mut reader), Ok(textures));
    assert_eq!(reader.remaining_len(), 0);
}

#[test]
fn texture_section_that_declares_more_than_it_holds_is_truncated() {
    let mut bytes = b"TEX_SECT".to_vec();
    bytes.extend_from_slice(&[0, 0, 0, 2]);
    bytes.extend_from_slice(&[0, 0, 0, 1, 0, 42]);
    for extra in 0..5 {
        let mut short = bytes.clone();
        short.extend_from_slice(&[0, 0, 0, 0][..extra]);
        let mut reader = ByteReader::new(&short);
        assert_eq!(read_texture_section(&mut reader), Err(PuppetError::TruncatedInput));
    }
}

#[test]
fn texture_with_an_unknown_tag_is_refused() {
    let mut bytes = b"TEX_SECT".to_vec();
    bytes.extend_from_slice(&[0, 0, 0, 2]);
    bytes.extend_from_slice(&[0, 0, 0, 1, 7, 42]);
    // What follows is never looked at: it is not even a complete entry.
    bytes.extend_from_slice(&[0xff]);
    let mut reader = ByteReader::new(&bytes);
    assert_eq!(read_texture_section(&mut reader), Err(PuppetError::UnsupportedTextureFormat));
    assert_eq!(CompressedTexture::from_tag(3, vec![]), Err(PuppetError::UnsupportedTextureFormat));
    assert_eq!(CompressedTexture::from_tag(2, vec![1]), Ok(CompressedTexture::Bc7(vec![1])));
}

#[test]
fn texture_section_with_a_wrong_marker_is_refused() {
    let mut bytes = b"TEX_SECX".to_vec();
    bytes.extend_from_slice(&[0, 0, 0, 0]);
    let mut reader = ByteReader::new(&bytes);
    assert_eq!(read_texture_section(&mut reader), Err(PuppetError::MalformedMagic));
}

#[test]
fn write_bytes_appends() {
    let mut out = vec![1u8];
    write_bytes(&mut out, &[2, 3]);
    write_bytes(&mut out, &[]);
    assert_eq!(out, vec![1, 2, 3]);
}

#[test]
fn textures_know_their_tag_and_bytes() {
    let t = CompressedTexture::Tga(vec![8, 9]);
    assert_eq!(t.format_tag(), 1);
    assert_eq!(t.data(), &vec![8, 9]);
    assert_eq!(CompressedTexture::Png(vec![]).format_tag(), 0);
    assert_eq!(CompressedTexture::Bc7(vec![]).format_tag(), 2);
}

#[test]
fn a_failed_read_leaves_the_reader_where_it_ended() {
    // Wrong marker: the eight bytes are taken, nothing more.
    let mut bytes = b"TRNSRTS!".to_vec();
    bytes.extend_from_slice(&[0, 0, 0, 1, b'x', 9]);
    let mut reader = ByteReader::new(&bytes);
    assert_eq!(read_scene_section(&mut reader), Err(PuppetError::MalformedMagic));
    assert_eq!(reader.remaining_len(), 6);
    // Fewer than eight bytes: nothing is taken.
    let mut reader = ByteReader::new(b"TRNS");
    assert_eq!(read_scene_section(&mut reader), Err(PuppetError::TruncatedInput));
    assert_eq!(reader.remaining_len(), 4);
    // The length is cut short: the marker is taken, the length is not.
    let mut bytes = b"TRNSRTS\0".to_vec();
    bytes.extend_from_slice(&[0, 0]);
    let mut reader = ByteReader::new(&bytes);
    assert_eq!(read_scene_section(&mut reader), Err(PuppetError::TruncatedInput));
    assert_eq!(reader.remaining_len(), 2);
    // The payload is cut short: marker and length are taken.
    bytes.extend_from_slice(&[0, 9, b'a']);
    let mut reader = ByteReader::new(&bytes);
    assert_eq!(read_scene_section(&mut reader), Err(PuppetError::TruncatedInput));
    assert_eq!(reader.remaining_len(), 1);
}

#[test]
fn a_failed_texture_read_leaves_the_reader_where_it_ended() {
    let cases: [(&[u8], PuppetError, usize); 5] = [
        (&[0, 0, 1], PuppetError::TruncatedInput, 3),
        (&[0, 0, 0, 1], PuppetError::TruncatedInput, 0),
        (&[0, 0, 0, 2, 0, 5], PuppetError::TruncatedInput, 1),
        (&[0, 0, 0, 1, 9, 5, 6], PuppetError::UnsupportedTextureFormat, 1),
        (&[0, 0, 0, 0, 3], PuppetError::UnsupportedTextureFormat, 0),
    ];
    for (bytes, error, left) in cases {
        let mut reader = ByteReader::new(bytes);
        assert_eq!(read_texture(&mut reader), Err(error));
        assert_eq!(reader.remaining_len(), left);
    }
    // In a section, the entries before the failing one have been taken.
    let mut bytes = b"TEX_SECT".to_vec();
    bytes.extend_from_slice(&[0, 0, 0, 3, 0, 0, 0, 1, 0, 42, 0, 0, 0, 4, 1, 7]);
    let mut reader = ByteReader::new(&bytes);
    assert_eq!(read_texture_section(&mut reader), Err(PuppetError::TruncatedInput));
    assert_eq!(reader.remaining_len(), 1);
}
