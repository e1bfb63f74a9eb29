use png_deflate::chunk::{chunk, Chunk};
use png_deflate::crc::Crc32;
use png_deflate::error::DeflateError;
use png_deflate::png::{ColorType, FilterMethod, IhdrHeader, InterlaceMethod, PngImage};
use png_deflate::zlib_stream::DeflateStream;
use png_deflate::Compressable;
use std::io::{Read, Write};

fn raw_chunk(kind: &[u8; 4], payload: &[u8]) -> Vec<u8> {
    let crc32 = Crc32::new();
    let mut typed = kind.to_vec();
    typed.extend_from_slice(payload);
    let mut v = (payload.len() as u32).to_be_bytes().to_vec();
    v.extend_from_slice(&typed);
    v.extend_from_slice(&crc32.crc(&typed).to_be_bytes());
    v
}

fn ihdr_payload() -> Vec<u8> {
    let mut p = Vec::new();
    p.extend_from_slice(&3u32.to_be_bytes());
    p.extend_from_slice(&2u32.to_be_bytes());
    p.extend_from_slice(&[8, 2, 0, 0, 0]);
    p
}

fn zlib(data: &[u8]) -> Vec<u8> {
    let mut enc = flate2::write::ZlibEncoder::new(Vec::new(), flate2::Compression::fast());
    enc.write_all(data).unwrap();
    enc.finish().unwrap()
}

fn unzlib(data: &[u8]) -> Vec<u8> {
    let mut out = Vec::new();
    flate2::read::ZlibDecoder::new(data).read_to_end(&mut out).unwrap();
    out
}

fn tiny_png(pixels: &[u8]) -> Vec<u8> {
    let mut file = vec![137, 80, 78, 71, 13, 10, 26, 10];
    file.extend(raw_chunk(b"IHDR", &ihdr_payload()));
    file.extend(raw_chunk(b"tEXt", b"Comment\0hi"));
    let z = zlib(pixels);
    let (a, b) = z.split_at(z.len() / 2);
    file.extend(raw_chunk(b"IDAT", a));
    file.extend(raw_chunk(b"IDAT", b));
    file.extend(raw_chunk(b"IEND", &[]));
    file
}

#[test]
fn crc_of_iend() {
    let crc32 = Crc32::new();
    assert_eq!(crc32.crc(b"IEND"), 0xAE42_6082);
    assert_eq!(crc32.crc(b""), 0);
    assert_eq!(crc32.crc(b"123456789"), 0xCBF4_3926);
}

#[test]
fn crc_update_continues() {
    let crc32 = Crc32::new();
    let partial = crc32.update_crc(0xFFFF_FFFF, b"1234");
    assert_eq!(crc32.update_crc(partial, b"56789") ^ 0xFFFF_FFFF, 0xCBF4_3926);
}

#[test]
fn chunk_from_bytes() {
    let bytes = [b'I', b'E', b'N', b'D', 0xAE, 0x42, 0x60, 0x82];
    let c = Chunk::try_create(8, &bytes).unwrap();
    assert_eq!(c.length, 0);
    assert_eq!(&c.chunk_type, b"IEND");
    assert!(c.chunk_data.is_empty());
    assert_eq!(c.crc, 0xAE42_6082);
    assert!(!c.is_ancillary());
    assert!(!c.is_private());
    assert!(!c.is_reserved());
    assert!(!c.is_save_to_copy());
    assert_eq!(c.to_bytes(), vec![0, 0, 0, 0, b'I', b'E', b'N', b'D', 0xAE, 0x42, 0x60, 0x82]);
    assert!(Chunk::try_create(9, &bytes).is_err());
    assert!(Chunk::try_create(7, &bytes).is_err());
}

#[test]
fn chunk_property_bits() {
    let bytes = [b't', b'E', b'X', b't', 0, 0, 0, 0];
    let c = Chunk::try_create(8, &bytes).unwrap();
    assert!(c.is_ancillary());
    assert!(!c.is_private());
    assert!(!c.is_reserved());
    assert!(c.is_save_to_copy());
}

#[test]
fn chunk_set_data_keeps_fields() {
    let bytes = [b'I', b'D', b'A', b'T', 1, 2, 0, 0, 0, 0];
    let mut c = Chunk::try_create(10, &bytes).unwrap();
    assert_eq!(c.chunk_data, vec![1, 2]);
    c.set_data(vec![9]);
    assert_eq!(c.chunk_data, vec![9]);
    assert_eq!(c.length, 2);
}

#[test]
fn chunk_stream_split() {
    let mut s = raw_chunk(b"IHDR", &ihdr_payload());
    s.extend(raw_chunk(b"IEND", &[]));
    let chunks = chunk(&s).unwrap();
    assert_eq!(chunks.len(), 2);
    assert_eq!(chunks[0].length, 13);
    assert_eq!(&chunks[1].chunk_type, b"IEND");
    s.pop();
    assert!(chunk(&s).is_err());
}

#[test]
fn ihdr_fields() {
    let bytes = raw_chunk(b"IHDR", &ihdr_payload());
    let c = Chunk::try_create(21, &bytes[4..]).unwrap();
    let h = IhdrHeader::try_from_chunk(&c).unwrap();
    assert_eq!(h.width, 3);
    assert_eq!(h.height, 2);
    assert_eq!(h.bit_depth, 8);
    assert_eq!(h.color_type, ColorType::RGB);
    assert_eq!(h.filter_method, FilterMethod::NONE);
    assert_eq!(h.interlace_method, InterlaceMethod::NONE);
}

#[test]
fn ihdr_rejects_unknown_values() {
    let mut p = ihdr_payload();
    p[9] = 5;
    let bytes = raw_chunk(b"IHDR", &p);
    let c = Chunk::try_create(21, &bytes[4..]).unwrap();
    assert!(IhdrHeader::try_from_chunk(&c).is_err());
    assert!(ColorType::from_byte(1).is_err());
    assert_eq!(ColorType::from_byte(6).unwrap(), ColorType::RGBA);
    assert_eq!(ColorType::RGBA.to_byte(), 6);
    assert!(FilterMethod::from_byte(5).is_err());
}

#[test]
fn png_image_reads_file() {
    let pixels: Vec<u8> = (0..20u8).collect();
    let file = tiny_png(&pixels);
    let png = PngImage::try_create(&file).unwrap();
    assert_eq!(png.header.width, 3);
    assert_eq!(png.file_signature, [137, 80, 78, 71, 13, 10, 26, 10]);
    assert_eq!(png.get_data().len(), 5);
    let payload: usize = png.get_data().iter().map(|c| c.length as usize).sum();
    assert_eq!(png.size(), 8 + payload);
    assert_eq!(png.to_bytes(), file);
}

#[test]
fn png_image_rejects_bad_signature() {
    let mut file = tiny_png(&[1, 2, 3]);
    file[1] = b'Q';
    assert!(PngImage::try_create(&file).is_err());
    assert!(PngImage::try_create(&file[..5]).is_err());
}

#[test]
fn png_recompress_keeps_pixels() {
    let pixels: Vec<u8> = (0..3000u32).map(|i| (i % 7) as u8).collect();
    let file = tiny_png(&pixels);
    let png = PngImage::try_create(&file).unwrap();
    let smaller = png.try_compress().unwrap();
    let chunks = smaller.get_data();
    assert_eq!(chunks.len(), 3);
    assert_eq!(&chunks[0].chunk_type, b"IHDR");
    assert_eq!(&chunks[1].chunk_type, b"IDAT");
    assert_eq!(&chunks[2].chunk_type, b"IEND");
    let crc32 = Crc32::new();
    let mut typed = chunks[1].chunk_type.to_vec();
    typed.extend_from_slice(&chunks[1].chunk_data);
    assert_eq!(chunks[1].crc, crc32.crc(&typed));
    assert_eq!(unzlib(&chunks[1].chunk_data), pixels);
}

#[test]
fn png_recompress_needs_two_critical_chunks() {
    let mut file = vec![137, 80, 78, 71, 13, 10, 26, 10];
    file.extend(raw_chunk(b"IHDR", &ihdr_payload()));
    let png = PngImage::try_create(&file).unwrap();
    assert!(png.recompress().is_err());
}

#[test]
fn zlib_stream_parts() {
    let z = zlib(b"abcabcabc");
    let s = DeflateStream::try_create(&z).unwrap();
    assert_eq!(s.to_bytes(), z);
    assert_eq!(unzlib(&s.try_compress().unwrap().to_bytes()), b"abcabcabc".to_vec());
    assert!(matches!(
        DeflateStream::try_create(&[1, 2, 3]),
        Err(DeflateError::InvalidCheckBytes)
    ));
    let garbage = DeflateStream::try_create(&[0, 0, 0, 0, 0, 0, 0]).unwrap();
    assert!(matches!(garbage.recompress(), Err(DeflateError::Io)));
    assert!(matches!(garbage.try_compress(), Err(DeflateError::Io)));
}
