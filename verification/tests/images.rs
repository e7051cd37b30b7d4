use base64::Engine;
use cliproam::misc::{decode_image_as_bmp, encode_image_as_webp, image_signature, thumbnail_text, THUMBNAIL_MAX_BYTES};
use image::{DynamicImage, ImageFormat, Rgba, RgbaImage};
use std::io::Cursor;

#[test]
fn screenshot_webp_round_trip_preserves_pixels() {
    let source = RgbaImage::from_fn(16, 12, |x, y| {
        Rgba([(x * 13) as u8, (y * 19) as u8, ((x + y) * 7) as u8, 255])
    });
    let mut bmp = Cursor::new(Vec::new());
    DynamicImage::ImageRgba8(source.clone())
        .write_to(&mut bmp, ImageFormat::Bmp)
        .unwrap();
    let bmp = bmp.into_inner();

    let (webp, width, height, thumbnail) = encode_image_as_webp(&bmp).unwrap();
    assert_eq!((width, height), (16, 12));
    assert!(thumbnail.is_some());
    assert_eq!(image::guess_format(&webp).unwrap(), ImageFormat::WebP);

    let restored_bmp = decode_image_as_bmp(&webp).unwrap();
    let restored = image::load_from_memory_with_format(&restored_bmp, ImageFormat::Bmp)
        .unwrap()
        .to_rgba8();
    assert_eq!(restored, source);
    assert_eq!(image_signature(&bmp), image_signature(&webp));
}

#[test]
fn thumbnails_are_base64_webp_and_bounded() {
    let source = RgbaImage::from_fn(200, 100, |x, y| Rgba([x as u8, y as u8, 0, 255]));
    let mut png = Cursor::new(Vec::new());
    DynamicImage::ImageRgba8(source).write_to(&mut png, ImageFormat::Png).unwrap();
    let (_, width, height, thumbnail) = encode_image_as_webp(&png.into_inner()).unwrap();
    assert_eq!((width, height), (200, 100));
    let bytes = base64::engine::general_purpose::STANDARD.decode(thumbnail.unwrap()).unwrap();
    assert_eq!(image::guess_format(&bytes).unwrap(), ImageFormat::WebP);
    let small = image::load_from_memory(&bytes).unwrap();
    assert!(small.width() <= 64 && small.height() <= 64);
    assert_eq!(thumbnail_text(&[1, 2, 3]), Some("AQID".to_string()));
    assert_eq!(thumbnail_text(&vec![0u8; THUMBNAIL_MAX_BYTES + 1]), None);
}

#[test]
fn undecodable_images_are_refused() {
    assert!(encode_image_as_webp(b"not an image").is_err());
    assert!(decode_image_as_bmp(b"not an image").is_err());
}

use cliproam::misc::{upload_chunk_len, upload_chunk_text, FILE_CHUNK_LIMIT};

#[test]
fn upload_reads_are_bounded_and_sent_as_base64() {
    assert_eq!(upload_chunk_len(10), 10);
    assert_eq!(upload_chunk_len(FILE_CHUNK_LIMIT + 1), FILE_CHUNK_LIMIT);
    assert_eq!(upload_chunk_text(b"hello"), "aGVsbG8=");
    assert_eq!(upload_chunk_text(&[]), "");
}
