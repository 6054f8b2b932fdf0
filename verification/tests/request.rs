use vision_ai::request::{
    blank_thumbnail, decode_image_payload, image_to_pixels, pixels_of_decoded, requested_model, train_input_size,
    RequestError, DEFAULT_INPUT_SIZE, THUMBNAIL_BYTES,
};

#[test]
fn model_name_defaults_to_mlp() {
    assert_eq!(requested_model(None), "mlp");
    assert_eq!(requested_model(Some("digits".to_string())), "digits");
}

#[test]
fn payload_is_trimmed_then_decoded() {
    let bytes = decode_image_payload(Some("  aGVsbG8gd29ybGR+Cg==\n".to_string())).unwrap();
    assert_eq!(bytes, b"hello world~\n".to_vec());
    assert_eq!(decode_image_payload(Some(String::new())).unwrap(), Vec::<u8>::new());
}

#[test]
fn missing_payload_is_refused() {
    assert!(matches!(decode_image_payload(None), Err(RequestError::MissingImage)));
}

#[test]
fn invalid_base64_is_refused() {
    assert!(matches!(
        decode_image_payload(Some("not base64!".to_string())),
        Err(RequestError::InvalidBase64(_))
    ));
    assert!(matches!(
        decode_image_payload(Some("abc".to_string())),
        Err(RequestError::InvalidBase64(_))
    ));
}

#[test]
fn unreadable_image_gives_blank_thumbnail() {
    let px = image_to_pixels(b"definitely not an image");
    assert_eq!(px.len(), THUMBNAIL_BYTES);
    assert!(px.iter().all(|&b| b == 0));
    assert_eq!(blank_thumbnail(), vec![0u8; 12288]);
}

#[test]
fn bitmap_is_resized_to_thumbnail() {
    // A 2 x 1 bitmap, 24 bits per pixel: one red pixel then one blue pixel.
    let mut bmp: Vec<u8> = Vec::new();
    let pixel_bytes: u32 = 8; // one row of 6 bytes, padded to 8
    let file_size: u32 = 14 + 40 + pixel_bytes;
    bmp.extend_from_slice(b"BM");
    bmp.extend_from_slice(&file_size.to_le_bytes());
    bmp.extend_from_slice(&[0, 0, 0, 0]);
    bmp.extend_from_slice(&54u32.to_le_bytes());
    bmp.extend_from_slice(&40u32.to_le_bytes());
    bmp.extend_from_slice(&2i32.to_le_bytes());
    bmp.extend_from_slice(&1i32.to_le_bytes());
    bmp.extend_from_slice(&1u16.to_le_bytes());
    bmp.extend_from_slice(&24u16.to_le_bytes());
    bmp.extend_from_slice(&0u32.to_le_bytes());
    bmp.extend_from_slice(&pixel_bytes.to_le_bytes());
    bmp.extend_from_slice(&2835i32.to_le_bytes());
    bmp.extend_from_slice(&2835i32.to_le_bytes());
    bmp.extend_from_slice(&0u32.to_le_bytes());
    bmp.extend_from_slice(&0u32.to_le_bytes());
    // pixels are stored blue, green, red
    bmp.extend_from_slice(&[0, 0, 255, 255, 0, 0, 0, 0]);
    let px = image_to_pixels(&bmp);
    assert_eq!(px.len(), THUMBNAIL_BYTES);
    // top-left pixel is red, top-right pixel is blue
    assert_eq!(&px[0..3], &[255, 0, 0]);
    assert_eq!(&px[3 * 63..3 * 64], &[0, 0, 255]);
}

#[test]
fn training_needs_an_epoch() {
    assert!(matches!(train_input_size(0, Some(4)), Err(RequestError::NoEpochs)));
    assert!(matches!(train_input_size(0, None), Err(RequestError::NoEpochs)));
}

#[test]
fn training_input_size_defaults() {
    assert_eq!(train_input_size(3, Some(4)).unwrap(), 4);
    assert_eq!(train_input_size(1, None).unwrap(), DEFAULT_INPUT_SIZE);
    assert_eq!(DEFAULT_INPUT_SIZE, 128);
}

#[test]
fn no_decoded_image_gives_blank_pixels() {
    let px = pixels_of_decoded(None);
    assert_eq!(px, vec![0u8; THUMBNAIL_BYTES]);
}

#[test]
fn decoded_image_gives_its_thumbnail() {
    // a single red pixel fills the whole thumbnail
    let px = pixels_of_decoded(Some((1, 1, vec![255, 0, 0])));
    assert_eq!(px.len(), THUMBNAIL_BYTES);
    assert!(px.chunks(3).all(|p| p == [255, 0, 0]));
    // two columns, red then blue: left half red, right half blue
    let px = pixels_of_decoded(Some((2, 1, vec![255, 0, 0, 0, 0, 255])));
    assert_eq!(&px[0..3], &[255, 0, 0]);
    assert_eq!(&px[3 * 31..3 * 32], &[255, 0, 0]);
    assert_eq!(&px[3 * 32..3 * 33], &[0, 0, 255]);
    assert_eq!(&px[3 * 64 * 63 + 3 * 63..], &[0, 0, 255]);
    // an empty image gives a blank thumbnail
    assert_eq!(pixels_of_decoded(Some((0, 0, Vec::new()))), vec![0u8; THUMBNAIL_BYTES]);
}
