use convert_office_images::content_types::patch_content_types;
use convert_office_images::img::{
    convert_image, has_format, new_img_name, parse_format, AcceptedFormat, Image,
};
use convert_office_images::package::strip_document_dir;
use convert_office_images::rels::replace_rels;
use convert_office_images::Error;

fn b(s: &str) -> Vec<u8> {
    s.as_bytes().to_vec()
}

#[test]
fn format_constants() {
    assert_eq!(AcceptedFormat::Jpeg.extension(), "jpg");
    assert_eq!(AcceptedFormat::Png.extension(), "png");
    assert_eq!(AcceptedFormat::Jpeg.content_type(), "image/jpeg");
    assert_eq!(AcceptedFormat::Png.content_type(), "image/png");
    assert_eq!(AcceptedFormat::Jpeg.format_name(), "JPEG");
    assert_eq!(AcceptedFormat::Png.format_name(), "PNG");
    assert_eq!(
        AcceptedFormat::Jpeg.content_type_decl(),
        r#"<Default Extension="jpg" ContentType="image/jpeg" />"#
    );
    assert_eq!(
        AcceptedFormat::Png.content_type_decl(),
        r#"<Default Extension="png" ContentType="image/png" />"#
    );
}

#[test]
fn renames_extensions() {
    assert_eq!(
        new_img_name(&b("word/media/image1.png"), AcceptedFormat::Jpeg),
        b("word/media/image1.jpg")
    );
    assert_eq!(
        new_img_name(&b("media/photo.jpeg"), AcceptedFormat::Png),
        b("media/photo.png")
    );
    assert_eq!(
        new_img_name(&b("word/media/noext"), AcceptedFormat::Jpeg),
        b("word/media/noext.jpg")
    );
    assert_eq!(
        new_img_name(&b("word/media/.hidden"), AcceptedFormat::Jpeg),
        b("word/media/.hidden.jpg")
    );
    assert_eq!(
        new_img_name(&b("a.b/c"), AcceptedFormat::Jpeg),
        b("a.b/c.jpg")
    );
}

#[test]
fn strips_document_roots() {
    assert_eq!(
        strip_document_dir(&b("word/media/image1.png")),
        b("media/image1.png")
    );
    assert_eq!(
        strip_document_dir(&b("ppt/media/image2.png")),
        b("media/image2.png")
    );
    assert_eq!(
        strip_document_dir(&b("media/image3.png")),
        b("media/image3.png")
    );
}

#[test]
fn parses_format_tokens() {
    assert_eq!(parse_format("jpg"), Some(AcceptedFormat::Jpeg));
    assert_eq!(parse_format("png"), Some(AcceptedFormat::Png));
    assert_eq!(parse_format("JPG"), None);
    assert_eq!(parse_format("gif"), None);
    assert_eq!(parse_format(""), None);
}

#[test]
fn detects_magic_bytes() {
    let png: Vec<u8> = vec![0x89, 0x50, 0x4e, 0x47, 0x0d, 0x0a, 0x1a, 0x0a, 1, 2];
    let jpg: Vec<u8> = vec![0xff, 0xd8, 0xff, 0xe0, 0x00];
    assert!(has_format(&png, AcceptedFormat::Png));
    assert!(!has_format(&png, AcceptedFormat::Jpeg));
    assert!(has_format(&jpg, AcceptedFormat::Jpeg));
    assert!(!has_format(&jpg, AcceptedFormat::Png));
    assert!(!has_format(&Vec::new(), AcceptedFormat::Png));
}

#[test]
fn recodes_single_image() {
    let img = image::RgbImage::from_pixel(3, 3, image::Rgb([0u8, 128u8, 255u8]));
    let mut buf = std::io::Cursor::new(Vec::new());
    image::DynamicImage::ImageRgb8(img)
        .write_to(&mut buf, image::ImageOutputFormat::Png)
        .unwrap();
    let png = buf.into_inner();
    let out = convert_image(&png, AcceptedFormat::Jpeg, 90).unwrap();
    assert!(out.starts_with(&[0xff, 0xd8, 0xff]));
    let back = convert_image(&out, AcceptedFormat::Png, 90).unwrap();
    assert!(back.starts_with(&[0x89, 0x50, 0x4e, 0x47]));
}

#[test]
fn recode_fails_on_garbage() {
    let junk: Vec<u8> = vec![0, 1, 2, 3, 4, 5];
    match convert_image(&junk, AcceptedFormat::Jpeg, 90) {
        Err(e) => assert_eq!(e, Error::ImageCodec),
        Ok(_) => panic!("expected a codec error"),
    }
}

#[test]
fn image_dto_embeds_base64() {
    let data: Vec<u8> = vec![1, 2, 3, 4, 5];
    let img = Image::with_format(&data, AcceptedFormat::Jpeg);
    assert_eq!(img.size, 5);
    assert_eq!(img.format, "JPEG");
    let expected = base64::Engine::encode(&base64::engine::general_purpose::STANDARD, &data);
    assert_eq!(img.base64, format!("data:image/jpeg,{}", expected));
}

#[test]
fn content_types_injection_and_identity() {
    let missing = b(r#"<Types xmlns="x"><Default Extension="png" ContentType="image/png"/></Types>"#);
    let patched = patch_content_types(&missing, AcceptedFormat::Jpeg).unwrap();
    let text = String::from_utf8(patched.clone()).unwrap();
    assert!(text.contains(r#"<Default Extension="jpg" ContentType="image/jpeg" />"#));
    assert!(text.ends_with("</Types>"));

    // A member that already declares the extension passes through unchanged.
    let again = patch_content_types(&patched, AcceptedFormat::Jpeg).unwrap();
    assert_eq!(again, patched);
}

#[test]
fn content_types_rejects_malformed_xml() {
    let bad = b("<Types><Default");
    assert!(matches!(
        patch_content_types(&bad, AcceptedFormat::Jpeg),
        Err(Error::Markup)
    ));
}

#[test]
fn rels_rewrites_exact_targets_only() {
    let rels = b(r#"<Relationships><Relationship Id="rId1" Target="media/image1.png"/><Relationship Id="rId2" Target="media/other.png"/></Relationships>"#);
    let renames = vec![(b("media/image1.png"), b("media/image1.jpg"))];
    let out = replace_rels(&rels, &renames).unwrap();
    let text = String::from_utf8(out).unwrap();
    assert!(text.contains(r#"Target="media/image1.jpg""#));
    assert!(text.contains(r#"Target="media/other.png""#));
}

#[test]
fn rels_without_renames_is_identity() {
    let rels = b(r#"<?xml version="1.0"?><Relationships><Relationship Id="rId1" Target="media/image1.png"/></Relationships>"#);
    let out = replace_rels(&rels, &Vec::new()).unwrap();
    assert_eq!(out, rels);
}

#[test]
fn error_messages_name_the_kind() {
    assert_eq!(Error::Archive.message(), "ZIP error");
    assert_eq!(Error::Markup.message(), "XML error");
    assert_eq!(Error::Io.message(), "IO error");
    assert_eq!(Error::ImageCodec.message(), "image error");
}
