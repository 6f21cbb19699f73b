use std::io::{Cursor, Write};

use convert_office_images::img::AcceptedFormat;
use convert_office_images::package::Config;
use convert_office_images::{convert, get_images_data};

const CT_NO_JPG: &str = r#"<?xml version="1.0" encoding="UTF-8" standalone="yes"?><Types xmlns="http://schemas.openxmlformats.org/package/2006/content-types"><Default Extension="rels" ContentType="application/vnd.openxmlformats-package.relationships+xml"/><Default Extension="png" ContentType="image/png"/></Types>"#;

const CT_WITH_JPG: &str = r#"<?xml version="1.0" encoding="UTF-8" standalone="yes"?><Types xmlns="http://schemas.openxmlformats.org/package/2006/content-types"><Default Extension="rels" ContentType="application/vnd.openxmlformats-package.relationships+xml"/><Default Extension="jpg" ContentType="image/jpeg"/></Types>"#;

const RELS_PNG: &str = r#"<?xml version="1.0" encoding="UTF-8" standalone="yes"?><Relationships xmlns="http://schemas.openxmlformats.org/package/2006/relationships"><Relationship Id="rId1" Type="http://schemas.openxmlformats.org/officeDocument/2006/relationships/image" Target="media/image1.png"/></Relationships>"#;

const RELS_JPG: &str = r#"<?xml version="1.0" encoding="UTF-8" standalone="yes"?><Relationships xmlns="http://schemas.openxmlformats.org/package/2006/relationships"><Relationship Id="rId1" Type="http://schemas.openxmlformats.org/officeDocument/2006/relationships/image" Target="media/image1.jpg"/></Relationships>"#;

const DOCUMENT: &str = r#"<?xml version="1.0"?><document><body>hello</body></document>"#;

fn png_bytes() -> Vec<u8> {
    let img = image::RgbImage::from_pixel(4, 4, image::Rgb([200u8, 10u8, 10u8]));
    let mut buf = Cursor::new(Vec::new());
    image::DynamicImage::ImageRgb8(img)
        .write_to(&mut buf, image::ImageOutputFormat::Png)
        .unwrap();
    buf.into_inner()
}

fn jpg_bytes() -> Vec<u8> {
    let img = image::RgbImage::from_pixel(4, 4, image::Rgb([200u8, 10u8, 10u8]));
    let mut buf = Cursor::new(Vec::new());
    image::DynamicImage::ImageRgb8(img)
        .write_to(&mut buf, image::ImageOutputFormat::Jpeg(90))
        .unwrap();
    buf.into_inner()
}

fn build_zip(members: &[(&str, &[u8])]) -> Vec<u8> {
    let mut w = zip::ZipWriter::new(Cursor::new(Vec::new()));
    for (name, data) in members {
        w.start_file(*name, zip::write::SimpleFileOptions::default())
            .unwrap();
        w.write_all(data).unwrap();
    }
    w.finish().unwrap().into_inner()
}

fn read_zip(bytes: &[u8]) -> Vec<(String, Vec<u8>)> {
    let mut ar = zip::ZipArchive::new(Cursor::new(bytes)).unwrap();
    let mut out = Vec::new();
    for i in 0..ar.len() {
        let mut f = ar.by_index(i).unwrap();
        let mut data = Vec::new();
        std::io::Read::read_to_end(&mut f, &mut data).unwrap();
        out.push((f.name().to_string(), data));
    }
    out
}

fn member<'a>(members: &'a [(String, Vec<u8>)], name: &str) -> Option<&'a Vec<u8>> {
    members
        .iter()
        .find(|(n, _)| n == name)
        .map(|(_, d)| d)
}

fn default_config() -> Config {
    Config {
        quality: 90,
        reencode_if_already_target_format: false,
    }
}

#[test]
fn converts_package_and_patches_metadata() {
    let png = png_bytes();
    let input = build_zip(&[
        ("[Content_Types].xml", CT_NO_JPG.as_bytes()),
        ("word/_rels/document.xml.rels", RELS_PNG.as_bytes()),
        ("word/document.xml", DOCUMENT.as_bytes()),
        ("word/media/image1.png", &png),
    ]);
    let out = convert(&input, AcceptedFormat::Jpeg, default_config()).unwrap();
    let members = read_zip(&out);

    let jpg = member(&members, "word/media/image1.jpg").expect("renamed media missing");
    assert!(jpg.starts_with(&[0xff, 0xd8, 0xff]));
    assert!(member(&members, "word/media/image1.png").is_none());

    let rels = String::from_utf8(member(&members, "word/_rels/document.xml.rels").unwrap().clone())
        .unwrap();
    assert!(rels.contains(r#"Target="media/image1.jpg""#));
    assert!(!rels.contains(r#"Target="media/image1.png""#));

    let ct = String::from_utf8(member(&members, "[Content_Types].xml").unwrap().clone()).unwrap();
    assert!(ct.contains(r#"Extension="jpg""#));

    // Re-parse the output content-types member: a jpg declaration must exist.
    let mut reader = quick_xml::Reader::from_reader(ct.as_bytes());
    let mut buf = Vec::new();
    let mut found = false;
    loop {
        match reader.read_event_into(&mut buf).unwrap() {
            quick_xml::events::Event::Eof => break,
            quick_xml::events::Event::Start(e) | quick_xml::events::Event::Empty(e) => {
                if e.name().as_ref() == "Default" {
                    for a in e.attributes() {
                        let a = a.unwrap();
                        if a.key.as_ref() == "Extension" && a.value.as_ref() == "jpg" {
                            found = true;
                        }
                    }
                }
            }
            _ => {}
        }
        buf.clear();
    }
    assert!(found, "no jpg declaration in output content types");

    // Non-media, non-metadata entries are byte-identical.
    assert_eq!(
        member(&members, "word/document.xml").unwrap().as_slice(),
        DOCUMENT.as_bytes()
    );
}

#[test]
fn round_trip_already_target_format() {
    let jpg = jpg_bytes();
    let input = build_zip(&[
        ("[Content_Types].xml", CT_WITH_JPG.as_bytes()),
        ("word/_rels/document.xml.rels", RELS_JPG.as_bytes()),
        ("word/document.xml", DOCUMENT.as_bytes()),
        ("word/media/image1.jpg", &jpg),
    ]);
    let out = convert(&input, AcceptedFormat::Jpeg, default_config()).unwrap();
    let in_members = read_zip(&input);
    let out_members = read_zip(&out);
    assert_eq!(in_members.len(), out_members.len());
    // Every member, metadata included, is byte-identical: nothing was
    // renamed, the declaration already existed, and no target changed.
    for (name, data) in &in_members {
        assert_eq!(
            member(&out_members, name).expect("member missing"),
            data,
            "member {} changed",
            name
        );
    }
}

#[test]
fn second_conversion_changes_nothing() {
    let png = png_bytes();
    let input = build_zip(&[
        ("[Content_Types].xml", CT_NO_JPG.as_bytes()),
        ("word/_rels/document.xml.rels", RELS_PNG.as_bytes()),
        ("word/document.xml", DOCUMENT.as_bytes()),
        ("word/media/image1.png", &png),
    ]);
    let once = convert(&input, AcceptedFormat::Jpeg, default_config()).unwrap();
    let twice = convert(&once, AcceptedFormat::Jpeg, default_config()).unwrap();
    let first = read_zip(&once);
    let second = read_zip(&twice);
    assert_eq!(first.len(), second.len());
    for (name, data) in &first {
        assert_eq!(
            member(&second, name).expect("member missing"),
            data,
            "member {} changed on the second conversion",
            name
        );
    }
}

#[test]
fn corrupt_media_is_copied_verbatim() {
    let png = png_bytes();
    let garbage: Vec<u8> = vec![0x00, 0x01, 0x02, 0x03, 0xde, 0xad, 0xbe, 0xef];
    let input = build_zip(&[
        ("[Content_Types].xml", CT_NO_JPG.as_bytes()),
        ("word/media/broken.bin", &garbage),
        ("word/media/image1.png", &png),
    ]);
    let out = convert(&input, AcceptedFormat::Jpeg, default_config()).unwrap();
    let members = read_zip(&out);
    assert_eq!(
        member(&members, "word/media/broken.bin").expect("corrupt member missing"),
        &garbage
    );
    let jpg = member(&members, "word/media/image1.jpg").expect("valid media not recoded");
    assert!(jpg.starts_with(&[0xff, 0xd8, 0xff]));
    assert!(member(&members, "word/media/image1.png").is_none());
}

#[test]
fn convert_rejects_invalid_container() {
    let junk = vec![1u8, 2, 3, 4, 5];
    match convert(&junk, AcceptedFormat::Jpeg, default_config()) {
        Err(e) => assert_eq!(e, convert_office_images::Error::Archive),
        Ok(_) => panic!("expected an archive error"),
    }
}

#[test]
fn convert_rejects_malformed_relationships() {
    let png = png_bytes();
    let input = build_zip(&[
        ("[Content_Types].xml", CT_NO_JPG.as_bytes()),
        ("word/_rels/document.xml.rels", b"<Relationships><Relationship".as_slice()),
        ("word/media/image1.png", &png),
    ]);
    match convert(&input, AcceptedFormat::Jpeg, default_config()) {
        Err(e) => assert_eq!(e, convert_office_images::Error::Markup),
        Ok(_) => panic!("expected a markup error"),
    }
}

#[test]
fn get_images_data_returns_media_bytes() {
    let png = png_bytes();
    let jpg = jpg_bytes();
    let input = build_zip(&[
        ("[Content_Types].xml", CT_NO_JPG.as_bytes()),
        ("word/document.xml", DOCUMENT.as_bytes()),
        ("word/media/image1.png", &png),
        ("ppt/media/image2.jpg", &jpg),
    ]);
    let images = get_images_data(&input).unwrap();
    assert_eq!(images.len(), 2);
    assert_eq!(images[0], png);
    assert_eq!(images[1], jpg);
}

#[test]
fn get_images_data_rejects_invalid_container() {
    let junk = vec![9u8, 9, 9];
    assert!(get_images_data(&junk).is_err());
}

#[test]
fn reencode_flag_forces_recode_without_rename() {
    let jpg = jpg_bytes();
    let input = build_zip(&[
        ("[Content_Types].xml", CT_WITH_JPG.as_bytes()),
        ("word/_rels/document.xml.rels", RELS_JPG.as_bytes()),
        ("word/media/image1.jpg", &jpg),
    ]);
    let config = Config {
        quality: 80,
        reencode_if_already_target_format: true,
    };
    let out = convert(&input, AcceptedFormat::Jpeg, config).unwrap();
    let members = read_zip(&out);
    // The path keeps its name (the extension is already the target one), and
    // the bytes are still a JPEG stream.
    let media = member(&members, "word/media/image1.jpg").expect("media missing");
    assert!(media.starts_with(&[0xff, 0xd8, 0xff]));
    // The relationship target still points at the same path.
    let rels = String::from_utf8(member(&members, "word/_rels/document.xml.rels").unwrap().clone())
        .unwrap();
    assert!(rels.contains(r#"Target="media/image1.jpg""#));
}

#[test]
fn converts_to_png_target() {
    let jpg = jpg_bytes();
    let input = build_zip(&[
        ("[Content_Types].xml", CT_WITH_JPG.as_bytes()),
        ("word/_rels/document.xml.rels", RELS_JPG.as_bytes()),
        ("word/media/image1.jpg", &jpg),
    ]);
    let out = convert(&input, AcceptedFormat::Png, default_config()).unwrap();
    let members = read_zip(&out);
    let png = member(&members, "word/media/image1.png").expect("renamed media missing");
    assert!(png.starts_with(&[0x89, 0x50, 0x4e, 0x47]));
    assert!(member(&members, "word/media/image1.jpg").is_none());
    let rels = String::from_utf8(member(&members, "word/_rels/document.xml.rels").unwrap().clone())
        .unwrap();
    assert!(rels.contains(r#"Target="media/image1.png""#));
    let ct = String::from_utf8(member(&members, "[Content_Types].xml").unwrap().clone()).unwrap();
    assert!(ct.contains(r#"<Default Extension="png" ContentType="image/png" />"#));
}
