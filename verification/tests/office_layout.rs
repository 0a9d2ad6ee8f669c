use tokimo_package_fileparser::office::{
    extract_targets, is_image_ext, is_media_path, name_stem_no_xml_rels, parse_numeric_suffix,
    resolve_rel_target, section_bucket, sniff_extension, strip_rels_suffix, OfficeKind,
};

#[test]
fn resolves_rel_target_with_parent_segments() {
    assert_eq!(
        resolve_rel_target("ppt/slides/", "../media/image1.png").as_deref(),
        Some("ppt/media/image1.png")
    );
    assert_eq!(
        resolve_rel_target("xl/worksheets/", "../drawings/drawing1.xml").as_deref(),
        Some("xl/drawings/drawing1.xml")
    );
    assert_eq!(
        resolve_rel_target("xl/drawings/", "../media/image2.jpeg").as_deref(),
        Some("xl/media/image2.jpeg")
    );
    assert_eq!(
        resolve_rel_target("ppt/slides/", "/ppt/media/image1.png").as_deref(),
        Some("ppt/media/image1.png")
    );
}

#[test]
fn extracts_target_attribute_values() {
    let xml = r#"<?xml version="1.0"?>
            <Relationships xmlns="x">
              <Relationship Id="rId1" Type="img" Target="../media/image1.png"/>
              <Relationship Id="rId2" Type="img" Target="../media/image2.jpeg"/>
            </Relationships>"#;
    let got = extract_targets(xml);
    assert_eq!(got, vec!["../media/image1.png", "../media/image2.jpeg"]);
}

#[test]
fn parses_numeric_suffix() {
    assert_eq!(parse_numeric_suffix("slide12", "slide"), Some(12));
    assert_eq!(parse_numeric_suffix("sheet3", "sheet"), Some(3));
    assert_eq!(parse_numeric_suffix("notes1", "slide"), None);
}

#[test]
fn section_bucket_layout() {
    assert_eq!(section_bucket(OfficeKind::Flat, 0, Some("anything")), None);
    assert_eq!(section_bucket(OfficeKind::Pptx, 0, None).as_deref(), Some("slide-001"));
    assert_eq!(
        section_bucket(OfficeKind::Pptx, 11, Some("Title")).as_deref(),
        Some("slide-012")
    );
    assert_eq!(
        section_bucket(OfficeKind::Xlsx, 0, Some("Sales 2024")).as_deref(),
        Some("sheet-001-Sales 2024")
    );
    assert_eq!(section_bucket(OfficeKind::Xlsx, 2, None).as_deref(), Some("sheet-003"));
    assert_eq!(
        section_bucket(OfficeKind::Xlsx, 0, Some("")).as_deref(),
        Some("sheet-001")
    );
}

#[test]
fn resolve_rel_target_edge_cases() {
    assert_eq!(resolve_rel_target("", ""), None);
    assert_eq!(resolve_rel_target("a/", ".."), None);
    assert_eq!(resolve_rel_target("", "../../x").as_deref(), Some("x"));
    assert_eq!(resolve_rel_target("a//b/./", "c").as_deref(), Some("a/b/c"));
}

#[test]
fn extract_targets_unterminated_and_adjacent() {
    assert_eq!(extract_targets(r#"Target="abc"#), vec!["abc"]);
    assert_eq!(extract_targets(r#"Target=""Target="x""#), vec!["", "x"]);
    assert!(extract_targets("no targets here").is_empty());
}

#[test]
fn numeric_suffix_follows_u32_parsing() {
    assert_eq!(parse_numeric_suffix("slide+7", "slide"), Some(7));
    assert_eq!(parse_numeric_suffix("slide", "slide"), None);
    assert_eq!(parse_numeric_suffix("slide+", "slide"), None);
    assert_eq!(parse_numeric_suffix("slide-1", "slide"), None);
    assert_eq!(parse_numeric_suffix("slide4294967295", "slide"), Some(4294967295));
    assert_eq!(parse_numeric_suffix("slide4294967296", "slide"), None);
    assert_eq!(parse_numeric_suffix("slide007", "slide"), Some(7));
}

#[test]
fn rels_stem_strips_repeated_suffixes() {
    assert_eq!(strip_rels_suffix("slide12.xml.rels"), "slide12");
    assert_eq!(strip_rels_suffix("a.rels.rels"), "a");
    assert_eq!(strip_rels_suffix("sheet1.xml.xml.rels"), "sheet1");
    assert_eq!(name_stem_no_xml_rels("ppt/slides/_rels/slide3.xml.rels"), "slide3");
}

#[test]
fn image_extension_and_sniffing() {
    assert!(is_image_ext("jpeg"));
    assert!(is_image_ext("svg"));
    assert!(!is_image_ext("mp4"));
    assert!(!is_image_ext("PNG"));
    assert_eq!(sniff_extension(&[0x89, b'P', b'N', b'G', 0]), Some("png"));
    assert_eq!(sniff_extension(&[0xff, 0xd8, 0xff]), Some("jpg"));
    assert_eq!(sniff_extension(b"GIF89a"), Some("gif"));
    assert_eq!(sniff_extension(b"RIFF\0\0\0\0WEBPVP8 "), Some("webp"));
    assert_eq!(sniff_extension(b"RIFF\0\0\0\0WEBP"), None);
    assert_eq!(sniff_extension(b"BM.."), Some("bmp"));
    assert_eq!(sniff_extension(b"II*\0"), Some("tif"));
    assert_eq!(sniff_extension(b"MM\0*"), Some("tif"));
    assert_eq!(sniff_extension(b"%PDF"), None);
}

#[test]
fn media_paths_and_office_kinds() {
    assert!(is_media_path("ppt/MEDIA/image1.png"));
    assert!(!is_media_path("media/image1.png"));
    assert_eq!(OfficeKind::from_extension(Some("PPTX")), OfficeKind::Pptx);
    assert_eq!(OfficeKind::from_extension(Some("xlsm")), OfficeKind::Xlsx);
    assert_eq!(OfficeKind::from_extension(Some("docx")), OfficeKind::Flat);
    assert_eq!(OfficeKind::from_extension(None), OfficeKind::Flat);
    assert_eq!(OfficeKind::from_path("deck.Pptx"), OfficeKind::Pptx);
}
