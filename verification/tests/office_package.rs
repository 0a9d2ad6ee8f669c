use tokimo_package_fileparser::office::{
    asset_index_files, build_zip_media_buckets, extract_zip_assets, heading_plain_text, is_asset_entry,
    name_stem_no_xml_rels, package_assets, parse_numeric_suffix, resolve_rel_target, split_long_section, zip_extension,
    zip_file_name, AssetKind, ChunkLabel, ElementInfo, OfficeKind,
};

fn strings(v: &[&str]) -> Vec<String> {
    v.iter().map(|s| s.to_string()).collect()
}

fn lookup<'a>(m: &'a [(String, String)], k: &str) -> Option<&'a str> {
    m.iter().find(|(key, _)| key == k).map(|(_, v)| v.as_str())
}

#[test]
fn builds_pptx_media_buckets_from_synthetic_zip() {
    let names = strings(&[
        "ppt/slides/_rels/slide1.xml.rels",
        "ppt/slides/_rels/slide2.xml.rels",
        "ppt/media/image1.png",
        "ppt/media/image2.jpeg",
    ]);
    let texts = vec![
        Some(
            r#"<?xml version="1.0"?><Relationships>
                    <Relationship Id="r1" Target="../media/image1.png"/>
                </Relationships>"#
                .to_string(),
        ),
        Some(
            r#"<?xml version="1.0"?><Relationships>
                    <Relationship Id="r1" Target="../media/image2.jpeg"/>
                </Relationships>"#
                .to_string(),
        ),
        None,
        None,
    ];
    let map = build_zip_media_buckets(&names, &texts, OfficeKind::Pptx);
    assert_eq!(lookup(&map, "ppt/media/image1.png"), Some("slide-001"));
    assert_eq!(lookup(&map, "ppt/media/image2.jpeg"), Some("slide-002"));
    assert_eq!(map.len(), 2);
}

#[test]
fn builds_xlsx_media_buckets_via_drawing_hop() {
    let names = strings(&[
        "xl/worksheets/_rels/sheet1.xml.rels",
        "xl/drawings/_rels/drawing1.xml.rels",
        "xl/drawings/drawing1.xml",
        "xl/media/image5.png",
    ]);
    let texts = vec![
        Some(
            r#"<?xml version="1.0"?><Relationships>
                    <Relationship Id="r1" Target="../drawings/drawing1.xml"/>
                </Relationships>"#
                .to_string(),
        ),
        Some(
            r#"<?xml version="1.0"?><Relationships>
                    <Relationship Id="r1" Target="../media/image5.png"/>
                </Relationships>"#
                .to_string(),
        ),
        Some("<xml/>".to_string()),
        None,
    ];
    let map = build_zip_media_buckets(&names, &texts, OfficeKind::Xlsx);
    assert_eq!(lookup(&map, "xl/media/image5.png"), Some("sheet-001"));
    assert_eq!(map.len(), 1);
}

#[test]
fn media_buckets_first_reference_wins_and_flat_has_none() {
    let names = strings(&["ppt/slides/_rels/slide3.xml.rels", "ppt/slides/_rels/slide7.xml.rels", "ppt/notes/_rels/x.rels"]);
    let rel = r#"<Relationship Target="../media/shared.png"/><Relationship Target="../slideLayouts/l1.xml"/>"#;
    let texts = vec![Some(rel.to_string()), Some(rel.to_string()), Some(rel.to_string())];
    let map = build_zip_media_buckets(&names, &texts, OfficeKind::Pptx);
    assert_eq!(map, vec![("ppt/media/shared.png".to_string(), "slide-003".to_string())]);
    assert!(build_zip_media_buckets(&names, &texts, OfficeKind::Flat).is_empty());
    // Unreadable manifests are skipped.
    let none = vec![None, None, None];
    assert!(build_zip_media_buckets(&names, &none, OfficeKind::Pptx).is_empty());
}

#[test]
fn media_buckets_only_assign_media_files() {
    let names = strings(&[
        "xl/worksheets/_rels/sheet2.xml.rels",
        "xl/drawings/_rels/drawing9.xml.rels",
    ]);
    let texts = vec![
        Some(r#"<R Target="/xl/media/direct.png"/><R Target="../drawings/drawing9.xml"/><R Target="../styles.xml"/>"#.to_string()),
        Some(r#"<R Target="../media/pic.emf"/><R Target="../charts/chart1.xml"/>"#.to_string()),
    ];
    let map = build_zip_media_buckets(&names, &texts, OfficeKind::Xlsx);
    assert_eq!(lookup(&map, "xl/media/direct.png"), Some("sheet-002"));
    assert_eq!(lookup(&map, "xl/media/pic.emf"), Some("sheet-002"));
    for (k, v) in &map {
        assert!(k.to_ascii_lowercase().contains("/media/"));
        assert!(v.starts_with("sheet-"));
    }
}

#[test]
fn resolved_targets_are_normal() {
    for (base, target) in [
        ("ppt/slides/", "../media/image1.png"),
        ("a/b/", "./c/../../d//e"),
        ("x/", "/y/./z"),
        ("", "../../q"),
    ] {
        let p = resolve_rel_target(base, target).unwrap();
        assert_eq!(resolve_rel_target("", &p).as_deref(), Some(p.as_str()));
        assert_eq!(resolve_rel_target("", &format!("/{p}")).as_deref(), Some(p.as_str()));
    }
    assert_eq!(resolve_rel_target("a/", "..").as_deref(), None);
    assert_eq!(resolve_rel_target("ppt/slides/", "../../..").as_deref(), None);
    for t in ["a/b", "/a/../b", "./x", "", "//y"] {
        assert_eq!(resolve_rel_target("ppt/slides/", &format!("/{t}")), resolve_rel_target("", t));
    }
    assert_eq!(resolve_rel_target("", "").as_deref(), None);
}

#[test]
fn numeric_suffixes_round_trip() {
    for n in [0u32, 7, 42, 999, 1000, 4_294_967_295] {
        assert_eq!(parse_numeric_suffix(&format!("slide{n}"), "slide"), Some(n));
        assert_eq!(parse_numeric_suffix(&format!("sheet-{n:03}"), "sheet-"), Some(n));
    }
    assert_eq!(parse_numeric_suffix("slide", "slide"), None);
    assert_eq!(parse_numeric_suffix("slide+5", "slide"), Some(5));
    assert_eq!(parse_numeric_suffix("slide+", "slide"), None);
    assert_eq!(parse_numeric_suffix("slide4294967296", "slide"), None);
    assert_eq!(parse_numeric_suffix("slide1a", "slide"), None);
}

#[test]
fn zip_entry_names() {
    assert_eq!(zip_file_name("ppt/media/image1.png").as_deref(), Some("image1.png"));
    assert_eq!(zip_file_name("a/./").as_deref(), Some("a"));
    assert_eq!(zip_file_name("a/b/..").as_deref(), None);
    assert_eq!(zip_file_name("").as_deref(), None);
    assert_eq!(zip_extension("word/media/a.B.PNG").as_deref(), Some("PNG"));
    assert_eq!(zip_extension("word/media/noext").as_deref(), None);
    assert_eq!(zip_extension("word/media/.hidden").as_deref(), None);
    assert_eq!(zip_extension("word/media/dot.").as_deref(), Some(""));
    assert_eq!(name_stem_no_xml_rels("ppt/slides/_rels/slide12.xml.rels"), "slide12");
    assert_eq!(name_stem_no_xml_rels("xl/worksheets/_rels/sheet3.xml.rels"), "sheet3");
    assert!(is_asset_entry("word/media/image1.png"));
    assert!(is_asset_entry("xl/embeddings/oleObject1.bin"));
    assert!(is_asset_entry("PPT/MEDIA/X.PNG"));
    assert!(!is_asset_entry("word/media/"));
    assert!(!is_asset_entry("word/document.xml"));
}

#[test]
fn plans_package_assets() {
    let names = strings(&[
        "word/document.xml",
        "word/media/image1.png",
        "word/media/clip.mp4",
        "word/embeddings/Sheet 1.xlsx",
        "word/media/",
        "word/media/empty.png",
        "word/media/noext",
        "word/media/unreadable.png",
    ]);
    let data: Vec<Option<Vec<u8>>> = vec![
        Some(b"<xml/>".to_vec()),
        Some(vec![0x89, b'P', b'N', b'G']),
        Some(vec![0, 0, 0, 1]),
        Some(vec![1, 2]),
        Some(Vec::new()),
        Some(Vec::new()),
        Some(vec![0xff, 0xd8, 0xff, 0]),
        None,
    ];
    let mut counter: u32 = 2;
    let assets = extract_zip_assets(&names, &data, &Vec::new(), OfficeKind::Flat, &mut counter);
    assert_eq!(counter, 4);
    assert_eq!(assets.len(), 4);

    assert_eq!(assets[0].kind, AssetKind::Image);
    assert_eq!(assets[0].entry, 1);
    assert_eq!(assets[0].dir, "images");
    assert_eq!(assets[0].file_name, "img-003.png");
    assert_eq!(assets[0].rel, "images/img-003.png");
    assert_eq!(assets[0].original, "image1.png");

    assert_eq!(assets[1].kind, AssetKind::Media);
    assert_eq!(assets[1].entry, 2);
    assert_eq!(assets[1].rel, "media/media-001.mp4");
    assert_eq!(assets[1].original, "clip.mp4");

    assert_eq!(assets[2].kind, AssetKind::Embedding);
    assert_eq!(assets[2].entry, 3);
    assert_eq!(assets[2].file_name, "embed-001-Sheet_1.xlsx");
    assert_eq!(assets[2].rel, "embeddings/embed-001-Sheet_1.xlsx");
    assert_eq!(assets[2].original, "Sheet 1.xlsx");

    assert_eq!(assets[3].kind, AssetKind::Image);
    assert_eq!(assets[3].entry, 6);
    assert_eq!(assets[3].rel, "images/img-004.jpg");
    assert_eq!(assets[3].original, "noext");

    let mut file_names: Vec<&str> = assets.iter().map(|a| a.file_name.as_str()).collect();
    file_names.sort();
    file_names.dedup();
    assert_eq!(file_names.len(), assets.len());

    let files = asset_index_files(&assets);
    assert_eq!(files.len(), 3);
    assert_eq!(files[0].name, "images.md");
    assert_eq!(files[0].content, "# Embedded images\n\n![](images/img-003.png)\n\n![](images/img-004.jpg)\n\n");
    assert_eq!(files[1].name, "media.md");
    assert_eq!(files[1].content, "# Embedded media (audio/video/other)\n\n- [clip.mp4](media/media-001.mp4)\n");
    assert_eq!(files[2].name, "embeddings.md");
    assert_eq!(files[2].content, "# Embedded objects\n\n- [Sheet 1.xlsx](embeddings/embed-001-Sheet_1.xlsx)\n");
}

#[test]
fn package_images_go_to_their_bucket() {
    let names = strings(&["ppt/media/image1.png", "ppt/media/image2.gif"]);
    let data = vec![Some(vec![1u8]), Some(vec![2u8])];
    let buckets = vec![("ppt/media/image1.png".to_string(), "slide-004".to_string())];
    let mut counter: u32 = 0;
    let assets = extract_zip_assets(&names, &data, &buckets, OfficeKind::Pptx, &mut counter);
    assert_eq!(counter, 2);
    assert_eq!(assets[0].dir, "images/slide-004");
    assert_eq!(assets[0].rel, "images/slide-004/img-001.png");
    assert_eq!(assets[1].rel, "images/img-002.gif");
    let mut counter: u32 = 0;
    let flat = extract_zip_assets(&names, &data, &buckets, OfficeKind::Flat, &mut counter);
    assert_eq!(flat[0].rel, "images/img-001.png");
    assert!(asset_index_files(&Vec::new()).is_empty());
}

fn heading(level: u8, texts: &[&str]) -> ElementInfo {
    ElementInfo::Heading { level, texts: strings(texts) }
}

fn elements_of(chunks: &[tokimo_package_fileparser::office::Chunk]) -> Vec<Vec<usize>> {
    chunks.iter().map(|c| c.elements.clone()).collect()
}

#[test]
fn splits_at_page_breaks() {
    let elems = vec![ElementInfo::Other, ElementInfo::Break, ElementInfo::Break, ElementInfo::Other, ElementInfo::Other, ElementInfo::Break];
    let chunks = split_long_section(&elems);
    assert_eq!(elements_of(&chunks), vec![vec![0], vec![3, 4]]);
    assert!(chunks.iter().all(|c| matches!(c.label, ChunkLabel::Page) && c.title_override.is_none()));
}

#[test]
fn splits_at_top_level_headings() {
    let elems = vec![
        ElementInfo::Other,
        heading(1, &["Intro"]),
        ElementInfo::Other,
        heading(2, &["Sub"]),
        heading(1, &[" Part ", "Two "]),
        ElementInfo::Other,
    ];
    let chunks = split_long_section(&elems);
    assert_eq!(elements_of(&chunks), vec![vec![0], vec![1, 2, 3], vec![4, 5]]);
    assert!(matches!(&chunks[0].label, ChunkLabel::Chapter(t) if t.is_empty()));
    assert_eq!(chunks[0].title_override, None);
    assert!(matches!(&chunks[1].label, ChunkLabel::Chapter(t) if t == "Intro"));
    assert_eq!(chunks[1].title_override.as_deref(), Some("Intro"));
    assert!(matches!(&chunks[2].label, ChunkLabel::Chapter(t) if t == "Part Two"));
    assert_eq!(chunks[2].title_override.as_deref(), Some("Part Two"));
}

#[test]
fn a_single_page_is_not_split() {
    let elems = vec![ElementInfo::Break, ElementInfo::Other, heading(1, &["Only"]), ElementInfo::Break];
    let chunks = split_long_section(&elems);
    assert_eq!(chunks.len(), 1);
    assert!(matches!(chunks[0].label, ChunkLabel::Single));
    assert_eq!(chunks[0].elements, vec![0, 1, 2, 3]);
    assert!(chunks[0].title_override.is_none());
}

#[test]
fn splits_long_flowing_sections_into_fixed_pages() {
    let elems: Vec<ElementInfo> = (0..450).map(|_| ElementInfo::Other).collect();
    let chunks = split_long_section(&elems);
    assert_eq!(chunks.len(), 3);
    assert_eq!(chunks[0].elements, (0..200).collect::<Vec<usize>>());
    assert_eq!(chunks[1].elements, (200..400).collect::<Vec<usize>>());
    assert_eq!(chunks[2].elements, (400..450).collect::<Vec<usize>>());
    assert!(chunks.iter().all(|c| matches!(c.label, ChunkLabel::Page)));
    let exactly: Vec<ElementInfo> = (0..200).map(|_| ElementInfo::Other).collect();
    assert_eq!(split_long_section(&exactly).len(), 1);
    let empty = split_long_section(&Vec::new());
    assert_eq!(empty.len(), 1);
    assert!(empty[0].elements.is_empty());
}

#[test]
fn splitting_keeps_every_element_once() {
    let elems = vec![
        heading(1, &["A"]),
        ElementInfo::Other,
        heading(1, &["B"]),
        ElementInfo::Other,
        heading(1, &["C"]),
    ];
    let all: Vec<usize> = split_long_section(&elems).into_iter().flat_map(|c| c.elements).collect();
    assert_eq!(all, vec![0, 1, 2, 3, 4]);
    let paged = vec![ElementInfo::Break, ElementInfo::Other, ElementInfo::Break, ElementInfo::Other];
    let all: Vec<usize> = split_long_section(&paged).into_iter().flat_map(|c| c.elements).collect();
    assert_eq!(all, vec![1, 3]);
}

#[test]
fn heading_text_is_concatenated_and_trimmed() {
    assert_eq!(heading_plain_text(&strings(&[" Hello ", "World "])), "Hello World");
    assert_eq!(heading_plain_text(&Vec::new()), "");
    assert_eq!(heading_plain_text(&strings(&["\t中文\n"])), "中文");
}

fn zip_bytes(entries: &[(&str, &[u8])]) -> Vec<u8> {
    let mut w = zip::ZipWriter::new(std::io::Cursor::new(Vec::new()));
    let opts = zip::write::SimpleFileOptions::default().compression_method(zip::CompressionMethod::Stored);
    for (name, data) in entries {
        w.start_file(*name, opts).unwrap();
        std::io::Write::write_all(&mut w, data).unwrap();
    }
    w.finish().unwrap().into_inner()
}

#[test]
fn reads_package_assets_from_bytes() {
    let bytes = zip_bytes(&[
        ("ppt/slides/_rels/slide1.xml.rels", br#"<Relationship Target="../media/image1.png"/>"#),
        ("ppt/slides/_rels/slide2.xml.rels", br#"<Relationship Target="../media/image2.jpeg"/>"#),
        ("ppt/media/image1.png", &[0x89, b'P', b'N', b'G', 0, 0, 0, 0]),
        ("ppt/media/image2.jpeg", &[0xff, 0xd8, 0xff, 0]),
        ("ppt/media/sound.wav", b"RIFF"),
        ("ppt/embeddings/oleObject1.bin", &[1, 2, 3]),
    ]);
    let mut counter: u32 = 5;
    let p = package_assets(&bytes, OfficeKind::Pptx, &mut counter).unwrap();
    assert_eq!(counter, 7);
    let rels: Vec<&str> = p.assets.iter().map(|a| a.rel.as_str()).collect();
    assert_eq!(
        rels,
        vec![
            "images/slide-001/img-006.png",
            "images/slide-002/img-007.jpeg",
            "media/media-001.wav",
            "embeddings/embed-001-oleObject1.bin",
        ]
    );
    assert_eq!(p.data[p.assets[1].entry].as_deref(), Some(&[0xff, 0xd8, 0xff, 0][..]));
}

#[test]
fn rejects_bytes_that_are_not_a_package() {
    let mut counter: u32 = 0;
    assert!(matches!(
        package_assets(b"not a zip", OfficeKind::Flat, &mut counter),
        Err(tokimo_package_fileparser::ParseError::Zip(_))
    ));
    assert_eq!(counter, 0);
}
