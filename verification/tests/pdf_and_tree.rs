use tokimo_package_fileparser::output::{render_tree, FileNode, ParseOutput};
use tokimo_package_fileparser::pdf::{
    image_encoding, page_files, page_markdown, pdf_embeddings_markdown, pdf_image_file, pdf_images_markdown,
    try_encode_raster_as_png, ImageEncoding, PdfObject, PdfValue, extract_pdf_embedded_files, extract_pdf_images,
};

#[test]
fn renders_pages() {
    assert_eq!(page_markdown(0, "line one   \nline two\t\r\n\nlast"), "# Page 1\n\nline one\nline two\n\nlast\n");
    assert_eq!(page_markdown(11, ""), "# Page 12\n\n");
    assert_eq!(page_markdown(0, "Hello, world!\n"), "# Page 1\n\nHello, world!\n");
}

#[test]
fn parses_pdf_multiple_pages() {
    let pages = vec!["中文 PDF 测试文档\n".to_string(), "Hello, world!".to_string(), "Rust 是一门系统编程语言".to_string()];
    let files = page_files(&pages);
    let names: Vec<&str> = files.iter().map(|f| f.name.as_str()).collect();
    assert_eq!(names, vec!["page-001.md", "page-002.md", "page-003.md"]);
    assert_eq!(files[0].content, "# Page 1\n\n中文 PDF 测试文档\n");
    assert_eq!(files[1].content, "# Page 2\n\nHello, world!\n");
    assert_eq!(files[2].content, "# Page 3\n\nRust 是一门系统编程语言\n");
}

#[test]
fn a_document_without_text_gets_one_empty_page() {
    let files = page_files(&Vec::new());
    assert_eq!(files.len(), 1);
    assert_eq!(files[0].name, "page-001.md");
    assert_eq!(files[0].content, "# Page 1\n\n");
}

#[test]
fn renders_pdf_indexes() {
    let rels = vec!["images/img-001.png".to_string(), "images/img-002.jpg".to_string()];
    assert_eq!(
        pdf_images_markdown(&rels),
        "# Extracted images\n\n![](images/img-001.png)\n\n![](images/img-002.jpg)\n\n"
    );
    let items = vec![("embeddings/embed-001-a.txt".to_string(), "a.txt".to_string())];
    assert_eq!(pdf_embeddings_markdown(&items), "# Embedded files\n\n- [a.txt](embeddings/embed-001-a.txt)\n");
    assert_eq!(pdf_embeddings_markdown(&Vec::new()), "# Embedded files\n\n");
}

#[test]
fn chooses_image_encodings() {
    assert_eq!(image_encoding(Some("DCTDecode")), ImageEncoding::Jpeg);
    assert_eq!(image_encoding(Some("JPXDecode")), ImageEncoding::Jpeg2000);
    assert_eq!(image_encoding(Some("CCITTFaxDecode")), ImageEncoding::Fax);
    assert_eq!(image_encoding(Some("FlateDecode")), ImageEncoding::Decode);
    assert_eq!(image_encoding(None), ImageEncoding::Decode);
}

#[test]
fn encodes_rasters_as_png() {
    let png_magic = [0x89u8, b'P', b'N', b'G', 0x0d, 0x0a, 0x1a, 0x0a];
    let gray = try_encode_raster_as_png(Some(2), Some(2), None, Some("DeviceGray"), &[0, 64, 128, 255, 9, 9]).unwrap();
    assert_eq!(&gray[..8], &png_magic);
    let rgb = try_encode_raster_as_png(Some(1), Some(1), Some(8), Some("CalRGB"), &[1, 2, 3]).unwrap();
    assert_eq!(&rgb[..8], &png_magic);
    // The same pixels give the same file; different pixels a different one.
    let again = try_encode_raster_as_png(Some(2), Some(2), Some(8), Some("CalGray"), &[0, 64, 128, 255]).unwrap();
    assert_eq!(gray, again);
    let other = try_encode_raster_as_png(Some(2), Some(2), Some(8), Some("CalGray"), &[1, 64, 128, 255]).unwrap();
    assert_ne!(gray, other);

    assert!(try_encode_raster_as_png(Some(2), Some(2), Some(8), Some("DeviceGray"), &[1, 2, 3]).is_none());
    assert!(try_encode_raster_as_png(Some(1), Some(1), Some(3), Some("DeviceGray"), &[1, 2]).is_none());
    // 16-bit samples keep their high byte.
    assert_eq!(
        try_encode_raster_as_png(Some(2), Some(1), Some(16), Some("DeviceGray"), &[7, 99, 200, 1]),
        try_encode_raster_as_png(Some(2), Some(1), Some(8), Some("DeviceGray"), &[7, 200])
    );
    assert!(try_encode_raster_as_png(Some(2), Some(1), Some(16), Some("DeviceGray"), &[7, 99, 200]).is_none());
    // CMYK becomes RGB: (255 - c) * (255 - k) / 255 per channel.
    assert_eq!(
        try_encode_raster_as_png(Some(2), Some(1), Some(8), Some("DeviceCMYK"), &[0, 0, 0, 0, 255, 0, 51, 51]),
        try_encode_raster_as_png(Some(2), Some(1), Some(8), Some("DeviceRGB"), &[255, 255, 255, 0, 204, 163])
    );
    assert_eq!(
        try_encode_raster_as_png(Some(1), Some(1), Some(16), Some("DeviceCMYK"), &[0, 1, 255, 2, 0, 3, 0, 4]),
        try_encode_raster_as_png(Some(1), Some(1), Some(8), Some("DeviceRGB"), &[255, 0, 255])
    );
    assert!(try_encode_raster_as_png(Some(1), Some(1), Some(8), Some("DeviceCMYK"), &[1, 2, 3]).is_none());
    assert!(try_encode_raster_as_png(Some(1), Some(1), Some(8), Some("Indexed"), &[1, 2, 3, 4]).is_none());
    assert!(try_encode_raster_as_png(Some(1), Some(1), Some(8), None, &[1]).is_none());
    assert!(try_encode_raster_as_png(None, Some(1), Some(8), Some("DeviceGray"), &[1]).is_none());
    assert!(try_encode_raster_as_png(Some(1 << 20), Some(1 << 20), Some(8), Some("DeviceRGB"), &[1]).is_none());
}

fn file(name: &str, size: u64) -> FileNode {
    FileNode::File { name: name.to_string(), path: name.to_string(), size }
}

fn sample_tree() -> FileNode {
    FileNode::Dir {
        name: "sample".to_string(),
        path: String::new(),
        children: vec![
            file("images.md", 40),
            FileNode::Dir {
                name: "images".to_string(),
                path: "images".to_string(),
                children: vec![
                    FileNode::Dir { name: "slide-001".to_string(), path: "images/slide-001".to_string(), children: vec![] },
                    file("img-001.png", 5),
                ],
            },
            file("page-001.md", 12),
        ],
    }
}

#[test]
fn renders_trees() {
    let expected = "sample\n\
                    ├── images.md  (40 B)\n\
                    ├── images/\n\
                    │   ├── slide-001/\n\
                    │   └── img-001.png  (5 B)\n\
                    └── page-001.md  (12 B)\n";
    assert_eq!(render_tree(&sample_tree()), expected);
    assert_eq!(render_tree(&file("only.md", 0)), "only.md\n");
    let empty = FileNode::Dir { name: "out".to_string(), path: String::new(), children: vec![] };
    assert_eq!(render_tree(&empty), "out\n");
}

#[test]
fn tree_has_one_line_per_node() {
    let t = render_tree(&sample_tree());
    assert_eq!(t.matches('\n').count(), 6);
}

#[test]
fn parse_output_has_tree() {
    let out = ParseOutput::new("/tmp/out/sample".to_string(), sample_tree());
    assert_eq!(out.dir, "/tmp/out/sample");
    assert!(out.tree.contains("page-001.md"));
    assert_eq!(out.tree, render_tree(&sample_tree()));
    assert!(matches!(&out.files, FileNode::Dir { children, .. } if children.len() == 3));
}

#[test]
fn decides_pdf_image_files() {
    let mut counter: u32 = 0;
    let f = pdf_image_file(ImageEncoding::Jpeg, &[0xff, 0xd8], None, None, None, None, None, &mut counter).unwrap();
    assert_eq!(counter, 1);
    assert_eq!(f.file_name, "img-001.jpg");
    assert_eq!(f.rel, "images/img-001.jpg");
    assert_eq!(f.bytes, vec![0xff, 0xd8]);

    let f = pdf_image_file(ImageEncoding::Jpeg2000, &[1], None, None, None, None, None, &mut counter).unwrap();
    assert_eq!(f.file_name, "img-002.jp2");

    let f = pdf_image_file(ImageEncoding::Fax, &[7, 8], None, None, None, None, None, &mut counter).unwrap();
    assert_eq!(f.file_name, "img-003.tif");
    assert_eq!(f.bytes, vec![7, 8]);
    assert!(pdf_image_file(ImageEncoding::Fax, &[], None, None, None, None, None, &mut counter).is_none());
    assert!(pdf_image_file(ImageEncoding::Jpeg, &[], None, None, None, None, None, &mut counter).is_none());
    assert!(pdf_image_file(ImageEncoding::Decode, &[1], None, Some(1), Some(1), None, Some("DeviceGray"), &mut counter)
        .is_none());
    assert_eq!(counter, 3);

    let raw = [10u8, 20, 30];
    let f = pdf_image_file(
        ImageEncoding::Decode,
        &[0],
        Some(&raw),
        Some(1),
        Some(1),
        Some(8),
        Some("DeviceRGB"),
        &mut counter,
    )
    .unwrap();
    assert_eq!(counter, 4);
    assert_eq!(f.rel, "images/img-004.png");
    assert_eq!(f.bytes, try_encode_raster_as_png(Some(1), Some(1), Some(8), Some("DeviceRGB"), &raw).unwrap());
}

fn obj(n: u32, dict: Vec<(&str, PdfValue)>, stream: bool, content: &[u8], decoded: Option<Vec<u8>>) -> PdfObject {
    PdfObject {
        id: (n, 0),
        dict: Some(dict.into_iter().map(|(k, v)| (k.to_string(), v)).collect()),
        stream,
        content: content.to_vec(),
        decoded,
    }
}

fn name(s: &str) -> PdfValue {
    PdfValue::Name(s.to_string())
}

#[test]
fn extracts_pdf_images_in_object_order() {
    let objs = vec![
        obj(1, vec![("Subtype", name("Image")), ("Filter", name("DCTDecode"))], true, &[0xff, 0xd8], None),
        obj(2, vec![("Subtype", name("Form"))], true, &[1], None),
        obj(
            3,
            vec![("Subtype", name("Image")), ("Filter", PdfValue::Array(vec![name("FlateDecode"), name("CCITTFaxDecode")]))],
            true,
            &[5, 6],
            None,
        ),
        obj(4, vec![("Subtype", name("Image")), ("Filter", name("JPXDecode"))], false, &[9], None),
        obj(
            5,
            vec![
                ("Subtype", name("Image")),
                ("Width", PdfValue::Int(1)),
                ("Height", PdfValue::Int(1)),
                ("ColorSpace", name("DeviceGray")),
            ],
            true,
            &[0],
            Some(vec![42]),
        ),
        obj(6, vec![("Subtype", name("Image")), ("ColorSpace", name("DeviceCMYK"))], true, &[0], Some(vec![1])),
        obj(7, vec![("Subtype", name("Image")), ("Filter", name("DCTDecode"))], true, &[], None),
    ];
    let files = extract_pdf_images(&objs);
    let rels: Vec<&str> = files.iter().map(|f| f.rel.as_str()).collect();
    assert_eq!(rels, vec!["images/img-001.jpg", "images/img-002.tif", "images/img-003.png"]);
    assert_eq!(files[0].bytes, vec![0xff, 0xd8]);
    assert_eq!(files[1].bytes, vec![5, 6]);
    assert_eq!(&files[2].bytes[..4], &[0x89, b'P', b'N', b'G']);
}

#[test]
fn extracts_pdf_embedded_files() {
    let spec = |n: u32, ef: Vec<(&str, PdfValue)>, names: Vec<(&str, PdfValue)>| {
        let mut d = vec![("EF", PdfValue::Dict(ef.into_iter().map(|(k, v)| (k.to_string(), v)).collect()))];
        d.extend(names);
        obj(n, d, false, &[], None)
    };
    let objs = vec![
        spec(1, vec![("F", PdfValue::Ref(10, 0)), ("UF", PdfValue::Ref(11, 0))], vec![("UF", PdfValue::Str("Report 1.pdf".into()))]),
        spec(2, vec![("F", PdfValue::Ref(10, 0))], vec![("F", PdfValue::Int(3))]),
        spec(3, vec![("F", PdfValue::Ref(12, 0))], vec![]),
        spec(4, vec![("F", PdfValue::Ref(99, 0))], vec![]),
        obj(10, vec![], true, b"raw", None),
        obj(11, vec![], true, b"zipped", Some(b"plain".to_vec())),
        obj(12, vec![], true, b"", None),
    ];
    let files = extract_pdf_embedded_files(&objs);
    assert_eq!(files.len(), 2);
    assert_eq!(files[0].original, "Report 1.pdf");
    assert_eq!(files[0].file_name, "embed-001-Report_1.pdf");
    assert_eq!(files[0].rel, "embeddings/embed-001-Report_1.pdf");
    assert_eq!(files[0].bytes, b"plain".to_vec());
    assert_eq!(files[1].original, "file-001.bin");
    assert_eq!(files[1].rel, "embeddings/embed-002-file-001.bin");
    assert_eq!(files[1].bytes, b"raw".to_vec());
}

#[test]
fn encodes_packed_rasters_as_png() {
    let enc = |w: i64, h: i64, bpc: i64, cs: &str, raw: &[u8]| try_encode_raster_as_png(Some(w), Some(h), Some(bpc), Some(cs), raw);
    // 1-bit grey, rows padded to whole bytes.
    assert_eq!(enc(3, 2, 1, "DeviceGray", &[0b1010_0000, 0b0100_0000]), enc(3, 2, 8, "DeviceGray", &[255, 0, 255, 0, 255, 0]));
    // 2-bit grey scaled to 0..255.
    assert_eq!(enc(3, 1, 2, "DeviceGray", &[0b1101_1000]), enc(3, 1, 8, "DeviceGray", &[255, 85, 170]));
    // 4-bit RGB.
    assert_eq!(enc(1, 1, 4, "DeviceRGB", &[0xF0, 0x80]), enc(1, 1, 8, "DeviceRGB", &[255, 0, 136]));
    assert!(enc(1, 1, 4, "DeviceRGB", &[0xF0]).is_none());
    assert!(enc(1, 1, 4, "DeviceCMYK", &[0xFF, 0xFF]).is_none());
    assert!(enc(3, 1, 1, "DeviceGray", &[0b1010_0000]).is_some());
}
