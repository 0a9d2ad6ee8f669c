use tokimo_package_fileparser::office::{
    chunk_file_name, chunk_files, chunk_title, finish_chunk_markdown, image_target, split_long_section, ChunkLabel, ElementInfo,
};
use tokimo_package_fileparser::pdf::{pdf_embed_target, pdf_image_target};
use tokimo_package_fileparser::util::{input_stem, sanitize_filename, stem_folder_name};

#[test]
fn sanitizes_file_names() {
    assert_eq!(sanitize_filename("Hello World"), "Hello_World");
    assert_eq!(sanitize_filename("a/b\\c:d*e?f\"g<h>i|j"), "a_b_c_d_e_f_g_h_i_j");
    assert_eq!(sanitize_filename("__.hidden.__"), "hidden");
    assert_eq!(sanitize_filename("report-v2_final.pdf"), "report-v2_final.pdf");
    assert_eq!(sanitize_filename("中文 文档"), "中文_文档");
    assert_eq!(sanitize_filename(""), "untitled");
    assert_eq!(sanitize_filename("..."), "untitled");
    assert_eq!(sanitize_filename("   "), "untitled");
    let long = "x".repeat(75);
    assert_eq!(sanitize_filename(&long), "x".repeat(60));
    let wide = "字".repeat(61);
    assert_eq!(sanitize_filename(&wide).chars().count(), 60);
}

#[test]
fn sanitized_names_are_safe() {
    for s in ["", "_._", " a b ", "../../etc/passwd", "名前:テスト?", "-x-", "a\tb\nc", &"ab".repeat(40)] {
        let r = sanitize_filename(s);
        let n = r.chars().count();
        assert!(n > 0 && n <= 60, "{r:?}");
        if r != "untitled" {
            assert!(!r.starts_with('_') && !r.starts_with('.'), "{r:?}");
            assert!(!r.chars().any(|c| c.is_whitespace() || "/\\:*?\"<>|".contains(c)), "{r:?}");
        }
    }
}

#[test]
fn output_folder_names() {
    assert_eq!(input_stem("/data/in/My Report.final.pdf"), "My_Report.final");
    assert_eq!(input_stem("notes.txt"), "notes");
    assert_eq!(input_stem("/"), "output");
    assert_eq!(input_stem("a.tar.gz"), "a.tar");
    assert_eq!(input_stem(".bashrc"), "bashrc");
    assert_eq!(input_stem("plain"), "plain");
    assert_eq!(stem_folder_name(Some("a b")), "a_b");
    assert_eq!(stem_folder_name(Some("")), "untitled");
    assert_eq!(stem_folder_name(None), "output");
}

#[test]
fn chunk_file_names() {
    assert_eq!(chunk_file_name(true, 0, Some("My Doc"), &ChunkLabel::Single, 0), "section-001-My_Doc.md");
    assert_eq!(chunk_file_name(true, 0, None, &ChunkLabel::Single, 0), "section-001.md");
    assert_eq!(chunk_file_name(false, 4, Some("Sheet1"), &ChunkLabel::Single, 0), "section-005-Sheet1.md");
    assert_eq!(chunk_file_name(true, 0, Some("ignored"), &ChunkLabel::Page, 2), "page-003.md");
    assert_eq!(chunk_file_name(false, 1, Some("Intro"), &ChunkLabel::Page, 2), "section-002-Intro-page-003.md");
    assert_eq!(chunk_file_name(false, 1, None, &ChunkLabel::Page, 0), "section-002-page-001.md");
    assert_eq!(
        chunk_file_name(true, 0, None, &ChunkLabel::Chapter("Getting Started".to_string()), 0),
        "chapter-001-Getting_Started.md"
    );
    assert_eq!(
        chunk_file_name(true, 0, None, &ChunkLabel::Chapter(String::new()), 9),
        "chapter-010-untitled.md"
    );
    assert_eq!(
        chunk_file_name(false, 0, Some("S"), &ChunkLabel::Chapter("Part 2".to_string()), 1),
        "section-001-S-chapter-002-Part_2.md"
    );
    assert_eq!(chunk_file_name(true, 0, None, &ChunkLabel::Page, 999), "page-1000.md");
}

#[test]
fn chunk_titles() {
    assert_eq!(chunk_title(0, None, Some("Section")), Some("Section".to_string()));
    assert_eq!(chunk_title(0, Some("Own"), Some("Section")), Some("Own".to_string()));
    assert_eq!(chunk_title(1, None, Some("Section")), None);
    assert_eq!(chunk_title(3, Some("Own"), None), Some("Own".to_string()));
    assert_eq!(chunk_title(0, None, None), None);
}

#[test]
fn finishes_chunk_markdown() {
    let saved = vec!["images/img-001.png".to_string(), "images/img-002.jpg".to_string()];
    assert_eq!(
        finish_chunk_markdown("# T\n\nbody", true, &saved),
        "# T\n\nbody\n\n## Extracted images\n\n![](images/img-001.png)\n![](images/img-002.jpg)\n"
    );
    assert_eq!(finish_chunk_markdown("body\n", false, &saved), "body\n");
    assert_eq!(finish_chunk_markdown("body\n", true, &Vec::new()), "body\n");
    assert_eq!(finish_chunk_markdown("", false, &Vec::new()), "\n");
}

#[test]
fn section_image_targets() {
    let mut counter: u32 = 0;
    let t = image_target(Some("slide-002"), &mut counter, None, &[0x89, b'P', b'N', b'G', 0]).unwrap();
    assert_eq!(counter, 1);
    assert_eq!(t.bucket.as_deref(), Some("slide-002"));
    assert_eq!(t.file_name, "img-001.png");
    assert_eq!(t.rel, "images/slide-002/img-001.png");

    let t = image_target(None, &mut counter, Some("jpeg"), &[1, 2, 3]).unwrap();
    assert_eq!(counter, 2);
    assert!(t.bucket.is_none());
    assert_eq!(t.file_name, "img-002.jpeg");
    assert_eq!(t.rel, "images/img-002.jpeg");

    let t = image_target(None, &mut counter, None, &[7, 7, 7]).unwrap();
    assert_eq!(t.file_name, "img-003.bin");

    assert!(image_target(Some("b"), &mut counter, Some("png"), &[]).is_none());
    assert_eq!(counter, 3);
}

#[test]
fn pdf_targets() {
    let mut counter: u32 = 4;
    let (f, rel) = pdf_image_target(&mut counter, "png");
    assert_eq!(counter, 5);
    assert_eq!(f, "img-005.png");
    assert_eq!(rel, "images/img-005.png");

    let mut n: u32 = 0;
    let (f, rel, original) = pdf_embed_target(&mut n, None);
    assert_eq!(n, 1);
    assert_eq!(original, "file-000.bin");
    assert_eq!(f, "embed-001-file-000.bin");
    assert_eq!(rel, "embeddings/embed-001-file-000.bin");

    let (f, rel, original) = pdf_embed_target(&mut n, Some("Budget 2024.xlsx"));
    assert_eq!(n, 2);
    assert_eq!(original, "Budget 2024.xlsx");
    assert_eq!(f, "embed-002-Budget_2024.xlsx");
    assert_eq!(rel, "embeddings/embed-002-Budget_2024.xlsx");
}

#[test]
fn chunk_names_of_a_section_are_distinct() {
    let elems = vec![
        ElementInfo::Heading { level: 1, texts: vec!["Same".to_string()] },
        ElementInfo::Other,
        ElementInfo::Heading { level: 1, texts: vec!["Same".to_string()] },
        ElementInfo::Heading { level: 1, texts: vec!["1".to_string()] },
    ];
    let chunks = split_long_section(&elems);
    let mut names: Vec<String> = chunks
        .iter()
        .enumerate()
        .map(|(j, c)| chunk_file_name(false, 2, Some("Doc"), &c.label, j))
        .collect();
    assert_eq!(
        names,
        vec![
            "section-003-Doc-chapter-001-Same.md",
            "section-003-Doc-chapter-002-Same.md",
            "section-003-Doc-chapter-003-1.md",
        ]
    );
    names.sort();
    names.dedup();
    assert_eq!(names.len(), 3);
}

#[test]
fn sanitizing_twice_changes_nothing() {
    for s in ["Hello World", "__x__", "a/b:c", "", "名前 テスト", &"ab ".repeat(30)] {
        let r = sanitize_filename(s);
        if !r.ends_with('_') && !r.ends_with('.') {
            assert_eq!(sanitize_filename(&r), r);
        }
    }
    // The one exception: a cut that leaves a trailing `_`.
    let r = sanitize_filename(&format!("{} b", "a".repeat(59)));
    assert!(r.ends_with('_'));
    assert_ne!(sanitize_filename(&r), r);
}

#[test]
fn plans_chunk_files() {
    let elems = vec![
        ElementInfo::Heading { level: 1, texts: vec!["One".to_string()] },
        ElementInfo::Heading { level: 1, texts: vec!["Two".to_string()] },
    ];
    let chunks = split_long_section(&elems);
    let files = chunk_files(true, 0, Some("Book"), &chunks);
    let got: Vec<(&str, Option<&str>, bool)> =
        files.iter().map(|f| (f.name.as_str(), f.title.as_deref(), f.last)).collect();
    assert_eq!(
        got,
        vec![("chapter-001-One.md", Some("One"), false), ("chapter-002-Two.md", Some("Two"), true)]
    );
    let single = split_long_section(&vec![ElementInfo::Other]);
    let files = chunk_files(false, 2, Some("Sheet 3"), &single);
    assert_eq!(files[0].name, "section-003-Sheet_3.md");
    assert_eq!(files[0].title.as_deref(), Some("Sheet 3"));
    assert!(files[0].last);
}

#[test]
fn sections_never_share_file_names() {
    let a = chunk_file_name(false, 0, Some("2"), &ChunkLabel::Page, 0);
    let b = chunk_file_name(false, 1, None, &ChunkLabel::Page, 0);
    let c = chunk_file_name(false, 11, None, &ChunkLabel::Single, 0);
    assert_eq!(a, "section-001-2-page-001.md");
    assert_eq!(b, "section-002-page-001.md");
    assert_eq!(c, "section-012.md");
    assert!(a != b && b != c && a != c);
}

#[test]
fn names_from_full_paths() {
    assert_eq!(input_stem("/data/Q1 Report.final.docx"), "Q1_Report.final");
    assert_eq!(input_stem("in/deep/.bashrc"), "bashrc");
    assert_eq!(input_stem(""), "output");
    assert_eq!(sanitize_filename("My Report: v2.pdf"), "My_Report__v2.pdf");
    assert_eq!(sanitize_filename("..hidden_"), "hidden");
    assert_eq!(sanitize_filename("  /?*  "), "untitled");
    assert_eq!(sanitize_filename(&"a".repeat(70)), "a".repeat(60));
    assert_eq!(sanitize_filename(&"中".repeat(70)), "中".repeat(60));
    assert_eq!(sanitize_filename(&"中".repeat(40)), "中".repeat(40));
    assert_eq!(sanitize_filename("tab\u{3000}wide\u{a0}nbsp"), "tab_wide_nbsp");
}
