use tokimo_package_fileparser::format::FileKind;
use tokimo_package_fileparser::office::OfficeKind;
use tokimo_package_fileparser::{check_input_size, ParseError, ParseOptions, DEFAULT_MAX_ARCHIVE_BYTES};

fn kind_of(path: &str) -> Result<FileKind, ParseError> {
    FileKind::from_path(path, false)
}

#[test]
fn recognises_supported_extensions() {
    assert!(matches!(kind_of("a/report.pdf"), Ok(FileKind::Pdf)));
    assert!(matches!(kind_of("x.docx"), Ok(FileKind::Docx)));
    assert!(matches!(kind_of("x.XLSX"), Ok(FileKind::Xlsx)));
    assert!(matches!(kind_of("x.xlsm"), Ok(FileKind::Xlsx)));
    assert!(matches!(kind_of("x.PpTx"), Ok(FileKind::Pptx)));
    assert!(matches!(kind_of("x.doc"), Ok(FileKind::Doc)));
    assert!(matches!(kind_of("x.xls"), Ok(FileKind::Xls)));
    assert!(matches!(kind_of("x.ppt"), Ok(FileKind::Ppt)));
    assert!(matches!(kind_of("x.txt"), Ok(FileKind::Txt)));
    assert!(matches!(kind_of("server.log"), Ok(FileKind::Txt)));
    assert!(matches!(kind_of("x.csv"), Ok(FileKind::Csv)));
    assert!(matches!(kind_of("x.tsv"), Ok(FileKind::Csv)));
    assert!(matches!(kind_of("x.htm"), Ok(FileKind::Html)));
    assert!(matches!(kind_of("x.html"), Ok(FileKind::Html)));
    assert!(matches!(kind_of("x.json"), Ok(FileKind::Json)));
    assert!(matches!(kind_of("README.MD"), Ok(FileKind::Markdown)));
}

#[test]
fn plain_names_are_read_by_their_last_dot() {
    assert!(matches!(kind_of("archive.tar.pdf"), Ok(FileKind::Pdf)));
    assert!(matches!(kind_of(".pdf"), Err(ParseError::MissingExtension(_))));
    match kind_of("name.") {
        Err(ParseError::UnsupportedExtension(m)) => assert_eq!(m, ""),
        other => panic!("unexpected: {other:?}"),
    }
    assert_eq!(OfficeKind::from_path("deck.v2.PPTX"), OfficeKind::Pptx);
    assert_eq!(OfficeKind::from_path(".pptx"), OfficeKind::Flat);
}

#[test]
fn archive_verdict_comes_first() {
    assert!(matches!(FileKind::from_path("bundle.tar.gz", true), Ok(FileKind::Archive)));
    assert!(matches!(FileKind::from_path("no_extension", true), Ok(FileKind::Archive)));
    assert!(matches!(FileKind::from_extension(true, "x.pdf", Some("pdf")), Ok(FileKind::Archive)));
}

#[test]
fn rejects_unknown_extension() {
    match kind_of("/tmp/some/file.xyz") {
        Err(ParseError::UnsupportedExtension(m)) => assert_eq!(m, "xyz"),
        other => panic!("unexpected: {other:?}"),
    }
    match FileKind::from_extension(false, "f.XYZ", Some("XYZ")) {
        Err(ParseError::UnsupportedExtension(m)) => assert_eq!(m, "xyz"),
        other => panic!("unexpected: {other:?}"),
    }
}

#[test]
fn reports_missing_extension_with_the_path() {
    match kind_of("dir/Makefile") {
        Err(ParseError::MissingExtension(m)) => assert_eq!(m, "dir/Makefile"),
        other => panic!("unexpected: {other:?}"),
    }
    match FileKind::from_extension(false, "README", None) {
        Err(ParseError::MissingExtension(m)) => assert_eq!(m, "README"),
        other => panic!("unexpected: {other:?}"),
    }
}

#[test]
fn archive_size_limit_applies_to_archives_only() {
    let opts = ParseOptions::default();
    assert_eq!(opts.max_archive_bytes, DEFAULT_MAX_ARCHIVE_BYTES);
    assert_eq!(DEFAULT_MAX_ARCHIVE_BYTES, 1_073_741_824);
    assert!(opts.archive_password.is_none());

    assert!(check_input_size(FileKind::Archive, DEFAULT_MAX_ARCHIVE_BYTES, &opts).is_ok());
    match check_input_size(FileKind::Archive, DEFAULT_MAX_ARCHIVE_BYTES + 1, &opts) {
        Err(ParseError::ArchiveTooLarge { size, limit }) => {
            assert_eq!(size, DEFAULT_MAX_ARCHIVE_BYTES + 1);
            assert_eq!(limit, DEFAULT_MAX_ARCHIVE_BYTES);
        }
        other => panic!("unexpected: {other:?}"),
    }
    assert!(check_input_size(FileKind::Pdf, u64::MAX, &opts).is_ok());

    let small = ParseOptions { max_archive_bytes: 10, archive_password: Some("pw".to_string()) };
    assert!(check_input_size(FileKind::Archive, 10, &small).is_ok());
    assert!(matches!(
        check_input_size(FileKind::Archive, 11, &small),
        Err(ParseError::ArchiveTooLarge { size: 11, limit: 10 })
    ));
}

#[test]
fn office_kind_by_extension() {
    assert_eq!(OfficeKind::from_extension(Some("PPTX")), OfficeKind::Pptx);
    assert_eq!(OfficeKind::from_extension(Some("xlsm")), OfficeKind::Xlsx);
    assert_eq!(OfficeKind::from_extension(Some("docx")), OfficeKind::Flat);
    assert_eq!(OfficeKind::from_extension(None), OfficeKind::Flat);
    assert_eq!(OfficeKind::from_path("deck/slides.pptx"), OfficeKind::Pptx);
    assert_eq!(OfficeKind::from_path("book.xlsx"), OfficeKind::Xlsx);
    assert_eq!(OfficeKind::from_path("old.ppt"), OfficeKind::Flat);
}

#[test]
fn full_paths_are_read_by_their_file_name() {
    assert!(matches!(kind_of("/data/REPORT.PDF"), Ok(FileKind::Pdf)));
    assert!(matches!(kind_of("a.b/c/notes.md"), Ok(FileKind::Markdown)));
    assert!(matches!(kind_of("dir.pdf/README"), Err(ParseError::MissingExtension(_))));
    assert_eq!(OfficeKind::from_path("/x/y/deck.pptx"), OfficeKind::Pptx);
}
