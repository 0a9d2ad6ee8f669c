use tokimo_package_fileparser::text::{
    csv_delimiter, csv_markdown, csv_to_dir, decode_text_auto, escape_md_cell, fenced_markdown, html_to_dir,
    json_to_dir, markdown_to_dir, strip_html_tags, txt_to_dir, OutputFile,
};
use tokimo_package_fileparser::format::FileKind;
use tokimo_package_fileparser::ParseError;

fn single(files: Vec<OutputFile>) -> String {
    assert_eq!(files.len(), 1);
    assert_eq!(files[0].name, "content.md");
    files.into_iter().next().unwrap().content
}

fn rows(v: &[&[&str]]) -> Vec<Vec<String>> {
    v.iter().map(|r| r.iter().map(|s| s.to_string()).collect()).collect()
}

#[test]
fn decodes_utf8_gbk_and_utf16() {
    assert_eq!(decode_text_auto("中文 text".as_bytes(), "a.txt").unwrap(), "中文 text");
    // "中文" in GBK.
    assert_eq!(decode_text_auto(&[0xD6, 0xD0, 0xCE, 0xC4], "a.txt").unwrap(), "中文");
    // Not UTF-8, not GBK; UTF-16LE without a byte-order mark.
    assert_eq!(decode_text_auto(&[0x41, 0x00, 0xFF, 0x00], "a.txt").unwrap(), "A\u{ff}");
    // A UTF-16LE byte-order mark selects that encoding.
    assert_eq!(decode_text_auto(&[0xFF, 0xFE, 0x41, 0x00], "a.txt").unwrap(), "A");
    assert_eq!(decode_text_auto(&[], "a.txt").unwrap(), "");
}

#[test]
fn reports_undecodable_text() {
    match decode_text_auto(&[0xFF], "dir/x.txt") {
        Err(ParseError::Encoding(m)) => assert_eq!(m, "failed to decode dir/x.txt as UTF-8/GBK/UTF-16"),
        other => panic!("unexpected: {other:?}"),
    }
    match txt_to_dir("bad.txt", &[0xFF]) {
        Err(ParseError::Encoding(m)) => assert_eq!(m, "failed to decode bad.txt as UTF-8/GBK/UTF-16"),
        other => panic!("unexpected: {other:?}"),
    }
    assert!(matches!(html_to_dir("bad.html", &[0xFF]), Err(ParseError::Encoding(_))));
    assert!(matches!(csv_to_dir("bad.csv", &[0xFF]), Err(ParseError::Encoding(_))));
}

#[test]
fn parses_txt() {
    let md = single(txt_to_dir("/in/sample.txt", "中文内容\nline 2".as_bytes()).unwrap());
    assert_eq!(md, "# sample.txt\n\n```\n中文内容\nline 2\n```\n");
    assert!(md.contains("中文"));
    let md = single(txt_to_dir("n.log", b"done\n").unwrap());
    assert_eq!(md, "# n.log\n\n```\ndone\n```\n");
}

#[test]
fn parses_markdown_passthrough() {
    let src = "# 中文标题\n\nbody";
    let path = "tests/fixtures/sample.md";
    assert!(matches!(FileKind::from_path(path, false), Ok(FileKind::Markdown)));
    assert!(matches!(FileKind::from_path("sample.md", false), Ok(FileKind::Markdown)));
    let md = single(markdown_to_dir(path, src.as_bytes()).unwrap());
    assert!(md.contains("# 中文标题"));
    assert_eq!(md, src);
}

#[test]
fn headings_name_the_file_and_tsv_uses_tabs() {
    assert_eq!(single(txt_to_dir("notes.TXT", b"x").unwrap()), "# notes.TXT\n\n```\nx\n```\n");
    assert_eq!(single(html_to_dir("page.htm", b"<b>x</b>").unwrap()), "# page.htm\n\nx\n");
    assert_eq!(single(csv_to_dir("a.b.tSv", b"p\tq\n").unwrap()), "# a.b.tSv\n\n| p | q |\n| --- | --- |\n");
    assert_eq!(single(csv_to_dir("a.csv", b"p\tq\n").unwrap()), "# a.csv\n\n| p\tq |\n| --- |\n");
    assert_eq!(single(csv_to_dir("/in/dir.csv/t.TSV", b"p\tq\n").unwrap()), "# t.TSV\n\n| p | q |\n| --- | --- |\n");
    assert_eq!(single(txt_to_dir("/a/b/notes.txt", b"x").unwrap()), "# notes.txt\n\n```\nx\n```\n");
    assert_eq!(single(json_to_dir("rel/d.json", b"{}").unwrap()), "# d.json\n\n```json\n{}\n```\n");
    assert_eq!(single(html_to_dir("/w/p.html", b"hi").unwrap()), "# p.html\n\nhi\n");
}

#[test]
fn parses_json() {
    let md = single(json_to_dir("data/sample.json", br#"{"a": 1}"#).unwrap());
    assert_eq!(md, "# sample.json\n\n```json\n{\"a\": 1}\n```\n");
    assert!(md.contains("```json"));
}

#[test]
fn fenced_blocks() {
    assert_eq!(fenced_markdown("t", "```", ""), "# t\n\n```\n\n```\n");
    assert_eq!(fenced_markdown("t", "```json", "x\n"), "# t\n\n```json\nx\n```\n");
}

#[test]
fn parses_csv() {
    let md = single(csv_to_dir("sample.csv", "姓名,年龄\n张三,30\n李四,4\n".as_bytes()).unwrap());
    assert_eq!(md, "# sample.csv\n\n| 姓名 | 年龄 |\n| --- | --- |\n| 张三 | 30 |\n| 李四 | 4 |\n");
    assert!(md.contains("| 姓名 |"));
}

#[test]
fn parses_tsv_and_ragged_rows() {
    let md = single(csv_to_dir("t.TSV", b"a\tb\tc\n1\n").unwrap());
    assert_eq!(md, "# t.TSV\n\n| a | b | c |\n| --- | --- | --- |\n| 1 |  |  |\n");
    let md = single(csv_to_dir("empty.csv", b"").unwrap());
    assert_eq!(md, "# empty.csv\n\n_(empty table)_\n");
}

#[test]
fn renders_tables() {
    assert_eq!(
        csv_markdown("t", &rows(&[&["h|1", "h2"], &["multi\nline"]])),
        "# t\n\n| h\\|1 | h2 |\n| --- | --- |\n| multi line |  |\n"
    );
    assert_eq!(csv_markdown("t", &Vec::new()), "# t\n\n_(empty table)_\n");
    assert_eq!(csv_markdown("t", &rows(&[&[]])), "# t\n\n|\n|\n");
}

#[test]
fn escapes_cells() {
    assert_eq!(escape_md_cell("a|b\nc"), "a\\|b c");
    assert_eq!(escape_md_cell(""), "");
    for s in ["|", "\n\n", "x|\ny"] {
        let e = escape_md_cell(s);
        assert!(!e.contains('\n'));
        let cs: Vec<char> = e.chars().collect();
        for (i, c) in cs.iter().enumerate() {
            if *c == '|' {
                assert!(i > 0 && cs[i - 1] == '\\');
            }
        }
    }
}

#[test]
fn chooses_delimiters() {
    assert_eq!(csv_delimiter(Some("tsv")), b'\t');
    assert_eq!(csv_delimiter(Some("TsV")), b'\t');
    assert_eq!(csv_delimiter(Some("csv")), b',');
    assert_eq!(csv_delimiter(None), b',');
}

#[test]
fn parses_html() {
    let src = "<html><head><title>中文 HTML 标题</title><style>p { color: red }</style>\
               <script>console.log('x')</script></head>\n<body><h1>Head</h1>\n\n\n<p>a &amp; b</p></body></html>";
    let md = single(html_to_dir("sample.html", src.as_bytes()).unwrap());
    assert_eq!(md, "# sample.html\n\n中文 HTML 标题\nHead\n\na & b\n");
    assert!(md.contains("中文 HTML 标题"));
    assert!(!md.contains("console.log"), "script must be stripped: {md}");
}

#[test]
fn strips_tags_and_entities() {
    assert_eq!(strip_html_tags("a &lt;b&gt; &quot;c&quot; &#39;d&#39;&nbsp;e"), "a <b> \"c\" 'd' e\n");
    assert_eq!(strip_html_tags("<SCRIPT>x</SCRIPT>y"), "y\n");
    assert_eq!(strip_html_tags("<Style type=\"t\">p{}</STYLE >z"), "z\n");
    assert_eq!(strip_html_tags("a<script>never closed"), "a\n");
    assert_eq!(strip_html_tags("  x  \n\n\n\n  y  "), "x\n\ny\n");
    assert_eq!(strip_html_tags(""), "");
    let out = strip_html_tags("<p>1</p>\n\n\n\n<p>2</p>\n \n\t\n<p>3</p>");
    assert!(!out.contains("\n\n\n"));
    assert_eq!(out, "1\n\n2\n\n3\n");
}

#[test]
fn utf8_text_is_kept_exactly() {
    for s in ["", "plain", "中文标题\r\n", "emoji 😀 and \u{0} nul", "tab\tand\u{feff}bom"] {
        assert_eq!(decode_text_auto(s.as_bytes(), "x").unwrap(), s);
        assert_eq!(single(markdown_to_dir("x.md", s.as_bytes()).unwrap()), s);
    }
}
