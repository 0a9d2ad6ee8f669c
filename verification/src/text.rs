//! Text-like inputs (plain text, Markdown, CSV / TSV, HTML, JSON): decoding
//! and rendering to Markdown.

use vstd::prelude::*;

use crate::error::ParseError;
use crate::office::{lemma_split_len, split_on};
use crate::util::{
    has_prefix, last_component, name_extension, plain_path, portable_extension,
    chars_of, is_whitespace, lower_chars, lower_seq, occurs_at, occurs_at_exec, unicode_whitespace, path_extension, path_file_name, push_char, push_chars,
    push_str, str_eq, string_of,
};

verus! {

// ---------------------------------------------------------------------------
// Decoding
// ---------------------------------------------------------------------------

/// Largest input (in bytes) the decoders are asked to handle; the decoders
/// compute output buffer sizes as a small multiple of the input length.
pub const MAX_INPUT_BYTES: usize = usize::MAX / 8;

/// What `encoding_rs::GBK.decode` gives for `bytes`: the decoded text (a
/// byte-order mark, if present, selects the encoding instead) and whether
/// malformed sequences were replaced.
pub uninterp spec fn gbk_decoded(bytes: Seq<u8>) -> (Seq<char>, bool);

/// What `encoding_rs::UTF_16LE.decode` gives for `bytes`: the decoded text
/// (a byte-order mark, if present, selects the encoding instead) and
/// whether malformed sequences were replaced.
pub uninterp spec fn utf16le_decoded(bytes: Seq<u8>) -> (Seq<char>, bool);

/// `std::str::from_utf8`: succeeds exactly on valid UTF-8, giving the
/// characters it encodes.
#[verifier::external_body]
pub(crate) fn utf8_decode(bytes: &[u8]) -> (r: Option<String>)
    ensures
        r is Some <==> vstd::utf8::valid_utf8(bytes@),
        r matches Some(s) ==> s@ == vstd::utf8::decode_utf8(bytes@),
{
    std::str::from_utf8(bytes).ok().map(|s| s.to_string())
}

/// `encoding_rs::GBK.decode`; the result is named by [`gbk_decoded`].
#[verifier::external_body]
fn gbk_decode(bytes: &[u8]) -> (r: (String, bool))
    requires
        bytes@.len() <= MAX_INPUT_BYTES,
    ensures
        (r.0@, r.1) == gbk_decoded(bytes@),
{
    let (text, _encoding, had_errors) = encoding_rs::GBK.decode(bytes);
    (text.into_owned(), had_errors)
}

/// `encoding_rs::UTF_16LE.decode`; the result is named by [`utf16le_decoded`].
#[verifier::external_body]
fn utf16le_decode(bytes: &[u8]) -> (r: (String, bool))
    requires
        bytes@.len() <= MAX_INPUT_BYTES,
    ensures
        (r.0@, r.1) == utf16le_decoded(bytes@),
{
    let (text, _encoding, had_errors) = encoding_rs::UTF_16LE.decode(bytes);
    (text.into_owned(), had_errors)
}

/// The text of `bytes`: UTF-8 when valid, otherwise GBK when it decodes
/// cleanly, otherwise UTF-16LE when that decodes cleanly; none when all
/// three fail.
pub open spec fn decoded_text(bytes: Seq<u8>) -> Option<Seq<char>> {
    if vstd::utf8::valid_utf8(bytes) {
        Some(vstd::utf8::decode_utf8(bytes))
    } else if !gbk_decoded(bytes).1 {
        Some(gbk_decoded(bytes).0)
    } else if !utf16le_decoded(bytes).1 {
        Some(utf16le_decoded(bytes).0)
    } else {
        None
    }
}

/// The message of the `Encoding` error for an input named `name`.
pub open spec fn decode_failure_message(name: Seq<char>) -> Seq<char> {
    "failed to decode "@ + name + " as UTF-8/GBK/UTF-16"@
}

/// Decodes text of unknown encoding, trying UTF-8, GBK and UTF-16LE in turn.
/// `name` (the input's path) only appears in the error message.
pub fn decode_text_auto(bytes: &[u8], name: &str) -> (r: Result<String, ParseError>)
    requires
        bytes@.len() <= MAX_INPUT_BYTES,
    ensures
        match decoded_text(bytes@) {
            Some(t) => r matches Ok(s) && s@ == t,
            None => r matches Err(ParseError::Encoding(m)) && m@ == decode_failure_message(name@),
        },
{
    if let Some(s) = utf8_decode(bytes) {
        return Ok(s);
    }
    let (gbk, had_errors) = gbk_decode(bytes);
    if !had_errors {
        return Ok(gbk);
    }
    let (wide, had_errors2) = utf16le_decode(bytes);
    if !had_errors2 {
        return Ok(wide);
    }
    let mut m = String::new();
    push_str(&mut m, "failed to decode ");
    push_str(&mut m, name);
    push_str(&mut m, " as UTF-8/GBK/UTF-16");
    Err(ParseError::Encoding(m))
}

// ---------------------------------------------------------------------------
// Output files
// ---------------------------------------------------------------------------

/// A file to be written into the output folder.
#[derive(Debug)]
pub struct OutputFile {
    /// File name, relative to the output folder.
    pub name: String,
    /// Full file contents.
    pub content: String,
}

/// The single `content.md` output holding `md`.
pub open spec fn single_content(files: Seq<OutputFile>, md: Seq<char>) -> bool {
    files.len() == 1 && files[0].name@ == "content.md"@ && files[0].content@ == md
}

fn content_file(md: String) -> (r: Vec<OutputFile>)
    ensures
        single_content(r@, md@),
{
    let mut r: Vec<OutputFile> = Vec::new();
    r.push(OutputFile { name: String::from_str("content.md"), content: md });
    r
}

/// `r` is the `Encoding` error for an input named `name`.
pub open spec fn encoding_failure<T>(r: Result<T, ParseError>, name: Seq<char>) -> bool {
    r matches Err(ParseError::Encoding(m)) && m@ == decode_failure_message(name)
}

/// The title shown for an input: its file name, or `fallback` when the
/// path has none.
pub open spec fn title_or(file_name: Option<Seq<char>>, fallback: Seq<char>) -> Seq<char> {
    match file_name {
        Some(n) => n,
        None => fallback,
    }
}

/// The title for an input path (its file name) or `fallback`.
fn title_of(path: &str, fallback: &str) -> (r: String)
    ensures
        exists|n: Option<Seq<char>>| r@ == title_or(n, fallback@),
        plain_path(path@) ==> r@ == last_component(path@),
{
    let n = path_file_name(path);
    match n {
        Some(s) => {
            assert(s@ == title_or(Some(s@), fallback@));
            s
        },
        None => {
            assert(fallback@ == title_or(None, fallback@));
            String::from_str(fallback)
        },
    }
}

// ---------------------------------------------------------------------------
// Plain text, Markdown, JSON
// ---------------------------------------------------------------------------

/// `content` fenced in a code block (opened by `fence`) under a `# title`
/// heading; a missing final newline is added before the closing fence.
pub open spec fn fenced_document(title: Seq<char>, fence: Seq<char>, content: Seq<char>) -> Seq<
    char,
> {
    let body = if content.len() > 0 && content.last() == '\n' {
        content
    } else {
        content.push('\n')
    };
    "# "@ + title + "\n\n"@ + fence + "\n"@ + body + "```\n"@
}

/// Renders `content` as a fenced block under a `# title` heading.
pub fn fenced_markdown(title: &str, fence: &str, content: &str) -> (r: String)
    ensures
        r@ == fenced_document(title@, fence@, content@),
{
    let mut md = String::new();
    push_str(&mut md, "# ");
    push_str(&mut md, title);
    push_str(&mut md, "\n\n");
    push_str(&mut md, fence);
    push_str(&mut md, "\n");
    let cs = chars_of(content);
    push_chars(&mut md, &cs);
    if !(cs.len() > 0 && cs[cs.len() - 1] == '\n') {
        push_char(&mut md, '\n');
    }
    push_str(&mut md, "```\n");
    md
}

/// Renders a plain-text input: its decoded text fenced under a heading
/// naming the file.
pub fn txt_to_dir(path: &str, bytes: &[u8]) -> (r: Result<Vec<OutputFile>, ParseError>)
    requires
        bytes@.len() <= MAX_INPUT_BYTES,
    ensures
        match decoded_text(bytes@) {
            None => encoding_failure(r, path@),
            Some(t) => r matches Ok(files) && (exists|n: Option<Seq<char>>|
                single_content(files@, fenced_document(title_or(n, "document"@), "```"@, t))) && (plain_path(
                path@,
            ) ==> single_content(files@, fenced_document(last_component(path@), "```"@, t))),
        },
{
    let content = decode_text_auto(bytes, path)?;
    let title = title_of(path, "document");
    let md = fenced_markdown(title.as_str(), "```", content.as_str());
    Ok(content_file(md))
}

/// Renders a JSON input: its decoded text fenced as a `json` block under a
/// heading naming the file.
pub fn json_to_dir(path: &str, bytes: &[u8]) -> (r: Result<Vec<OutputFile>, ParseError>)
    requires
        bytes@.len() <= MAX_INPUT_BYTES,
    ensures
        match decoded_text(bytes@) {
            None => encoding_failure(r, path@),
            Some(t) => r matches Ok(files) && (exists|n: Option<Seq<char>>|
                single_content(files@, fenced_document(title_or(n, "document"@), "```json"@, t))) && (plain_path(
                path@,
            ) ==> single_content(files@, fenced_document(last_component(path@), "```json"@, t))),
        },
{
    let content = decode_text_auto(bytes, path)?;
    let title = title_of(path, "document");
    let md = fenced_markdown(title.as_str(), "```json", content.as_str());
    Ok(content_file(md))
}

/// Passes a Markdown input through unchanged (after decoding).
pub fn markdown_to_dir(path: &str, bytes: &[u8]) -> (r: Result<Vec<OutputFile>, ParseError>)
    requires
        bytes@.len() <= MAX_INPUT_BYTES,
    ensures
        match decoded_text(bytes@) {
            None => encoding_failure(r, path@),
            Some(t) => r matches Ok(files) && single_content(files@, t),
        },
{
    let content = decode_text_auto(bytes, path)?;
    Ok(content_file(content))
}

// ---------------------------------------------------------------------------
// CSV / TSV
// ---------------------------------------------------------------------------

/// What the `csv` reader (no header row, flexible record lengths, the given
/// delimiter) reads from `content`: every record's fields, or none when it
/// reports an error.
pub uninterp spec fn csv_records_of(content: Seq<char>, delimiter: u8) -> Option<
    Seq<Seq<Seq<char>>>,
>;

/// The characters of a table of strings.
pub open spec fn table_view(rows: Seq<Vec<String>>) -> Seq<Seq<Seq<char>>> {
    Seq::new(rows.len(), |i: int| Seq::new(rows[i]@.len(), |j: int| rows[i]@[j]@))
}

/// Reads every record of `content` with the `csv` crate (no header row,
/// records of any length); fails on the first record that the reader
/// rejects.  Which records it reads is named by [`csv_records_of`].
#[verifier::external_body]
fn read_csv_records(content: &str, delimiter: u8) -> (r: Result<Vec<Vec<String>>, csv::Error>)
    ensures
        r is Ok <==> csv_records_of(content@, delimiter) is Some,
        r matches Ok(rows) ==> csv_records_of(content@, delimiter) == Some(table_view(rows@)),
{
    let mut rdr = csv::ReaderBuilder::new().delimiter(delimiter).has_headers(false).flexible(
        true,
    ).from_reader(content.as_bytes());
    rdr.records().map(|rec| rec.map(|rec| rec.iter().map(|f| f.to_string()).collect())).collect()
}

/// The field delimiter for an input with the given extension: a tab for
/// `.tsv` (any case), a comma otherwise.
pub open spec fn csv_delimiter_spec(ext: Option<Seq<char>>) -> u8 {
    match ext {
        Some(e) => if lower_seq(e) == "tsv"@ {
            9u8
        } else {
            44u8
        },
        None => 44u8,
    }
}

/// The field delimiter for an input with the given extension.
pub fn csv_delimiter(ext: Option<&str>) -> (r: u8)
    ensures
        r == csv_delimiter_spec(
            match ext {
                Some(e) => Some(e@),
                None => None,
            },
        ),
{
    match ext {
        Some(e) => {
            let l = string_of(&lower_chars(&chars_of(e)));
            if str_eq(l.as_str(), "tsv") {
                9u8
            } else {
                44u8
            }
        },
        None => 44u8,
    }
}

/// How one character of a table cell is written: `|` escaped as `\|`,
/// line breaks turned into spaces.
pub open spec fn escape_cell_char(c: char) -> Seq<char> {
    if c == '|' {
        seq!['\\', '|']
    } else if c == '\n' {
        seq![' ']
    } else {
        seq![c]
    }
}

/// A table cell escaped for a Markdown table.
pub open spec fn escape_cell(s: Seq<char>) -> Seq<char>
    decreases s.len(),
{
    if s.len() == 0 {
        Seq::empty()
    } else {
        escape_cell(s.drop_last()) + escape_cell_char(s.last())
    }
}

/// Escapes a cell for a Markdown table: `|` becomes `\|` and line breaks
/// become spaces.
pub fn escape_md_cell(s: &str) -> (r: String)
    ensures
        r@ == escape_cell(s@),
{
    let cs = chars_of(s);
    let mut r = String::new();
    let mut i: usize = 0;
    while i < cs.len()
        invariant
            i <= cs.len(),
            r@ == escape_cell(cs@.take(i as int)),
        decreases cs.len() - i,
    {
        let c = cs[i];
        if c == '|' {
            push_char(&mut r, '\\');
            push_char(&mut r, '|');
        } else if c == '\n' {
            push_char(&mut r, ' ');
        } else {
            push_char(&mut r, c);
        }
        assert(cs@.take(i + 1).drop_last() =~= cs@.take(i as int));
        assert(r@ =~= escape_cell(cs@.take(i as int)) + escape_cell_char(c));
        i += 1;
    }
    assert(cs@.take(cs.len() as int) =~= s@);
    r
}

/// The `i`-th cell of a row, empty past its end.
pub open spec fn cell_at(row: Seq<Seq<char>>, i: int) -> Seq<char> {
    if 0 <= i < row.len() {
        row[i]
    } else {
        Seq::empty()
    }
}

/// The first `k` cells of a table line, each as ` cell |`.
pub open spec fn row_cells(row: Seq<Seq<char>>, k: nat) -> Seq<char>
    decreases k,
{
    if k == 0 {
        Seq::empty()
    } else {
        row_cells(row, (k - 1) as nat) + " "@ + escape_cell(cell_at(row, k - 1)) + " |"@
    }
}

/// One table line with `ncols` cells (short rows are padded with empty cells).
pub open spec fn row_line(row: Seq<Seq<char>>, ncols: nat) -> Seq<char> {
    "|"@ + row_cells(row, ncols) + "\n"@
}

/// `k` copies of `s`.
pub open spec fn repeat(s: Seq<char>, k: nat) -> Seq<char>
    decreases k,
{
    if k == 0 {
        Seq::empty()
    } else {
        repeat(s, (k - 1) as nat) + s
    }
}

/// The header separator line of a table with `ncols` columns.
pub open spec fn sep_line(ncols: nat) -> Seq<char> {
    "|"@ + repeat(" --- |"@, ncols) + "\n"@
}

/// The largest number of fields in any of the rows.
pub open spec fn max_width(rows: Seq<Seq<Seq<char>>>) -> nat
    decreases rows.len(),
{
    if rows.len() == 0 {
        0
    } else {
        let m = max_width(rows.drop_last());
        if rows.last().len() > m {
            rows.last().len()
        } else {
            m
        }
    }
}

/// The lines of rows `1 .. k`.
pub open spec fn body_lines(rows: Seq<Seq<Seq<char>>>, ncols: nat, k: int) -> Seq<char>
    decreases k,
{
    if k <= 1 {
        Seq::empty()
    } else {
        body_lines(rows, ncols, k - 1) + row_line(rows[k - 1], ncols)
    }
}

/// A table as Markdown under a `# title` heading: the first record is the
/// header row, every row has as many cells as the widest record; an empty
/// table is written as `_(empty table)_`.
pub open spec fn csv_document(title: Seq<char>, rows: Seq<Seq<Seq<char>>>) -> Seq<char> {
    let head = "# "@ + title + "\n\n"@;
    if rows.len() == 0 {
        head + "_(empty table)_\n"@
    } else {
        let n = max_width(rows);
        head + row_line(rows[0], n) + sep_line(n) + body_lines(rows, n, rows.len() as int)
    }
}

/// Appends one table line with `ncols` cells.
fn push_row_line(md: &mut String, row: &Vec<String>, ncols: usize)
    ensures
        final(md)@ == old(md)@ + row_line(Seq::new(row@.len(), |j: int| row@[j]@), ncols as nat),
{
    let ghost rv = Seq::new(row@.len(), |j: int| row@[j]@);
    push_str(md, "|");
    let ghost start = md@;
    let mut i: usize = 0;
    while i < ncols
        invariant
            i <= ncols,
            rv == Seq::new(row@.len(), |j: int| row@[j]@),
            md@ == start + row_cells(rv, i as nat),
        decreases ncols - i,
    {
        push_str(md, " ");
        if i < row.len() {
            assert(rv[i as int] == row@[i as int]@);
            let e = escape_md_cell(row[i].as_str());
            push_str(md, e.as_str());
        } else {
            assert(cell_at(rv, i as int) =~= Seq::<char>::empty());
            assert(escape_cell(Seq::<char>::empty()) =~= Seq::<char>::empty());
        }
        push_str(md, " |");
        assert(md@ =~= start + row_cells(rv, (i + 1) as nat));
        i += 1;
    }
    push_str(md, "\n");
    assert(md@ =~= old(md)@ + row_line(rv, ncols as nat));
}

/// Renders a table as Markdown (see [`csv_document`]).
pub fn csv_markdown(title: &str, rows: &Vec<Vec<String>>) -> (r: String)
    ensures
        r@ == csv_document(title@, table_view(rows@)),
{
    let ghost tv = table_view(rows@);
    let mut md = String::new();
    push_str(&mut md, "# ");
    push_str(&mut md, title);
    push_str(&mut md, "\n\n");
    if rows.len() == 0 {
        push_str(&mut md, "_(empty table)_\n");
        return md;
    }
    let mut ncols: usize = 0;
    let mut k: usize = 0;
    while k < rows.len()
        invariant
            k <= rows.len(),
            tv == table_view(rows@),
            ncols == max_width(tv.take(k as int)),
        decreases rows.len() - k,
    {
        assert(tv.take(k + 1).drop_last() =~= tv.take(k as int));
        assert(tv.take(k + 1).last().len() == rows@[k as int]@.len());
        if rows[k].len() > ncols {
            ncols = rows[k].len();
        }
        k += 1;
    }
    assert(tv.take(rows.len() as int) =~= tv);
    assert(Seq::new(rows@[0]@.len(), |j: int| rows@[0]@[j]@) =~= tv[0]);
    push_row_line(&mut md, &rows[0], ncols);
    let ghost sep_start = md@;
    push_str(&mut md, "|");
    let mut c: usize = 0;
    while c < ncols
        invariant
            c <= ncols,
            md@ == sep_start + "|"@ + repeat(" --- |"@, c as nat),
        decreases ncols - c,
    {
        push_str(&mut md, " --- |");
        c += 1;
    }
    push_str(&mut md, "\n");
    let ghost body_start = md@;
    assert(body_lines(tv, ncols as nat, 1) =~= Seq::<char>::empty());
    let mut j: usize = 1;
    while j < rows.len()
        invariant
            1 <= j <= rows.len(),
            tv == table_view(rows@),
            md@ == body_start + body_lines(tv, ncols as nat, j as int),
        decreases rows.len() - j,
    {
        assert(Seq::new(rows@[j as int]@.len(), |q: int| rows@[j as int]@[q]@) =~= tv[j as int]);
        push_row_line(&mut md, &rows[j], ncols);
        j += 1;
    }
    md
}

/// `r` is what rendering the decoded text `t` gives, for an input with
/// extension `ext` and file name `n`: the `Csv` error when the reader
/// rejects the text, the rendered table otherwise.
pub open spec fn csv_outcome(
    r: Result<Vec<OutputFile>, ParseError>,
    t: Seq<char>,
    ext: Option<Seq<char>>,
    n: Option<Seq<char>>,
) -> bool {
    match csv_records_of(t, csv_delimiter_spec(ext)) {
        None => r matches Err(ParseError::Csv(_)),
        Some(rows) => r matches Ok(files) && single_content(
            files@,
            csv_document(title_or(n, "table"@), rows),
        ),
    }
}

/// Renders a CSV / TSV input as a Markdown table under a heading naming
/// the file; `.tsv` inputs are tab-separated.
pub fn csv_to_dir(path: &str, bytes: &[u8]) -> (r: Result<Vec<OutputFile>, ParseError>)
    requires
        bytes@.len() <= MAX_INPUT_BYTES,
    ensures
        match decoded_text(bytes@) {
            None => encoding_failure(r, path@),
            Some(t) => (exists|ext: Option<Seq<char>>, n: Option<Seq<char>>| #[trigger]
                csv_outcome(r, t, ext, n)) && (plain_path(path@) ==> csv_outcome(
                r,
                t,
                name_extension(last_component(path@)),
                Some(last_component(path@)),
            )) && (portable_extension(path@) matches Some(e) ==> exists|n: Option<Seq<char>>|
                #[trigger] csv_outcome(r, t, Some(e), n)),
        },
{
    let content = decode_text_auto(bytes, path)?;
    let ext = path_extension(path);
    let delimiter = match &ext {
        Some(e) => csv_delimiter(Some(e.as_str())),
        None => csv_delimiter(None),
    };
    let ghost ev: Option<Seq<char>> = match ext {
        Some(e) => Some(e@),
        None => None,
    };
    let title = title_of(path, "table");
    let ghost nv = choose|n: Option<Seq<char>>| title@ == title_or(n, "table"@);
    match read_csv_records(content.as_str(), delimiter) {
        Err(e) => {
            let r: Result<Vec<OutputFile>, ParseError> = Err(ParseError::Csv(e));
            assert(csv_records_of(content@, csv_delimiter_spec(ev)) is None);
            assert(csv_outcome(r, content@, ev, nv));
            r
        },
        Ok(rows) => {
            let md = csv_markdown(title.as_str(), &rows);
            let r = Ok(content_file(md));
            assert(csv_records_of(content@, csv_delimiter_spec(ev)) == Some(table_view(rows@)));
            assert(csv_outcome(r, content@, ev, nv));
            r
        },
    }
}

// ---------------------------------------------------------------------------
// HTML
// ---------------------------------------------------------------------------

/// `<script`: starts an element whose content is dropped.
pub open spec fn script_open() -> Seq<char> {
    seq!['<', 's', 'c', 'r', 'i', 'p', 't']
}

/// `<style`: starts an element whose content is dropped.
pub open spec fn style_open() -> Seq<char> {
    seq!['<', 's', 't', 'y', 'l', 'e']
}

/// `</script`: ends a dropped script element.
pub open spec fn script_close() -> Seq<char> {
    seq!['<', '/', 's', 'c', 'r', 'i', 'p', 't']
}

/// `</style`: ends a dropped style element.
pub open spec fn style_close() -> Seq<char> {
    seq!['<', '/', 's', 't', 'y', 'l', 'e']
}

/// The first position at or after `pos` where `p` occurs in `s`.
pub open spec fn find_from(s: Seq<char>, p: Seq<char>, pos: int) -> Option<int>
    decreases s.len() + 1 - pos,
{
    if pos < 0 || pos + p.len() > s.len() {
        None
    } else if occurs_at(s, p, pos) {
        Some(pos)
    } else {
        find_from(s, p, pos + 1)
    }
}

pub proof fn lemma_find_from(s: Seq<char>, p: Seq<char>, pos: int)
    requires
        0 <= pos,
    ensures
        find_from(s, p, pos) matches Some(k) ==> pos <= k && occurs_at(s, p, k),
        forall|j: int| pos <= j && (find_from(s, p, pos) matches Some(k) ==> j < k) ==> #[trigger]
            occurs_at(s, p, j) ==> false,
    decreases s.len() + 1 - pos,
{
    if pos + p.len() > s.len() {
    } else if occurs_at(s, p, pos) {
    } else {
        lemma_find_from(s, p, pos + 1);
        assert forall|j: int| pos <= j && (find_from(s, p, pos) matches Some(k) ==> j < k) implies !#[trigger] occurs_at(s, p, j) by {
            if j > pos {
            }
        }
    }
}

/// The text of `s` from `pos` on with tags removed.  `in_tag` tells whether
/// `pos` lies inside a tag; `skip` is 1 (2) inside a script (style) element,
/// whose content up to the matching close tag is dropped, and 0 otherwise.
/// Tag names are matched case-insensitively; a script or style element
/// without a close tag drops the rest of the input.
pub open spec fn strip_from(s: Seq<char>, pos: int, in_tag: bool, skip: int) -> Seq<char>
    decreases s.len() - pos,
{
    if pos < 0 || pos >= s.len() {
        Seq::empty()
    } else if skip != 0 {
        let close = if skip == 1 {
            script_close()
        } else {
            style_close()
        };
        match find_from(lower_seq(s), close, pos) {
            None => Seq::empty(),
            Some(k) => {
                proof {
                    lemma_find_from(lower_seq(s), close, pos);
                    lemma_find_from(s, seq!['>'], k);
                }
                let np = match find_from(s, seq!['>'], k) {
                    Some(g) => g + 1,
                    None => s.len() as int,
                };
                strip_from(s, np, false, 0)
            },
        }
    } else {
        let c = s[pos];
        if c == '<' {
            let sk = if occurs_at(lower_seq(s), script_open(), pos) {
                1int
            } else if occurs_at(lower_seq(s), style_open(), pos) {
                2int
            } else {
                0int
            };
            strip_from(s, pos + 1, true, sk)
        } else if c == '>' {
            strip_from(s, pos + 1, false, 0)
        } else if !in_tag {
            seq![c] + strip_from(s, pos + 1, in_tag, 0)
        } else {
            strip_from(s, pos + 1, in_tag, 0)
        }
    }
}

/// The first position at or after `pos` where `p` occurs in `s`.
pub fn find_from_exec(s: &Vec<char>, p: &Vec<char>, pos: usize) -> (r: Option<usize>)
    requires
        pos <= s.len(),
    ensures
        match r {
            Some(k) => find_from(s@, p@, pos as int) == Some(k as int),
            None => find_from(s@, p@, pos as int) is None,
        },
{
    if p.len() > s.len() - pos {
        return None;
    }
    let last = s.len() - p.len();
    let mut i = pos;
    while i <= last
        invariant
            pos <= i <= last + 1,
            last + p.len() == s.len(),
            find_from(s@, p@, pos as int) == find_from(s@, p@, i as int),
        decreases last + 1 - i,
    {
        if occurs_at_exec(s, p, i) {
            return Some(i);
        }
        if i == last {
            assert(find_from(s@, p@, (i + 1) as int) is None);
            return None;
        }
        i += 1;
    }
    None
}

/// Removes tags (and script / style elements) from HTML text; see [`strip_from`].
pub fn strip_tags(s: &Vec<char>) -> (r: Vec<char>)
    ensures
        r@ == strip_from(s@, 0, false, 0),
{
    let lower = lower_chars(s);
    let script_o: Vec<char> = vec!['<', 's', 'c', 'r', 'i', 'p', 't'];
    let style_o: Vec<char> = vec!['<', 's', 't', 'y', 'l', 'e'];
    let script_c: Vec<char> = vec!['<', '/', 's', 'c', 'r', 'i', 'p', 't'];
    let style_c: Vec<char> = vec!['<', '/', 's', 't', 'y', 'l', 'e'];
    let gt: Vec<char> = vec!['>'];
    assert(script_o@ =~= script_open());
    assert(style_o@ =~= style_open());
    assert(script_c@ =~= script_close());
    assert(style_c@ =~= style_close());
    assert(gt@ =~= seq!['>']);
    let n = s.len();
    let mut out: Vec<char> = Vec::new();
    let mut pos: usize = 0;
    let mut in_tag = false;
    let mut skip: u8 = 0;
    while pos < n
        invariant
            n == s.len(),
            lower@ == lower_seq(s@),
            script_o@ == script_open(),
            style_o@ == style_open(),
            script_c@ == script_close(),
            style_c@ == style_close(),
            gt@ == seq!['>'],
            pos <= n,
            skip <= 2,
            out@ + strip_from(s@, pos as int, in_tag, skip as int) == strip_from(s@, 0, false, 0),
        decreases n - pos,
    {
        let ghost before = out@;
        let ghost p0 = pos as int;
        let ghost t0 = in_tag;
        let ghost k0 = skip as int;
        if skip != 0 {
            let close = if skip == 1 {
                &script_c
            } else {
                &style_c
            };
            match find_from_exec(&lower, close, pos) {
                None => {
                    assert(strip_from(s@, p0, t0, k0) =~= Seq::<char>::empty());
                    assert(out@ =~= strip_from(s@, 0, false, 0));
                    return out;
                },
                Some(k) => {
                    proof {
                        lemma_find_from(lower@, close@, pos as int);
                    }
                    match find_from_exec(s, &gt, k) {
                        Some(g) => {
                            proof {
                                lemma_find_from(s@, gt@, k as int);
                            }
                            pos = g + 1;
                        },
                        None => {
                            pos = n;
                        },
                    }
                    skip = 0;
                    in_tag = false;
                },
            }
        } else {
            let c = s[pos];
            if c == '<' {
                if occurs_at_exec(&lower, &script_o, pos) {
                    skip = 1;
                } else if occurs_at_exec(&lower, &style_o, pos) {
                    skip = 2;
                }
                in_tag = true;
            } else if c == '>' {
                in_tag = false;
            } else if !in_tag {
                out.push(c);
                assert(strip_from(s@, p0, t0, k0) == seq![c] + strip_from(s@, p0 + 1, t0, 0));
                assert(out@ + strip_from(s@, p0 + 1, t0, 0) =~= before + strip_from(s@, p0, t0, k0));
            }
            pos += 1;
        }
    }
    assert(strip_from(s@, pos as int, in_tag, skip as int) =~= Seq::<char>::empty());
    assert(out@ =~= strip_from(s@, 0, false, 0));
    out
}

/// `s` from position `i` on with every occurrence of `p` (scanning left to
/// right, without overlaps) replaced by `r`, as `str::replace` does.
pub open spec fn replace_from(s: Seq<char>, p: Seq<char>, r: Seq<char>, i: int) -> Seq<char>
    decreases s.len() - i,
{
    if i < 0 || i >= s.len() {
        Seq::empty()
    } else if p.len() > 0 && occurs_at(s, p, i) {
        r + replace_from(s, p, r, i + p.len())
    } else {
        seq![s[i]] + replace_from(s, p, r, i + 1)
    }
}

/// `s` with every occurrence of `p` replaced by `r`.
pub open spec fn replace_all(s: Seq<char>, p: Seq<char>, r: Seq<char>) -> Seq<char> {
    replace_from(s, p, r, 0)
}

/// Replaces every occurrence of `p` in `s` by `r`.
pub fn replace_all_exec(s: &Vec<char>, p: &Vec<char>, r: &Vec<char>) -> (out: Vec<char>)
    ensures
        out@ == replace_all(s@, p@, r@),
{
    let n = s.len();
    let mut out: Vec<char> = Vec::new();
    let mut i: usize = 0;
    while i < n
        invariant
            n == s.len(),
            i <= n,
            out@ + replace_from(s@, p@, r@, i as int) == replace_all(s@, p@, r@),
        decreases n - i,
    {
        let ghost before = out@;
        let ghost i0 = i as int;
        if p.len() > 0 && occurs_at_exec(s, p, i) {
            let mut k: usize = 0;
            while k < r.len()
                invariant
                    k <= r.len(),
                    out@ == before + r@.take(k as int),
                decreases r.len() - k,
            {
                out.push(r[k]);
                assert(r@.take(k + 1) =~= r@.take(k as int).push(r@[k as int]));
                k += 1;
            }
            assert(r@.take(r.len() as int) =~= r@);
            i += p.len();
            assert(out@ + replace_from(s@, p@, r@, i as int) =~= before + replace_from(s@, p@, r@, i0));
        } else {
            out.push(s[i]);
            i += 1;
            assert(out@ + replace_from(s@, p@, r@, i as int) =~= before + replace_from(s@, p@, r@, i0));
        }
    }
    assert(out@ + replace_from(s@, p@, r@, i as int) =~= out@);
    out
}

/// The common character entities, decoded in a fixed order: `&nbsp;`,
/// `&amp;`, `&lt;`, `&gt;`, `&quot;`, `&#39;`.
pub open spec fn entities_decoded(s: Seq<char>) -> Seq<char> {
    let a = replace_all(s, seq!['&', 'n', 'b', 's', 'p', ';'], seq![' ']);
    let b = replace_all(a, seq!['&', 'a', 'm', 'p', ';'], seq!['&']);
    let c = replace_all(b, seq!['&', 'l', 't', ';'], seq!['<']);
    let d = replace_all(c, seq!['&', 'g', 't', ';'], seq!['>']);
    let e = replace_all(d, seq!['&', 'q', 'u', 'o', 't', ';'], seq!['"']);
    replace_all(e, seq!['&', '#', '3', '9', ';'], seq!['\''])
}

/// Decodes the common character entities; see [`entities_decoded`].
pub fn decode_entities(s: &Vec<char>) -> (r: Vec<char>)
    ensures
        r@ == entities_decoded(s@),
{
    let nbsp: Vec<char> = vec!['&', 'n', 'b', 's', 'p', ';'];
    let amp: Vec<char> = vec!['&', 'a', 'm', 'p', ';'];
    let lt: Vec<char> = vec!['&', 'l', 't', ';'];
    let gt: Vec<char> = vec!['&', 'g', 't', ';'];
    let quot: Vec<char> = vec!['&', 'q', 'u', 'o', 't', ';'];
    let apos: Vec<char> = vec!['&', '#', '3', '9', ';'];
    let sp: Vec<char> = vec![' '];
    let am: Vec<char> = vec!['&'];
    let l: Vec<char> = vec!['<'];
    let g: Vec<char> = vec!['>'];
    let q: Vec<char> = vec!['"'];
    let ap: Vec<char> = vec!['\''];
    assert(sp@ =~= seq![' ']);
    assert(am@ =~= seq!['&']);
    assert(l@ =~= seq!['<']);
    assert(g@ =~= seq!['>']);
    assert(q@ =~= seq!['"']);
    assert(ap@ =~= seq!['\'']);
    let a = replace_all_exec(s, &nbsp, &sp);
    let b = replace_all_exec(&a, &amp, &am);
    let c = replace_all_exec(&b, &lt, &l);
    let d = replace_all_exec(&c, &gt, &g);
    let e = replace_all_exec(&d, &quot, &q);
    let f = replace_all_exec(&e, &apos, &ap);
    assert(nbsp@ =~= seq!['&', 'n', 'b', 's', 'p', ';']);
    assert(amp@ =~= seq!['&', 'a', 'm', 'p', ';']);
    assert(lt@ =~= seq!['&', 'l', 't', ';']);
    assert(gt@ =~= seq!['&', 'g', 't', ';']);
    assert(quot@ =~= seq!['&', 'q', 'u', 'o', 't', ';']);
    assert(apos@ =~= seq!['&', '#', '3', '9', ';']);
    f
}

/// A line without the `\r` of a `\r\n` line ending.
pub open spec fn strip_cr(x: Seq<char>) -> Seq<char> {
    if x.len() > 0 && x.last() == '\r' {
        x.drop_last()
    } else {
        x
    }
}

/// The lines of `s` as `str::lines` gives them: split at `\n`, a `\r`
/// before the `\n` removed, and no empty line after a final `\n`.
pub open spec fn lines_of(s: Seq<char>) -> Seq<Seq<char>> {
    let parts = split_on(s, '\n');
    let done = Seq::new((parts.len() - 1) as nat, |i: int| strip_cr(parts[i]));
    if parts.last().len() == 0 {
        done
    } else {
        done.push(parts.last())
    }
}

/// The lines of `s`; see [`lines_of`].
pub fn lines_exec(s: &Vec<char>) -> (r: Vec<Vec<char>>)
    ensures
        Seq::new(r@.len(), |i: int| r@[i]@) == lines_of(s@),
{
    let ghost c = s@;
    let mut done: Vec<Vec<char>> = Vec::new();
    let mut cur: Vec<char> = Vec::new();
    let mut i: usize = 0;
    proof {
        assert(c.take(0) =~= Seq::<char>::empty());
        lemma_split_len(c.take(0), '\n');
    }
    while i < s.len()
        invariant
            i <= s.len(),
            s@ == c,
            split_on(c.take(i as int), '\n').len() >= 1,
            cur@ == split_on(c.take(i as int), '\n').last(),
            Seq::new(done@.len(), |k: int| done@[k]@) == Seq::new(
                (split_on(c.take(i as int), '\n').len() - 1) as nat,
                |k: int| strip_cr(split_on(c.take(i as int), '\n')[k]),
            ),
        decreases s.len() - i,
    {
        let ch = s[i];
        let ghost pre = c.take(i as int);
        let ghost sp = split_on(pre, '\n');
        let ghost dv = Seq::new(done@.len(), |k: int| done@[k]@);
        assert(c.take(i + 1).drop_last() =~= pre);
        assert(c.take(i + 1).last() == ch);
        if ch == '\n' {
            let mut line = cur;
            if line.len() > 0 && line[line.len() - 1] == '\r' {
                line.pop();
            }
            let ghost lv = line@;
            assert(lv =~= strip_cr(sp.last()));
            done.push(line);
            assert(Seq::new(done@.len(), |k: int| done@[k]@) =~= dv.push(lv));
            cur = Vec::new();
            let ghost sp2 = split_on(c.take(i + 1), '\n');
            assert(sp2 == sp.push(Seq::<char>::empty()));
            assert(Seq::new(done@.len(), |k: int| done@[k]@) =~= Seq::new(
                (sp2.len() - 1) as nat,
                |k: int| strip_cr(sp2[k]),
            ));
        } else {
            cur.push(ch);
            let ghost sp2 = split_on(c.take(i + 1), '\n');
            assert(sp2 == sp.update(sp.len() - 1, sp.last().push(ch)));
            assert(Seq::new(done@.len(), |k: int| done@[k]@) =~= Seq::new(
                (sp2.len() - 1) as nat,
                |k: int| strip_cr(sp2[k]),
            ));
        }
        i += 1;
    }
    assert(c.take(s.len() as int) =~= c);
    if cur.len() > 0 {
        let ghost dv = Seq::new(done@.len(), |k: int| done@[k]@);
        let ghost cv = cur@;
        done.push(cur);
        assert(Seq::new(done@.len(), |k: int| done@[k]@) =~= dv.push(cv));
    }
    done
}

/// Whitespace (`char::is_whitespace`) removed from both ends of `s`.
pub open spec fn trim_ws(s: Seq<char>) -> Seq<char> {
    trim_ws_trail(trim_ws_lead(s))
}

/// `s` without leading whitespace.
pub open spec fn trim_ws_lead(s: Seq<char>) -> Seq<char>
    decreases s.len(),
{
    if s.len() > 0 && unicode_whitespace(s[0]) {
        trim_ws_lead(s.drop_first())
    } else {
        s
    }
}

/// `s` without trailing whitespace.
pub open spec fn trim_ws_trail(s: Seq<char>) -> Seq<char>
    decreases s.len(),
{
    if s.len() > 0 && unicode_whitespace(s.last()) {
        trim_ws_trail(s.drop_last())
    } else {
        s
    }
}

/// Removes whitespace from both ends, as `str::trim` does.
pub fn trim_ws_exec(s: &Vec<char>) -> (r: Vec<char>)
    ensures
        r@ == trim_ws(s@),
{
    let ghost m = s@;
    let n = s.len();
    let mut lo: usize = 0;
    assert(m.skip(0) =~= m);
    while lo < n && is_whitespace(s[lo])
        invariant
            n == m.len(),
            s@ == m,
            lo <= n,
            trim_ws_lead(m) == trim_ws_lead(m.skip(lo as int)),
        decreases n - lo,
    {
        assert(m.skip(lo as int).drop_first() =~= m.skip(lo + 1));
        lo += 1;
    }
    let ghost led = m.skip(lo as int);
    assert(trim_ws_lead(led) == led);
    let mut hi: usize = n;
    assert(m.subrange(lo as int, n as int) =~= led);
    while hi > lo && is_whitespace(s[hi - 1])
        invariant
            n == m.len(),
            s@ == m,
            lo <= hi <= n,
            trim_ws_trail(led) == trim_ws_trail(m.subrange(lo as int, hi as int)),
        decreases hi - lo,
    {
        assert(m.subrange(lo as int, hi as int).drop_last() =~= m.subrange(lo as int, hi - 1));
        hi -= 1;
    }
    let ghost t = m.subrange(lo as int, hi as int);
    assert(trim_ws_trail(t) == t);
    let mut r: Vec<char> = Vec::new();
    let mut i: usize = lo;
    while i < hi
        invariant
            lo <= i <= hi <= n,
            n == m.len(),
            s@ == m,
            r@ == m.subrange(lo as int, i as int),
        decreases hi - i,
    {
        r.push(s[i]);
        assert(m.subrange(lo as int, i + 1) =~= m.subrange(lo as int, i as int).push(m[i as int]));
        i += 1;
    }
    r
}

/// The lines from `i` on, trimmed, each followed by `\n`; a run of blank
/// lines is kept as a single empty line.  `prev_blank` tells whether the
/// line before `i` was blank.
pub open spec fn collapse_from(lines: Seq<Seq<char>>, i: int, prev_blank: bool) -> Seq<char>
    decreases lines.len() - i,
{
    if i < 0 || i >= lines.len() {
        Seq::empty()
    } else {
        let t = trim_ws(lines[i]);
        if t.len() == 0 {
            (if prev_blank {
                Seq::empty()
            } else {
                seq!['\n']
            }) + collapse_from(lines, i + 1, true)
        } else {
            t.push('\n') + collapse_from(lines, i + 1, false)
        }
    }
}

/// The readable text of an HTML document: tags and script / style elements
/// removed, common entities decoded, lines trimmed and runs of blank lines
/// collapsed.
pub open spec fn html_text(s: Seq<char>) -> Seq<char> {
    collapse_from(lines_of(entities_decoded(strip_from(s, 0, false, 0))), 0, false)
}

/// Extracts the readable text of an HTML document; see [`html_text`].
pub fn strip_html_tags(input: &str) -> (r: String)
    ensures
        r@ == html_text(input@),
{
    let cs = chars_of(input);
    let stripped = strip_tags(&cs);
    let decoded = decode_entities(&stripped);
    let lines = lines_exec(&decoded);
    let ghost lv = Seq::new(lines@.len(), |k: int| lines@[k]@);
    let mut out = String::new();
    let mut prev_blank = false;
    let mut i: usize = 0;
    while i < lines.len()
        invariant
            i <= lines.len(),
            lv == Seq::new(lines@.len(), |k: int| lines@[k]@),
            out@ + collapse_from(lv, i as int, prev_blank) == collapse_from(lv, 0, false),
        decreases lines.len() - i,
    {
        let ghost before = out@;
        let ghost pb = prev_blank;
        let t = trim_ws_exec(&lines[i]);
        assert(t@ == trim_ws(lv[i as int]));
        if t.len() == 0 {
            if !prev_blank {
                push_char(&mut out, '\n');
            }
            prev_blank = true;
        } else {
            push_chars(&mut out, &t);
            push_char(&mut out, '\n');
            prev_blank = false;
        }
        assert(out@ + collapse_from(lv, i + 1, prev_blank) =~= before + collapse_from(lv, i as int, pb));
        i += 1;
    }
    assert(collapse_from(lv, i as int, prev_blank) =~= Seq::<char>::empty());
    assert(out@ =~= collapse_from(lv, 0, false));
    out
}

/// The Markdown for an HTML input: a `# title` heading, then the trimmed
/// readable text and a final newline.
pub open spec fn html_document(title: Seq<char>, content: Seq<char>) -> Seq<char> {
    "# "@ + title + "\n\n"@ + trim_ws(html_text(content)) + "\n"@
}

/// Renders an HTML input as its readable text under a heading naming the file.
pub fn html_to_dir(path: &str, bytes: &[u8]) -> (r: Result<Vec<OutputFile>, ParseError>)
    requires
        bytes@.len() <= MAX_INPUT_BYTES,
    ensures
        match decoded_text(bytes@) {
            None => encoding_failure(r, path@),
            Some(t) => r matches Ok(files) && (exists|n: Option<Seq<char>>|
                single_content(files@, #[trigger] html_document(title_or(n, "document"@), t))) && (plain_path(
                path@,
            ) ==> single_content(files@, html_document(last_component(path@), t))),
        },
{
    let content = decode_text_auto(bytes, path)?;
    let stripped = strip_html_tags(content.as_str());
    let title = title_of(path, "document");
    let mut md = String::new();
    push_str(&mut md, "# ");
    push_str(&mut md, title.as_str());
    push_str(&mut md, "\n\n");
    let body = trim_ws_exec(&chars_of(stripped.as_str()));
    push_chars(&mut md, &body);
    push_str(&mut md, "\n");
    let ghost nv = choose|n: Option<Seq<char>>| title@ == title_or(n, "document"@);
    assert(md@ == html_document(title_or(nv, "document"@), content@));
    Ok(content_file(md))
}

// ---------------------------------------------------------------------------
// Laws of the Markdown renderers
// ---------------------------------------------------------------------------

/// An escaped table cell cannot break the table: it holds no line break,
/// and every `|` in it is escaped by a preceding backslash.
pub proof fn lemma_escaped_cell_is_safe(s: Seq<char>)
    ensures
        forall|i: int| 0 <= i < escape_cell(s).len() ==> #[trigger] escape_cell(s)[i] != '\n',
        forall|i: int|
            0 <= i < escape_cell(s).len() && #[trigger] escape_cell(s)[i] == '|' ==> i > 0
                && escape_cell(s)[i - 1] == '\\',
    decreases s.len(),
{
    if s.len() > 0 {
        lemma_escaped_cell_is_safe(s.drop_last());
        let p = escape_cell(s.drop_last());
        let e = escape_cell_char(s.last());
        let r = escape_cell(s);
        assert(r == p + e);
        assert forall|i: int| 0 <= i < r.len() implies #[trigger] r[i] != '\n' by {
            if i >= p.len() {
                assert(r[i] == e[i - p.len()]);
            } else {
                assert(r[i] == p[i]);
            }
        }
        assert forall|i: int| 0 <= i < r.len() && #[trigger] r[i] == '|' implies i > 0 && r[i - 1] == '\\' by {
            if i >= p.len() {
                assert(r[i] == e[i - p.len()]);
                if s.last() == '|' {
                    assert(i == p.len() + 1);
                    assert(r[i - 1] == e[0]);
                }
            } else {
                assert(r[i] == p[i]);
                assert(r[i - 1] == p[i - 1]);
            }
        }
    }
}

/// `s` holds no line break.
pub open spec fn no_newline(s: Seq<char>) -> bool {
    forall|i: int| 0 <= i < s.len() ==> #[trigger] s[i] != '\n'
}

/// `s` holds no three consecutive line breaks (no two blank lines in a row).
pub open spec fn no_triple_newline(s: Seq<char>) -> bool {
    forall|i: int|
        0 <= i && i + 2 < s.len() ==> !(#[trigger] s[i] == '\n' && s[i + 1] == '\n' && s[i + 2] == '\n')
}

pub proof fn lemma_split_pieces(s: Seq<char>, sep: char)
    ensures
        forall|j: int, i: int|
            0 <= j < split_on(s, sep).len() && 0 <= i < split_on(s, sep)[j].len()
                ==> #[trigger] split_on(s, sep)[j][i] != sep,
    decreases s.len(),
{
    if s.len() > 0 {
        lemma_split_pieces(s.drop_last(), sep);
        lemma_split_len(s.drop_last(), sep);
    }
}

proof fn lemma_lines_no_newline(s: Seq<char>)
    ensures
        forall|j: int| 0 <= j < lines_of(s).len() ==> no_newline(#[trigger] lines_of(s)[j]),
{
    let parts = split_on(s, '\n');
    lemma_split_pieces(s, '\n');
    lemma_split_len(s, '\n');
    let l = lines_of(s);
    assert forall|j: int| 0 <= j < l.len() implies no_newline(#[trigger] l[j]) by {
        if j < parts.len() - 1 {
            let x = parts[j];
            assert(l[j] == strip_cr(x));
            assert forall|i: int| 0 <= i < strip_cr(x).len() implies #[trigger] strip_cr(x)[i] != '\n' by {
                assert(strip_cr(x)[i] == x[i]);
            }
        } else {
            assert(l[j] == parts.last());
            assert forall|i: int| 0 <= i < parts.last().len() implies #[trigger] parts.last()[i] != '\n' by {
                assert(parts.last()[i] == parts[parts.len() - 1][i]);
            }
        }
    }
}

proof fn lemma_trim_ws_sub(s: Seq<char>)
    ensures
        exists|a: int, b: int| 0 <= a <= b <= s.len() && trim_ws(s) == s.subrange(a, b),
{
    lemma_trim_ws_lead_sub(s);
    let a = choose|a: int| 0 <= a <= s.len() && trim_ws_lead(s) == s.skip(a);
    let l = trim_ws_lead(s);
    lemma_trim_ws_trail_sub(l);
    let b = choose|b: int| 0 <= b <= l.len() && trim_ws_trail(l) == l.take(b);
    assert(l.take(b) =~= s.subrange(a, a + b));
}

proof fn lemma_trim_ws_lead_sub(s: Seq<char>)
    ensures
        exists|a: int| 0 <= a <= s.len() && trim_ws_lead(s) == s.skip(a),
    decreases s.len(),
{
    if s.len() > 0 && unicode_whitespace(s[0]) {
        lemma_trim_ws_lead_sub(s.drop_first());
        let a = choose|a: int| 0 <= a <= s.drop_first().len() && trim_ws_lead(s.drop_first()) == s.drop_first().skip(a);
        assert(s.drop_first().skip(a) =~= s.skip(a + 1));
    } else {
        assert(s.skip(0) =~= s);
    }
}

proof fn lemma_trim_ws_trail_sub(s: Seq<char>)
    ensures
        exists|b: int| 0 <= b <= s.len() && trim_ws_trail(s) == s.take(b),
    decreases s.len(),
{
    if s.len() > 0 && unicode_whitespace(s.last()) {
        lemma_trim_ws_trail_sub(s.drop_last());
        let b = choose|b: int| 0 <= b <= s.drop_last().len() && trim_ws_trail(s.drop_last()) == s.drop_last().take(b);
        assert(s.drop_last().take(b) =~= s.take(b));
    } else {
        assert(s.take(s.len() as int) =~= s);
    }
}

proof fn lemma_collapse(lines: Seq<Seq<char>>, i: int, prev: bool)
    requires
        0 <= i <= lines.len(),
        forall|j: int| 0 <= j < lines.len() ==> no_newline(#[trigger] lines[j]),
    ensures
        no_triple_newline(collapse_from(lines, i, prev)),
        prev ==> (collapse_from(lines, i, prev).len() == 0 || collapse_from(lines, i, prev)[0] != '\n'),
        !prev ==> !(collapse_from(lines, i, prev).len() >= 2 && collapse_from(lines, i, prev)[0] == '\n'
            && collapse_from(lines, i, prev)[1] == '\n'),
    decreases lines.len() - i,
{
    if i < lines.len() {
        let t = trim_ws(lines[i]);
        lemma_trim_ws_sub(lines[i]);
        let (a, b) = choose|a: int, b: int| 0 <= a <= b <= lines[i].len() && t == lines[i].subrange(a, b);
        assert(no_newline(lines[i]));
        assert forall|k: int| 0 <= k < t.len() implies #[trigger] t[k] != '\n' by {
            assert(t[k] == lines[i][a + k]);
        }
        let c = collapse_from(lines, i, prev);
        if t.len() == 0 {
            lemma_collapse(lines, i + 1, true);
            let rest = collapse_from(lines, i + 1, true);
            if prev {
                assert(c == Seq::<char>::empty() + rest);
                assert(c =~= rest);
            } else {
                assert(c == seq!['\n'] + rest);
                assert forall|k: int| 0 <= k && k + 2 < c.len() implies !(#[trigger] c[k] == '\n' && c[k + 1] == '\n' && c[k + 2] == '\n') by {
                    if k == 0 {
                        assert(c[1] == rest[0]);
                    } else {
                        assert(c[k] == rest[k - 1]);
                        assert(c[k + 1] == rest[k]);
                        assert(c[k + 2] == rest[k + 1]);
                    }
                }
                if c.len() >= 2 {
                    assert(c[1] == rest[0]);
                }
            }
        } else {
            lemma_collapse(lines, i + 1, false);
            let rest = collapse_from(lines, i + 1, false);
            let head = t.push('\n');
            assert(c == head + rest);
            let n = head.len() as int;
            assert forall|k: int| 0 <= k && k + 2 < c.len() implies !(#[trigger] c[k] == '\n' && c[k + 1] == '\n' && c[k + 2] == '\n') by {
                if k + 2 < n {
                    assert(c[k] == t[k]);
                } else if k + 1 < n {
                    assert(k == n - 2);
                    assert(c[k] == t[k]);
                } else if k < n {
                    assert(k == n - 1);
                    assert(c[k + 1] == rest[0]);
                    assert(c[k + 2] == rest[1]);
                } else {
                    assert(c[k] == rest[k - n]);
                    assert(c[k + 1] == rest[k + 1 - n]);
                    assert(c[k + 2] == rest[k + 2 - n]);
                }
            }
            assert(c[0] == t[0]);
        }
    }
}

/// The readable text of an HTML document never holds two blank lines in a
/// row: runs of blank lines are collapsed to one.
pub proof fn lemma_html_text_collapses_blank_lines(s: Seq<char>)
    ensures
        no_triple_newline(html_text(s)),
{
    let d = entities_decoded(strip_from(s, 0, false, 0));
    lemma_lines_no_newline(d);
    lemma_collapse(lines_of(d), 0, false);
}

proof fn lemma_max_width(rows: Seq<Seq<Seq<char>>>)
    ensures
        forall|i: int| 0 <= i < rows.len() ==> (#[trigger] rows[i]).len() <= max_width(rows),
        rows.len() > 0 ==> exists|i: int| 0 <= i < rows.len() && (#[trigger] rows[i]).len() == max_width(rows),
    decreases rows.len(),
{
    if rows.len() > 0 {
        let d = rows.drop_last();
        lemma_max_width(d);
        assert forall|i: int| 0 <= i < rows.len() implies (#[trigger] rows[i]).len() <= max_width(rows) by {
            if i < d.len() {
                assert(rows[i] == d[i]);
            }
        }
        if rows.last().len() > max_width(d) {
            assert(rows[rows.len() - 1].len() == max_width(rows));
        } else if d.len() > 0 {
            let j = choose|j: int| 0 <= j < d.len() && (#[trigger] d[j]).len() == max_width(d);
            assert(rows[j] == d[j]);
        } else {
            assert(rows[0].len() == max_width(rows));
        }
    }
}

/// The first `k` cells of a line begin with the first `j` cells and then
/// the escaped field `j`.
proof fn lemma_row_cells_split(row: Seq<Seq<char>>, j: int, k: nat)
    requires
        0 <= j < k,
    ensures
        has_prefix(row_cells(row, k), row_cells(row, j as nat) + " "@ + escape_cell(cell_at(row, j)) + " |"@),
    decreases k,
{
    let p = row_cells(row, j as nat) + " "@ + escape_cell(cell_at(row, j)) + " |"@;
    if k == j + 1 {
        assert(row_cells(row, k) == p);
        assert(row_cells(row, k).subrange(0, p.len() as int) =~= p);
    } else {
        lemma_row_cells_split(row, j, (k - 1) as nat);
        let prev = row_cells(row, (k - 1) as nat);
        let more = " "@ + escape_cell(cell_at(row, k - 1)) + " |"@;
        assert(row_cells(row, k) == prev + more);
        assert((prev + more).subrange(0, p.len() as int) =~= prev.subrange(0, p.len() as int));
    }
}

/// Every field of every record is in the table: the table has as many
/// columns as the longest record (so no field is dropped), every line
/// (header, separator, records in order) has that many cells, and each
/// field `j` of a record stands, escaped, as cell `j` of its line.
pub proof fn lemma_csv_keeps_every_field(title: Seq<char>, rows: Seq<Seq<Seq<char>>>)
    requires
        rows.len() > 0,
    ensures
        exists|n: nat|
            {
                &&& forall|i: int| 0 <= i < rows.len() ==> (#[trigger] rows[i]).len() <= n
                &&& exists|i: int| 0 <= i < rows.len() && (#[trigger] rows[i]).len() == n
                &&& csv_document(title, rows) == "# "@ + title + "\n\n"@ + row_line(rows[0], n) + sep_line(n)
                    + body_lines(rows, n, rows.len() as int)
                &&& forall|i: int, j: int|
                    0 <= i < rows.len() && 0 <= j < rows[i].len() ==> has_prefix(
                        #[trigger] row_cells(rows[i], n),
                        row_cells(rows[i], j as nat) + " "@ + escape_cell(#[trigger] rows[i][j]) + " |"@,
                    )
            },
{
    let n = max_width(rows);
    lemma_max_width(rows);
    assert forall|i: int, j: int| 0 <= i < rows.len() && 0 <= j < rows[i].len() implies has_prefix(
        #[trigger] row_cells(rows[i], n),
        row_cells(rows[i], j as nat) + " "@ + escape_cell(#[trigger] rows[i][j]) + " |"@,
    ) by {
        assert(rows[i].len() <= n);
        lemma_row_cells_split(rows[i], j, n);
        assert(cell_at(rows[i], j) == rows[i][j]);
    }
    assert({
        &&& forall|i: int| 0 <= i < rows.len() ==> (#[trigger] rows[i]).len() <= n
        &&& exists|i: int| 0 <= i < rows.len() && (#[trigger] rows[i]).len() == n
        &&& csv_document(title, rows) == "# "@ + title + "\n\n"@ + row_line(rows[0], n) + sep_line(n) + body_lines(
            rows,
            n,
            rows.len() as int,
        )
        &&& forall|i: int, j: int|
            0 <= i < rows.len() && 0 <= j < rows[i].len() ==> has_prefix(
                #[trigger] row_cells(rows[i], n),
                row_cells(rows[i], j as nat) + " "@ + escape_cell(#[trigger] rows[i][j]) + " |"@,
            )
    });
}

/// Text that is valid UTF-8 is read exactly as it was written: the bytes
/// of any character sequence decode to that sequence (so a UTF-8 Markdown
/// input is passed through unchanged).
pub proof fn lemma_utf8_text_is_kept(s: Seq<char>)
    ensures
        decoded_text(vstd::utf8::encode_utf8(s)) == Some(s),
{
    vstd::utf8::encode_utf8_valid_utf8(s);
    vstd::utf8::encode_utf8_decode_utf8(s);
}

} // verus!
