//! PDF inputs: one Markdown file per page, plus index pages for the images
//! and embedded files pulled out of the document.

use vstd::prelude::*;

use crate::office::{files_view, image_file_name, lemma_numbered_intro, lemma_numbered_unique, numbered_name, strs_view};
use crate::text::{lines_exec, lines_of, trim_ws_trail, OutputFile};
use crate::util::{
    chars_of, decimal, is_whitespace, pad3, push_chars, push_decimal, push_pad3, push_str,
    sanitize_filename, sanitized, str_eq, string_of, unicode_whitespace,
};

verus! {

// ---------------------------------------------------------------------------
// Pages
// ---------------------------------------------------------------------------

/// The lines of a page, each with trailing whitespace removed and followed
/// by a newline.
pub open spec fn page_lines(lines: Seq<Seq<char>>) -> Seq<char>
    decreases lines.len(),
{
    if lines.len() == 0 {
        Seq::empty()
    } else {
        page_lines(lines.drop_last()) + trim_ws_trail(lines.last()).push('\n')
    }
}

/// The Markdown of page `i` (counting from zero): a `# Page N` heading and
/// the page's lines without trailing whitespace.
pub open spec fn page_document(i: nat, text: Seq<char>) -> Seq<char> {
    "# Page "@ + decimal(i + 1) + "\n\n"@ + page_lines(lines_of(text))
}

/// Removes trailing whitespace, as `str::trim_end` does.
fn trim_end_exec(s: &Vec<char>) -> (r: Vec<char>)
    ensures
        r@ == trim_ws_trail(s@),
{
    let ghost m = s@;
    let mut hi: usize = s.len();
    assert(m.subrange(0, hi as int) =~= m);
    while hi > 0 && is_whitespace(s[hi - 1])
        invariant
            s@ == m,
            hi <= s.len(),
            trim_ws_trail(m) == trim_ws_trail(m.subrange(0, hi as int)),
        decreases hi,
    {
        assert(m.subrange(0, hi as int).drop_last() =~= m.subrange(0, hi - 1));
        hi -= 1;
    }
    let mut r: Vec<char> = Vec::new();
    let mut i: usize = 0;
    while i < hi
        invariant
            s@ == m,
            i <= hi <= s.len(),
            r@ == m.subrange(0, i as int),
        decreases hi - i,
    {
        r.push(s[i]);
        assert(m.subrange(0, i + 1) =~= m.subrange(0, i as int).push(m[i as int]));
        i += 1;
    }
    r
}

/// Renders page `i` (counting from zero); see [`page_document`].
pub fn page_markdown(i: usize, text: &str) -> (r: String)
    requires
        i < u64::MAX,
    ensures
        r@ == page_document(i as nat, text@),
{
    let mut md = String::new();
    push_str(&mut md, "# Page ");
    push_decimal(&mut md, (i as u64) + 1);
    push_str(&mut md, "\n\n");
    let lines = lines_exec(&chars_of(text));
    let ghost lv = Seq::new(lines@.len(), |k: int| lines@[k]@);
    let ghost m0 = md@;
    let mut k: usize = 0;
    while k < lines.len()
        invariant
            k <= lines.len(),
            lv == Seq::new(lines@.len(), |k: int| lines@[k]@),
            md@ == m0 + page_lines(lv.take(k as int)),
        decreases lines.len() - k,
    {
        assert(lv.take(k + 1).drop_last() =~= lv.take(k as int));
        assert(lv.take(k + 1).last() == lines@[k as int]@);
        let t = trim_end_exec(&lines[k]);
        push_chars(&mut md, &t);
        push_chars(&mut md, &vec!['\n']);
        assert(md@ =~= m0 + page_lines(lv.take(k + 1)));
        k += 1;
    }
    assert(lv.take(lines.len() as int) =~= lv);
    md
}

/// The page files of a document: `page-NNN.md` for every page, one empty
/// page when the text extractor found none.
pub open spec fn page_files_spec(pages: Seq<Seq<char>>) -> Seq<(Seq<char>, Seq<char>)> {
    let ps = if pages.len() == 0 {
        seq![Seq::<char>::empty()]
    } else {
        pages
    };
    Seq::new(ps.len(), |i: int| ("page-"@ + pad3((i + 1) as nat) + ".md"@, page_document(i as nat, ps[i])))
}

/// The page files of a document; see [`page_files_spec`].
pub fn page_files(pages: &Vec<String>) -> (r: Vec<OutputFile>)
    requires
        pages.len() < u64::MAX,
    ensures
        files_view(r@) == page_files_spec(strs_view(pages@)),
{
    let mut out: Vec<OutputFile> = Vec::new();
    if pages.len() == 0 {
        let md = page_markdown(0, "");
        assert(""@ =~= Seq::<char>::empty()) by {
            reveal_strlit("");
        }
        out.push(OutputFile { name: String::from_str("page-001.md"), content: md });
        assert(pad3(1) =~= seq!['0', '0', '1']) by {
            reveal_with_fuel(decimal, 2);
        }
        assert("page-001.md"@ =~= "page-"@ + seq!['0', '0', '1'] + ".md"@) by {
            reveal_strlit("page-001.md");
            reveal_strlit("page-");
            reveal_strlit(".md");
        }
        assert(files_view(out@) =~= page_files_spec(strs_view(pages@)));
        return out;
    }
    let ghost pv = strs_view(pages@);
    let mut i: usize = 0;
    while i < pages.len()
        invariant
            i <= pages.len(),
            pages.len() < u64::MAX,
            pages.len() > 0,
            pv == strs_view(pages@),
            files_view(out@) == page_files_spec(pv).take(i as int),
        decreases pages.len() - i,
    {
        let mut name = String::from_str("page-");
        push_pad3(&mut name, (i as u64) + 1);
        push_str(&mut name, ".md");
        let md = page_markdown(i, pages[i].as_str());
        let ghost ov = files_view(out@);
        let ghost entry = (name@, md@);
        out.push(OutputFile { name, content: md });
        assert(pv[i as int] == pages@[i as int]@);
        assert(page_files_spec(pv)[i as int] == entry);
        assert(page_files_spec(pv).take(i + 1) =~= page_files_spec(pv).take(i as int).push(entry));
        assert(files_view(out@) =~= ov.push(entry));
        i += 1;
    }
    assert(page_files_spec(pv).take(pages.len() as int) =~= page_files_spec(pv));
    out
}

// ---------------------------------------------------------------------------
// Index pages
// ---------------------------------------------------------------------------

/// `![](rel)` lines, each followed by a blank line.
pub open spec fn image_paragraphs(rels: Seq<Seq<char>>) -> Seq<char>
    decreases rels.len(),
{
    if rels.len() == 0 {
        Seq::empty()
    } else {
        image_paragraphs(rels.drop_last()) + "![]("@ + rels.last() + ")\n\n"@
    }
}

/// The `images.md` index of the images pulled out of a PDF.
pub open spec fn pdf_images_document(rels: Seq<Seq<char>>) -> Seq<char> {
    "# Extracted images\n\n"@ + image_paragraphs(rels)
}

/// Renders the index of the images pulled out of a PDF.
pub fn pdf_images_markdown(rels: &Vec<String>) -> (r: String)
    ensures
        r@ == pdf_images_document(strs_view(rels@)),
{
    let ghost rv = strs_view(rels@);
    let mut md = String::from_str("# Extracted images\n\n");
    let ghost m0 = md@;
    let mut i: usize = 0;
    while i < rels.len()
        invariant
            i <= rels.len(),
            rv == strs_view(rels@),
            md@ == m0 + image_paragraphs(rv.take(i as int)),
        decreases rels.len() - i,
    {
        assert(rv.take(i + 1).drop_last() =~= rv.take(i as int));
        assert(rv.take(i + 1).last() == rels@[i as int]@);
        push_str(&mut md, "![](");
        push_str(&mut md, rels[i].as_str());
        push_str(&mut md, ")\n\n");
        i += 1;
    }
    assert(rv.take(rels.len() as int) =~= rv);
    md
}

/// `- [original](rel)` lines.
pub open spec fn file_links(items: Seq<(Seq<char>, Seq<char>)>) -> Seq<char>
    decreases items.len(),
{
    if items.len() == 0 {
        Seq::empty()
    } else {
        file_links(items.drop_last()) + "- ["@ + items.last().1 + "]("@ + items.last().0 + ")\n"@
    }
}

/// The `embeddings.md` index of the files embedded in a PDF (pairs of
/// relative path and original name).
pub open spec fn pdf_embeddings_document(items: Seq<(Seq<char>, Seq<char>)>) -> Seq<char> {
    "# Embedded files\n\n"@ + file_links(items)
}

/// The (path, name) views of a list of string pairs.
pub open spec fn pairs_view(v: Seq<(String, String)>) -> Seq<(Seq<char>, Seq<char>)> {
    Seq::new(v.len(), |i: int| (v[i].0@, v[i].1@))
}

/// Renders the index of the files embedded in a PDF.
pub fn pdf_embeddings_markdown(items: &Vec<(String, String)>) -> (r: String)
    ensures
        r@ == pdf_embeddings_document(pairs_view(items@)),
{
    let ghost iv = pairs_view(items@);
    let mut md = String::from_str("# Embedded files\n\n");
    let ghost m0 = md@;
    let mut i: usize = 0;
    while i < items.len()
        invariant
            i <= items.len(),
            iv == pairs_view(items@),
            md@ == m0 + file_links(iv.take(i as int)),
        decreases items.len() - i,
    {
        assert(iv.take(i + 1).drop_last() =~= iv.take(i as int));
        assert(iv.take(i + 1).last() == (items@[i as int].0@, items@[i as int].1@));
        push_str(&mut md, "- [");
        push_str(&mut md, items[i].1.as_str());
        push_str(&mut md, "](");
        push_str(&mut md, items[i].0.as_str());
        push_str(&mut md, ")\n");
        i += 1;
    }
    assert(iv.take(items.len() as int) =~= iv);
    md
}

// ---------------------------------------------------------------------------
// Images and embedded files
// ---------------------------------------------------------------------------

/// How the bytes of an image stream are written out.
#[derive(Debug, Clone, Copy, PartialEq, Eq, Structural)]
pub enum ImageEncoding {
    /// The raw stream bytes are a complete JPEG file (`.jpg`).
    Jpeg,
    /// The raw stream bytes are a complete JPEG 2000 file (`.jp2`).
    Jpeg2000,
    /// The raw stream bytes are written as they are, as a TIFF-family
    /// fax image (`.tif`).
    Fax,
    /// The stream is decompressed and re-encoded as PNG when possible.
    Decode,
}

/// How an image stream with the given (last) filter name is written.
pub open spec fn encoding_of(filter: Option<Seq<char>>) -> ImageEncoding {
    match filter {
        Some(f) => if f == "DCTDecode"@ {
            ImageEncoding::Jpeg
        } else if f == "JPXDecode"@ {
            ImageEncoding::Jpeg2000
        } else if f == "CCITTFaxDecode"@ {
            ImageEncoding::Fax
        } else {
            ImageEncoding::Decode
        },
        None => ImageEncoding::Decode,
    }
}

/// Decides how an image stream with the given (last) filter name is
/// written: JPEG (`DCTDecode`) and JPEG 2000 (`JPXDecode`) streams as they
/// are, fax (`CCITTFaxDecode`) streams as they are too, anything else decoded.
pub fn image_encoding(filter: Option<&str>) -> (r: ImageEncoding)
    ensures
        r == encoding_of(
            match filter {
                Some(f) => Some(f@),
                None => None,
            },
        ),
{
    match filter {
        Some(f) => if str_eq(f, "DCTDecode") {
            ImageEncoding::Jpeg
        } else if str_eq(f, "JPXDecode") {
            ImageEncoding::Jpeg2000
        } else if str_eq(f, "CCITTFaxDecode") {
            ImageEncoding::Fax
        } else {
            ImageEncoding::Decode
        },
        None => ImageEncoding::Decode,
    }
}

/// What the `image` crate's PNG encoder writes for 8-bit `pixels` of a
/// `width` x `height` image, grey when `gray` holds and RGB otherwise
/// (none when it reports an error).
pub uninterp spec fn png_encoded(pixels: Seq<u8>, width: u32, height: u32, gray: bool) -> Option<
    Seq<u8>,
>;

/// `image::codecs::png::PngEncoder::write_image` on 8-bit grey or RGB
/// pixels; the encoder panics unless the pixel buffer has exactly the size
/// of the image, which the precondition requires.  Its output is named by
/// [`png_encoded`].
#[verifier::external_body]
fn encode_png(pixels: &[u8], width: u32, height: u32, gray: bool) -> (r: Option<Vec<u8>>)
    requires
        pixels@.len() == (width as int) * (height as int) * (if gray {
            1int
        } else {
            3int
        }),
    ensures
        match r {
            Some(b) => png_encoded(pixels@, width, height, gray) == Some(b@),
            None => png_encoded(pixels@, width, height, gray) is None,
        },
{
    let color = if gray {
        image::ExtendedColorType::L8
    } else {
        image::ExtendedColorType::Rgb8
    };
    let mut buf: Vec<u8> = Vec::new();
    let encoder = image::codecs::png::PngEncoder::new(&mut buf);
    image::ImageEncoder::write_image(encoder, pixels, width, height, color).ok()?;
    Some(buf)
}

/// The number of components per pixel for a colour space name (grey, RGB
/// or CMYK); none for the colour spaces that are not converted.
pub open spec fn components_of(cs: Option<Seq<char>>) -> Option<int> {
    match cs {
        Some(c) => if c == "DeviceGray"@ || c == "CalGray"@ {
            Some(1)
        } else if c == "DeviceRGB"@ || c == "CalRGB"@ {
            Some(3)
        } else if c == "DeviceCMYK"@ {
            Some(4)
        } else {
            None
        },
        None => None,
    }
}

/// Sample `k` of a raster as 8 bits: the byte itself, or the high (first)
/// byte of a 16-bit sample when `wide` holds.
pub open spec fn sample8(raw: Seq<u8>, wide: bool, k: int) -> u8 {
    if wide {
        raw[2 * k]
    } else {
        raw[k]
    }
}

/// The first `s` samples of a grey or RGB raster as 8-bit values.
pub open spec fn plain_samples(raw: Seq<u8>, wide: bool, s: nat) -> Seq<u8> {
    Seq::new(s, |k: int| sample8(raw, wide, k))
}

/// One RGB channel of a CMYK colour: `(255 - c) * (255 - k) / 255`.
pub open spec fn cmyk_channel(c: u8, k: u8) -> u8 {
    (((255 - c) * (255 - k)) / 255) as u8
}

/// The first `p` pixels of a CMYK raster as 8-bit RGB.
pub open spec fn cmyk_rgb(raw: Seq<u8>, wide: bool, p: nat) -> Seq<u8>
    decreases p,
{
    if p == 0 {
        Seq::empty()
    } else {
        let q = p - 1;
        let k = sample8(raw, wide, 4 * q + 3);
        cmyk_rgb(raw, wide, (p - 1) as nat) + seq![
            cmyk_channel(sample8(raw, wide, 4 * q), k),
            cmyk_channel(sample8(raw, wide, 4 * q + 1), k),
            cmyk_channel(sample8(raw, wide, 4 * q + 2), k),
        ]
    }
}

/// The largest value of a `bpc`-bit sample (1, 2 or 4 bits).
pub open spec fn packed_mask(bpc: int) -> u8 {
    if bpc == 1 {
        1
    } else if bpc == 2 {
        3
    } else {
        15
    }
}

/// Sample `x` of a row of `bpc`-bit samples starting at byte `start`,
/// scaled to 8 bits.
pub open spec fn packed_sample(raw: Seq<u8>, start: int, bpc: int, x: int) -> u8 {
    let bit = x * bpc;
    let v = (raw[start + bit / 8] >> ((8 - bpc - bit % 8) as u8)) & packed_mask(bpc);
    ((v as int) * 255 / (packed_mask(bpc) as int)) as u8
}

/// The first `n` samples of the row starting at byte `start`.
pub open spec fn packed_row(raw: Seq<u8>, start: int, bpc: int, n: nat) -> Seq<u8>
    decreases n,
{
    if n == 0 {
        Seq::empty()
    } else {
        packed_row(raw, start, bpc, (n - 1) as nat).push(packed_sample(raw, start, bpc, n - 1))
    }
}

/// The first `h` rows of a raster of `row` samples per row, `stride` bytes
/// apart.
pub open spec fn packed_rows(raw: Seq<u8>, stride: int, bpc: int, row: int, h: nat) -> Seq<u8>
    decreases h,
{
    if h == 0 {
        Seq::empty()
    } else {
        packed_rows(raw, stride, bpc, row, (h - 1) as nat) + packed_row(raw, (h - 1) * stride, bpc, row as nat)
    }
}

proof fn lemma_packed_row_len(raw: Seq<u8>, start: int, bpc: int, n: nat)
    ensures
        packed_row(raw, start, bpc, n).len() == n,
    decreases n,
{
    if n > 0 {
        lemma_packed_row_len(raw, start, bpc, (n - 1) as nat);
    }
}

proof fn lemma_packed_rows_len(raw: Seq<u8>, stride: int, bpc: int, row: nat, h: nat)
    ensures
        packed_rows(raw, stride, bpc, row as int, h).len() == row * h,
    decreases h,
{
    if h > 0 {
        lemma_packed_rows_len(raw, stride, bpc, row, (h - 1) as nat);
        let prev = packed_rows(raw, stride, bpc, row as int, (h - 1) as nat);
        let r = packed_row(raw, (h - 1) * stride, bpc, (row as int) as nat);
        assert(packed_rows(raw, stride, bpc, row as int, h) == prev + r);
        lemma_packed_row_len(raw, (h - 1) * stride, bpc, (row as int) as nat);
        assert(row * ((h - 1) as nat) + row == row * h) by (nonlinear_arith)
            requires
                h > 0,
        ;
    } else {
        assert(row * h == 0) by (nonlinear_arith)
            requires
                h == 0,
        ;
    }
}

/// Appends one row of packed samples, scaled to 8 bits.
fn push_packed_row(out: &mut Vec<u8>, raw: &[u8], start: usize, bpc: usize, n: usize)
    requires
        bpc == 1 || bpc == 2 || bpc == 4,
        n * bpc <= usize::MAX,
        start + (n * bpc + 7) / 8 <= raw@.len(),
    ensures
        final(out)@ == old(out)@ + packed_row(raw@, start as int, bpc as int, n as nat),
{
    let ghost o0 = out@;
    let m: u8 = if bpc == 1 {
        1
    } else if bpc == 2 {
        3
    } else {
        15
    };
    let mut x: usize = 0;
    let mut bit: usize = 0;
    while x < n
        invariant
            bpc == 1 || bpc == 2 || bpc == 4,
            m == packed_mask(bpc as int),
            n * bpc <= usize::MAX,
            start + (n * bpc + 7) / 8 <= raw@.len(),
            x <= n,
            bit == x * bpc,
            out@ == o0 + packed_row(raw@, start as int, bpc as int, x as nat),
        decreases n - x,
    {
        assert((x + 1) * bpc <= n * bpc) by (nonlinear_arith)
            requires
                x < n,
        ;
        assert((x + 1) * bpc == x * bpc + bpc) by (nonlinear_arith);
        assert(raw@.len() == raw.len());
        let byte = raw[start + bit / 8];
        let sh: u8 = (8 - bpc - bit % 8) as u8;
        let v: u8 = (byte >> sh) & m;
        assert((byte >> sh) & m <= m) by (bit_vector);
        let scaled: u32 = (v as u32) * 255 / (m as u32);
        assert(scaled <= 255) by (nonlinear_arith)
            requires
                scaled as int == (v as int) * 255 / (m as int),
                v <= m,
                m >= 1,
        ;
        out.push(scaled as u8);
        assert(out@ =~= o0 + packed_row(raw@, start as int, bpc as int, (x + 1) as nat));
        x += 1;
        bit += bpc;
    }
}

/// The 8-bit samples of a packed (1-, 2- or 4-bit) raster; see [`packed_rows`].
fn unpack_rows(raw: &[u8], stride: usize, bpc: usize, row: usize, h: usize) -> (r: Vec<u8>)
    requires
        bpc == 1 || bpc == 2 || bpc == 4,
        row * bpc <= usize::MAX,
        stride == (row * bpc + 7) / 8,
        stride * h <= raw@.len(),
    ensures
        r@ == packed_rows(raw@, stride as int, bpc as int, row as int, h as nat),
{
    let mut out: Vec<u8> = Vec::new();
    let mut y: usize = 0;
    let mut start: usize = 0;
    while y < h
        invariant
            bpc == 1 || bpc == 2 || bpc == 4,
            row * bpc <= usize::MAX,
            stride == (row * bpc + 7) / 8,
            stride * h <= raw@.len(),
            y <= h,
            start == y * stride,
            out@ == packed_rows(raw@, stride as int, bpc as int, row as int, y as nat),
        decreases h - y,
    {
        assert(y * stride + stride <= h * stride) by (nonlinear_arith)
            requires
                y < h,
        ;
        assert(h * stride == stride * h) by (nonlinear_arith);
        assert(raw@.len() == raw.len());
        push_packed_row(&mut out, raw, start, bpc, row);
        assert((y + 1) * stride == y * stride + stride) by (nonlinear_arith);
        y += 1;
        start += stride;
    }
    out
}

/// The PNG for a raw raster, given the image dictionary's `Width`,
/// `Height`, `BitsPerComponent` (8 when absent) and `ColorSpace` values:
/// width and height are taken as `u32` (truncating, as `as` does); 8- and
/// 16-bit grey, RGB and CMYK rasters are converted (16-bit samples keep
/// their high byte, CMYK becomes RGB), and so are 1-, 2- and 4-bit grey and
/// RGB rasters (rows padded to whole bytes, samples scaled to 0..255), when
/// the raw data is long enough for `width * height` pixels (and, for packed
/// samples, a row's bits can be counted in a `usize`); grey stays grey, the
/// others become RGB.
pub open spec fn raster_png_spec(
    width: Option<i64>,
    height: Option<i64>,
    bpc: Option<i64>,
    cs: Option<Seq<char>>,
    raw: Seq<u8>,
) -> Option<Seq<u8>> {
    match (width, height) {
        (Some(wi), Some(hi)) => {
            let w = wi as u32;
            let h = hi as u32;
            let b = match bpc {
                Some(b) => b,
                None => 8,
            };
            if b == 1 || b == 2 || b == 4 {
                match components_of(cs) {
                    Some(c) => if c == 4 {
                        None
                    } else {
                        let row = (w as int) * c;
                        let stride = (row * b + 7) / 8;
                        if raw.len() < stride * (h as int) || row * b > usize::MAX {
                            None
                        } else {
                            png_encoded(packed_rows(raw, stride, b as int, row, h as nat), w, h, c == 1)
                        }
                    },
                    None => None,
                }
            } else if b != 8 && b != 16 {
                None
            } else {
                let wide = b == 16;
                match components_of(cs) {
                    None => None,
                    Some(c) => {
                        let n = (w as int) * (h as int);
                        let need = n * c * if wide {
                            2int
                        } else {
                            1int
                        };
                        if raw.len() < need {
                            None
                        } else if c == 4 {
                            png_encoded(cmyk_rgb(raw, wide, n as nat), w, h, false)
                        } else {
                            png_encoded(plain_samples(raw, wide, (n * c) as nat), w, h, c == 1)
                        }
                    },
                }
            }
        },
        _ => None,
    }
}

/// One RGB channel of a CMYK colour; see [`cmyk_channel`].
fn cmyk_channel_exec(c: u8, k: u8) -> (r: u8)
    ensures
        r == cmyk_channel(c, k),
{
    let a: u32 = 255 - c as u32;
    let b: u32 = 255 - k as u32;
    assert(a * b <= 255 * 255) by (nonlinear_arith)
        requires
            a <= 255,
            b <= 255,
    ;
    let v: u32 = a * b / 255;
    assert(v <= 255) by (nonlinear_arith)
        requires
            v == a * b / 255,
            a * b <= 255 * 255,
    ;
    v as u8
}

/// Converts a raw raster to PNG; see [`raster_png_spec`].  The pixel count
/// is computed exactly, so a raster too large for memory is simply too
/// long for the data it came with.
pub fn try_encode_raster_as_png(
    width: Option<i64>,
    height: Option<i64>,
    bpc: Option<i64>,
    color_space: Option<&str>,
    raw: &[u8],
) -> (r: Option<Vec<u8>>)
    ensures
        match r {
            Some(b) => raster_png_spec(
                width,
                height,
                bpc,
                match color_space {
                    Some(c) => Some(c@),
                    None => None,
                },
                raw@,
            ) == Some(b@),
            None => raster_png_spec(
                width,
                height,
                bpc,
                match color_space {
                    Some(c) => Some(c@),
                    None => None,
                },
                raw@,
            ) is None,
        },
{
    let (wi, hi) = match (width, height) {
        (Some(wi), Some(hi)) => (wi, hi),
        _ => return None,
    };
    let w = wi as u32;
    let h = hi as u32;
    let b = match bpc {
        Some(b) => b,
        None => 8,
    };
    if b == 1 || b == 2 || b == 4 {
        let components: u128 = match color_space {
            Some(c) => if str_eq(c, "DeviceGray") || str_eq(c, "CalGray") {
                1
            } else if str_eq(c, "DeviceRGB") || str_eq(c, "CalRGB") {
                3
            } else {
                return None;
            },
            None => return None,
        };
        let bits: u128 = b as u128;
        let row: u128 = (w as u128) * components;
        assert(row <= 0xffff_ffff * 3) by (nonlinear_arith)
            requires
                row == (w as int) * (components as int),
                w <= 0xffff_ffff,
                components <= 3,
        ;
        assert(row * bits <= 0xffff_ffff * 12) by (nonlinear_arith)
            requires
                row <= 0xffff_ffff * 3,
                bits <= 4,
        ;
        let stride: u128 = (row * bits + 7) / 8;
        assert(stride * (h as int) <= 0xffff_ffff_ffff_ffff_ffff * 0xffff_ffff) by (nonlinear_arith)
            requires
                stride == (row * bits + 7) / 8,
                row <= 0xffff_ffff * 3,
                bits <= 4,
                h <= 0xffff_ffff,
        ;
        let need: u128 = stride * (h as u128);
        if (raw.len() as u128) < need {
            return None;
        }
        if row * bits > usize::MAX as u128 {
            return None;
        }
        assert(row <= row * bits) by (nonlinear_arith)
            requires
                bits >= 1,
        ;
        assert((row as int) * (h as int) == (w as int) * (h as int) * (components as int)) by (nonlinear_arith)
            requires
                row == (w as int) * (components as int),
        ;
        let pixels = unpack_rows(raw, stride as usize, b as usize, row as usize, h as usize);
        proof {
            lemma_packed_rows_len(raw@, stride as int, b as int, row as nat, h as nat);
        }
        return encode_png(pixels.as_slice(), w, h, components == 1);
    }
    if b != 8 && b != 16 {
        return None;
    }
    let wide = b == 16;
    let components: u128 = match color_space {
        Some(c) => if str_eq(c, "DeviceGray") || str_eq(c, "CalGray") {
            1
        } else if str_eq(c, "DeviceRGB") || str_eq(c, "CalRGB") {
            3
        } else if str_eq(c, "DeviceCMYK") {
            4
        } else {
            return None;
        },
        None => return None,
    };
    assert((w as int) * (h as int) <= 0xffff_ffff * 0xffff_ffff) by (nonlinear_arith)
        requires
            w <= 0xffff_ffff,
            h <= 0xffff_ffff,
    ;
    let n: u128 = (w as u128) * (h as u128);
    let s: u128 = n * components;
    let need: u128 = if wide {
        s * 2
    } else {
        s
    };
    if (raw.len() as u128) < need {
        return None;
    }
    let ghost rv = raw@;
    let mut pixels: Vec<u8> = Vec::new();
    if components == 4 {
        let np = n as usize;
        let mut p: usize = 0;
        while p < np
            invariant
                np as int == n as int,
                n * 4 == s,
                need == if wide {
                    s * 2
                } else {
                    s as int
                },
                need <= raw@.len(),
                rv == raw@,
                p <= np,
                pixels@ == cmyk_rgb(rv, wide, p as nat),
            decreases np - p,
        {
            assert(raw@.len() == raw.len());
            assert(4 * p + 4 <= s);
            assert(s <= need);
            assert(wide ==> 8 * p + 8 <= need);
            let base = 4 * p;
            let (c0, c1, c2, k) = if wide {
                (raw[2 * base], raw[2 * base + 2], raw[2 * base + 4], raw[2 * base + 6])
            } else {
                (raw[base], raw[base + 1], raw[base + 2], raw[base + 3])
            };
            assert(k == sample8(rv, wide, 4 * p + 3));
            assert(c0 == sample8(rv, wide, 4 * p));
            assert(c1 == sample8(rv, wide, 4 * p + 1));
            assert(c2 == sample8(rv, wide, 4 * p + 2));
            pixels.push(cmyk_channel_exec(c0, k));
            pixels.push(cmyk_channel_exec(c1, k));
            pixels.push(cmyk_channel_exec(c2, k));
            assert(pixels@ =~= cmyk_rgb(rv, wide, (p + 1) as nat));
            p += 1;
        }
        proof {
            assert(pixels@.len() == 3 * (n as int)) by {
                lemma_cmyk_len(rv, wide, n as nat);
            }
        }
        encode_png(pixels.as_slice(), w, h, false)
    } else {
        let ns = s as usize;
        let mut k: usize = 0;
        while k < ns
            invariant
                ns as int == s as int,
                need == if wide {
                    s * 2
                } else {
                    s as int
                },
                need <= raw@.len(),
                rv == raw@,
                k <= ns,
                pixels@ =~= plain_samples(rv, wide, k as nat),
            decreases ns - k,
        {
            assert(raw@.len() == raw.len());
            assert(k + 1 <= s);
            assert(wide ==> 2 * k + 2 <= need);
            let v = if wide {
                raw[2 * k]
            } else {
                raw[k]
            };
            pixels.push(v);
            k += 1;
        }
        encode_png(pixels.as_slice(), w, h, components == 1)
    }
}

proof fn lemma_cmyk_len(raw: Seq<u8>, wide: bool, p: nat)
    ensures
        cmyk_rgb(raw, wide, p).len() == 3 * p,
    decreases p,
{
    if p > 0 {
        lemma_cmyk_len(raw, wide, (p - 1) as nat);
    }
}

/// Where an image pulled out of a PDF is written: `images/img-NNN.<ext>`
/// with the next image number.
pub fn pdf_image_target(counter: &mut u32, ext: &str) -> (r: (String, String))
    requires
        *old(counter) < u32::MAX,
    ensures
        *final(counter) == *old(counter) + 1,
        r.0@ == image_file_name(*final(counter) as nat, ext@),
        r.1@ == "images/"@ + image_file_name(*final(counter) as nat, ext@),
{
    *counter += 1;
    let mut f = String::from_str("img-");
    push_pad3(&mut f, *counter as u64);
    push_str(&mut f, ".");
    push_str(&mut f, ext);
    let mut rel = String::from_str("images/");
    push_str(&mut rel, f.as_str());
    (f, rel)
}

/// The extension and bytes written for an image stream, given how it is
/// encoded, its raw content and (for streams that are decoded) its
/// decompressed content: JPEG, JPEG 2000 and fax streams as they are,
/// decoded rasters as PNG when they convert; nothing otherwise.
pub open spec fn pdf_image_bytes(
    encoding: ImageEncoding,
    content: Seq<u8>,
    decoded: Option<Seq<u8>>,
    width: Option<i64>,
    height: Option<i64>,
    bpc: Option<i64>,
    cs: Option<Seq<char>>,
) -> Option<(Seq<char>, Seq<u8>)> {
    match encoding {
        ImageEncoding::Jpeg => Some(("jpg"@, content)),
        ImageEncoding::Jpeg2000 => Some(("jp2"@, content)),
        ImageEncoding::Fax => Some(("tif"@, content)),
        ImageEncoding::Decode => match decoded {
            None => None,
            Some(d) => match raster_png_spec(width, height, bpc, cs, d) {
                Some(png) => Some(("png"@, png)),
                None => None,
            },
        },
    }
}

/// An image file to write out of a PDF.
#[derive(Debug)]
pub struct PdfImageFile {
    /// File name inside `images/`.
    pub file_name: String,
    /// Path relative to the output folder.
    pub rel: String,
    /// The file's bytes.
    pub bytes: Vec<u8>,
}

/// Decides what is written for one image stream; see [`pdf_image_bytes`].
/// Streams that give no bytes (or empty ones) are skipped and do not take
/// a number.  `decoded` is only consulted for streams that are decoded.
pub fn pdf_image_file(
    encoding: ImageEncoding,
    content: &[u8],
    decoded: Option<&[u8]>,
    width: Option<i64>,
    height: Option<i64>,
    bpc: Option<i64>,
    color_space: Option<&str>,
    counter: &mut u32,
) -> (r: Option<PdfImageFile>)
    requires
        *old(counter) < u32::MAX,
    ensures
        match pdf_image_bytes(
            encoding,
            content@,
            match decoded {
                Some(d) => Some(d@),
                None => None,
            },
            width,
            height,
            bpc,
            match color_space {
                Some(c) => Some(c@),
                None => None,
            },
        ) {
            Some((ext, b)) if b.len() > 0 => *final(counter) == *old(counter) + 1 && (r matches Some(f) && {
                &&& f.bytes@ == b
                &&& f.file_name@ == image_file_name(*final(counter) as nat, ext)
                &&& f.rel@ == "images/"@ + image_file_name(*final(counter) as nat, ext)
            }),
            _ => r is None && *final(counter) == *old(counter),
        },
{
    let (ext, bytes): (&str, Vec<u8>) = match encoding {
        ImageEncoding::Jpeg => ("jpg", copy_bytes(content)),
        ImageEncoding::Jpeg2000 => ("jp2", copy_bytes(content)),
        ImageEncoding::Fax => ("tif", copy_bytes(content)),
        ImageEncoding::Decode => match decoded {
            None => return None,
            Some(d) => match try_encode_raster_as_png(width, height, bpc, color_space, d) {
                Some(png) => ("png", png),
                None => return None,
            },
        },
    };
    if bytes.len() == 0 {
        return None;
    }
    let (file_name, rel) = pdf_image_target(counter, ext);
    Some(PdfImageFile { file_name, rel, bytes })
}

/// A copy of `b`.
fn copy_bytes(b: &[u8]) -> (r: Vec<u8>)
    ensures
        r@ == b@,
{
    let mut v: Vec<u8> = Vec::new();
    let mut i: usize = 0;
    while i < b.len()
        invariant
            i <= b.len(),
            v@ == b@.subrange(0, i as int),
        decreases b.len() - i,
    {
        v.push(b[i]);
        assert(b@.subrange(0, i + 1) =~= b@.subrange(0, i as int).push(b@[i as int]));
        i += 1;
    }
    assert(b@.subrange(0, b.len() as int) =~= b@);
    v
}

/// The name recorded for an embedded file: the name its file specification
/// gives, else `file-NNN.bin` numbered by the files written so far.
pub open spec fn embedded_name_spec(counter: nat, name: Option<Seq<char>>) -> Seq<char> {
    match name {
        Some(n) => n,
        None => "file-"@ + pad3(counter) + ".bin"@,
    }
}

/// Where a file embedded in a PDF is written: its file name, its path
/// relative to the output folder and its original name.
pub fn pdf_embed_target(counter: &mut u32, name: Option<&str>) -> (r: (String, String, String))
    requires
        *old(counter) < u32::MAX,
    ensures
        *final(counter) == *old(counter) + 1,
        r.2@ == embedded_name_spec(
            *old(counter) as nat,
            match name {
                Some(n) => Some(n@),
                None => None,
            },
        ),
        r.0@ == "embed-"@ + pad3(*final(counter) as nat) + "-"@ + sanitized(r.2@),
        r.1@ == "embeddings/"@ + r.0@,
{
    let original = match name {
        Some(n) => String::from_str(n),
        None => {
            let mut s = String::from_str("file-");
            push_pad3(&mut s, *counter as u64);
            push_str(&mut s, ".bin");
            s
        },
    };
    *counter += 1;
    let mut f = String::from_str("embed-");
    push_pad3(&mut f, *counter as u64);
    push_str(&mut f, "-");
    let safe = sanitize_filename(original.as_str());
    push_str(&mut f, safe.as_str());
    let mut rel = String::from_str("embeddings/");
    push_str(&mut rel, f.as_str());
    (f, rel, original)
}

// ---------------------------------------------------------------------------
// The objects of a document
// ---------------------------------------------------------------------------

/// A PDF value, as far as the extraction reads it: names and strings (as
/// text), integers, references, arrays and dictionaries; anything else is
/// `Other`.
#[derive(Debug)]
pub enum PdfValue {
    Name(String),
    Str(String),
    Int(i64),
    Ref(u32, u16),
    Array(Vec<PdfValue>),
    Dict(Vec<(String, PdfValue)>),
    Other,
}

/// One object of a document, in the document's object order.
#[derive(Debug)]
pub struct PdfObject {
    /// Object number and generation.
    pub id: (u32, u16),
    /// The dictionary of a dictionary object, or the dictionary of a stream.
    pub dict: Option<Vec<(String, PdfValue)>>,
    /// Whether the object is a stream.
    pub stream: bool,
    /// A stream's raw content (empty for other objects).
    pub content: Vec<u8>,
    /// A stream's content after its filters are undone, when that works.
    pub decoded: Option<Vec<u8>>,
}

/// The value stored under `k` in a dictionary.
pub open spec fn dict_lookup(d: Seq<(String, PdfValue)>, k: Seq<char>) -> Option<PdfValue>
    decreases d.len(),
{
    if d.len() == 0 {
        None
    } else if d[0].0@ == k {
        Some(d[0].1)
    } else {
        dict_lookup(d.drop_first(), k)
    }
}

/// The value stored under `k`, else the one under `k2`.
pub open spec fn dict_lookup_either(d: Seq<(String, PdfValue)>, k: Seq<char>, k2: Seq<char>) -> Option<PdfValue> {
    match dict_lookup(d, k) {
        Some(v) => Some(v),
        None => dict_lookup(d, k2),
    }
}

/// A name, or the last element of an array when that is a name.
pub open spec fn value_name(v: Option<PdfValue>) -> Option<Seq<char>> {
    match v {
        Some(PdfValue::Name(n)) => Some(n@),
        Some(PdfValue::Array(a)) => if a@.len() > 0 {
            match a@.last() {
                PdfValue::Name(n) => Some(n@),
                _ => None,
            }
        } else {
            None
        },
        _ => None,
    }
}

/// An integer value.
pub open spec fn value_int(v: Option<PdfValue>) -> Option<i64> {
    match v {
        Some(PdfValue::Int(i)) => Some(i),
        _ => None,
    }
}

/// The dictionary of an object (empty when it has none).
pub open spec fn object_dict(o: PdfObject) -> Seq<(String, PdfValue)> {
    match o.dict {
        Some(d) => d@,
        None => Seq::empty(),
    }
}

/// Whether an object is an image: a stream whose `/Subtype` is the name
/// `Image`.
pub open spec fn is_image_stream(o: PdfObject) -> bool {
    o.stream && match dict_lookup(object_dict(o), "Subtype"@) {
        Some(PdfValue::Name(n)) => n@ == "Image"@,
        _ => false,
    }
}

/// The extension and bytes written for an image object.
pub open spec fn object_image_bytes(o: PdfObject) -> Option<(Seq<char>, Seq<u8>)> {
    let d = object_dict(o);
    pdf_image_bytes(
        encoding_of(value_name(dict_lookup(d, "Filter"@))),
        o.content@,
        match o.decoded {
            Some(b) => Some(b@),
            None => None,
        },
        value_int(dict_lookup(d, "Width"@)),
        value_int(dict_lookup(d, "Height"@)),
        value_int(dict_lookup(d, "BitsPerComponent"@)),
        value_name(dict_lookup(d, "ColorSpace"@)),
    )
}

/// The image files of the first `k` objects (file name, path relative to
/// the output folder, bytes) and how many there are: every image stream
/// that gives bytes, numbered in object order.
pub open spec fn image_files_spec(objs: Seq<PdfObject>, k: int) -> (Seq<(Seq<char>, Seq<char>, Seq<u8>)>, nat)
    decreases k,
{
    if k <= 0 {
        (Seq::empty(), 0)
    } else {
        let (out, c) = image_files_spec(objs, k - 1);
        let o = objs[k - 1];
        if is_image_stream(o) {
            match object_image_bytes(o) {
                Some((ext, b)) => if b.len() > 0 {
                    let f = image_file_name(c + 1, ext);
                    (out.push((f, "images/"@ + f, b)), c + 1)
                } else {
                    (out, c)
                },
                None => (out, c),
            }
        } else {
            (out, c)
        }
    }
}

/// The (file name, relative path, bytes) views of image files.
pub open spec fn image_files_view(v: Seq<PdfImageFile>) -> Seq<(Seq<char>, Seq<char>, Seq<u8>)> {
    Seq::new(v.len(), |i: int| (v[i].file_name@, v[i].rel@, v[i].bytes@))
}

/// The value stored under `k` in a dictionary.
fn dict_get<'a>(d: &'a Vec<(String, PdfValue)>, k: &str) -> (r: Option<&'a PdfValue>)
    ensures
        match r {
            Some(v) => dict_lookup(d@, k@) == Some(*v),
            None => dict_lookup(d@, k@) is None,
        },
{
    let mut i: usize = 0;
    assert(d@.skip(0) =~= d@);
    while i < d.len()
        invariant
            i <= d.len(),
            dict_lookup(d@, k@) == dict_lookup(d@.skip(i as int), k@),
        decreases d.len() - i,
    {
        assert(d@.skip(i as int)[0] == d@[i as int]);
        assert(d@.skip(i as int).drop_first() =~= d@.skip(i + 1));
        if str_eq(d[i].0.as_str(), k) {
            return Some(&d[i].1);
        }
        i += 1;
    }
    None
}

/// The value under `k`, else the one under `k2`.
fn dict_get_either<'a>(d: &'a Vec<(String, PdfValue)>, k: &str, k2: &str) -> (r: Option<&'a PdfValue>)
    ensures
        match r {
            Some(v) => dict_lookup_either(d@, k@, k2@) == Some(*v),
            None => dict_lookup_either(d@, k@, k2@) is None,
        },
{
    match dict_get(d, k) {
        Some(v) => Some(v),
        None => dict_get(d, k2),
    }
}

/// A name, or the last element of an array when that is a name.
fn name_of(v: Option<&PdfValue>) -> (r: Option<&str>)
    ensures
        match r {
            Some(n) => value_name(
                match v {
                    Some(x) => Some(*x),
                    None => None,
                },
            ) == Some(n@),
            None => value_name(
                match v {
                    Some(x) => Some(*x),
                    None => None,
                },
            ) is None,
        },
{
    match v {
        Some(PdfValue::Name(n)) => Some(n.as_str()),
        Some(PdfValue::Array(a)) => if a.len() > 0 {
            match &a[a.len() - 1] {
                PdfValue::Name(n) => Some(n.as_str()),
                _ => None,
            }
        } else {
            None
        },
        _ => None,
    }
}

/// An integer value.
fn int_of(v: Option<&PdfValue>) -> (r: Option<i64>)
    ensures
        r == value_int(
            match v {
                Some(x) => Some(*x),
                None => None,
            },
        ),
{
    match v {
        Some(PdfValue::Int(i)) => Some(*i),
        _ => None,
    }
}

/// Picks the image streams of a document and decides what is written for
/// each; see [`image_files_spec`].
pub fn extract_pdf_images(objs: &Vec<PdfObject>) -> (r: Vec<PdfImageFile>)
    requires
        objs.len() < u32::MAX,
    ensures
        image_files_view(r@) == image_files_spec(objs@, objs.len() as int).0,
{
    let mut out: Vec<PdfImageFile> = Vec::new();
    let mut counter: u32 = 0;
    let mut k: usize = 0;
    while k < objs.len()
        invariant
            k <= objs.len() < u32::MAX,
            (image_files_view(out@), counter as nat) == image_files_spec(objs@, k as int),
            counter <= k,
        decreases objs.len() - k,
    {
        let o = &objs[k];
        let ghost before = image_files_view(out@);
        if o.stream {
            let empty: Vec<(String, PdfValue)> = Vec::new();
            let d = match &o.dict {
                Some(d) => d,
                None => &empty,
            };
            assert(d@ == object_dict(*o));
            let is_image = match dict_get(d, "Subtype") {
                Some(PdfValue::Name(n)) => str_eq(n.as_str(), "Image"),
                _ => false,
            };
            if is_image {
                let encoding = image_encoding(name_of(dict_get(d, "Filter")));
                let decoded: Option<&[u8]> = match &o.decoded {
                    Some(b) => Some(b.as_slice()),
                    None => None,
                };
                let f = pdf_image_file(
                    encoding,
                    o.content.as_slice(),
                    decoded,
                    int_of(dict_get(d, "Width")),
                    int_of(dict_get(d, "Height")),
                    int_of(dict_get(d, "BitsPerComponent")),
                    name_of(dict_get(d, "ColorSpace")),
                    &mut counter,
                );
                match f {
                    Some(file) => {
                        out.push(file);
                        assert(image_files_view(out@) =~= before.push(image_files_view(out@).last()));
                    },
                    None => {},
                }
            }
        }
        k += 1;
    }
    out
}

/// An embedded file to write out of a PDF.
#[derive(Debug)]
pub struct PdfEmbeddedFile {
    /// File name inside `embeddings/`.
    pub file_name: String,
    /// Path relative to the output folder.
    pub rel: String,
    /// The name recorded for the file.
    pub original: String,
    /// The file's bytes.
    pub bytes: Vec<u8>,
}

/// The first object with the given id.
pub open spec fn find_object(objs: Seq<PdfObject>, id: (u32, u16)) -> Option<PdfObject>
    decreases objs.len(),
{
    if objs.len() == 0 {
        None
    } else if objs[0].id == id {
        Some(objs[0])
    } else {
        find_object(objs.drop_first(), id)
    }
}

/// The stream a file specification embeds: a dictionary object's `/EF`
/// dictionary refers (through `/UF`, else `/F`) to a stream.
pub open spec fn embedded_stream(objs: Seq<PdfObject>, o: PdfObject) -> Option<PdfObject> {
    if o.stream {
        None
    } else {
        match o.dict {
            None => None,
            Some(d) => match dict_lookup(d@, "EF"@) {
                Some(PdfValue::Dict(ef)) => match dict_lookup_either(ef@, "UF"@, "F"@) {
                    Some(PdfValue::Ref(n, g)) => match find_object(objs, (n, g)) {
                        Some(t) => if t.stream {
                            Some(t)
                        } else {
                            None
                        },
                        None => None,
                    },
                    _ => None,
                },
                _ => None,
            },
        }
    }
}

/// The bytes of an embedded stream: its decoded content, else its raw content.
pub open spec fn stream_bytes(t: PdfObject) -> Seq<u8> {
    match t.decoded {
        Some(b) => b@,
        None => t.content@,
    }
}

/// The name a file specification gives its file (`/UF`, else `/F`), when
/// that is a string.
pub open spec fn spec_file_name(o: PdfObject) -> Option<Seq<char>> {
    match dict_lookup_either(object_dict(o), "UF"@, "F"@) {
        Some(PdfValue::Str(s)) => Some(s@),
        _ => None,
    }
}

/// The embedded files of the first `k` objects (file name, relative path,
/// recorded name, bytes) and how many there are: every file specification
/// whose stream has bytes, numbered in object order.
pub open spec fn embedded_files_spec(objs: Seq<PdfObject>, k: int) -> (
    Seq<(Seq<char>, Seq<char>, Seq<char>, Seq<u8>)>,
    nat,
)
    decreases k,
{
    if k <= 0 {
        (Seq::empty(), 0)
    } else {
        let (out, c) = embedded_files_spec(objs, k - 1);
        let o = objs[k - 1];
        match embedded_stream(objs, o) {
            Some(t) => if stream_bytes(t).len() > 0 {
                let original = embedded_name_spec(c, spec_file_name(o));
                let f = "embed-"@ + pad3(c + 1) + "-"@ + sanitized(original);
                (out.push((f, "embeddings/"@ + f, original, stream_bytes(t))), c + 1)
            } else {
                (out, c)
            },
            None => (out, c),
        }
    }
}

/// The views of embedded files.
pub open spec fn embedded_files_view(v: Seq<PdfEmbeddedFile>) -> Seq<(Seq<char>, Seq<char>, Seq<char>, Seq<u8>)> {
    Seq::new(v.len(), |i: int| (v[i].file_name@, v[i].rel@, v[i].original@, v[i].bytes@))
}

/// The first object with the given id.
fn find_object_exec(objs: &Vec<PdfObject>, id: (u32, u16)) -> (r: Option<&PdfObject>)
    ensures
        match r {
            Some(o) => find_object(objs@, id) == Some(*o),
            None => find_object(objs@, id) is None,
        },
{
    let mut i: usize = 0;
    assert(objs@.skip(0) =~= objs@);
    while i < objs.len()
        invariant
            i <= objs.len(),
            find_object(objs@, id) == find_object(objs@.skip(i as int), id),
        decreases objs.len() - i,
    {
        assert(objs@.skip(i as int)[0] == objs@[i as int]);
        assert(objs@.skip(i as int).drop_first() =~= objs@.skip(i + 1));
        if objs[i].id.0 == id.0 && objs[i].id.1 == id.1 {
            return Some(&objs[i]);
        }
        i += 1;
    }
    None
}

/// The stream a file specification embeds; see [`embedded_stream`].
fn embedded_stream_exec<'a>(objs: &'a Vec<PdfObject>, o: &PdfObject) -> (r: Option<&'a PdfObject>)
    ensures
        match r {
            Some(t) => embedded_stream(objs@, *o) == Some(*t),
            None => embedded_stream(objs@, *o) is None,
        },
{
    if o.stream {
        return None;
    }
    let d = match &o.dict {
        Some(d) => d,
        None => return None,
    };
    let ef = match dict_get(d, "EF") {
        Some(PdfValue::Dict(ef)) => ef,
        _ => return None,
    };
    let (n, g) = match dict_get_either(ef, "UF", "F") {
        Some(PdfValue::Ref(n, g)) => (*n, *g),
        _ => return None,
    };
    match find_object_exec(objs, (n, g)) {
        Some(t) => if t.stream {
            Some(t)
        } else {
            None
        },
        None => None,
    }
}

/// Picks the files embedded in a document and decides where each is
/// written; see [`embedded_files_spec`].
pub fn extract_pdf_embedded_files(objs: &Vec<PdfObject>) -> (r: Vec<PdfEmbeddedFile>)
    requires
        objs.len() < u32::MAX,
    ensures
        embedded_files_view(r@) == embedded_files_spec(objs@, objs.len() as int).0,
{
    let mut out: Vec<PdfEmbeddedFile> = Vec::new();
    let mut counter: u32 = 0;
    let mut k: usize = 0;
    while k < objs.len()
        invariant
            k <= objs.len() < u32::MAX,
            (embedded_files_view(out@), counter as nat) == embedded_files_spec(objs@, k as int),
            counter <= k,
        decreases objs.len() - k,
    {
        let o = &objs[k];
        let ghost before = embedded_files_view(out@);
        match embedded_stream_exec(objs, o) {
            Some(t) => {
                let bytes = match &t.decoded {
                    Some(b) => copy_bytes(b.as_slice()),
                    None => copy_bytes(t.content.as_slice()),
                };
                if bytes.len() > 0 {
                    let empty: Vec<(String, PdfValue)> = Vec::new();
                    let d = match &o.dict {
                        Some(d) => d,
                        None => &empty,
                    };
                    assert(d@ == object_dict(*o));
                    let name = match dict_get_either(d, "UF", "F") {
                        Some(PdfValue::Str(s)) => Some(s.as_str()),
                        _ => None,
                    };
                    let (file_name, rel, original) = pdf_embed_target(&mut counter, name);
                    out.push(PdfEmbeddedFile { file_name, rel, original, bytes });
                    assert(embedded_files_view(out@) =~= before.push(embedded_files_view(out@).last()));
                }
            },
            None => {},
        }
        k += 1;
    }
    out
}

/// The file a file specification embeds: a dictionary (not a stream)
/// whose `/EF` dictionary refers, through `/UF` or (when there is no `/UF`)
/// `/F`, to a stream object embeds that stream.
pub proof fn lemma_embedded_stream_choice(
    objs: Seq<PdfObject>,
    o: PdfObject,
    ef: Vec<(String, PdfValue)>,
    n: u32,
    g: u16,
    t: PdfObject,
)
    requires
        !o.stream,
        dict_lookup(object_dict(o), "EF"@) == Some(PdfValue::Dict(ef)),
        dict_lookup(ef@, "UF"@) == Some(PdfValue::Ref(n, g)) || (dict_lookup(ef@, "UF"@) is None
            && dict_lookup(ef@, "F"@) == Some(PdfValue::Ref(n, g))),
        find_object(objs, (n, g)) == Some(t),
        t.stream,
    ensures
        embedded_stream(objs, o) == Some(t),
{
}

/// The name recorded for an embedded file is the one its file
/// specification gives in `/UF`, else (when there is no `/UF`) in `/F`,
/// when that is a string; otherwise the file is called `file-NNN.bin` after
/// the files already taken.  The bytes are those of the embedded stream,
/// and every file specification with bytes adds exactly one file.
pub proof fn lemma_embedded_names(objs: Seq<PdfObject>, k: int, t: PdfObject)
    requires
        0 < k <= objs.len(),
        embedded_stream(objs, objs[k - 1]) == Some(t),
        stream_bytes(t).len() > 0,
    ensures
        ({
            let (out0, c) = embedded_files_spec(objs, k - 1);
            let (out, c2) = embedded_files_spec(objs, k);
            let d = object_dict(objs[k - 1]);
            let numbered = "file-"@ + pad3(c) + ".bin"@;
            &&& out == out0.push(out.last())
            &&& c2 == c + 1
            &&& out.last().3 == stream_bytes(t)
            &&& match dict_lookup(d, "UF"@) {
                Some(PdfValue::Str(u)) => out.last().2 == u@,
                Some(_) => out.last().2 == numbered,
                None => match dict_lookup(d, "F"@) {
                    Some(PdfValue::Str(f)) => out.last().2 == f@,
                    _ => out.last().2 == numbered,
                },
            }
        }),
{
    let (out0, c) = embedded_files_spec(objs, k - 1);
    let (out, c2) = embedded_files_spec(objs, k);
    assert(out =~= out0.push(out.last()));
}

// ---------------------------------------------------------------------------
// Laws of page naming
// ---------------------------------------------------------------------------

/// Every page of a document is written to a file of its own: the page
/// file names are pairwise distinct.
pub proof fn lemma_page_names_distinct(pages: Seq<Seq<char>>)
    ensures
        forall|i: int, j: int|
            0 <= i < j < page_files_spec(pages).len() ==> #[trigger] page_files_spec(pages)[i].0
                != #[trigger] page_files_spec(pages)[j].0,
{
    reveal_strlit(".md");
    let f = page_files_spec(pages);
    assert forall|i: int, j: int| 0 <= i < j < f.len() implies #[trigger] f[i].0 != #[trigger] f[j].0 by {
        if f[i].0 == f[j].0 {
            let t = ".md"@;
            assert(t[0] == '.');
            lemma_numbered_intro("page-"@, (i + 1) as nat, t);
            lemma_numbered_intro("page-"@, (j + 1) as nat, t);
            lemma_numbered_unique(f[i].0, "page-"@, (i + 1) as nat, (j + 1) as nat);
        }
    }
}

} // verus!
