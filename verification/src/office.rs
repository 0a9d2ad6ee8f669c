//! Office documents (DOCX / XLSX / PPTX and their legacy forms): output
//! layout, `.rels` manifest reading and zip-asset naming.

use vstd::prelude::*;

use crate::text::{utf8_decode, OutputFile, lemma_split_pieces, find_from, find_from_exec, lemma_find_from, trim_ws, trim_ws_exec};
use crate::error::ParseError;
use crate::util::{
    last_component, name_extension, plain_path, portable_extension,
    chars_of, contains_exec, contains_seq, has_prefix, has_prefix_exec, has_suffix, has_suffix_exec, lower_chars,
    decimal, digit_char, lower_seq, occurs_at, occurs_at_exec, pad3, path_extension, push_char,
    push_chars, push_pad3, push_str, sanitize_filename, sanitize_name, sanitized, sanitized_with, str_eq,
    string_of,
};

verus! {

// ---------------------------------------------------------------------------
// Container kind
// ---------------------------------------------------------------------------

/// Per-source-container grouping kind, derived from the input extension.
/// Drives the `images/<container>/` subdirectory layout.
#[derive(Clone, Copy, PartialEq, Eq, Debug, Structural)]
pub enum OfficeKind {
    /// PPTX: `images/slide-NNN/`
    Pptx,
    /// XLSX / XLSM: `images/sheet-NNN[-name]/`
    Xlsx,
    /// DOCX and the legacy formats: flat `images/`
    Flat,
}

/// The kind chosen for an (optional) file extension, compared case-insensitively.
pub open spec fn office_kind_of(ext: Option<Seq<char>>) -> OfficeKind {
    match ext {
        Some(e) => {
            let l = lower_seq(e);
            if l == "pptx"@ {
                OfficeKind::Pptx
            } else if l == "xlsx"@ || l == "xlsm"@ {
                OfficeKind::Xlsx
            } else {
                OfficeKind::Flat
            }
        },
        None => OfficeKind::Flat,
    }
}

impl OfficeKind {
    /// The kind for a file extension (without the dot).
    pub fn from_extension(ext: Option<&str>) -> (k: OfficeKind)
        ensures
            k == office_kind_of(
                match ext {
                    Some(e) => Some(e@),
                    None => None,
                },
            ),
    {
        match ext {
            None => OfficeKind::Flat,
            Some(e) => {
                let l = lower_chars(&chars_of(e));
                let ls = string_of(&l);
                if str_eq(ls.as_str(), "pptx") {
                    OfficeKind::Pptx
                } else if str_eq(ls.as_str(), "xlsx") || str_eq(ls.as_str(), "xlsm") {
                    OfficeKind::Xlsx
                } else {
                    OfficeKind::Flat
                }
            },
        }
    }

    /// The kind for an input path, by its extension.
    pub fn from_path(p: &str) -> (k: OfficeKind)
        ensures
            exists|e: Option<Seq<char>>| k == office_kind_of(e),
            !p@.contains('.') ==> k == OfficeKind::Flat,
            plain_path(p@) ==> k == office_kind_of(name_extension(last_component(p@))),
            portable_extension(p@) matches Some(e) ==> k == office_kind_of(Some(e)),
    {
        let ext = path_extension(p);
        let k = match &ext {
            Some(e) => OfficeKind::from_extension(Some(e.as_str())),
            None => OfficeKind::from_extension(None),
        };
        proof {
            let e: Option<Seq<char>> = match ext {
                Some(e) => Some(e@),
                None => None,
            };
            assert(k == office_kind_of(e));
        }
        k
    }
}

// ---------------------------------------------------------------------------
// Image extensions and content sniffing
// ---------------------------------------------------------------------------

/// Extensions (lowercase) that are treated as images.
pub open spec fn is_image_ext_spec(e: Seq<char>) -> bool {
    e == "png"@ || e == "jpg"@ || e == "jpeg"@ || e == "gif"@ || e == "bmp"@ || e == "tif"@
        || e == "tiff"@ || e == "webp"@ || e == "emf"@ || e == "wmf"@ || e == "svg"@
}

/// Whether `ext` (already lowercase) names an image format.
pub fn is_image_ext(ext: &str) -> (r: bool)
    ensures
        r == is_image_ext_spec(ext@),
{
    str_eq(ext, "png") || str_eq(ext, "jpg") || str_eq(ext, "jpeg") || str_eq(ext, "gif")
        || str_eq(ext, "bmp") || str_eq(ext, "tif") || str_eq(ext, "tiff") || str_eq(ext, "webp")
        || str_eq(ext, "emf") || str_eq(ext, "wmf") || str_eq(ext, "svg")
}

/// `b` begins with the bytes `p`.
pub open spec fn bytes_prefix(b: Seq<u8>, p: Seq<u8>) -> bool {
    p.len() <= b.len() && b.subrange(0, p.len() as int) == p
}

/// The image extension recognised from the leading "magic" bytes, if any.
pub open spec fn sniffed_ext(b: Seq<u8>) -> Option<Seq<char>> {
    if bytes_prefix(b, seq![0x89u8, 0x50, 0x4e, 0x47]) {
        Some("png"@)
    } else if bytes_prefix(b, seq![0xffu8, 0xd8, 0xff]) {
        Some("jpg"@)
    } else if bytes_prefix(b, seq![0x47u8, 0x49, 0x46, 0x38]) {
        Some("gif"@)
    } else if bytes_prefix(b, seq![0x52u8, 0x49, 0x46, 0x46]) && b.len() > 12 && b.subrange(8, 12)
        == seq![0x57u8, 0x45, 0x42, 0x50] {
        Some("webp"@)
    } else if bytes_prefix(b, seq![0x42u8, 0x4d]) {
        Some("bmp"@)
    } else if bytes_prefix(b, seq![0x49u8, 0x49, 0x2a, 0x00]) || bytes_prefix(
        b,
        seq![0x4du8, 0x4d, 0x00, 0x2a],
    ) {
        Some("tif"@)
    } else {
        None
    }
}

/// Whether `b` begins with the bytes `p`.
fn bytes_prefix_exec(b: &[u8], p: &[u8]) -> (r: bool)
    ensures
        r == bytes_prefix(b@, p@),
{
    if p.len() > b.len() {
        return false;
    }
    let mut i: usize = 0;
    while i < p.len()
        invariant
            p.len() <= b.len(),
            i <= p.len(),
            forall|k: int| 0 <= k < i ==> b@[k] == p@[k],
        decreases p.len() - i,
    {
        if b[i] != p[i] {
            assert(b@.subrange(0, p.len() as int)[i as int] != p@[i as int]);
            return false;
        }
        i += 1;
    }
    assert(b@.subrange(0, p.len() as int) =~= p@);
    true
}

/// Recognises a handful of image formats by their leading bytes.
pub fn sniff_extension(bytes: &[u8]) -> (r: Option<&'static str>)
    ensures
        match r {
            Some(e) => sniffed_ext(bytes@) == Some(e@),
            None => sniffed_ext(bytes@) is None,
        },
{
    let png: [u8; 4] = [0x89, 0x50, 0x4e, 0x47];
    let jpg: [u8; 3] = [0xff, 0xd8, 0xff];
    let gif: [u8; 4] = [0x47, 0x49, 0x46, 0x38];
    let riff: [u8; 4] = [0x52, 0x49, 0x46, 0x46];
    let bm: [u8; 2] = [0x42, 0x4d];
    let tif_le: [u8; 4] = [0x49, 0x49, 0x2a, 0x00];
    let tif_be: [u8; 4] = [0x4d, 0x4d, 0x00, 0x2a];
    assert(png@ =~= seq![0x89u8, 0x50, 0x4e, 0x47]);
    assert(jpg@ =~= seq![0xffu8, 0xd8, 0xff]);
    assert(gif@ =~= seq![0x47u8, 0x49, 0x46, 0x38]);
    assert(riff@ =~= seq![0x52u8, 0x49, 0x46, 0x46]);
    assert(bm@ =~= seq![0x42u8, 0x4d]);
    assert(tif_le@ =~= seq![0x49u8, 0x49, 0x2a, 0x00]);
    assert(tif_be@ =~= seq![0x4du8, 0x4d, 0x00, 0x2a]);
    if bytes_prefix_exec(bytes, &png) {
        Some("png")
    } else if bytes_prefix_exec(bytes, &jpg) {
        Some("jpg")
    } else if bytes_prefix_exec(bytes, &gif) {
        Some("gif")
    } else if bytes_prefix_exec(bytes, &riff) && bytes.len() > 12 && bytes[8] == 0x57
        && bytes[9] == 0x45 && bytes[10] == 0x42 && bytes[11] == 0x50 {
        assert(bytes@.subrange(8, 12) =~= seq![0x57u8, 0x45, 0x42, 0x50]);
        Some("webp")
    } else if bytes_prefix_exec(bytes, &bm) {
        proof {
            if bytes_prefix(bytes@, seq![0x52u8, 0x49, 0x46, 0x46]) && bytes@.len() > 12 {
                if bytes@.subrange(8, 12) == seq![0x57u8, 0x45, 0x42, 0x50] {
                    assert(bytes@[8] == bytes@.subrange(8, 12)[0]);
                    assert(bytes@[9] == bytes@.subrange(8, 12)[1]);
                    assert(bytes@[10] == bytes@.subrange(8, 12)[2]);
                    assert(bytes@[11] == bytes@.subrange(8, 12)[3]);
                }
            }
        }
        Some("bmp")
    } else {
        proof {
            if bytes_prefix(bytes@, seq![0x52u8, 0x49, 0x46, 0x46]) && bytes@.len() > 12 {
                if bytes@.subrange(8, 12) == seq![0x57u8, 0x45, 0x42, 0x50] {
                    assert(bytes@[8] == bytes@.subrange(8, 12)[0]);
                    assert(bytes@[9] == bytes@.subrange(8, 12)[1]);
                    assert(bytes@[10] == bytes@.subrange(8, 12)[2]);
                    assert(bytes@[11] == bytes@.subrange(8, 12)[3]);
                }
            }
        }
        if bytes_prefix_exec(bytes, &tif_le) || bytes_prefix_exec(bytes, &tif_be) {
            Some("tif")
        } else {
            None
        }
    }
}

// ---------------------------------------------------------------------------
// Media paths and per-section buckets
// ---------------------------------------------------------------------------

/// A zip-internal path lies under some `media/` directory (case-insensitive).
pub open spec fn is_media_path_spec(p: Seq<char>) -> bool {
    contains_seq(lower_seq(p), "/media/"@)
}

/// Whether `p` lies under some `media/` directory (case-insensitive).
pub fn is_media_path(p: &str) -> (r: bool)
    ensures
        r == is_media_path_spec(p@),
{
    let l = lower_chars(&chars_of(p));
    let needle = chars_of("/media/");
    contains_exec(&l, &needle)
}

/// The image subdirectory (relative to `images/`) of the section at
/// `index`, for the given container kind.
pub open spec fn section_bucket_spec(kind: OfficeKind, index: nat, title: Option<Seq<char>>) -> Option<
    Seq<char>,
> {
    match kind {
        OfficeKind::Flat => None,
        OfficeKind::Pptx => Some("slide-"@ + pad3(index + 1)),
        OfficeKind::Xlsx => {
            let base = "sheet-"@ + pad3(index + 1);
            match title {
                Some(t) => {
                    let slug = sanitized_with(t, false);
                    if slug.len() != 0 && slug != "untitled"@ {
                        Some(base + "-"@ + slug)
                    } else {
                        Some(base)
                    }
                },
                None => Some(base),
            }
        },
    }
}

/// Returns the per-section image subdirectory (relative to `images/`):
/// `slide-NNN` for presentations, `sheet-NNN[-title]` for workbooks, none
/// for flat layouts.  Sheet titles keep their spaces in directory names.
pub fn section_bucket(kind: OfficeKind, index: usize, title: Option<&str>) -> (r: Option<String>)
    requires
        index < u64::MAX,
    ensures
        r matches Some(b) ==> section_bucket_spec(
            kind,
            index as nat,
            match title {
                Some(t) => Some(t@),
                None => None,
            },
        ) == Some(b@),
        r is None ==> section_bucket_spec(
            kind,
            index as nat,
            match title {
                Some(t) => Some(t@),
                None => None,
            },
        ) is None,
{
    match kind {
        OfficeKind::Flat => None,
        OfficeKind::Pptx => {
            let mut s = String::new();
            push_str(&mut s, "slide-");
            push_pad3(&mut s, (index as u64) + 1);
            Some(s)
        },
        OfficeKind::Xlsx => {
            let mut s = String::new();
            push_str(&mut s, "sheet-");
            push_pad3(&mut s, (index as u64) + 1);
            match title {
                Some(t) => {
                    let slug = sanitize_name(t, false);
                    let slug_cs = chars_of(slug.as_str());
                    if slug_cs.len() != 0 && !str_eq(slug.as_str(), "untitled") {
                        push_str(&mut s, "-");
                        push_str(&mut s, slug.as_str());
                    }
                    Some(s)
                },
                None => Some(s),
            }
        },
    }
}

// ---------------------------------------------------------------------------
// `.rels` manifests
// ---------------------------------------------------------------------------

/// `s` split at every `sep` (as `str::split` does: `n` separators give
/// `n + 1` pieces, some possibly empty).
pub open spec fn split_on(s: Seq<char>, sep: char) -> Seq<Seq<char>>
    decreases s.len(),
{
    if s.len() == 0 {
        seq![Seq::<char>::empty()]
    } else {
        let r = split_on(s.drop_last(), sep);
        if s.last() == sep {
            r.push(Seq::<char>::empty())
        } else {
            r.update(r.len() - 1, r.last().push(s.last()))
        }
    }
}

/// One step of path normalisation: empty and `.` segments vanish, `..`
/// drops the previous segment (if any), other segments are appended.
pub open spec fn seg_step(parts: Seq<Seq<char>>, seg: Seq<char>) -> Seq<Seq<char>> {
    if seg.len() == 0 || seg == seq!['.'] {
        parts
    } else if seg == seq!['.', '.'] {
        if parts.len() > 0 {
            parts.drop_last()
        } else {
            parts
        }
    } else {
        parts.push(seg)
    }
}

/// The segments that remain after normalising `segs` from left to right.
pub open spec fn normalize_segments(segs: Seq<Seq<char>>) -> Seq<Seq<char>>
    decreases segs.len(),
{
    if segs.len() == 0 {
        Seq::empty()
    } else {
        seg_step(normalize_segments(segs.drop_last()), segs.last())
    }
}

/// `parts` joined with `sep` between consecutive parts.
pub open spec fn join_with(parts: Seq<Seq<char>>, sep: char) -> Seq<char>
    decreases parts.len(),
{
    if parts.len() == 0 {
        Seq::empty()
    } else if parts.len() == 1 {
        parts[0]
    } else {
        join_with(parts.drop_last(), sep).push(sep) + parts.last()
    }
}

/// The path a `Target` designates before normalisation: targets starting
/// with `/` are zip-absolute, others are relative to `base_dir`.
pub open spec fn rel_combined(base_dir: Seq<char>, target: Seq<char>) -> Seq<char> {
    if target.len() > 0 && target[0] == '/' {
        target.drop_first()
    } else {
        base_dir + target
    }
}

/// The zip-internal path a `Target` resolves to, or none when nothing remains.
pub open spec fn resolved_target(base_dir: Seq<char>, target: Seq<char>) -> Option<Seq<char>> {
    let parts = normalize_segments(split_on(rel_combined(base_dir, target), '/'));
    if parts.len() == 0 {
        None
    } else {
        Some(join_with(parts, '/'))
    }
}

pub proof fn lemma_split_len(s: Seq<char>, sep: char)
    ensures
        split_on(s, sep).len() >= 1,
    decreases s.len(),
{
    if s.len() > 0 {
        lemma_split_len(s.drop_last(), sep);
    }
}

/// The views of a vector of character vectors.
pub open spec fn views(v: Seq<Vec<char>>) -> Seq<Seq<char>> {
    Seq::new(v.len(), |i: int| v[i]@)
}

/// Applies one normalisation step to `parts`.
fn seg_step_exec(parts: &mut Vec<Vec<char>>, seg: Vec<char>)
    ensures
        views(final(parts)@) == seg_step(views(old(parts)@), seg@),
{
    let ghost segv = seg@;
    if seg.len() == 0 || (seg.len() == 1 && seg[0] == '.') {
        proof {
            if seg.len() == 1 {
                assert(segv =~= seq!['.']);
            }
        }
    } else if seg.len() == 2 && seg[0] == '.' && seg[1] == '.' {
        assert(segv =~= seq!['.', '.']);
        if parts.len() > 0 {
            parts.pop();
            assert(views(parts@) =~= views(old(parts)@).drop_last());
        }
    } else {
        proof {
            if segv == seq!['.'] {
                assert(segv[0] == '.');
            }
            if segv == seq!['.', '.'] {
                assert(segv[0] == '.' && segv[1] == '.');
            }
        }
        parts.push(seg);
        assert(views(parts@) =~= views(old(parts)@).push(segv));
    }
}

/// Resolves a `Target` attribute (relative to the described file's parent
/// directory, or zip-absolute when it starts with `/`) into a zip-internal
/// path, handling `.` and `..` segments.
pub fn resolve_rel_target(base_dir: &str, target: &str) -> (r: Option<String>)
    ensures
        r matches Some(p) ==> resolved_target(base_dir@, target@) == Some(p@),
        r is None ==> resolved_target(base_dir@, target@) is None,
{
    let tcs = chars_of(target);
    let mut combined: Vec<char> = Vec::new();
    if tcs.len() > 0 && tcs[0] == '/' {
        let mut k: usize = 1;
        while k < tcs.len()
            invariant
                1 <= k <= tcs.len(),
                combined@ == tcs@.subrange(1, k as int),
            decreases tcs.len() - k,
        {
            combined.push(tcs[k]);
            assert(tcs@.subrange(1, k + 1) =~= tcs@.subrange(1, k as int).push(tcs@[k as int]));
            k += 1;
        }
        assert(combined@ =~= target@.drop_first());
    } else {
        combined = chars_of(base_dir);
        let mut k: usize = 0;
        let ghost b = combined@;
        while k < tcs.len()
            invariant
                k <= tcs.len(),
                combined@ == b + tcs@.take(k as int),
            decreases tcs.len() - k,
        {
            combined.push(tcs[k]);
            assert(tcs@.take(k + 1) =~= tcs@.take(k as int).push(tcs@[k as int]));
            k += 1;
        }
        assert(tcs@.take(tcs.len() as int) =~= tcs@);
    }
    let ghost c = combined@;
    assert(c == rel_combined(base_dir@, target@));
    let mut parts: Vec<Vec<char>> = Vec::new();
    let mut cur: Vec<char> = Vec::new();
    let mut i: usize = 0;
    proof {
        assert(c.take(0) =~= Seq::<char>::empty());
        assert(views(parts@) =~= Seq::<Seq<char>>::empty());
    }
    while i < combined.len()
        invariant
            i <= combined.len(),
            combined@ == c,
            split_on(c.take(i as int), '/').len() >= 1,
            cur@ == split_on(c.take(i as int), '/').last(),
            views(parts@) == normalize_segments(split_on(c.take(i as int), '/').drop_last()),
        decreases combined.len() - i,
    {
        let ch = combined[i];
        let ghost pre = c.take(i as int);
        let ghost sp = split_on(pre, '/');
        assert(c.take(i + 1).drop_last() =~= pre);
        assert(c.take(i + 1).last() == ch);
        if ch == '/' {
            let seg = cur;
            cur = Vec::new();
            seg_step_exec(&mut parts, seg);
            assert(split_on(c.take(i + 1), '/') == sp.push(Seq::<char>::empty()));
            assert(sp.push(Seq::<char>::empty()).drop_last() =~= sp);
            assert(sp =~= sp.drop_last().push(sp.last()));
        } else {
            cur.push(ch);
            assert(split_on(c.take(i + 1), '/') == sp.update(sp.len() - 1, sp.last().push(ch)));
            assert(sp.update(sp.len() - 1, sp.last().push(ch)).drop_last() =~= sp.drop_last());
        }
        i += 1;
    }
    assert(c.take(combined.len() as int) =~= c);
    let ghost sp = split_on(c, '/');
    seg_step_exec(&mut parts, cur);
    assert(sp =~= sp.drop_last().push(sp.last()));
    assert(views(parts@) == normalize_segments(sp));
    if parts.len() == 0 {
        return None;
    }
    let ghost pv = views(parts@);
    let mut out = String::new();
    let mut k: usize = 0;
    while k < parts.len()
        invariant
            k <= parts.len(),
            pv == views(parts@),
            pv.len() > 0,
            k > 0 ==> out@ == join_with(pv.take(k as int), '/'),
            k == 0 ==> out@ == Seq::<char>::empty(),
        decreases parts.len() - k,
    {
        assert(pv.take(k + 1).drop_last() =~= pv.take(k as int));
        assert(pv.take(k + 1).last() == parts@[k as int]@);
        if k > 0 {
            push_char(&mut out, '/');
        }
        push_chars(&mut out, &parts[k]);
        proof {
            if k == 0 {
                assert(pv.take(1).len() == 1);
                assert(out@ =~= pv.take(1)[0]);
            }
        }
        k += 1;
    }
    assert(pv.take(parts.len() as int) =~= pv);
    Some(out)
}

/// The attribute prefix that introduces a relationship target.
pub open spec fn target_needle() -> Seq<char> {
    seq!['T', 'a', 'r', 'g', 'e', 't', '=', '"']
}

/// Index of the first `"` at or after `j` (or the length when there is none).
pub open spec fn quote_end(s: Seq<char>, j: int) -> int
    decreases s.len() - j,
{
    if j < 0 || j >= s.len() {
        s.len() as int
    } else if s[j] == '"' {
        j
    } else {
        quote_end(s, j + 1)
    }
}

pub proof fn lemma_quote_end(s: Seq<char>, j: int)
    requires
        0 <= j <= s.len(),
    ensures
        j <= quote_end(s, j) <= s.len(),
        forall|k: int| j <= k < quote_end(s, j) ==> s[k] != '"',
        quote_end(s, j) < s.len() ==> s[quote_end(s, j)] == '"',
    decreases s.len() - j,
{
    if j < s.len() && s[j] != '"' {
        lemma_quote_end(s, j + 1);
    }
}

/// Every `Target="..."` value of `s`, scanning from position `i`.  After a
/// value the scan resumes at its closing quote.
pub open spec fn targets_from(s: Seq<char>, i: int) -> Seq<Seq<char>>
    decreases s.len() - i,
{
    if i < 0 || i + 8 > s.len() {
        Seq::empty()
    } else if occurs_at(s, target_needle(), i) {
        let e = quote_end(s, i + 8);
        proof {
            lemma_quote_end(s, i + 8);
        }
        seq![s.subrange(i + 8, e)] + targets_from(s, e)
    } else {
        targets_from(s, i + 1)
    }
}

/// Pulls every `Target="..."` attribute value out of a `*.rels` document.
/// Rels files are flat manifests, so a plain scan is enough.
pub fn extract_targets(xml: &str) -> (r: Vec<String>)
    ensures
        Seq::new(r@.len(), |k: int| r@[k]@) == targets_from(xml@, 0),
{
    let s = chars_of(xml);
    let ghost sv = s@;
    let needle: Vec<char> = vec!['T', 'a', 'r', 'g', 'e', 't', '=', '"'];
    assert(needle@ =~= target_needle());
    let mut out: Vec<String> = Vec::new();
    let mut i: usize = 0;
    while s.len() >= 8 && i <= s.len() - 8
        invariant
            s@ == sv,
            sv == xml@,
            needle@ == target_needle(),
            i <= s.len(),
            Seq::new(out@.len(), |k: int| out@[k]@) + targets_from(sv, i as int) == targets_from(
                sv,
                0,
            ),
        decreases s.len() - i,
    {
        let ghost before = Seq::new(out@.len(), |k: int| out@[k]@);
        let ghost i0 = i as int;
        if occurs_at_exec(&s, &needle, i) {
            i += 8;
            let start = i;
            proof {
                lemma_quote_end(sv, start as int);
            }
            while i < s.len() && s[i] != '"'
                invariant
                    s@ == sv,
                    start <= i <= s.len(),
                    quote_end(sv, start as int) == quote_end(sv, i as int),
                decreases s.len() - i,
            {
                i += 1;
            }
            let mut v = String::new();
            let mut k: usize = start;
            while k < i
                invariant
                    s@ == sv,
                    start <= k <= i <= s.len(),
                    v@ == sv.subrange(start as int, k as int),
                decreases i - k,
            {
                push_char(&mut v, s[k]);
                assert(sv.subrange(start as int, k + 1) =~= sv.subrange(start as int, k as int).push(
                    sv[k as int],
                ));
                k += 1;
            }
            assert(quote_end(sv, i as int) == i as int);
            let ghost val = v@;
            out.push(v);
            assert(Seq::new(out@.len(), |k: int| out@[k]@) =~= before.push(val));
            assert(targets_from(sv, i0) == seq![val] + targets_from(sv, i as int));
            assert(before + targets_from(sv, i0) =~= before.push(val) + targets_from(sv, i as int));
        } else {
            i += 1;
        }
    }
    assert(targets_from(sv, i as int) =~= Seq::<Seq<char>>::empty());

    assert(Seq::new(out@.len(), |k: int| out@[k]@) + Seq::<Seq<char>>::empty() =~= Seq::new(
        out@.len(),
        |k: int| out@[k]@,
    ));
    out
}

/// Decimal digit characters.
pub open spec fn is_digit(c: char) -> bool {
    48 <= (c as u32) <= 57
}

/// The value of a string of decimal digits.
pub open spec fn digits_value(d: Seq<char>) -> nat
    decreases d.len(),
{
    if d.len() == 0 {
        0
    } else {
        digits_value(d.drop_last()) * 10 + ((d.last() as u32) - 48) as nat
    }
}

/// `s` without one leading `+` sign.
pub open spec fn unsigned_digits(s: Seq<char>) -> Seq<char> {
    if s.len() > 0 && s[0] == '+' {
        s.drop_first()
    } else {
        s
    }
}

/// What `str::parse::<u32>` gives: an optional `+` sign followed by one or
/// more decimal digits whose value fits in a `u32`.
pub open spec fn parse_u32_spec(s: Seq<char>) -> Option<u32> {
    let d = unsigned_digits(s);
    if d.len() > 0 && (forall|i: int| 0 <= i < d.len() ==> is_digit(#[trigger] d[i]))
        && digits_value(d) <= u32::MAX {
        Some(digits_value(d) as u32)
    } else {
        None
    }
}

/// The number following `prefix` in a stem of the form `<prefix><digits>`.
pub open spec fn numeric_suffix_spec(stem: Seq<char>, prefix: Seq<char>) -> Option<u32> {
    if has_prefix(stem, prefix) {
        parse_u32_spec(stem.skip(prefix.len() as int))
    } else {
        None
    }
}

/// Parses a decimal `u32` the way `str::parse::<u32>` does.
pub fn parse_u32(s: &Vec<char>, from: usize) -> (r: Option<u32>)
    requires
        from <= s.len(),
    ensures
        r == parse_u32_spec(s@.skip(from as int)),
{
    let ghost t = s@.skip(from as int);
    let mut i = from;
    if i < s.len() && s[i] == '+' {
        i += 1;
    }
    let ghost d = s@.skip(i as int);
    assert(d =~= unsigned_digits(t));
    if i == s.len() {
        return None;
    }
    let cap: u64 = 0x1_0000_0000;
    let mut acc: u64 = 0;
    let mut j = i;
    while j < s.len()
        invariant
            i <= j <= s.len(),
            d == s@.skip(i as int),
            t == s@.skip(from as int),
            d == unsigned_digits(t),
            forall|k: int| 0 <= k < j - i ==> is_digit(#[trigger] d[k]),
            acc as int == if digits_value(d.take(j - i)) < cap as int {
                digits_value(d.take(j - i)) as int
            } else {
                cap as int
            },
            cap == 0x1_0000_0000u64,
        decreases s.len() - j,
    {
        let c = s[j];
        let cu = c as u32;
        assert(d[j - i] == s@[j as int]);
        if !(48 <= cu && cu <= 57) {
            assert(!is_digit(d[j - i]));
            assert(!(forall|k: int| 0 <= k < d.len() ==> is_digit(#[trigger] d[k])));
            assert(parse_u32_spec(t) is None);
            return None;
        }
        let dv: u64 = (cu - 48) as u64;
        let ghost prev = d.take(j - i);
        assert(d.take(j - i + 1).drop_last() =~= prev);
        assert(d.take(j - i + 1).last() == c);
        let next = acc * 10 + dv;
        acc = if next < cap {
            next
        } else {
            cap
        };
        j += 1;
    }
    assert(d.take(j - i) =~= d);
    if acc < cap {
        Some(acc as u32)
    } else {
        None
    }
}

/// Returns the trailing `u32` of a stem of the form `<prefix>NN`.
pub fn parse_numeric_suffix(stem: &str, prefix: &str) -> (r: Option<u32>)
    ensures
        r == numeric_suffix_spec(stem@, prefix@),
{
    let s = chars_of(stem);
    let p = chars_of(prefix);
    if !has_prefix_exec(&s, &p) {
        return None;
    }
    parse_u32(&s, p.len())
}

/// `s` with trailing copies of `p` removed, as `str::trim_end_matches` does.
pub open spec fn trim_end_all(s: Seq<char>, p: Seq<char>) -> Seq<char>
    decreases s.len(),
{
    if p.len() > 0 && has_suffix(s, p) {
        trim_end_all(s.subrange(0, s.len() - p.len()), p)
    } else {
        s
    }
}

/// Removes trailing copies of `p` from `s`.
fn trim_end_all_exec(s: Vec<char>, p: &Vec<char>) -> (r: Vec<char>)
    ensures
        r@ == trim_end_all(s@, p@),
{
    let ghost orig = s@;
    let mut n = s.len();
    if p.len() == 0 {
        return s;
    }
    assert(orig.subrange(0, n as int) =~= orig);
    while n >= p.len() && occurs_at_exec(&s, p, n - p.len())
        invariant
            s@ == orig,
            n <= s.len(),
            p.len() > 0,
            trim_end_all(orig, p@) == trim_end_all(orig.subrange(0, n as int), p@),
        decreases n,
    {
        let ghost cur = orig.subrange(0, n as int);
        assert(cur.subrange(cur.len() - p.len(), cur.len() as int) =~= orig.subrange(
            n - p.len(),
            n as int,
        ));
        assert(cur.subrange(0, cur.len() - p.len()) =~= orig.subrange(0, n - p.len()));
        n -= p.len();
    }
    let ghost cur = orig.subrange(0, n as int);
    proof {
        if n >= p.len() {
            assert(cur.subrange(cur.len() - p.len(), cur.len() as int) =~= orig.subrange(
                n - p.len(),
                n as int,
            ));
        }
    }
    let mut r: Vec<char> = Vec::new();
    let mut k: usize = 0;
    while k < n
        invariant
            s@ == orig,
            k <= n <= s.len(),
            r@ == orig.subrange(0, k as int),
        decreases n - k,
    {
        r.push(s[k]);
        assert(orig.subrange(0, k + 1) =~= orig.subrange(0, k as int).push(orig[k as int]));
        k += 1;
    }
    r
}

/// A `.rels` file name without its trailing `.rels` and then `.xml` parts.
pub open spec fn rels_stem(file: Seq<char>) -> Seq<char> {
    trim_end_all(trim_end_all(file, ".rels"@), ".xml"@)
}

/// Strips trailing `.rels` and then trailing `.xml` from a file name, so
/// that `slide12.xml.rels` becomes `slide12`.
pub fn strip_rels_suffix(file: &str) -> (r: String)
    ensures
        r@ == rels_stem(file@),
{
    let a = trim_end_all_exec(chars_of(file), &chars_of(".rels"));
    let b = trim_end_all_exec(a, &chars_of(".xml"));
    string_of(&b)
}

/// Path segments that name something: not empty and not `.`.
pub open spec fn keep_segments(segs: Seq<Seq<char>>) -> Seq<Seq<char>>
    decreases segs.len(),
{
    if segs.len() == 0 {
        Seq::empty()
    } else {
        let k = keep_segments(segs.drop_last());
        let x = segs.last();
        if x.len() != 0 && x != seq!['.'] {
            k.push(x)
        } else {
            k
        }
    }
}

/// The file name of a zip entry name (entry names always use `/`): its
/// last segment that is neither empty nor `.`, unless that is `..` (or
/// there is none).
pub open spec fn zip_file_name_spec(p: Seq<char>) -> Option<Seq<char>> {
    let k = keep_segments(split_on(p, '/'));
    if k.len() == 0 || k.last() == seq!['.', '.'] {
        None
    } else {
        Some(k.last())
    }
}

/// The file name of a zip entry name.
pub fn zip_file_name(p: &str) -> (r: Option<String>)
    ensures
        match r {
            Some(f) => zip_file_name_spec(p@) == Some(f@),
            None => zip_file_name_spec(p@) is None,
        },
{
    let cs = chars_of(p);
    let ghost c = cs@;
    let mut last: Option<Vec<char>> = None;
    let mut cur: Vec<char> = Vec::new();
    let mut i: usize = 0;
    proof {
        assert(c.take(0) =~= Seq::<char>::empty());
        lemma_split_len(c.take(0), '/');
    }
    while i < cs.len()
        invariant
            i <= cs.len(),
            cs@ == c,
            split_on(c.take(i as int), '/').len() >= 1,
            cur@ == split_on(c.take(i as int), '/').last(),
            ({
                let k = keep_segments(split_on(c.take(i as int), '/').drop_last());
                match last {
                    Some(l) => k.len() > 0 && l@ == k.last(),
                    None => k.len() == 0,
                }
            }),
        decreases cs.len() - i,
    {
        let ch = cs[i];
        let ghost pre = c.take(i as int);
        let ghost sp = split_on(pre, '/');
        assert(c.take(i + 1).drop_last() =~= pre);
        assert(c.take(i + 1).last() == ch);
        if ch == '/' {
            let ghost cv = cur@;
            let keep = !(cur.len() == 0 || (cur.len() == 1 && cur[0] == '.'));
            proof {
                if cv == seq!['.'] {
                    assert(cv.len() == 1 && cv[0] == '.');
                }
                if cur.len() == 1 && cv[0] == '.' {
                    assert(cv =~= seq!['.']);
                }
            }
            if keep {
                last = Some(cur);
            }
            cur = Vec::new();
            assert(split_on(c.take(i + 1), '/') == sp.push(Seq::<char>::empty()));
            assert(sp.push(Seq::<char>::empty()).drop_last() =~= sp);
            assert(sp =~= sp.drop_last().push(sp.last()));
        } else {
            cur.push(ch);
            assert(split_on(c.take(i + 1), '/') == sp.update(sp.len() - 1, sp.last().push(ch)));
            assert(sp.update(sp.len() - 1, sp.last().push(ch)).drop_last() =~= sp.drop_last());
        }
        i += 1;
    }
    assert(c.take(cs.len() as int) =~= c);
    let ghost sp = split_on(c, '/');
    assert(sp =~= sp.drop_last().push(sp.last()));
    let ghost cv = cur@;
    proof {
        if cv == seq!['.'] {
            assert(cv.len() == 1 && cv[0] == '.');
        }
        if cur.len() == 1 && cv[0] == '.' {
            assert(cv =~= seq!['.']);
        }
    }
    if !(cur.len() == 0 || (cur.len() == 1 && cur[0] == '.')) {
        last = Some(cur);
    }
    match last {
        None => None,
        Some(l) => {
            if l.len() == 2 && l[0] == '.' && l[1] == '.' {
                assert(l@ =~= seq!['.', '.']);
                None
            } else {
                proof {
                    if l@ == seq!['.', '.'] {
                        assert(l@[0] == '.' && l@[1] == '.');
                    }
                }
                Some(string_of(&l))
            }
        },
    }
}

/// The last index of `c` in `s`, if any.
pub open spec fn last_index_of(s: Seq<char>, c: char) -> Option<int>
    decreases s.len(),
{
    if s.len() == 0 {
        None
    } else if s.last() == c {
        Some(s.len() - 1)
    } else {
        last_index_of(s.drop_last(), c)
    }
}

/// The extension of a zip entry name, as `Path::extension` defines it on
/// its file name: the part after the final `.`, unless the name has no
/// `.` other than a leading one.
pub open spec fn zip_extension_spec(p: Seq<char>) -> Option<Seq<char>> {
    match zip_file_name_spec(p) {
        None => None,
        Some(f) => match last_index_of(f, '.') {
            Some(k) => if k > 0 {
                Some(f.subrange(k + 1, f.len() as int))
            } else {
                None
            },
            None => None,
        },
    }
}

/// The extension of a zip entry name.
pub fn zip_extension(p: &str) -> (r: Option<String>)
    ensures
        match r {
            Some(e) => zip_extension_spec(p@) == Some(e@),
            None => zip_extension_spec(p@) is None,
        },
{
    let f = match zip_file_name(p) {
        None => return None,
        Some(f) => f,
    };
    let cs = chars_of(f.as_str());
    let ghost fv = cs@;
    let mut k = cs.len();
    assert(fv.subrange(0, k as int) =~= fv);
    while k > 0 && cs[k - 1] != '.'
        invariant
            k <= cs.len(),
            cs@ == fv,
            last_index_of(fv, '.') == last_index_of(fv.subrange(0, k as int), '.'),
        decreases k,
    {
        assert(fv.subrange(0, k as int).drop_last() =~= fv.subrange(0, k - 1));
        k -= 1;
    }
    if k <= 1 {
        proof {
            if k == 1 {
                assert(fv.subrange(0, 1).last() == '.');
            } else {
                assert(fv.subrange(0, 0).len() == 0);
            }
        }
        return None;
    }
    assert(fv.subrange(0, k as int).last() == '.');
    let mut e: Vec<char> = Vec::new();
    let mut j = k;
    while j < cs.len()
        invariant
            k <= j <= cs.len(),
            cs@ == fv,
            e@ == fv.subrange(k as int, j as int),
        decreases cs.len() - j,
    {
        e.push(cs[j]);
        assert(fv.subrange(k as int, j + 1) =~= fv.subrange(k as int, j as int).push(fv[j as int]));
        j += 1;
    }
    Some(string_of(&e))
}

/// The bare stem of a `.rels` entry name (its file name, or the whole name
/// when it has none, without `.rels` / `.xml`), ready for
/// [`parse_numeric_suffix`].
pub open spec fn rels_name_stem(name: Seq<char>) -> Seq<char> {
    match zip_file_name_spec(name) {
        Some(f) => rels_stem(f),
        None => rels_stem(name),
    }
}

/// Strips the trailing `.rels` and `.xml` from a `.rels` entry's file name,
/// so that `ppt/slides/_rels/slide12.xml.rels` gives `slide12`.
pub fn name_stem_no_xml_rels(name: &str) -> (r: String)
    ensures
        r@ == rels_name_stem(name@),
{
    match zip_file_name(name) {
        Some(f) => strip_rels_suffix(f.as_str()),
        None => strip_rels_suffix(name),
    }
}

// ---------------------------------------------------------------------------
// Splitting long sections
// ---------------------------------------------------------------------------

/// What the splitter needs to know of one top-level element of a section.
#[derive(Debug)]
pub enum ElementInfo {
    /// A page break or a thematic break: a page boundary.
    Break,
    /// A heading: its level and the text of its text spans, in order.
    Heading { level: u8, texts: Vec<String> },
    /// Any other element.
    Other,
}

/// How a chunk's output file is labelled.
#[derive(Debug)]
pub enum ChunkLabel {
    /// The section is written whole.
    Single,
    /// A page (between page boundaries, or a fixed-size slice).
    Page,
    /// A chapter introduced by a top-level heading with the given title.
    Chapter(String),
}

/// One output file's worth of a section.
#[derive(Debug)]
pub struct Chunk {
    pub label: ChunkLabel,
    /// Title to use for the chunk instead of the section's own.
    pub title_override: Option<String>,
    /// Indices of the section's elements that the chunk holds, in order.
    pub elements: Vec<usize>,
}

/// Spec-level chunk label.
pub enum LabelView {
    Single,
    Page,
    Chapter(Seq<char>),
}

/// Spec-level chunk: label, title override and element indices.
pub struct ChunkView {
    pub label: LabelView,
    pub title: Option<Seq<char>>,
    pub elements: Seq<usize>,
}

/// Largest number of elements in one fixed-size chunk.
pub const MAX_ELEMENTS_PER_CHUNK: usize = 200;

/// The spec view of a chunk label.
pub open spec fn label_view(l: ChunkLabel) -> LabelView {
    match l {
        ChunkLabel::Single => LabelView::Single,
        ChunkLabel::Page => LabelView::Page,
        ChunkLabel::Chapter(t) => LabelView::Chapter(t@),
    }
}

/// The spec view of a chunk.
pub open spec fn chunk_view(c: Chunk) -> ChunkView {
    ChunkView {
        label: label_view(c.label),
        title: match c.title_override {
            Some(t) => Some(t@),
            None => None,
        },
        elements: c.elements@,
    }
}

/// The spec views of a list of chunks.
pub open spec fn chunks_view(cs: Seq<Chunk>) -> Seq<ChunkView> {
    Seq::new(cs.len(), |i: int| chunk_view(cs[i]))
}

/// The concatenation of a list of texts.
pub open spec fn concat_texts(ts: Seq<Seq<char>>) -> Seq<char>
    decreases ts.len(),
{
    if ts.len() == 0 {
        Seq::empty()
    } else {
        concat_texts(ts.drop_last()) + ts.last()
    }
}

/// The plain text of a heading: its text spans concatenated and trimmed.
pub open spec fn heading_text(texts: Seq<String>) -> Seq<char> {
    trim_ws(concat_texts(Seq::new(texts.len(), |i: int| texts[i]@)))
}

/// The plain text of a heading: its text spans concatenated and trimmed.
pub fn heading_plain_text(texts: &Vec<String>) -> (r: String)
    ensures
        r@ == heading_text(texts@),
{
    let ghost tv = Seq::new(texts@.len(), |i: int| texts@[i]@);
    let mut s: Vec<char> = Vec::new();
    let mut i: usize = 0;
    while i < texts.len()
        invariant
            i <= texts.len(),
            tv == Seq::new(texts@.len(), |i: int| texts@[i]@),
            s@ == concat_texts(tv.take(i as int)),
        decreases texts.len() - i,
    {
        let cs = chars_of(texts[i].as_str());
        let mut k: usize = 0;
        let ghost s0 = s@;
        while k < cs.len()
            invariant
                k <= cs.len(),
                s@ == s0 + cs@.take(k as int),
            decreases cs.len() - k,
        {
            s.push(cs[k]);
            assert(cs@.take(k + 1) =~= cs@.take(k as int).push(cs@[k as int]));
            k += 1;
        }
        assert(cs@.take(cs.len() as int) =~= cs@);
        assert(tv.take(i + 1).drop_last() =~= tv.take(i as int));
        i += 1;
    }
    assert(tv.take(texts.len() as int) =~= tv);
    string_of(&trim_ws_exec(&s))
}

/// Whether an element is a page boundary.
pub open spec fn is_break(e: ElementInfo) -> bool {
    e is Break
}

/// Whether an element is a top-level (level 1) heading.
pub open spec fn is_h1(e: ElementInfo) -> bool {
    e matches ElementInfo::Heading { level, .. } && level == 1
}

/// The title an element gives a chapter (for top-level headings).
pub open spec fn h1_title(e: ElementInfo) -> Seq<char> {
    match e {
        ElementInfo::Heading { texts, .. } => heading_text(texts@),
        _ => Seq::empty(),
    }
}

/// Finished page groups and the current group after the first `k` elements.
pub open spec fn page_state(elems: Seq<ElementInfo>, k: int) -> (Seq<Seq<usize>>, Seq<usize>)
    decreases k,
{
    if k <= 0 {
        (Seq::empty(), Seq::empty())
    } else {
        let (d, c) = page_state(elems, k - 1);
        if is_break(elems[k - 1]) {
            if c.len() > 0 {
                (d.push(c), Seq::empty())
            } else {
                (d, c)
            }
        } else {
            (d, c.push((k - 1) as usize))
        }
    }
}

/// The runs of non-boundary elements between page boundaries (empty runs
/// dropped).
pub open spec fn page_groups(elems: Seq<ElementInfo>) -> Seq<Seq<usize>> {
    let (d, c) = page_state(elems, elems.len() as int);
    if c.len() > 0 {
        d.push(c)
    } else {
        d
    }
}

/// Finished chapters (title, elements), the current chapter's elements and
/// its title after the first `k` elements.
pub open spec fn chapter_state(elems: Seq<ElementInfo>, k: int) -> (
    Seq<(Option<Seq<char>>, Seq<usize>)>,
    Seq<usize>,
    Option<Seq<char>>,
)
    decreases k,
{
    if k <= 0 {
        (Seq::empty(), Seq::empty(), None)
    } else {
        let (d, c, t) = chapter_state(elems, k - 1);
        let e = elems[k - 1];
        let (d1, c1, t1) = if is_h1(e) && c.len() > 0 {
            (d.push((t, c)), Seq::<usize>::empty(), None::<Seq<char>>)
        } else {
            (d, c, t)
        };
        let t2 = if is_h1(e) {
            Some(h1_title(e))
        } else {
            t1
        };
        (d1, c1.push((k - 1) as usize), t2)
    }
}

/// The chapters of a section: each top-level heading starts a new one.
pub open spec fn chapter_groups(elems: Seq<ElementInfo>) -> Seq<(Option<Seq<char>>, Seq<usize>)> {
    let (d, c, t) = chapter_state(elems, elems.len() as int);
    if c.len() > 0 {
        d.push((t, c))
    } else {
        d
    }
}

/// Number of top-level headings among the first `k` elements.
pub open spec fn h1_count(elems: Seq<ElementInfo>, k: int) -> nat
    decreases k,
{
    if k <= 0 {
        0
    } else {
        h1_count(elems, k - 1) + if is_h1(elems[k - 1]) {
            1nat
        } else {
            0nat
        }
    }
}

/// The consecutive slices of at most [`MAX_ELEMENTS_PER_CHUNK`] indices
/// covering `0 .. n`.
pub open spec fn fixed_groups(n: nat) -> Seq<Seq<usize>> {
    let m = MAX_ELEMENTS_PER_CHUNK as int;
    Seq::new(
        (n as int / m + if n as int % m == 0 {
            0int
        } else {
            1int
        }) as nat,
        |i: int|
            Seq::new(
                (if n - m * i < m {
                    n - m * i
                } else {
                    m
                }) as nat,
                |j: int| (m * i + j) as usize,
            ),
    )
}

/// How a section is cut into output files: at page boundaries when that
/// gives at least two pages; otherwise at top-level headings when there are
/// at least two; otherwise into fixed-size slices when it has more than
/// [`MAX_ELEMENTS_PER_CHUNK`] elements; otherwise not at all.
pub open spec fn split_spec(elems: Seq<ElementInfo>) -> Seq<ChunkView> {
    let pages = page_groups(elems);
    if (exists|i: int| 0 <= i < elems.len() && is_break(#[trigger] elems[i])) && pages.len() >= 2 {
        Seq::new(
            pages.len(),
            |i: int| ChunkView { label: LabelView::Page, title: None, elements: pages[i] },
        )
    } else if h1_count(elems, elems.len() as int) >= 2 {
        let ch = chapter_groups(elems);
        Seq::new(
            ch.len(),
            |i: int|
                ChunkView {
                    label: LabelView::Chapter(
                        match ch[i].0 {
                            Some(t) => t,
                            None => Seq::empty(),
                        },
                    ),
                    title: ch[i].0,
                    elements: ch[i].1,
                },
        )
    } else if elems.len() > MAX_ELEMENTS_PER_CHUNK {
        let f = fixed_groups(elems.len());
        Seq::new(
            f.len(),
            |i: int| ChunkView { label: LabelView::Page, title: None, elements: f[i] },
        )
    } else {
        seq![
            ChunkView {
                label: LabelView::Single,
                title: None,
                elements: Seq::new(elems.len(), |j: int| j as usize),
            },
        ]
    }
}

/// The chunks for page groups.
pub open spec fn page_chunks(groups: Seq<Seq<usize>>) -> Seq<ChunkView> {
    Seq::new(
        groups.len(),
        |i: int| ChunkView { label: LabelView::Page, title: None, elements: groups[i] },
    )
}

/// The page groups as chunks, computed; see [`page_groups`].  Also tells
/// whether any page boundary was seen.
fn page_chunks_exec(elems: &Vec<ElementInfo>) -> (r: (Vec<Chunk>, bool))
    ensures
        chunks_view(r.0@) == page_chunks(page_groups(elems@)),
        r.1 == exists|i: int| 0 <= i < elems@.len() && is_break(#[trigger] elems@[i]),
{
    let mut done: Vec<Chunk> = Vec::new();
    let mut cur: Vec<usize> = Vec::new();
    let mut any = false;
    let mut k: usize = 0;
    while k < elems.len()
        invariant
            k <= elems.len(),
            chunks_view(done@) == page_chunks(page_state(elems@, k as int).0),
            cur@ == page_state(elems@, k as int).1,
            any == exists|i: int| 0 <= i < k && is_break(#[trigger] elems@[i]),
        decreases elems.len() - k,
    {
        let ghost dv = chunks_view(done@);
        match &elems[k] {
            ElementInfo::Break => {
                any = true;
                if cur.len() > 0 {
                    let ghost cv = cur@;
                    let ghost d0 = page_state(elems@, k as int).0;
                    done.push(Chunk { label: ChunkLabel::Page, title_override: None, elements: cur });
                    cur = Vec::new();
                    assert(chunks_view(done@) =~= dv.push(
                        ChunkView { label: LabelView::Page, title: None, elements: cv },
                    ));
                    assert(page_state(elems@, k + 1).0 == d0.push(cv));
                    assert(page_chunks(d0.push(cv)) =~= page_chunks(d0).push(
                        ChunkView { label: LabelView::Page, title: None, elements: cv },
                    ));
                }
            },
            _ => {
                cur.push(k);
            },
        }
        k += 1;
    }
    let ghost d0 = page_state(elems@, elems@.len() as int).0;
    if cur.len() > 0 {
        let ghost dv = chunks_view(done@);
        let ghost cv = cur@;
        done.push(Chunk { label: ChunkLabel::Page, title_override: None, elements: cur });
        assert(chunks_view(done@) =~= dv.push(
            ChunkView { label: LabelView::Page, title: None, elements: cv },
        ));
        assert(page_chunks(d0.push(cv)) =~= page_chunks(d0).push(
            ChunkView { label: LabelView::Page, title: None, elements: cv },
        ));
    }
    (done, any)
}

/// Whether an element is a top-level heading.
fn is_h1_exec(e: &ElementInfo) -> (r: bool)
    ensures
        r == is_h1(*e),
{
    match e {
        ElementInfo::Heading { level, .. } => *level == 1,
        _ => false,
    }
}

/// The chapters, computed; see [`chapter_groups`].
fn chapter_groups_exec(elems: &Vec<ElementInfo>) -> (r: Vec<Chunk>)
    ensures
        chunks_view(r@) == Seq::new(
            chapter_groups(elems@).len(),
            |i: int|
                ChunkView {
                    label: LabelView::Chapter(
                        match chapter_groups(elems@)[i].0 {
                            Some(t) => t,
                            None => Seq::empty(),
                        },
                    ),
                    title: chapter_groups(elems@)[i].0,
                    elements: chapter_groups(elems@)[i].1,
                },
        ),
{
    let mut done: Vec<Chunk> = Vec::new();
    let mut cur: Vec<usize> = Vec::new();
    let mut title: Option<String> = None;
    let mut k: usize = 0;
    while k < elems.len()
        invariant
            k <= elems.len(),
            ({
                let (d, c, t) = chapter_state(elems@, k as int);
                &&& chunks_view(done@) == Seq::new(
                    d.len(),
                    |i: int|
                        ChunkView {
                            label: LabelView::Chapter(
                                match d[i].0 {
                                    Some(t) => t,
                                    None => Seq::empty(),
                                },
                            ),
                            title: d[i].0,
                            elements: d[i].1,
                        },
                )
                &&& cur@ == c
                &&& t == match title {
                    Some(s) => Some(s@),
                    None => None,
                }
            }),
        decreases elems.len() - k,
    {
        let e = &elems[k];
        let h1 = is_h1_exec(e);
        let ghost dv = chunks_view(done@);
        if h1 && cur.len() > 0 {
            let label = match &title {
                Some(t) => ChunkLabel::Chapter(string_of(&chars_of(t.as_str()))),
                None => ChunkLabel::Chapter(String::new()),
            };
            let c = Chunk { label, title_override: title, elements: cur };
            let ghost cv = chunk_view(c);
            done.push(c);
            assert(chunks_view(done@) =~= dv.push(cv));
            cur = Vec::new();
            title = None;
        }
        if h1 {
            match e {
                ElementInfo::Heading { texts, .. } => {
                    title = Some(heading_plain_text(texts));
                },
                _ => {},
            }
        }
        cur.push(k);
        proof {
            let (d, c, t) = chapter_state(elems@, k as int);
            let (d2, c2, t2) = chapter_state(elems@, k + 1);
            assert(chunks_view(done@) =~= Seq::new(
                d2.len(),
                |i: int|
                    ChunkView {
                        label: LabelView::Chapter(
                            match d2[i].0 {
                                Some(t) => t,
                                None => Seq::empty(),
                            },
                        ),
                        title: d2[i].0,
                        elements: d2[i].1,
                    },
            ));
        }
        k += 1;
    }
    if cur.len() > 0 {
        let ghost dv = chunks_view(done@);
        let label = match &title {
            Some(t) => ChunkLabel::Chapter(string_of(&chars_of(t.as_str()))),
            None => ChunkLabel::Chapter(String::new()),
        };
        let c = Chunk { label, title_override: title, elements: cur };
        let ghost cv = chunk_view(c);
        done.push(c);
        assert(chunks_view(done@) =~= dv.push(cv));
    }
    proof {
        let ch = chapter_groups(elems@);
        assert(chunks_view(done@) =~= Seq::new(
            ch.len(),
            |i: int|
                ChunkView {
                    label: LabelView::Chapter(
                        match ch[i].0 {
                            Some(t) => t,
                            None => Seq::empty(),
                        },
                    ),
                    title: ch[i].0,
                    elements: ch[i].1,
                },
        ));
    }
    done
}

/// Number of top-level headings, computed.
fn h1_count_exec(elems: &Vec<ElementInfo>) -> (r: usize)
    ensures
        r == h1_count(elems@, elems@.len() as int),
{
    let mut c: usize = 0;
    let mut k: usize = 0;
    while k < elems.len()
        invariant
            k <= elems.len(),
            c == h1_count(elems@, k as int),
            c <= k,
        decreases elems.len() - k,
    {
        if is_h1_exec(&elems[k]) {
            c += 1;
        }
        k += 1;
    }
    c
}

/// The fixed-size chunks covering `0 .. n`.
fn fixed_chunks_exec(n: usize) -> (r: Vec<Chunk>)
    ensures
        chunks_view(r@) == page_chunks(fixed_groups(n as nat)),
{
    let m: usize = MAX_ELEMENTS_PER_CHUNK;
    let count: usize = n / m + if n % m == 0 {
        0
    } else {
        1
    };
    let ghost f = fixed_groups(n as nat);
    assert(f.len() == count);
    let mut out: Vec<Chunk> = Vec::new();
    let mut i: usize = 0;
    while i < count
        invariant
            m == 200,
            count == n / 200 + if n % 200 == 0 {
                0int
            } else {
                1int
            },
            f == fixed_groups(n as nat),
            f.len() == count,
            i <= count,
            chunks_view(out@) == page_chunks(f.take(i as int)),
        decreases count - i,
    {
        assert(200 * i < n) by (nonlinear_arith)
            requires
                i < count,
                count == n / 200 + if n % 200 == 0 {
                    0int
                } else {
                    1int
                },
        ;
        let start = m * i;
        let end = if n - start < m {
            n
        } else {
            start + m
        };
        let mut g: Vec<usize> = Vec::new();
        let mut j = start;
        while j < end
            invariant
                start <= j <= end,
                g@ == Seq::new((j - start) as nat, |q: int| (start + q) as usize),
            decreases end - j,
        {
            g.push(j);
            assert(g@ =~= Seq::new((j + 1 - start) as nat, |q: int| (start + q) as usize));
            j += 1;
        }
        assert(g@ =~= f[i as int]);
        let ghost ov = chunks_view(out@);
        out.push(Chunk { label: ChunkLabel::Page, title_override: None, elements: g });
        assert(f.take(i + 1) =~= f.take(i as int).push(f[i as int]));
        assert(chunks_view(out@) =~= ov.push(
            ChunkView { label: LabelView::Page, title: None, elements: f[i as int] },
        ));
        assert(page_chunks(f.take(i + 1)) =~= page_chunks(f.take(i as int)).push(
            ChunkView { label: LabelView::Page, title: None, elements: f[i as int] },
        ));
        i += 1;
    }
    assert(f.take(i as int) =~= f);
    out
}

/// Cuts a section into output-file chunks; see [`split_spec`].  A long
/// flowing document is split so that it does not become a single file.
pub fn split_long_section(elems: &Vec<ElementInfo>) -> (r: Vec<Chunk>)
    ensures
        chunks_view(r@) == split_spec(elems@),
{
    let (pages, any_break) = page_chunks_exec(elems);
    if any_break && pages.len() >= 2 {
        return pages;
    }
    if h1_count_exec(elems) >= 2 {
        return chapter_groups_exec(elems);
    }
    if elems.len() > MAX_ELEMENTS_PER_CHUNK {
        return fixed_chunks_exec(elems.len());
    }
    let mut all: Vec<usize> = Vec::new();
    let mut j: usize = 0;
    while j < elems.len()
        invariant
            j <= elems.len(),
            all@ == Seq::new(j as nat, |q: int| q as usize),
        decreases elems.len() - j,
    {
        all.push(j);
        assert(all@ =~= Seq::new((j + 1) as nat, |q: int| q as usize));
        j += 1;
    }
    let mut out: Vec<Chunk> = Vec::new();
    out.push(Chunk { label: ChunkLabel::Single, title_override: None, elements: all });
    assert(chunks_view(out@) =~= split_spec(elems@));
    out
}

// ---------------------------------------------------------------------------
// Media buckets from `.rels` manifests
// ---------------------------------------------------------------------------

/// The value recorded for `k` in an association list (the first entry wins).
pub open spec fn assoc_get<V>(m: Seq<(Seq<char>, V)>, k: Seq<char>) -> Option<V>
    decreases m.len(),
{
    if m.len() == 0 {
        None
    } else {
        match assoc_get(m.drop_last(), k) {
            Some(v) => Some(v),
            None => if m.last().0 == k {
                Some(m.last().1)
            } else {
                None
            },
        }
    }
}

/// `m` with `k` recorded as `v`, unless `k` already has a value.
pub open spec fn assoc_insert<V>(m: Seq<(Seq<char>, V)>, k: Seq<char>, v: V) -> Seq<(Seq<char>, V)> {
    if assoc_get(m, k) is Some {
        m
    } else {
        m.push((k, v))
    }
}

/// The view of a string-keyed association list.
pub open spec fn assoc_view<V>(m: Seq<(String, V)>) -> Seq<(Seq<char>, V)> {
    Seq::new(m.len(), |i: int| (m[i].0@, m[i].1))
}

/// The view of a string-to-string association list.
pub open spec fn assoc_view_str(m: Seq<(String, String)>) -> Seq<(Seq<char>, Seq<char>)> {
    Seq::new(m.len(), |i: int| (m[i].0@, m[i].1@))
}

/// Looks `k` up in a string-to-string association list.
pub fn assoc_lookup<'a>(m: &'a Vec<(String, String)>, k: &str) -> (r: Option<&'a String>)
    ensures
        match r {
            Some(v) => assoc_get(assoc_view_str(m@), k@) == Some(v@),
            None => assoc_get(assoc_view_str(m@), k@) is None,
        },
{
    let ghost mv = assoc_view_str(m@);
    let mut i: usize = 0;
    while i < m.len()
        invariant
            i <= m.len(),
            mv == assoc_view_str(m@),
            assoc_get(mv.take(i as int), k@) is None,
        decreases m.len() - i,
    {
        assert(mv.take(i + 1).drop_last() =~= mv.take(i as int));
        if str_eq(m[i].0.as_str(), k) {
            assert(assoc_get(mv.take(i + 1), k@) == Some(mv[i as int].1));
            proof {
                lemma_assoc_get_prefix(mv, (i + 1) as int, k@);
            }
            return Some(&m[i].1);
        }
        i += 1;
    }
    assert(mv.take(m.len() as int) =~= mv);
    None
}

/// A value found in a prefix of an association list is the list's value.
pub proof fn lemma_assoc_get_prefix<V>(m: Seq<(Seq<char>, V)>, n: int, k: Seq<char>)
    requires
        0 <= n <= m.len(),
        assoc_get(m.take(n), k) is Some,
    ensures
        assoc_get(m, k) == assoc_get(m.take(n), k),
    decreases m.len() - n,
{
    if n < m.len() {
        assert(m.take(n + 1).drop_last() =~= m.take(n));
        lemma_assoc_get_prefix(m, n + 1, k);
    } else {
        assert(m.take(n) =~= m);
    }
}

/// Records `k` as `v` in a string-to-string association list unless `k`
/// already has a value.
pub fn assoc_insert_str(m: &mut Vec<(String, String)>, k: String, v: String)
    ensures
        assoc_view_str(final(m)@) == assoc_insert(assoc_view_str(old(m)@), k@, v@),
{
    let found = assoc_lookup(m, k.as_str()).is_some();
    if !found {
        let ghost mv = assoc_view_str(m@);
        let ghost kv = (k@, v@);
        m.push((k, v));
        assert(assoc_view_str(m@) =~= mv.push(kv));
    }
}

/// Looks `k` up in a string-to-number association list.
fn assoc_lookup_num(m: &Vec<(String, u32)>, k: &str) -> (r: Option<u32>)
    ensures
        r == assoc_get(assoc_view(m@), k@),
{
    let ghost mv = assoc_view(m@);
    let mut i: usize = 0;
    while i < m.len()
        invariant
            i <= m.len(),
            mv == assoc_view(m@),
            assoc_get(mv.take(i as int), k@) is None,
        decreases m.len() - i,
    {
        assert(mv.take(i + 1).drop_last() =~= mv.take(i as int));
        if str_eq(m[i].0.as_str(), k) {
            assert(assoc_get(mv.take(i + 1), k@) == Some(mv[i as int].1));
            proof {
                lemma_assoc_get_prefix(mv, (i + 1) as int, k@);
            }
            return Some(m[i].1);
        }
        i += 1;
    }
    assert(mv.take(m.len() as int) =~= mv);
    None
}

/// Records `k` as `v` in a string-to-number association list unless `k`
/// already has a value.
fn assoc_insert_num(m: &mut Vec<(String, u32)>, k: String, v: u32)
    ensures
        assoc_view(final(m)@) == assoc_insert(assoc_view(old(m)@), k@, v),
{
    let found = assoc_lookup_num(m, k.as_str()).is_some();
    if !found {
        let ghost mv = assoc_view(m@);
        let ghost kv = (k@, v);
        m.push((k, v));
        assert(assoc_view(m@) =~= mv.push(kv));
    }
}

/// Records `bucket` for every target (resolved against `base`) that is a
/// media path.
pub open spec fn add_media_targets(
    out: Seq<(Seq<char>, Seq<char>)>,
    base: Seq<char>,
    targets: Seq<Seq<char>>,
    bucket: Seq<char>,
) -> Seq<(Seq<char>, Seq<char>)>
    decreases targets.len(),
{
    if targets.len() == 0 {
        out
    } else {
        let o = add_media_targets(out, base, targets.drop_last(), bucket);
        match resolved_target(base, targets.last()) {
            Some(a) => if is_media_path_spec(a) {
                assoc_insert(o, a, bucket)
            } else {
                o
            },
            None => o,
        }
    }
}

/// Whether a (lowercase) entry name is a slide's `.rels` manifest.
pub open spec fn is_slide_rels(l: Seq<char>) -> bool {
    has_prefix(l, "ppt/slides/_rels/"@) && has_suffix(l, ".xml.rels"@) && contains_seq(l, "/slide"@)
}

/// The slide buckets after the first `k` entries: every media file a
/// slide's manifest references is assigned to `slide-NNN` (the first slide
/// that references it wins).  `texts[i]` is the text of entry `names[i]`,
/// when it could be read.
pub open spec fn pptx_buckets(names: Seq<Seq<char>>, texts: Seq<Option<Seq<char>>>, k: int) -> Seq<
    (Seq<char>, Seq<char>),
>
    decreases k,
{
    if k <= 0 {
        Seq::empty()
    } else {
        let out = pptx_buckets(names, texts, k - 1);
        let name = names[k - 1];
        if !is_slide_rels(lower_seq(name)) {
            out
        } else {
            match numeric_suffix_spec(rels_name_stem(name), "slide"@) {
                None => out,
                Some(n) => match texts[k - 1] {
                    None => out,
                    Some(xml) => add_media_targets(
                        out,
                        "ppt/slides/"@,
                        targets_from(xml, 0),
                        "slide-"@ + pad3(n as nat),
                    ),
                },
            }
        }
    }
}

/// Whether a (lowercase) entry name is a worksheet's `.rels` manifest.
pub open spec fn is_sheet_rels(l: Seq<char>) -> bool {
    has_prefix(l, "xl/worksheets/_rels/"@) && has_suffix(l, ".xml.rels"@)
}

/// Whether a (lowercase) entry name is a drawing's `.rels` manifest.
pub open spec fn is_drawing_rels(l: Seq<char>) -> bool {
    has_prefix(l, "xl/drawings/_rels/"@) && has_suffix(l, ".xml.rels"@)
}

/// One worksheet manifest's targets: drawings are mapped to the sheet
/// number, media files directly to the `sheet-NNN` bucket.
pub open spec fn add_sheet_targets(
    st: (Seq<(Seq<char>, Seq<char>)>, Seq<(Seq<char>, u32)>),
    targets: Seq<Seq<char>>,
    sheet: u32,
) -> (Seq<(Seq<char>, Seq<char>)>, Seq<(Seq<char>, u32)>)
    decreases targets.len(),
{
    if targets.len() == 0 {
        st
    } else {
        let (out, drawings) = add_sheet_targets(st, targets.drop_last(), sheet);
        match resolved_target("xl/worksheets/"@, targets.last()) {
            Some(a) => {
                let l = lower_seq(a);
                if has_prefix(l, "xl/drawings/"@) && has_suffix(l, ".xml"@) {
                    (out, assoc_insert(drawings, a, sheet))
                } else if is_media_path_spec(a) {
                    (assoc_insert(out, a, "sheet-"@ + pad3(sheet as nat)), drawings)
                } else {
                    (out, drawings)
                }
            },
            None => (out, drawings),
        }
    }
}

/// The first pass over a workbook's entries: media referenced directly by
/// sheets, and the sheet number of every drawing a sheet references.
pub open spec fn xlsx_sheet_pass(names: Seq<Seq<char>>, texts: Seq<Option<Seq<char>>>, k: int) -> (
    Seq<(Seq<char>, Seq<char>)>,
    Seq<(Seq<char>, u32)>,
)
    decreases k,
{
    if k <= 0 {
        (Seq::empty(), Seq::empty())
    } else {
        let st = xlsx_sheet_pass(names, texts, k - 1);
        let name = names[k - 1];
        if !is_sheet_rels(lower_seq(name)) {
            st
        } else {
            match numeric_suffix_spec(rels_name_stem(name), "sheet"@) {
                None => st,
                Some(n) => match texts[k - 1] {
                    None => st,
                    Some(xml) => add_sheet_targets(st, targets_from(xml, 0), n),
                },
            }
        }
    }
}

/// `s` with its first occurrence of `p` (if any) replaced by `r`.
pub open spec fn replace_first(s: Seq<char>, p: Seq<char>, r: Seq<char>) -> Seq<char> {
    match find_from(s, p, 0) {
        Some(i) => s.subrange(0, i) + r + s.subrange(i + p.len(), s.len() as int),
        None => s,
    }
}

/// The drawing a drawing manifest describes: the manifest's name with its
/// first `xl/drawings/_rels/` replaced by `xl/drawings/` and trailing
/// `.rels` removed.
pub open spec fn described_drawing(name: Seq<char>) -> Seq<char> {
    trim_end_all(replace_first(name, "xl/drawings/_rels/"@, "xl/drawings/"@), ".rels"@)
}

/// The second pass over a workbook's entries: media referenced by the
/// drawings of a sheet go to that sheet's bucket.
pub open spec fn xlsx_drawing_pass(
    names: Seq<Seq<char>>,
    texts: Seq<Option<Seq<char>>>,
    drawings: Seq<(Seq<char>, u32)>,
    out0: Seq<(Seq<char>, Seq<char>)>,
    k: int,
) -> Seq<(Seq<char>, Seq<char>)>
    decreases k,
{
    if k <= 0 {
        out0
    } else {
        let out = xlsx_drawing_pass(names, texts, drawings, out0, k - 1);
        let name = names[k - 1];
        if !is_drawing_rels(lower_seq(name)) {
            out
        } else {
            match assoc_get(drawings, described_drawing(name)) {
                None => out,
                Some(n) => match texts[k - 1] {
                    None => out,
                    Some(xml) => add_media_targets(
                        out,
                        "xl/drawings/"@,
                        targets_from(xml, 0),
                        "sheet-"@ + pad3(n as nat),
                    ),
                },
            }
        }
    }
}

/// The image subdirectory of every media file the manifests reference:
/// slides for presentations, sheets (directly or through their drawings)
/// for workbooks, nothing for flat layouts.
pub open spec fn media_buckets_spec(
    names: Seq<Seq<char>>,
    texts: Seq<Option<Seq<char>>>,
    kind: OfficeKind,
) -> Seq<(Seq<char>, Seq<char>)> {
    match kind {
        OfficeKind::Flat => Seq::empty(),
        OfficeKind::Pptx => pptx_buckets(names, texts, names.len() as int),
        OfficeKind::Xlsx => {
            let (out, drawings) = xlsx_sheet_pass(names, texts, names.len() as int);
            xlsx_drawing_pass(names, texts, drawings, out, names.len() as int)
        },
    }
}

/// The views of a list of strings.
pub open spec fn strs_view(v: Seq<String>) -> Seq<Seq<char>> {
    Seq::new(v.len(), |i: int| v[i]@)
}

/// The views of a list of optional strings.
pub open spec fn opt_strs_view(v: Seq<Option<String>>) -> Seq<Option<Seq<char>>> {
    Seq::new(
        v.len(),
        |i: int|
            match v[i] {
                Some(t) => Some(t@),
                None => None,
            },
    )
}

/// Records `bucket` for every media target; see [`add_media_targets`].
fn add_media_targets_exec(
    out: &mut Vec<(String, String)>,
    base: &str,
    targets: &Vec<String>,
    bucket: &str,
)
    ensures
        assoc_view_str(final(out)@) == add_media_targets(
            assoc_view_str(old(out)@),
            base@,
            strs_view(targets@),
            bucket@,
        ),
{
    let ghost tv = strs_view(targets@);
    let ghost o0 = assoc_view_str(out@);
    let mut i: usize = 0;
    assert(tv.take(0) =~= Seq::<Seq<char>>::empty());
    while i < targets.len()
        invariant
            i <= targets.len(),
            tv == strs_view(targets@),
            assoc_view_str(out@) == add_media_targets(o0, base@, tv.take(i as int), bucket@),
        decreases targets.len() - i,
    {
        assert(tv.take(i + 1).drop_last() =~= tv.take(i as int));
        assert(tv.take(i + 1).last() == targets@[i as int]@);
        match resolve_rel_target(base, targets[i].as_str()) {
            Some(a) => {
                if is_media_path(a.as_str()) {
                    assoc_insert_str(out, a, String::from_str(bucket));
                }
            },
            None => {},
        }
        i += 1;
    }
    assert(tv.take(targets.len() as int) =~= tv);
}

/// The bucket name `<prefix><NNN>`.
fn numbered(prefix: &str, n: u32) -> (r: String)
    ensures
        r@ == prefix@ + pad3(n as nat),
{
    let mut s = String::new();
    push_str(&mut s, prefix);
    push_pad3(&mut s, n as u64);
    s
}

/// The slide buckets; see [`pptx_buckets`].
fn pptx_buckets_exec(names: &Vec<String>, texts: &Vec<Option<String>>) -> (r: Vec<(String, String)>)
    requires
        names.len() == texts.len(),
    ensures
        assoc_view_str(r@) == pptx_buckets(
            strs_view(names@),
            opt_strs_view(texts@),
            names@.len() as int,
        ),
{
    let ghost nv = strs_view(names@);
    let ghost tv = opt_strs_view(texts@);
    let mut out: Vec<(String, String)> = Vec::new();
    let mut k: usize = 0;
    assert(assoc_view_str(out@) =~= Seq::<(Seq<char>, Seq<char>)>::empty());
    while k < names.len()
        invariant
            k <= names.len(),
            names.len() == texts.len(),
            nv == strs_view(names@),
            tv == opt_strs_view(texts@),
            assoc_view_str(out@) == pptx_buckets(nv, tv, k as int),
        decreases names.len() - k,
    {
        let name = names[k].as_str();
        assert(nv[k as int] == name@);
        let l = lower_chars(&chars_of(name));
        let cand = has_prefix_exec(&l, &chars_of("ppt/slides/_rels/")) && has_suffix_exec(
            &l,
            &chars_of(".xml.rels"),
        ) && contains_exec(&l, &chars_of("/slide"));
        if cand {
            let stem = name_stem_no_xml_rels(name);
            match parse_numeric_suffix(stem.as_str(), "slide") {
                None => {},
                Some(n) => {
                    match &texts[k] {
                        None => {},
                        Some(xml) => {
                            assert(tv[k as int] == Some(xml@));
                            let bucket = numbered("slide-", n);
                            let targets = extract_targets(xml.as_str());
                            assert(strs_view(targets@) =~= targets_from(xml@, 0));
                            add_media_targets_exec(&mut out, "ppt/slides/", &targets, bucket.as_str());
                        },
                    }
                },
            }
        }
        k += 1;
    }
    out
}

/// One worksheet manifest's targets; see [`add_sheet_targets`].
fn add_sheet_targets_exec(
    out: &mut Vec<(String, String)>,
    drawings: &mut Vec<(String, u32)>,
    targets: &Vec<String>,
    sheet: u32,
)
    ensures
        (assoc_view_str(final(out)@), assoc_view(final(drawings)@)) == add_sheet_targets(
            (assoc_view_str(old(out)@), assoc_view(old(drawings)@)),
            strs_view(targets@),
            sheet,
        ),
{
    let ghost tv = strs_view(targets@);
    let ghost st0 = (assoc_view_str(out@), assoc_view(drawings@));
    let mut i: usize = 0;
    assert(tv.take(0) =~= Seq::<Seq<char>>::empty());
    while i < targets.len()
        invariant
            i <= targets.len(),
            tv == strs_view(targets@),
            (assoc_view_str(out@), assoc_view(drawings@)) == add_sheet_targets(
                st0,
                tv.take(i as int),
                sheet,
            ),
        decreases targets.len() - i,
    {
        assert(tv.take(i + 1).drop_last() =~= tv.take(i as int));
        assert(tv.take(i + 1).last() == targets@[i as int]@);
        match resolve_rel_target("xl/worksheets/", targets[i].as_str()) {
            Some(a) => {
                let l = lower_chars(&chars_of(a.as_str()));
                if has_prefix_exec(&l, &chars_of("xl/drawings/")) && has_suffix_exec(
                    &l,
                    &chars_of(".xml"),
                ) {
                    assoc_insert_num(drawings, a, sheet);
                } else if is_media_path(a.as_str()) {
                    let b = numbered("sheet-", sheet);
                    assoc_insert_str(out, a, b);
                }
            },
            None => {},
        }
        i += 1;
    }
    assert(tv.take(targets.len() as int) =~= tv);
}

/// Replaces the first occurrence of `p` in `s` by `r`.
fn replace_first_exec(s: &Vec<char>, p: &Vec<char>, r: &Vec<char>) -> (out: Vec<char>)
    ensures
        out@ == replace_first(s@, p@, r@),
{
    let pos = find_from_exec(s, p, 0);
    let (cut, resume) = match pos {
        None => (s.len(), s.len()),
        Some(i) => {
            proof {
                lemma_find_from(s@, p@, 0);
                assert(occurs_at(s@, p@, i as int));
            }
            let plen = p.len();
            let slen = s.len();
            assert(i + plen <= slen);
            let resume = i + plen;
            (i, resume)
        },
    };
    let mut o: Vec<char> = Vec::new();
    let mut k: usize = 0;
    while k < cut
        invariant
            cut <= s.len(),
            k <= cut,
            o@ == s@.subrange(0, k as int),
        decreases cut - k,
    {
        o.push(s[k]);
        assert(s@.subrange(0, k + 1) =~= s@.subrange(0, k as int).push(s@[k as int]));
        k += 1;
    }
    if pos.is_some() {
        let ghost o1 = o@;
        let mut j: usize = 0;
        while j < r.len()
            invariant
                j <= r.len(),
                o@ == o1 + r@.take(j as int),
            decreases r.len() - j,
        {
            o.push(r[j]);
            assert(r@.take(j + 1) =~= r@.take(j as int).push(r@[j as int]));
            j += 1;
        }
        assert(r@.take(r.len() as int) =~= r@);
    }
    let ghost o2 = o@;
    let mut k2: usize = resume;
    while k2 < s.len()
        invariant
            resume <= k2 <= s.len(),
            o@ == o2 + s@.subrange(resume as int, k2 as int),
        decreases s.len() - k2,
    {
        o.push(s[k2]);
        assert(s@.subrange(resume as int, k2 + 1) =~= s@.subrange(resume as int, k2 as int).push(
            s@[k2 as int],
        ));
        k2 += 1;
    }
    assert(o@ =~= replace_first(s@, p@, r@));
    o
}

/// The drawing a drawing manifest describes; see [`described_drawing`].
fn described_drawing_exec(name: &str) -> (r: String)
    ensures
        r@ == described_drawing(name@),
{
    let a = replace_first_exec(&chars_of(name), &chars_of("xl/drawings/_rels/"), &chars_of("xl/drawings/"));
    let b = trim_end_all_exec(a, &chars_of(".rels"));
    string_of(&b)
}

/// Builds the media bucket map of an OOXML package from its entry names and
/// the texts of its entries (`texts[i]` belongs to `names[i]`; only the
/// slide, worksheet and drawing manifests are consulted); see
/// [`media_buckets_spec`].  The first bucket recorded for a media file wins.
pub fn build_zip_media_buckets(names: &Vec<String>, texts: &Vec<Option<String>>, kind: OfficeKind) -> (r: Vec<(String, String)>)
    requires
        names.len() == texts.len(),
    ensures
        assoc_view_str(r@) == media_buckets_spec(strs_view(names@), opt_strs_view(texts@), kind),
{
    match kind {
        OfficeKind::Flat => {
            let r: Vec<(String, String)> = Vec::new();
            assert(assoc_view_str(r@) =~= Seq::<(Seq<char>, Seq<char>)>::empty());
            r
        },
        OfficeKind::Pptx => pptx_buckets_exec(names, texts),
        OfficeKind::Xlsx => {
            let ghost nv = strs_view(names@);
            let ghost tv = opt_strs_view(texts@);
            let mut out: Vec<(String, String)> = Vec::new();
            let mut drawings: Vec<(String, u32)> = Vec::new();
            assert(assoc_view_str(out@) =~= Seq::<(Seq<char>, Seq<char>)>::empty());
            assert(assoc_view(drawings@) =~= Seq::<(Seq<char>, u32)>::empty());
            let mut k: usize = 0;
            while k < names.len()
                invariant
                    k <= names.len(),
                    names.len() == texts.len(),
                    nv == strs_view(names@),
                    tv == opt_strs_view(texts@),
                    (assoc_view_str(out@), assoc_view(drawings@)) == xlsx_sheet_pass(nv, tv, k as int),
                decreases names.len() - k,
            {
                let name = names[k].as_str();
                assert(nv[k as int] == name@);
                let l = lower_chars(&chars_of(name));
                if has_prefix_exec(&l, &chars_of("xl/worksheets/_rels/")) && has_suffix_exec(
                    &l,
                    &chars_of(".xml.rels"),
                ) {
                    let stem = name_stem_no_xml_rels(name);
                    match parse_numeric_suffix(stem.as_str(), "sheet") {
                        None => {},
                        Some(n) => {
                            match &texts[k] {
                                None => {},
                                Some(xml) => {
                                    assert(tv[k as int] == Some(xml@));
                                    let targets = extract_targets(xml.as_str());
                                    assert(strs_view(targets@) =~= targets_from(xml@, 0));
                                    add_sheet_targets_exec(&mut out, &mut drawings, &targets, n);
                                },
                            }
                        },
                    }
                }
                k += 1;
            }
            let ghost out0 = assoc_view_str(out@);
            let ghost dv = assoc_view(drawings@);
            let mut k: usize = 0;
            while k < names.len()
                invariant
                    k <= names.len(),
                    names.len() == texts.len(),
                    nv == strs_view(names@),
                    tv == opt_strs_view(texts@),
                    dv == assoc_view(drawings@),
                    assoc_view_str(out@) == xlsx_drawing_pass(nv, tv, dv, out0, k as int),
                decreases names.len() - k,
            {
                let name = names[k].as_str();
                assert(nv[k as int] == name@);
                let l = lower_chars(&chars_of(name));
                if has_prefix_exec(&l, &chars_of("xl/drawings/_rels/")) && has_suffix_exec(
                    &l,
                    &chars_of(".xml.rels"),
                ) {
                    let drawing = described_drawing_exec(name);
                    match assoc_lookup_num(&drawings, drawing.as_str()) {
                        None => {},
                        Some(n) => {
                            match &texts[k] {
                                None => {},
                                Some(xml) => {
                                    assert(tv[k as int] == Some(xml@));
                                    let bucket = numbered("sheet-", n);
                                    let targets = extract_targets(xml.as_str());
                                    assert(strs_view(targets@) =~= targets_from(xml@, 0));
                                    add_media_targets_exec(&mut out, "xl/drawings/", &targets, bucket.as_str());
                                },
                            }
                        },
                    }
                }
                k += 1;
            }
            out
        },
    }
}

// ---------------------------------------------------------------------------
// Media and embedded objects pulled straight from the package
// ---------------------------------------------------------------------------

/// What an asset pulled from the package is.
#[derive(Debug, Clone, Copy, PartialEq, Eq, Structural)]
pub enum AssetKind {
    Image,
    Media,
    Embedding,
}

/// An asset to write: the package entry it comes from, the subdirectory and
/// file name it is written to, its path relative to the output folder and
/// its original file name.
#[derive(Debug)]
pub struct ExtractedAsset {
    pub kind: AssetKind,
    pub entry: usize,
    pub dir: String,
    pub file_name: String,
    pub rel: String,
    pub original: String,
}

/// Spec-level asset.
pub struct AssetView {
    pub kind: AssetKind,
    pub entry: int,
    pub dir: Seq<char>,
    pub file_name: Seq<char>,
    pub rel: Seq<char>,
    pub original: Seq<char>,
}

/// The spec view of an asset.
pub open spec fn asset_view(a: ExtractedAsset) -> AssetView {
    AssetView {
        kind: a.kind,
        entry: a.entry as int,
        dir: a.dir@,
        file_name: a.file_name@,
        rel: a.rel@,
        original: a.original@,
    }
}

/// The spec views of a list of assets.
pub open spec fn assets_view(v: Seq<ExtractedAsset>) -> Seq<AssetView> {
    Seq::new(v.len(), |i: int| asset_view(v[i]))
}

/// Whether an entry (by lowercase name) lies under a `media/` directory.
pub open spec fn in_media_dir(l: Seq<char>) -> bool {
    contains_seq(l, "/media/"@)
}

/// Whether an entry (by lowercase name) is an embedded object.
pub open spec fn in_embed_dir(l: Seq<char>) -> bool {
    contains_seq(l, "/embeddings/"@) || contains_seq(l, "/oleobject"@)
}

/// Whether a package entry is pulled out as an asset (before looking at
/// its bytes): a file under `media/` or an embedded object.
pub open spec fn is_asset_entry_spec(name: Seq<char>) -> bool {
    let l = lower_seq(name);
    !has_suffix(l, "/"@) && (in_media_dir(l) || in_embed_dir(l))
}

/// The extension an asset is written with: the entry name's (lowercased),
/// else the one recognised from its bytes, else `bin`.
pub open spec fn asset_ext(name: Seq<char>, bytes: Seq<u8>) -> Seq<char> {
    match zip_extension_spec(name) {
        Some(e) => lower_seq(e),
        None => match sniffed_ext(bytes) {
            Some(e) => e,
            None => "bin"@,
        },
    }
}

/// The original file name of an entry: its file name, or the whole name.
pub open spec fn asset_original(name: Seq<char>) -> Seq<char> {
    match zip_file_name_spec(name) {
        Some(f) => f,
        None => name,
    }
}

/// The assets planned for the first `k` entries and the image, media and
/// embedding counters after them.  Embedded objects go to `embeddings/`,
/// images to `images/` (or their slide / sheet subdirectory), anything else
/// to `media/`; entries that could not be read, or are empty, are skipped.
pub open spec fn asset_plan(
    names: Seq<Seq<char>>,
    data: Seq<Option<Seq<u8>>>,
    buckets: Seq<(Seq<char>, Seq<char>)>,
    kind: OfficeKind,
    img0: nat,
    k: int,
) -> (Seq<AssetView>, nat, nat, nat)
    decreases k,
{
    if k <= 0 {
        (Seq::empty(), img0, 0, 0)
    } else {
        let (out, img, media, embed) = asset_plan(names, data, buckets, kind, img0, k - 1);
        let name = names[k - 1];
        let l = lower_seq(name);
        if !is_asset_entry_spec(name) {
            (out, img, media, embed)
        } else {
            match data[k - 1] {
                None => (out, img, media, embed),
                Some(bytes) => if bytes.len() == 0 {
                    (out, img, media, embed)
                } else {
                    let original = asset_original(name);
                    let ext = asset_ext(name, bytes);
                    if in_embed_dir(l) {
                        let f = "embed-"@ + pad3(embed + 1) + "-"@ + sanitized(original);
                        let d = "embeddings"@;
                        (
                            out.push(
                                AssetView {
                                    kind: AssetKind::Embedding,
                                    entry: k - 1,
                                    dir: d,
                                    file_name: f,
                                    rel: d + "/"@ + f,
                                    original,
                                },
                            ),
                            img,
                            media,
                            embed + 1,
                        )
                    } else if is_image_ext_spec(ext) {
                        let f = "img-"@ + pad3(img + 1) + "."@ + ext;
                        let d = match kind {
                            OfficeKind::Flat => "images"@,
                            _ => match assoc_get(buckets, name) {
                                Some(b) => "images"@ + "/"@ + b,
                                None => "images"@,
                            },
                        };
                        (
                            out.push(
                                AssetView {
                                    kind: AssetKind::Image,
                                    entry: k - 1,
                                    dir: d,
                                    file_name: f,
                                    rel: d + "/"@ + f,
                                    original,
                                },
                            ),
                            img + 1,
                            media,
                            embed,
                        )
                    } else {
                        let f = "media-"@ + pad3(media + 1) + "."@ + ext;
                        let d = "media"@;
                        (
                            out.push(
                                AssetView {
                                    kind: AssetKind::Media,
                                    entry: k - 1,
                                    dir: d,
                                    file_name: f,
                                    rel: d + "/"@ + f,
                                    original,
                                },
                            ),
                            img,
                            media + 1,
                            embed,
                        )
                    }
                },
            }
        }
    }
}

/// Whether a package entry is pulled out as an asset (before looking at
/// its bytes).
pub fn is_asset_entry(name: &str) -> (r: bool)
    ensures
        r == is_asset_entry_spec(name@),
{
    let l = lower_chars(&chars_of(name));
    !has_suffix_exec(&l, &chars_of("/")) && (contains_exec(&l, &chars_of("/media/")) || contains_exec(
        &l,
        &chars_of("/embeddings/"),
    ) || contains_exec(&l, &chars_of("/oleobject")))
}

/// The views of a list of optional byte vectors.
pub open spec fn opt_bytes_view(v: Seq<Option<Vec<u8>>>) -> Seq<Option<Seq<u8>>> {
    Seq::new(
        v.len(),
        |i: int|
            match v[i] {
                Some(b) => Some(b@),
                None => None,
            },
    )
}

/// Joins `a`, `sep` and `b`.
fn join3(a: &str, sep: &str, b: &str) -> (r: String)
    ensures
        r@ == a@ + sep@ + b@,
{
    let mut s = String::new();
    push_str(&mut s, a);
    push_str(&mut s, sep);
    push_str(&mut s, b);
    s
}

/// Plans which package entries are written where; see [`asset_plan`].
/// `data[i]` holds the bytes of entry `names[i]` when it could be read (it
/// is only consulted for asset entries).  `image_counter` continues the
/// numbering of the images already saved and ends past the last one.
pub fn extract_zip_assets(
    names: &Vec<String>,
    data: &Vec<Option<Vec<u8>>>,
    buckets: &Vec<(String, String)>,
    kind: OfficeKind,
    image_counter: &mut u32,
) -> (r: Vec<ExtractedAsset>)
    requires
        names.len() == data.len(),
        names.len() + *old(image_counter) <= u32::MAX,
    ensures
        ({
            let (plan, img, _, _) = asset_plan(
                strs_view(names@),
                opt_bytes_view(data@),
                assoc_view_str(buckets@),
                kind,
                *old(image_counter) as nat,
                names@.len() as int,
            );
            &&& assets_view(r@) == plan
            &&& *final(image_counter) == img
        }),
{
    let ghost nv = strs_view(names@);
    let ghost dv = opt_bytes_view(data@);
    let ghost bv = assoc_view_str(buckets@);
    let ghost img0 = *image_counter as nat;
    let mut out: Vec<ExtractedAsset> = Vec::new();
    let mut media: u32 = 0;
    let mut embed: u32 = 0;
    let mut k: usize = 0;
    assert(assets_view(out@) =~= Seq::<AssetView>::empty());
    while k < names.len()
        invariant
            k <= names.len(),
            names.len() == data.len(),
            names.len() + img0 <= u32::MAX,
            nv == strs_view(names@),
            dv == opt_bytes_view(data@),
            bv == assoc_view_str(buckets@),
            ({
                let (plan, img, m, e) = asset_plan(nv, dv, bv, kind, img0, k as int);
                &&& assets_view(out@) == plan
                &&& *image_counter == img
                &&& media == m
                &&& embed == e
                &&& img + m + e <= img0 + k
            }),
        decreases names.len() - k,
    {
        let name = names[k].as_str();
        assert(nv[k as int] == name@);
        let ghost ov = assets_view(out@);
        let ghost st0 = asset_plan(nv, dv, bv, kind, img0, k as int);
        if is_asset_entry(name) {
            match &data[k] {
                None => {
                    assert(asset_plan(nv, dv, bv, kind, img0, k + 1) == st0);
                },
                Some(bytes) => {
                    assert(dv[k as int] == Some(bytes@));
                    if bytes.len() > 0 {
                        let original = match zip_file_name(name) {
                            Some(f) => f,
                            None => String::from_str(name),
                        };
                        let ext = match zip_extension(name) {
                            Some(e) => string_of(&lower_chars(&chars_of(e.as_str()))),
                            None => match sniff_extension(bytes.as_slice()) {
                                Some(e) => String::from_str(e),
                                None => String::from_str("bin"),
                            },
                        };
                        let l = lower_chars(&chars_of(name));
                        let is_embed = contains_exec(&l, &chars_of("/embeddings/")) || contains_exec(
                            &l,
                            &chars_of("/oleobject"),
                        );
                        assert(original@ == asset_original(name@));
                        assert(ext@ == asset_ext(name@, bytes@));
                        assert(is_embed == in_embed_dir(lower_seq(name@)));
                        if is_embed {
                            embed += 1;
                            let mut f = numbered("embed-", embed);
                            push_str(&mut f, "-");
                            let safe = sanitize_filename(original.as_str());
                            push_str(&mut f, safe.as_str());
                            let d = String::from_str("embeddings");
                            let rel = join3(d.as_str(), "/", f.as_str());
                            let a = ExtractedAsset {
                                kind: AssetKind::Embedding,
                                entry: k,
                                dir: d,
                                file_name: f,
                                rel,
                                original,
                            };
                            let ghost av = asset_view(a);
                            out.push(a);
                            assert(assets_view(out@) =~= ov.push(av));
                            assert(asset_plan(nv, dv, bv, kind, img0, k + 1) == (assets_view(out@), *image_counter as nat, media as nat, embed as nat));
                        } else if is_image_ext(ext.as_str()) {
                            *image_counter += 1;
                            let mut f = numbered("img-", *image_counter);
                            push_str(&mut f, ".");
                            push_str(&mut f, ext.as_str());
                            let d = match kind {
                                OfficeKind::Flat => String::from_str("images"),
                                _ => match assoc_lookup(buckets, name) {
                                    Some(b) => join3("images", "/", b.as_str()),
                                    None => String::from_str("images"),
                                },
                            };
                            let rel = join3(d.as_str(), "/", f.as_str());
                            let a = ExtractedAsset {
                                kind: AssetKind::Image,
                                entry: k,
                                dir: d,
                                file_name: f,
                                rel,
                                original,
                            };
                            let ghost av = asset_view(a);
                            out.push(a);
                            assert(assets_view(out@) =~= ov.push(av));
                            assert(asset_plan(nv, dv, bv, kind, img0, k + 1) == (assets_view(out@), *image_counter as nat, media as nat, embed as nat));
                        } else {
                            media += 1;
                            let mut f = numbered("media-", media);
                            push_str(&mut f, ".");
                            push_str(&mut f, ext.as_str());
                            let d = String::from_str("media");
                            let rel = join3(d.as_str(), "/", f.as_str());
                            let a = ExtractedAsset {
                                kind: AssetKind::Media,
                                entry: k,
                                dir: d,
                                file_name: f,
                                rel,
                                original,
                            };
                            let ghost av = asset_view(a);
                            out.push(a);
                            assert(assets_view(out@) =~= ov.push(av));
                            assert(asset_plan(nv, dv, bv, kind, img0, k + 1) == (assets_view(out@), *image_counter as nat, media as nat, embed as nat));
                        }
                    } else {
                        assert(asset_plan(nv, dv, bv, kind, img0, k + 1) == st0);
                    }
                },
            }
        } else {
            assert(asset_plan(nv, dv, bv, kind, img0, k + 1) == st0);
        }
        k += 1;
    }
    out
}

// ---------------------------------------------------------------------------
// Reading the package
// ---------------------------------------------------------------------------

/// What the `zip` crate reads from the bytes of a package: the names of its
/// entries in archive order and, for each, its bytes when they could be
/// read; none when the bytes are not a zip archive.
pub uninterp spec fn zip_entries_of(bytes: Seq<u8>) -> Option<(Seq<Seq<char>>, Seq<Option<Seq<u8>>>)>;

/// Reads every entry of a zip archive held in memory with
/// `zip::ZipArchive` (entries whose header or name cannot be read are left
/// out; an entry whose data cannot be read has none).  What it reads is
/// named by [`zip_entries_of`]; the error is the crate's message.
#[verifier::external_body]
fn read_zip_entries(bytes: &[u8]) -> (r: Result<(Vec<String>, Vec<Option<Vec<u8>>>), String>)
    ensures
        match r {
            Ok((n, d)) => n.len() == d.len() && zip_entries_of(bytes@) == Some((strs_view(n@), opt_bytes_view(d@))),
            Err(_) => zip_entries_of(bytes@) is None,
        },
{
    let mut zip = zip::ZipArchive::new(std::io::Cursor::new(bytes)).map_err(|e| e.to_string())?;
    let (mut names, mut data) = (Vec::new(), Vec::new());
    for i in 0..zip.len() {
        let Ok(mut f) = zip.by_index(i) else { continue };
        let Ok(name) = f.name().map(|n| n.to_string()) else { continue };
        let mut buf = Vec::new();
        data.push(std::io::Read::read_to_end(&mut f, &mut buf).ok().map(|_| buf));
        names.push(name);
    }
    Ok((names, data))
}

/// The texts of entries that are valid UTF-8.
pub open spec fn utf8_texts(d: Seq<Option<Seq<u8>>>) -> Seq<Option<Seq<char>>> {
    Seq::new(
        d.len(),
        |i: int|
            match d[i] {
                Some(b) => if vstd::utf8::valid_utf8(b) {
                    Some(vstd::utf8::decode_utf8(b))
                } else {
                    None
                },
                None => None,
            },
    )
}

/// The assets of a package and the bytes of its entries (indexed as the
/// assets' `entry` fields).
#[derive(Debug)]
pub struct PackageAssets {
    pub assets: Vec<ExtractedAsset>,
    pub data: Vec<Option<Vec<u8>>>,
}

/// Reads an OOXML package from its bytes and plans its assets: the media
/// buckets come from its `.rels` manifests, then every media file and
/// embedded object is planned as [`asset_plan`] says, continuing the image
/// numbering from `image_counter`.  Bytes that are not a zip archive give
/// the `Zip` error; so does a package with more entries than image numbers
/// are left.
pub fn package_assets(bytes: &[u8], kind: OfficeKind, image_counter: &mut u32) -> (r: Result<
    PackageAssets,
    ParseError,
>)
    ensures
        match zip_entries_of(bytes@) {
            None => r matches Err(ParseError::Zip(_)) && *final(image_counter) == *old(image_counter),
            Some((names, data)) => if names.len() + *old(image_counter) > u32::MAX {
                r matches Err(ParseError::Zip(_)) && *final(image_counter) == *old(image_counter)
            } else {
                r matches Ok(p) && opt_bytes_view(p.data@) == data && {
                    let (plan, img, _, _) = asset_plan(
                        names,
                        data,
                        media_buckets_spec(names, utf8_texts(data), kind),
                        kind,
                        *old(image_counter) as nat,
                        names.len() as int,
                    );
                    &&& assets_view(p.assets@) == plan
                    &&& *final(image_counter) == img
                }
            },
        },
{
    let (names, data) = match read_zip_entries(bytes) {
        Ok(e) => e,
        Err(m) => return Err(ParseError::Zip(m)),
    };
    if names.len() as u64 > 0xffff_ffffu64 - *image_counter as u64 {
        return Err(ParseError::Zip(String::from_str("too many entries in the package")));
    }
    let ghost dv = opt_bytes_view(data@);
    let mut texts: Vec<Option<String>> = Vec::new();
    let mut i: usize = 0;
    while i < data.len()
        invariant
            i <= data.len(),
            dv == opt_bytes_view(data@),
            texts.len() == i,
            opt_strs_view(texts@) == utf8_texts(dv).take(i as int),
        decreases data.len() - i,
    {
        let t = match &data[i] {
            Some(b) => {
                assert(dv[i as int] == Some(b@));
                utf8_decode(b.as_slice())
            },
            None => {
                assert(dv[i as int] is None);
                None
            },
        };
        assert(match t {
            Some(x) => Some(x@),
            None => None,
        } == utf8_texts(dv)[i as int]);
        texts.push(t);
        assert(opt_strs_view(texts@) =~= utf8_texts(dv).take(i + 1));
        i += 1;
    }
    assert(utf8_texts(dv).take(data.len() as int) =~= utf8_texts(dv));
    let buckets = build_zip_media_buckets(&names, &texts, kind);
    let assets = extract_zip_assets(&names, &data, &buckets, kind, image_counter);
    Ok(PackageAssets { assets, data })
}

// ---------------------------------------------------------------------------
// Index pages, chunk files and section images
// ---------------------------------------------------------------------------

/// The listing lines of the assets of one kind: `![](rel)` plus a blank
/// line for images, `- [original](rel)` for the others.
pub open spec fn asset_lines(assets: Seq<AssetView>, kind: AssetKind) -> Seq<char>
    decreases assets.len(),
{
    if assets.len() == 0 {
        Seq::empty()
    } else {
        let rest = asset_lines(assets.drop_last(), kind);
        let a = assets.last();
        if a.kind != kind {
            rest
        } else if kind == AssetKind::Image {
            rest + "![]("@ + a.rel + ")\n\n"@
        } else {
            rest + "- ["@ + a.original + "]("@ + a.rel + ")\n"@
        }
    }
}

/// Whether some asset is of the given kind.
pub open spec fn has_kind(assets: Seq<AssetView>, kind: AssetKind) -> bool {
    exists|i: int| 0 <= i < assets.len() && (#[trigger] assets[i]).kind == kind
}

/// The index pages written after the section files: `images.md`,
/// `media.md` and `embeddings.md`, each only when there is an asset of its
/// kind.
pub open spec fn asset_index_spec(assets: Seq<AssetView>) -> Seq<(Seq<char>, Seq<char>)> {
    let a = if has_kind(assets, AssetKind::Image) {
        seq![("images.md"@, "# Embedded images\n\n"@ + asset_lines(assets, AssetKind::Image))]
    } else {
        Seq::empty()
    };
    let b = if has_kind(assets, AssetKind::Media) {
        seq![
            (
                "media.md"@,
                "# Embedded media (audio/video/other)\n\n"@ + asset_lines(assets, AssetKind::Media),
            ),
        ]
    } else {
        Seq::empty()
    };
    let c = if has_kind(assets, AssetKind::Embedding) {
        seq![
            (
                "embeddings.md"@,
                "# Embedded objects\n\n"@ + asset_lines(assets, AssetKind::Embedding),
            ),
        ]
    } else {
        Seq::empty()
    };
    a + b + c
}

/// The (name, content) views of output files.
pub open spec fn files_view(v: Seq<OutputFile>) -> Seq<(Seq<char>, Seq<char>)> {
    Seq::new(v.len(), |i: int| (v[i].name@, v[i].content@))
}

/// Appends the listing of the assets of one kind; tells whether there was one.
fn push_asset_lines(md: &mut String, assets: &Vec<ExtractedAsset>, kind: AssetKind) -> (found: bool)
    ensures
        final(md)@ == old(md)@ + asset_lines(assets_view(assets@), kind),
        found == has_kind(assets_view(assets@), kind),
{
    let ghost av = assets_view(assets@);
    let ghost m0 = md@;
    let mut found = false;
    let mut i: usize = 0;
    while i < assets.len()
        invariant
            i <= assets.len(),
            av == assets_view(assets@),
            md@ == m0 + asset_lines(av.take(i as int), kind),
            found == exists|j: int| 0 <= j < i && (#[trigger] av[j]).kind == kind,
        decreases assets.len() - i,
    {
        assert(av.take(i + 1).drop_last() =~= av.take(i as int));
        let a = &assets[i];
        assert(av[i as int] == asset_view(*a));
        if a.kind == kind {
            found = true;
            if kind == AssetKind::Image {
                push_str(md, "![](");
                push_str(md, a.rel.as_str());
                push_str(md, ")\n\n");
            } else {
                push_str(md, "- [");
                push_str(md, a.original.as_str());
                push_str(md, "](");
                push_str(md, a.rel.as_str());
                push_str(md, ")\n");
            }
        }
        i += 1;
    }
    assert(av.take(assets.len() as int) =~= av);
    found
}

/// The index pages for the assets; see [`asset_index_spec`].
pub fn asset_index_files(assets: &Vec<ExtractedAsset>) -> (r: Vec<OutputFile>)
    ensures
        files_view(r@) == asset_index_spec(assets_view(assets@)),
{
    let mut out: Vec<OutputFile> = Vec::new();
    let mut img = String::from_str("# Embedded images\n\n");
    if push_asset_lines(&mut img, assets, AssetKind::Image) {
        out.push(OutputFile { name: String::from_str("images.md"), content: img });
    }
    let ghost v1 = files_view(out@);
    let mut media = String::from_str("# Embedded media (audio/video/other)\n\n");
    if push_asset_lines(&mut media, assets, AssetKind::Media) {
        out.push(OutputFile { name: String::from_str("media.md"), content: media });
    }
    let ghost v2 = files_view(out@);
    let mut emb = String::from_str("# Embedded objects\n\n");
    if push_asset_lines(&mut emb, assets, AssetKind::Embedding) {
        out.push(OutputFile { name: String::from_str("embeddings.md"), content: emb });
    }
    assert(files_view(out@) =~= asset_index_spec(assets_view(assets@)));
    out
}

/// `-<slug>` for a title that sanitises to something, empty otherwise.
pub open spec fn title_slug(title: Option<Seq<char>>) -> Seq<char> {
    match title {
        Some(t) => if sanitized(t).len() != 0 {
            "-"@ + sanitized(t)
        } else {
            Seq::empty()
        },
        None => Seq::empty(),
    }
}

/// The file name (without `.md`) of chunk `j` of section `i`.  A document
/// with several sections prefixes every chunk with its section
/// (`section-NNN[-title]-`); a chunk written whole is named after the
/// section itself.
pub open spec fn chunk_name_spec(
    single_section: bool,
    i: nat,
    title: Option<Seq<char>>,
    label: LabelView,
    j: nat,
) -> Seq<char> {
    let prefix = if single_section {
        Seq::empty()
    } else {
        "section-"@ + pad3(i + 1) + title_slug(title) + "-"@
    };
    match label {
        LabelView::Single => if single_section {
            "section-001"@ + title_slug(title)
        } else {
            "section-"@ + pad3(i + 1) + title_slug(title)
        },
        LabelView::Page => prefix + "page-"@ + pad3(j + 1),
        LabelView::Chapter(t) => {
            let slug = sanitized(t);
            prefix + "chapter-"@ + pad3(j + 1) + if slug.len() == 0 {
                Seq::empty()
            } else {
                "-"@ + slug
            }
        },
    }
}

/// Appends the title slug of a section.
fn push_title_slug(s: &mut String, title: Option<&str>)
    ensures
        final(s)@ == old(s)@ + title_slug(
            match title {
                Some(t) => Some(t@),
                None => None,
            },
        ),
{
    match title {
        Some(t) => {
            let slug = sanitize_filename(t);
            if chars_of(slug.as_str()).len() != 0 {
                push_str(s, "-");
                push_str(s, slug.as_str());
            }
        },
        None => {},
    }
}

/// The Markdown file name for chunk `j` of section `i`; see [`chunk_name_spec`].
pub fn chunk_file_name(single_section: bool, i: usize, title: Option<&str>, label: &ChunkLabel, j: usize) -> (r: String)
    requires
        i < u64::MAX,
        j < u64::MAX,
    ensures
        r@ == chunk_name_spec(
            single_section,
            i as nat,
            match title {
                Some(t) => Some(t@),
                None => None,
            },
            label_view(*label),
            j as nat,
        ) + ".md"@,
{
    let mut s = String::new();
    match label {
        ChunkLabel::Single => {
            if single_section {
                push_str(&mut s, "section-001");
            } else {
                push_str(&mut s, "section-");
                push_pad3(&mut s, (i as u64) + 1);
            }
            push_title_slug(&mut s, title);
        },
        ChunkLabel::Page => {
            if !single_section {
                push_str(&mut s, "section-");
                push_pad3(&mut s, (i as u64) + 1);
                push_title_slug(&mut s, title);
                push_str(&mut s, "-");
            }
            push_str(&mut s, "page-");
            push_pad3(&mut s, (j as u64) + 1);
        },
        ChunkLabel::Chapter(t) => {
            if !single_section {
                push_str(&mut s, "section-");
                push_pad3(&mut s, (i as u64) + 1);
                push_title_slug(&mut s, title);
                push_str(&mut s, "-");
            }
            push_str(&mut s, "chapter-");
            push_pad3(&mut s, (j as u64) + 1);
            let slug = sanitize_filename(t.as_str());
            if chars_of(slug.as_str()).len() != 0 {
                push_str(&mut s, "-");
                push_str(&mut s, slug.as_str());
            }
        },
    }
    push_str(&mut s, ".md");
    s
}

/// The title given to chunk `j`: its own title, falling back to the
/// section's title for the first chunk.
pub open spec fn chunk_title_spec(j: nat, own: Option<Seq<char>>, section: Option<Seq<char>>) -> Option<
    Seq<char>,
> {
    if j == 0 {
        match own {
            Some(t) => Some(t),
            None => section,
        }
    } else {
        own
    }
}

/// The title given to chunk `j`; see [`chunk_title_spec`].
pub fn chunk_title(j: usize, own: Option<&str>, section: Option<&str>) -> (r: Option<String>)
    ensures
        match r {
            Some(t) => chunk_title_spec(
                j as nat,
                match own {
                    Some(x) => Some(x@),
                    None => None,
                },
                match section {
                    Some(x) => Some(x@),
                    None => None,
                },
            ) == Some(t@),
            None => chunk_title_spec(
                j as nat,
                match own {
                    Some(x) => Some(x@),
                    None => None,
                },
                match section {
                    Some(x) => Some(x@),
                    None => None,
                },
            ) is None,
        },
{
    match own {
        Some(t) => Some(String::from_str(t)),
        None => if j == 0 {
            match section {
                Some(t) => Some(String::from_str(t)),
                None => None,
            }
        } else {
            None
        },
    }
}

/// One Markdown file to write for a chunk of a section.
#[derive(Debug)]
pub struct ChunkFile {
    /// File name in the output folder.
    pub name: String,
    /// Title of the chunk's section as rendered.
    pub title: Option<String>,
    /// Whether the chunk is the section's last (which lists its images).
    pub last: bool,
}

/// Optional text as a sequence.
pub open spec fn opt_view(t: Option<&str>) -> Option<Seq<char>> {
    match t {
        Some(x) => Some(x@),
        None => None,
    }
}

/// The file for chunk `j` of section `i`.
pub open spec fn chunk_file_ok(
    f: ChunkFile,
    single_section: bool,
    i: nat,
    title: Option<Seq<char>>,
    c: Chunk,
    j: nat,
    n: nat,
) -> bool {
    &&& f.name@ == chunk_name_spec(single_section, i, title, label_view(c.label), j) + ".md"@
    &&& match f.title {
        Some(t) => chunk_title_spec(j, chunk_view(c).title, title) == Some(t@),
        None => chunk_title_spec(j, chunk_view(c).title, title) is None,
    }
    &&& f.last == (j + 1 == n)
}

/// Plans the Markdown files of section `i`: one per chunk, in order, named
/// by [`chunk_name_spec`], titled by [`chunk_title_spec`], the last one
/// marked.
pub fn chunk_files(single_section: bool, i: usize, title: Option<&str>, chunks: &Vec<Chunk>) -> (r: Vec<ChunkFile>)
    requires
        i < u64::MAX,
        chunks.len() < u64::MAX,
    ensures
        r.len() == chunks.len(),
        forall|j: int|
            0 <= j < r.len() ==> chunk_file_ok(
                #[trigger] r@[j],
                single_section,
                i as nat,
                opt_view(title),
                chunks@[j],
                j as nat,
                chunks.len() as nat,
            ),
{
    let mut out: Vec<ChunkFile> = Vec::new();
    let mut j: usize = 0;
    while j < chunks.len()
        invariant
            j <= chunks.len() < u64::MAX,
            i < u64::MAX,
            out.len() == j,
            forall|q: int|
                0 <= q < j ==> chunk_file_ok(
                    #[trigger] out@[q],
                    single_section,
                    i as nat,
                    opt_view(title),
                    chunks@[q],
                    q as nat,
                    chunks.len() as nat,
                ),
        decreases chunks.len() - j,
    {
        let c = &chunks[j];
        let own: Option<&str> = match &c.title_override {
            Some(t) => Some(t.as_str()),
            None => None,
        };
        let f = ChunkFile {
            name: chunk_file_name(single_section, i, title, &c.label, j),
            title: chunk_title(j, own, title),
            last: j + 1 == chunks.len(),
        };
        assert(chunk_file_ok(f, single_section, i as nat, opt_view(title), chunks@[j as int], j as nat, chunks.len() as nat));
        out.push(f);
        j += 1;
    }
    out
}

/// A chunk's rendered Markdown made to end with a newline; the last chunk
/// of a section that saved images gets an `## Extracted images` list.
pub open spec fn finished_chunk(md: Seq<char>, last: bool, saved: Seq<Seq<char>>) -> Seq<char> {
    let m = if md.len() > 0 && md.last() == '\n' {
        md
    } else {
        md.push('\n')
    };
    if last && saved.len() > 0 {
        m + "\n## Extracted images\n\n"@ + image_links(saved)
    } else {
        m
    }
}

/// `![](rel)` lines for saved images.
pub open spec fn image_links(saved: Seq<Seq<char>>) -> Seq<char>
    decreases saved.len(),
{
    if saved.len() == 0 {
        Seq::empty()
    } else {
        image_links(saved.drop_last()) + "![]("@ + saved.last() + ")\n"@
    }
}

/// Finishes a chunk's Markdown; see [`finished_chunk`].
pub fn finish_chunk_markdown(md: &str, last: bool, saved: &Vec<String>) -> (r: String)
    ensures
        r@ == finished_chunk(md@, last, strs_view(saved@)),
{
    let cs = chars_of(md);
    let mut out = string_of(&cs);
    if !(cs.len() > 0 && cs[cs.len() - 1] == '\n') {
        push_char(&mut out, '\n');
    }
    if last && saved.len() > 0 {
        push_str(&mut out, "\n## Extracted images\n\n");
        let ghost sv = strs_view(saved@);
        let ghost o0 = out@;
        let mut i: usize = 0;
        while i < saved.len()
            invariant
                i <= saved.len(),
                sv == strs_view(saved@),
                out@ == o0 + image_links(sv.take(i as int)),
            decreases saved.len() - i,
        {
            assert(sv.take(i + 1).drop_last() =~= sv.take(i as int));
            assert(sv.take(i + 1).last() == saved@[i as int]@);
            push_str(&mut out, "![](");
            push_str(&mut out, saved[i].as_str());
            push_str(&mut out, ")\n");
            i += 1;
        }
        assert(sv.take(saved.len() as int) =~= sv);
    }
    out
}

/// Where an image found in a section is saved.
#[derive(Debug)]
pub struct ImageTarget {
    /// Subdirectory of `images/` (the section's bucket), if any.
    pub bucket: Option<String>,
    /// File name inside that directory.
    pub file_name: String,
    /// Path relative to the output folder.
    pub rel: String,
}

/// The file name of image number `n` with extension `ext`.
pub open spec fn image_file_name(n: nat, ext: Seq<char>) -> Seq<char> {
    "img-"@ + pad3(n) + "."@ + ext
}

/// Decides where a section image is saved: the next image number, the
/// extension of its declared format (else recognised from the bytes, else
/// `bin`), inside the section's bucket when there is one.  Empty images are
/// not saved; then the counter is unchanged.
pub fn image_target(bucket: Option<&str>, counter: &mut u32, format_ext: Option<&str>, bytes: &[u8]) -> (r: Option<ImageTarget>)
    requires
        *old(counter) < u32::MAX,
    ensures
        bytes@.len() == 0 ==> r is None && *final(counter) == *old(counter),
        bytes@.len() > 0 ==> *final(counter) == *old(counter) + 1 && (r matches Some(t) && {
            let ext = match format_ext {
                Some(e) => e@,
                None => match sniffed_ext(bytes@) {
                    Some(e) => e,
                    None => "bin"@,
                },
            };
            let f = image_file_name(*final(counter) as nat, ext);
            &&& t.file_name@ == f
            &&& match bucket {
                Some(b) => t.bucket matches Some(tb) && tb@ == b@ && t.rel@ == "images/"@ + b@ + "/"@ + f,
                None => t.bucket is None && t.rel@ == "images/"@ + f,
            }
        }),
{
    if bytes.len() == 0 {
        return None;
    }
    *counter += 1;
    let ext = match format_ext {
        Some(e) => String::from_str(e),
        None => match sniff_extension(bytes) {
            Some(e) => String::from_str(e),
            None => String::from_str("bin"),
        },
    };
    let mut f = numbered("img-", *counter);
    push_str(&mut f, ".");
    push_str(&mut f, ext.as_str());
    match bucket {
        Some(b) => {
            let mut rel = String::from_str("images/");
            push_str(&mut rel, b);
            push_str(&mut rel, "/");
            push_str(&mut rel, f.as_str());
            Some(ImageTarget { bucket: Some(String::from_str(b)), file_name: f, rel })
        },
        None => {
            let rel = join3("images/", "", f.as_str());
            assert(""@.len() == 0) by {
                reveal_strlit("");
            }
            assert(rel@ =~= "images/"@ + f@);
            Some(ImageTarget { bucket: None, file_name: f, rel })
        },
    }
}

// ---------------------------------------------------------------------------
// Laws of splitting
// ---------------------------------------------------------------------------

/// All element indices of the chunks, in chunk order.
pub open spec fn chunk_elements(cs: Seq<ChunkView>) -> Seq<usize>
    decreases cs.len(),
{
    if cs.len() == 0 {
        Seq::empty()
    } else {
        chunk_elements(cs.drop_last()) + cs.last().elements
    }
}

/// The concatenation of index groups.
pub open spec fn flatten_groups(gs: Seq<Seq<usize>>) -> Seq<usize>
    decreases gs.len(),
{
    if gs.len() == 0 {
        Seq::empty()
    } else {
        flatten_groups(gs.drop_last()) + gs.last()
    }
}

/// The indices `0 .. k` of the elements that are not page boundaries.
pub open spec fn content_indices(elems: Seq<ElementInfo>, k: int) -> Seq<usize>
    decreases k,
{
    if k <= 0 {
        Seq::empty()
    } else {
        content_indices(elems, k - 1) + if is_break(elems[k - 1]) {
            Seq::<usize>::empty()
        } else {
            seq![(k - 1) as usize]
        }
    }
}

/// The indices `0 .. n`.
pub open spec fn all_indices(n: int) -> Seq<usize> {
    Seq::new(n as nat, |j: int| j as usize)
}

proof fn lemma_page_state(elems: Seq<ElementInfo>, k: int)
    requires
        0 <= k <= elems.len() <= usize::MAX,
    ensures
        flatten_groups(page_state(elems, k).0) + page_state(elems, k).1 == content_indices(elems, k),
        forall|i: int| 0 <= i < page_state(elems, k).0.len() ==> #[trigger] page_state(elems, k).0[i].len() > 0,
    decreases k,
{
    if k > 0 {
        lemma_page_state(elems, k - 1);
        let (d, c) = page_state(elems, k - 1);
        if is_break(elems[k - 1]) {
            if c.len() > 0 {
                assert(d.push(c).drop_last() =~= d);
                assert(flatten_groups(d.push(c)) + Seq::<usize>::empty() =~= flatten_groups(d) + c);
            }
            assert(content_indices(elems, k) =~= content_indices(elems, k - 1));
        } else {
            assert(flatten_groups(d) + c.push((k - 1) as usize) =~= (flatten_groups(d) + c) + seq![(k - 1) as usize]);
        }
    }
}

proof fn lemma_chapter_state(elems: Seq<ElementInfo>, k: int)
    requires
        0 <= k <= elems.len() <= usize::MAX,
    ensures
        flatten_groups(Seq::new(chapter_state(elems, k).0.len(), |i: int| chapter_state(elems, k).0[i].1))
            + chapter_state(elems, k).1 == all_indices(k),
        forall|i: int| 0 <= i < chapter_state(elems, k).0.len() ==> #[trigger] chapter_state(elems, k).0[i].1.len() > 0,
    decreases k,
{
    if k > 0 {
        lemma_chapter_state(elems, k - 1);
        let (d, c, t) = chapter_state(elems, k - 1);
        let g = Seq::new(d.len(), |i: int| d[i].1);
        let e = elems[k - 1];
        if is_h1(e) && c.len() > 0 {
            let d2 = d.push((t, c));
            let g2 = Seq::new(d2.len(), |i: int| d2[i].1);
            assert(g2.drop_last() =~= g);
            assert(flatten_groups(g2) == flatten_groups(g) + c);
            assert(flatten_groups(g2) + seq![(k - 1) as usize] =~= all_indices(k));
        } else {
            assert(flatten_groups(g) + c.push((k - 1) as usize) =~= (flatten_groups(g) + c).push(
                (k - 1) as usize,
            ));
            assert(all_indices(k - 1).push((k - 1) as usize) =~= all_indices(k));
        }
    } else {
        let g = Seq::new(chapter_state(elems, k).0.len(), |i: int| chapter_state(elems, k).0[i].1);
        assert(g =~= Seq::<Seq<usize>>::empty());
        assert(all_indices(0) =~= Seq::<usize>::empty());
    }
}

proof fn lemma_fixed_groups(n: nat, i: int)
    requires
        0 <= i <= fixed_groups(n).len(),
        n <= usize::MAX,
    ensures
        flatten_groups(fixed_groups(n).take(i)) == all_indices(
            if 200 * i < n {
                200 * i
            } else {
                n as int
            },
        ),
        forall|q: int| 0 <= q < fixed_groups(n).len() ==> #[trigger] fixed_groups(n)[q].len() > 0,
    decreases i,
{
    let f = fixed_groups(n);
    assert forall|q: int| 0 <= q < f.len() implies #[trigger] f[q].len() > 0 by {
        assert(200 * q < n) by (nonlinear_arith)
            requires
                0 <= q < n / 200 + if n % 200 == 0 {
                    0int
                } else {
                    1int
                },
        ;
    }
    if i == 0 {
        assert(f.take(0) =~= Seq::<Seq<usize>>::empty());
        assert(all_indices(0) =~= Seq::<usize>::empty());
    } else {
        lemma_fixed_groups(n, i - 1);
        assert(f.take(i).drop_last() =~= f.take(i - 1));
        assert(200 * (i - 1) < n) by (nonlinear_arith)
            requires
                0 <= i - 1 < n / 200 + if n % 200 == 0 {
                    0int
                } else {
                    1int
                },
        ;
        let lo = 200 * (i - 1);
        let hi = if 200 * i < n {
            200 * i
        } else {
            n as int
        };
        assert(flatten_groups(f.take(i)) =~= all_indices(lo) + f[i - 1]);
        assert(all_indices(lo) + f[i - 1] =~= all_indices(hi));
    }
}

/// Splitting loses nothing and repeats nothing: the chunks hold, in order,
/// every element of the section except the page boundaries when the
/// section is cut at page boundaries, and every element otherwise; no chunk
/// of a non-empty section is empty.
pub proof fn lemma_split_preserves_content(elems: Seq<ElementInfo>)
    requires
        elems.len() <= usize::MAX,
    ensures
        ({
            let cs = split_spec(elems);
            let pages = page_groups(elems);
            let by_pages = (exists|i: int| 0 <= i < elems.len() && is_break(#[trigger] elems[i]))
                && pages.len() >= 2;
            &&& by_pages ==> chunk_elements(cs) == content_indices(elems, elems.len() as int)
            &&& !by_pages ==> chunk_elements(cs) == all_indices(elems.len() as int)
            &&& elems.len() > 0 ==> forall|i: int| 0 <= i < cs.len() ==> (#[trigger] cs[i]).elements.len() > 0
        }),
{
    let cs = split_spec(elems);
    let n = elems.len() as int;
    let pages = page_groups(elems);
    let by_pages = (exists|i: int| 0 <= i < elems.len() && is_break(#[trigger] elems[i]))
        && pages.len() >= 2;
    if by_pages {
        lemma_page_state(elems, n);
        lemma_chunk_elements_groups(pages, LabelView::Page);
        let (d, c) = page_state(elems, n);
        if c.len() > 0 {
            assert(d.push(c).drop_last() =~= d);
        } else {
            assert(flatten_groups(d) + c =~= flatten_groups(d));
        }
    } else if h1_count(elems, n) >= 2 {
        lemma_chapter_state(elems, n);
        let ch = chapter_groups(elems);
        let g = Seq::new(ch.len(), |i: int| ch[i].1);
        lemma_chunk_elements_chapters(ch);
        let (d, c, t) = chapter_state(elems, n);
        let gd = Seq::new(d.len(), |i: int| d[i].1);
        if c.len() > 0 {
            assert(g.drop_last() =~= gd);
        } else {
            assert(g =~= gd);
            assert(flatten_groups(gd) + c =~= flatten_groups(gd));
        }
    } else if elems.len() > MAX_ELEMENTS_PER_CHUNK {
        let f = fixed_groups(elems.len());
        lemma_fixed_groups(elems.len(), f.len() as int);
        lemma_chunk_elements_groups(f, LabelView::Page);
        assert(f.take(f.len() as int) =~= f);
        assert(200 * f.len() >= n) by (nonlinear_arith)
            requires
                f.len() == n / 200 + if n % 200 == 0 {
                    0int
                } else {
                    1int
                },
                n >= 0,
        ;
    } else {
        let only = cs[0];
        assert(cs.len() == 1);
        assert(cs.drop_last() =~= Seq::<ChunkView>::empty());
        assert(chunk_elements(cs.drop_last()) =~= Seq::<usize>::empty());
        assert(chunk_elements(cs) == chunk_elements(cs.drop_last()) + cs.last().elements);
        assert(chunk_elements(cs) =~= only.elements);
    }
}

/// The chunk elements of chunks made from groups are the groups' concatenation.
proof fn lemma_chunk_elements_groups(gs: Seq<Seq<usize>>, label: LabelView)
    ensures
        chunk_elements(
            Seq::new(gs.len(), |i: int| ChunkView { label: LabelView::Page, title: None, elements: gs[i] }),
        ) == flatten_groups(gs),
    decreases gs.len(),
{
    let cs = Seq::new(gs.len(), |i: int| ChunkView { label: LabelView::Page, title: None, elements: gs[i] });
    if gs.len() > 0 {
        lemma_chunk_elements_groups(gs.drop_last(), label);
        assert(cs.drop_last() =~= Seq::new(
            gs.drop_last().len(),
            |i: int| ChunkView { label: LabelView::Page, title: None, elements: gs.drop_last()[i] },
        ));
    }
}

/// The chunk elements of chapter chunks are the chapters' concatenation.
proof fn lemma_chunk_elements_chapters(ch: Seq<(Option<Seq<char>>, Seq<usize>)>)
    ensures
        chunk_elements(
            Seq::new(
                ch.len(),
                |i: int|
                    ChunkView {
                        label: LabelView::Chapter(
                            match ch[i].0 {
                                Some(t) => t,
                                None => Seq::empty(),
                            },
                        ),
                        title: ch[i].0,
                        elements: ch[i].1,
                    },
            ),
        ) == flatten_groups(Seq::new(ch.len(), |i: int| ch[i].1)),
    decreases ch.len(),
{
    if ch.len() > 0 {
        lemma_chunk_elements_chapters(ch.drop_last());
        let cs = Seq::new(
            ch.len(),
            |i: int|
                ChunkView {
                    label: LabelView::Chapter(
                        match ch[i].0 {
                            Some(t) => t,
                            None => Seq::empty(),
                        },
                    ),
                    title: ch[i].0,
                    elements: ch[i].1,
                },
        );
        let d = ch.drop_last();
        assert(cs.drop_last() =~= Seq::new(
            d.len(),
            |i: int|
                ChunkView {
                    label: LabelView::Chapter(
                        match d[i].0 {
                            Some(t) => t,
                            None => Seq::empty(),
                        },
                    ),
                    title: d[i].0,
                    elements: d[i].1,
                },
        ));
        assert(Seq::new(ch.len(), |i: int| ch[i].1).drop_last() =~= Seq::new(d.len(), |i: int| d[i].1));
    }
}

// ---------------------------------------------------------------------------
// Laws of numbered names
// ---------------------------------------------------------------------------

proof fn lemma_decimal_digits(n: nat)
    ensures
        decimal(n).len() > 0,
        forall|i: int| 0 <= i < decimal(n).len() ==> is_digit(#[trigger] decimal(n)[i]),
        digits_value(decimal(n)) == n,
    decreases n,
{
    if n < 10 {
        let c = digit_char(n as int);
        assert(c as u32 == 48 + n);
        assert(seq![c].drop_last() =~= Seq::<char>::empty());
        assert(digits_value(seq![c]) == digits_value(Seq::<char>::empty()) * 10 + ((c as u32) - 48) as nat);
    } else {
        lemma_decimal_digits(n / 10);
        let d = decimal(n);
        let c = digit_char((n % 10) as int);
        assert(c as u32 == 48 + n % 10);
        assert(d.drop_last() =~= decimal(n / 10));
        assert(d.last() == c);
        assert(digits_value(d) == digits_value(decimal(n / 10)) * 10 + ((c as u32) - 48) as nat);
        assert((n / 10) * 10 + n % 10 == n);
        assert forall|i: int| 0 <= i < d.len() implies is_digit(#[trigger] d[i]) by {
            if i < d.len() - 1 {
                assert(d[i] == decimal(n / 10)[i]);
            }
        }
    }
}

proof fn lemma_zero_prefix_value(z: Seq<char>, d: Seq<char>)
    requires
        forall|i: int| 0 <= i < z.len() ==> #[trigger] z[i] == '0',
    ensures
        digits_value(z + d) == digits_value(d),
    decreases d.len() + z.len(),
{
    if d.len() > 0 {
        lemma_zero_prefix_value(z, d.drop_last());
        assert((z + d).drop_last() =~= z + d.drop_last());
    } else if z.len() > 0 {
        lemma_zero_prefix_value(z.drop_last(), d);
        assert((z + d).drop_last() =~= z.drop_last() + d);
        assert(('0' as u32) == 48);
    } else {
        assert(z + d =~= Seq::<char>::empty());
    }
}

/// A numbered name is read back: the number following `prefix` in
/// `prefix` + the decimal digits of `n` (plain, or zero-padded to three
/// digits as in `slide-NNN`) is `n`.
pub proof fn lemma_numeric_suffix_roundtrip(prefix: Seq<char>, n: u32)
    ensures
        numeric_suffix_spec(prefix + decimal(n as nat), prefix) == Some(n),
        numeric_suffix_spec(prefix + pad3(n as nat), prefix) == Some(n),
{
    lemma_decimal_digits(n as nat);
    let d = decimal(n as nat);
    assert((prefix + d).subrange(0, prefix.len() as int) =~= prefix);
    assert((prefix + d).skip(prefix.len() as int) =~= d);
    assert(is_digit(d[0]));
    assert(unsigned_digits(d) == d);
    let p = pad3(n as nat);
    let z = Seq::new((3 - d.len()) as nat, |i: int| '0');
    if d.len() < 3 {
        assert(p == z + d);
        lemma_zero_prefix_value(z, d);
        assert forall|i: int| 0 <= i < p.len() implies is_digit(#[trigger] p[i]) by {
            if i >= z.len() {
                assert(p[i] == d[i - z.len()]);
            } else {
                assert(p[i] == '0');
                assert(('0' as u32) == 48);
            }
        }
        assert(is_digit(p[0]));
        assert(('+' as u32) == 43);
    }
    assert((prefix + p).subrange(0, prefix.len() as int) =~= prefix);
    assert((prefix + p).skip(prefix.len() as int) =~= p);
    assert(is_digit(p[0]));
    assert(unsigned_digits(p) == p);
}

/// The zero-padded rendering of `n` is a non-empty run of digits whose
/// value is `n`.
proof fn lemma_pad3_digits(n: nat)
    ensures
        pad3(n).len() > 0,
        forall|i: int| 0 <= i < pad3(n).len() ==> is_digit(#[trigger] pad3(n)[i]),
        digits_value(pad3(n)) == n,
{
    lemma_decimal_digits(n);
    let d = decimal(n);
    if d.len() < 3 {
        let z = Seq::new((3 - d.len()) as nat, |i: int| '0');
        assert(pad3(n) == z + d);
        lemma_zero_prefix_value(z, d);
        assert forall|i: int| 0 <= i < pad3(n).len() implies is_digit(#[trigger] pad3(n)[i]) by {
            if i >= z.len() {
                assert(pad3(n)[i] == d[i - z.len()]);
            } else {
                assert(pad3(n)[i] == '0');
                assert(('0' as u32) == 48);
            }
        }
    }
}

/// A run of digits followed by a tail that is empty or starts with a
/// non-digit is read back unambiguously.
proof fn lemma_digit_run(d1: Seq<char>, t1: Seq<char>, d2: Seq<char>, t2: Seq<char>)
    requires
        forall|i: int| 0 <= i < d1.len() ==> is_digit(#[trigger] d1[i]),
        forall|i: int| 0 <= i < d2.len() ==> is_digit(#[trigger] d2[i]),
        t1.len() == 0 || !is_digit(t1[0]),
        t2.len() == 0 || !is_digit(t2[0]),
        d1 + t1 == d2 + t2,
    ensures
        d1 == d2,
{
    let s = d1 + t1;
    let r = d2 + t2;
    assert(s.len() == r.len());
    if d1.len() < d2.len() {
        let k = d1.len() as int;
        assert(r[k] == d2[k]);
        assert(is_digit(d2[k]));
        if t1.len() == 0 {
            assert(s.len() == d1.len());
        } else {
            assert(s[k] == t1[0]);
        }
    } else if d2.len() < d1.len() {
        let k = d2.len() as int;
        assert(s[k] == d1[k]);
        assert(is_digit(d1[k]));
        if t2.len() == 0 {
            assert(r.len() == d2.len());
        } else {
            assert(r[k] == t2[0]);
        }
    }
    assert(d1 =~= s.subrange(0, d1.len() as int));
    assert(d2 =~= r.subrange(0, d2.len() as int));
}

/// `f` is `head`, the zero-padded number `n`, and a tail that is empty or
/// starts with a non-digit (as in `img-007.png` or `chapter-002-Intro`).
pub open spec fn numbered_name(f: Seq<char>, head: Seq<char>, n: nat) -> bool {
    exists|t: Seq<char>| #![auto] f == head + pad3(n) + t && (t.len() == 0 || !is_digit(t[0]))
}

pub(crate) proof fn lemma_numbered_intro(head: Seq<char>, n: nat, t: Seq<char>)
    requires
        t.len() == 0 || !is_digit(t[0]),
    ensures
        numbered_name(head + pad3(n) + t, head, n),
{
    assert(head + pad3(n) + t == head + pad3(n) + t && (t.len() == 0 || !is_digit(t[0])));
}

/// The number in a numbered name is determined by the name.
pub(crate) proof fn lemma_numbered_unique(f: Seq<char>, head: Seq<char>, a: nat, b: nat)
    requires
        numbered_name(f, head, a),
        numbered_name(f, head, b),
    ensures
        a == b,
{
    let ta = choose|t: Seq<char>| #![auto] f == head + pad3(a) + t && (t.len() == 0 || !is_digit(t[0]));
    let tb = choose|t: Seq<char>| #![auto] f == head + pad3(b) + t && (t.len() == 0 || !is_digit(t[0]));
    assert(f.skip(head.len() as int) =~= pad3(a) + ta);
    assert(f.skip(head.len() as int) =~= pad3(b) + tb);
    lemma_pad3_digits(a);
    lemma_pad3_digits(b);
    lemma_digit_run(pad3(a), ta, pad3(b), tb);
}

// ---------------------------------------------------------------------------
// Laws of the media buckets
// ---------------------------------------------------------------------------

/// Every key of the map is a media path and every value starts with `pre`.
pub open spec fn media_map(m: Seq<(Seq<char>, Seq<char>)>, pre: Seq<char>) -> bool {
    forall|i: int| 0 <= i < m.len() ==> is_media_path_spec(#[trigger] m[i].0) && has_prefix(m[i].1, pre)
}

proof fn lemma_insert_media(m: Seq<(Seq<char>, Seq<char>)>, k: Seq<char>, v: Seq<char>, pre: Seq<char>)
    requires
        media_map(m, pre),
        is_media_path_spec(k),
        has_prefix(v, pre),
    ensures
        media_map(assoc_insert(m, k, v), pre),
{
    if assoc_get(m, k) is None {
        let m2 = m.push((k, v));
        assert forall|i: int| 0 <= i < m2.len() implies is_media_path_spec(#[trigger] m2[i].0) && has_prefix(m2[i].1, pre) by {
            if i < m.len() {
                assert(m2[i] == m[i]);
            }
        }
    }
}

proof fn lemma_add_media_targets(
    out: Seq<(Seq<char>, Seq<char>)>,
    base: Seq<char>,
    targets: Seq<Seq<char>>,
    bucket: Seq<char>,
    pre: Seq<char>,
)
    requires
        media_map(out, pre),
        has_prefix(bucket, pre),
    ensures
        media_map(add_media_targets(out, base, targets, bucket), pre),
    decreases targets.len(),
{
    if targets.len() > 0 {
        lemma_add_media_targets(out, base, targets.drop_last(), bucket, pre);
        let o = add_media_targets(out, base, targets.drop_last(), bucket);
        match resolved_target(base, targets.last()) {
            Some(a) => if is_media_path_spec(a) {
                lemma_insert_media(o, a, bucket, pre);
            },
            None => {},
        }
    }
}

proof fn lemma_add_sheet_targets(
    st: (Seq<(Seq<char>, Seq<char>)>, Seq<(Seq<char>, u32)>),
    targets: Seq<Seq<char>>,
    sheet: u32,
)
    requires
        media_map(st.0, "sheet-"@),
    ensures
        media_map(add_sheet_targets(st, targets, sheet).0, "sheet-"@),
    decreases targets.len(),
{
    if targets.len() > 0 {
        lemma_add_sheet_targets(st, targets.drop_last(), sheet);
        assert(has_prefix("sheet-"@ + pad3(sheet as nat), "sheet-"@)) by {
            assert(("sheet-"@ + pad3(sheet as nat)).subrange(0, "sheet-"@.len() as int) =~= "sheet-"@);
        }
        let (out, drawings) = add_sheet_targets(st, targets.drop_last(), sheet);
        match resolved_target("xl/worksheets/"@, targets.last()) {
            Some(a) => {
                let l = lower_seq(a);
                if !(has_prefix(l, "xl/drawings/"@) && has_suffix(l, ".xml"@)) && is_media_path_spec(a) {
                    lemma_insert_media(out, a, "sheet-"@ + pad3(sheet as nat), "sheet-"@);
                }
            },
            None => {},
        }
    }
}

proof fn lemma_pptx_buckets(names: Seq<Seq<char>>, texts: Seq<Option<Seq<char>>>, k: int)
    ensures
        media_map(pptx_buckets(names, texts, k), "slide-"@),
    decreases k,
{
    if k > 0 {
        lemma_pptx_buckets(names, texts, k - 1);
        let out = pptx_buckets(names, texts, k - 1);
        match numeric_suffix_spec(rels_name_stem(names[k - 1]), "slide"@) {
            Some(n) => {
                assert(has_prefix("slide-"@ + pad3(n as nat), "slide-"@)) by {
                    assert(("slide-"@ + pad3(n as nat)).subrange(0, "slide-"@.len() as int) =~= "slide-"@);
                }
                match texts[k - 1] {
                    Some(xml) => {
                        lemma_add_media_targets(out, "ppt/slides/"@, targets_from(xml, 0), "slide-"@ + pad3(n as nat), "slide-"@);
                    },
                    None => {},
                }
            },
            None => {},
        }
    }
}

proof fn lemma_xlsx_sheet_pass(names: Seq<Seq<char>>, texts: Seq<Option<Seq<char>>>, k: int)
    ensures
        media_map(xlsx_sheet_pass(names, texts, k).0, "sheet-"@),
    decreases k,
{
    if k > 0 {
        lemma_xlsx_sheet_pass(names, texts, k - 1);
        let st = xlsx_sheet_pass(names, texts, k - 1);
        match numeric_suffix_spec(rels_name_stem(names[k - 1]), "sheet"@) {
            Some(n) => match texts[k - 1] {
                Some(xml) => {
                    lemma_add_sheet_targets(st, targets_from(xml, 0), n);
                },
                None => {},
            },
            None => {},
        }
    }
}

proof fn lemma_xlsx_drawing_pass(
    names: Seq<Seq<char>>,
    texts: Seq<Option<Seq<char>>>,
    drawings: Seq<(Seq<char>, u32)>,
    out0: Seq<(Seq<char>, Seq<char>)>,
    k: int,
)
    requires
        media_map(out0, "sheet-"@),
    ensures
        media_map(xlsx_drawing_pass(names, texts, drawings, out0, k), "sheet-"@),
    decreases k,
{
    if k > 0 {
        lemma_xlsx_drawing_pass(names, texts, drawings, out0, k - 1);
        let out = xlsx_drawing_pass(names, texts, drawings, out0, k - 1);
        match assoc_get(drawings, described_drawing(names[k - 1])) {
            Some(n) => {
                assert(has_prefix("sheet-"@ + pad3(n as nat), "sheet-"@)) by {
                    assert(("sheet-"@ + pad3(n as nat)).subrange(0, "sheet-"@.len() as int) =~= "sheet-"@);
                }
                match texts[k - 1] {
                    Some(xml) => {
                        lemma_add_media_targets(out, "xl/drawings/"@, targets_from(xml, 0), "sheet-"@ + pad3(n as nat), "sheet-"@);
                    },
                    None => {},
                }
            },
            None => {},
        }
    }
}

/// The bucket map only assigns media files, to slide buckets
/// (`slide-...`) in a presentation and to sheet buckets (`sheet-...`) in a
/// workbook; a flat document has none.
pub proof fn lemma_buckets_assign_media(names: Seq<Seq<char>>, texts: Seq<Option<Seq<char>>>, kind: OfficeKind)
    ensures
        kind == OfficeKind::Flat ==> media_buckets_spec(names, texts, kind).len() == 0,
        kind == OfficeKind::Pptx ==> media_map(media_buckets_spec(names, texts, kind), "slide-"@),
        kind == OfficeKind::Xlsx ==> media_map(media_buckets_spec(names, texts, kind), "sheet-"@),
{
    match kind {
        OfficeKind::Flat => {},
        OfficeKind::Pptx => {
            lemma_pptx_buckets(names, texts, names.len() as int);
        },
        OfficeKind::Xlsx => {
            lemma_xlsx_sheet_pass(names, texts, names.len() as int);
            let (out, drawings) = xlsx_sheet_pass(names, texts, names.len() as int);
            lemma_xlsx_drawing_pass(names, texts, drawings, out, names.len() as int);
        },
    }
}

// ---------------------------------------------------------------------------
// Laws of asset naming
// ---------------------------------------------------------------------------

/// The file-name head of each asset kind.
pub open spec fn asset_head(k: AssetKind) -> Seq<char> {
    match k {
        AssetKind::Image => "img-"@,
        AssetKind::Media => "media-"@,
        AssetKind::Embedding => "embed-"@,
    }
}

/// The number of assets of kind `k` in `s`.
pub open spec fn count_kind(s: Seq<AssetView>, k: AssetKind) -> nat
    decreases s.len(),
{
    if s.len() == 0 {
        0
    } else {
        count_kind(s.drop_last(), k) + if s.last().kind == k {
            1nat
        } else {
            0nat
        }
    }
}

/// The number given to the asset at position `i` of a plan: images
/// continue after `img0`, media and embedded objects count from one.
pub open spec fn asset_number(s: Seq<AssetView>, i: int, img0: nat) -> nat {
    (if s[i].kind == AssetKind::Image {
        img0
    } else {
        0nat
    }) + count_kind(s.take(i), s[i].kind) + 1
}

/// What a plan holds besides its counters: every asset is named by its
/// kind's head and its own number.
pub open spec fn plan_numbered(out: Seq<AssetView>, img0: nat) -> bool {
    forall|i: int|
        0 <= i < out.len() ==> numbered_name(
            #[trigger] out[i].file_name,
            asset_head(out[i].kind),
            asset_number(out, i, img0),
        )
}

proof fn lemma_plan_push(out: Seq<AssetView>, a: AssetView, img0: nat)
    requires
        plan_numbered(out, img0),
        numbered_name(
            a.file_name,
            asset_head(a.kind),
            (if a.kind == AssetKind::Image {
                img0
            } else {
                0nat
            }) + count_kind(out, a.kind) + 1,
        ),
    ensures
        plan_numbered(out.push(a), img0),
        forall|k: AssetKind| #[trigger] count_kind(out.push(a), k) == count_kind(out, k) + if a.kind == k {
            1nat
        } else {
            0nat
        },
{
    let o = out.push(a);
    assert(o.drop_last() =~= out);
    assert forall|i: int| 0 <= i < o.len() implies numbered_name(
        #[trigger] o[i].file_name,
        asset_head(o[i].kind),
        asset_number(o, i, img0),
    ) by {
        if i < out.len() {
            assert(o[i] == out[i]);
            assert(o.take(i) =~= out.take(i));
        } else {
            assert(o.take(i) =~= out);
        }
    }
}

proof fn lemma_plan_numbers(
    names: Seq<Seq<char>>,
    data: Seq<Option<Seq<u8>>>,
    buckets: Seq<(Seq<char>, Seq<char>)>,
    kind: OfficeKind,
    img0: nat,
    k: int,
)
    ensures
        ({
            let (out, img, media, embed) = asset_plan(names, data, buckets, kind, img0, k);
            &&& img == img0 + count_kind(out, AssetKind::Image)
            &&& media == count_kind(out, AssetKind::Media)
            &&& embed == count_kind(out, AssetKind::Embedding)
            &&& plan_numbered(out, img0)
        }),
    decreases k,
{
    reveal_strlit(".");
    reveal_strlit("-");
    if k > 0 {
        lemma_plan_numbers(names, data, buckets, kind, img0, k - 1);
        let (out, img, media, embed) = asset_plan(names, data, buckets, kind, img0, k - 1);
        let name = names[k - 1];
        let l = lower_seq(name);
        if is_asset_entry_spec(name) {
            if let Some(bytes) = data[k - 1] {
                if bytes.len() != 0 {
                    let original = asset_original(name);
                    let ext = asset_ext(name, bytes);
                    if in_embed_dir(l) {
                        let t = "-"@ + sanitized(original);
                        assert(("embed-"@ + pad3(embed + 1) + "-"@ + sanitized(original)) =~= "embed-"@ + pad3(
                            embed + 1,
                        ) + t);
                        assert(t[0] == '-');
                        lemma_numbered_intro("embed-"@, embed + 1, t);
                        let d = "embeddings"@;
                        let f = "embed-"@ + pad3(embed + 1) + "-"@ + sanitized(original);
                        lemma_plan_push(
                            out,
                            AssetView {
                                kind: AssetKind::Embedding,
                                entry: k - 1,
                                dir: d,
                                file_name: f,
                                rel: d + "/"@ + f,
                                original,
                            },
                            img0,
                        );
                    } else if is_image_ext_spec(ext) {
                        let t = "."@ + ext;
                        assert(("img-"@ + pad3(img + 1) + "."@ + ext) =~= "img-"@ + pad3(img + 1) + t);
                        assert(t[0] == '.');
                        lemma_numbered_intro("img-"@, img + 1, t);
                        let f = "img-"@ + pad3(img + 1) + "."@ + ext;
                        let d = match kind {
                            OfficeKind::Flat => "images"@,
                            _ => match assoc_get(buckets, name) {
                                Some(b) => "images"@ + "/"@ + b,
                                None => "images"@,
                            },
                        };
                        lemma_plan_push(
                            out,
                            AssetView {
                                kind: AssetKind::Image,
                                entry: k - 1,
                                dir: d,
                                file_name: f,
                                rel: d + "/"@ + f,
                                original,
                            },
                            img0,
                        );
                    } else {
                        let t = "."@ + ext;
                        assert(("media-"@ + pad3(media + 1) + "."@ + ext) =~= "media-"@ + pad3(media + 1) + t);
                        assert(t[0] == '.');
                        lemma_numbered_intro("media-"@, media + 1, t);
                        let f = "media-"@ + pad3(media + 1) + "."@ + ext;
                        let d = "media"@;
                        lemma_plan_push(
                            out,
                            AssetView {
                                kind: AssetKind::Media,
                                entry: k - 1,
                                dir: d,
                                file_name: f,
                                rel: d + "/"@ + f,
                                original,
                            },
                            img0,
                        );
                    }
                }
            }
        }
    }
}

proof fn lemma_count_grows(s: Seq<AssetView>, i: int, j: int, k: AssetKind)
    requires
        0 <= i < j <= s.len(),
        s[i].kind == k,
    ensures
        count_kind(s.take(j), k) >= count_kind(s.take(i), k) + 1,
    decreases j - i,
{
    assert(s.take(j).drop_last() =~= s.take(j - 1));
    if j > i + 1 {
        lemma_count_grows(s, i, j - 1, k);
    } else {
        assert(s.take(j).last() == s[i]);
    }
}

proof fn lemma_numbered_first(f: Seq<char>, head: Seq<char>, n: nat)
    requires
        numbered_name(f, head, n),
        head.len() > 0,
    ensures
        f.len() > 0 && f[0] == head[0],
{
    let t = choose|t: Seq<char>| #![auto] f == head + pad3(n) + t && (t.len() == 0 || !is_digit(t[0]));
    assert(f[0] == (head + pad3(n) + t)[0]);
}

/// No two assets pulled out of a package get the same file name, so none
/// overwrites another: images, media and embedded objects each have a
/// name head of their own and are numbered one after the other.
pub proof fn lemma_asset_names_distinct(
    names: Seq<Seq<char>>,
    data: Seq<Option<Seq<u8>>>,
    buckets: Seq<(Seq<char>, Seq<char>)>,
    kind: OfficeKind,
    img0: nat,
)
    ensures
        ({
            let out = asset_plan(names, data, buckets, kind, img0, names.len() as int).0;
            forall|i: int, j: int| 0 <= i < j < out.len() ==> #[trigger] out[i].file_name != #[trigger] out[j].file_name
        }),
{
    reveal_strlit("img-");
    reveal_strlit("media-");
    reveal_strlit("embed-");
    let k = names.len() as int;
    lemma_plan_numbers(names, data, buckets, kind, img0, k);
    let out = asset_plan(names, data, buckets, kind, img0, k).0;
    assert forall|i: int, j: int| 0 <= i < j < out.len() implies #[trigger] out[i].file_name != #[trigger] out[j].file_name by {
        let fi = out[i].file_name;
        let fj = out[j].file_name;
        let ki = out[i].kind;
        let kj = out[j].kind;
        if fi == fj {
            if ki == kj {
                lemma_count_grows(out, i, j, ki);
                lemma_numbered_unique(fi, asset_head(ki), asset_number(out, i, img0), asset_number(out, j, img0));
            } else {
                lemma_numbered_first(fi, asset_head(ki), asset_number(out, i, img0));
                lemma_numbered_first(fj, asset_head(kj), asset_number(out, j, img0));
            }
        }
    }
}

proof fn lemma_single_chunk_alone(elems: Seq<ElementInfo>, a: int)
    requires
        0 <= a < split_spec(elems).len(),
        split_spec(elems)[a].label is Single,
    ensures
        split_spec(elems).len() == 1,
{
}

/// The file name of a page or chapter chunk is numbered after its kind's
/// head.
proof fn lemma_chunk_name_numbered(single_section: bool, i: nat, title: Option<Seq<char>>, label: LabelView, j: nat)
    requires
        !(label is Single),
    ensures
        ({
            let prefix = if single_section {
                Seq::<char>::empty()
            } else {
                "section-"@ + pad3(i + 1) + title_slug(title) + "-"@
            };
            let head = if label is Page {
                prefix + "page-"@
            } else {
                prefix + "chapter-"@
            };
            numbered_name(chunk_name_spec(single_section, i, title, label, j), head, j + 1)
        }),
{
    reveal_strlit("-");
    let prefix = if single_section {
        Seq::<char>::empty()
    } else {
        "section-"@ + pad3(i + 1) + title_slug(title) + "-"@
    };
    match label {
        LabelView::Page => {
            let head = prefix + "page-"@;
            lemma_numbered_intro(head, j + 1, Seq::empty());
            assert(chunk_name_spec(single_section, i, title, label, j) =~= head + pad3(j + 1) + Seq::<char>::empty());
        },
        LabelView::Chapter(t) => {
            let head = prefix + "chapter-"@;
            let slug = sanitized(t);
            let tail = if slug.len() == 0 {
                Seq::<char>::empty()
            } else {
                "-"@ + slug
            };
            if slug.len() != 0 {
                assert(tail[0] == '-');
            }
            lemma_numbered_intro(head, j + 1, tail);
            assert(chunk_name_spec(single_section, i, title, label, j) =~= head + pad3(j + 1) + tail);
        },
        LabelView::Single => {},
    }
}

/// The chunks of one section are written to files of their own: no two
/// chunks of a split section get the same file name.
pub proof fn lemma_chunk_names_distinct(
    single_section: bool,
    i: nat,
    title: Option<Seq<char>>,
    elems: Seq<ElementInfo>,
)
    ensures
        ({
            let cs = split_spec(elems);
            forall|a: int, b: int|
                0 <= a < b < cs.len() ==> #[trigger] chunk_name_spec(single_section, i, title, cs[a].label, a as nat)
                    != #[trigger] chunk_name_spec(single_section, i, title, cs[b].label, b as nat)
        }),
{
    reveal_strlit("page-");
    reveal_strlit("chapter-");
    let cs = split_spec(elems);
    let prefix = if single_section {
        Seq::<char>::empty()
    } else {
        "section-"@ + pad3(i + 1) + title_slug(title) + "-"@
    };
    assert forall|a: int, b: int| 0 <= a < b < cs.len() implies #[trigger] chunk_name_spec(
        single_section,
        i,
        title,
        cs[a].label,
        a as nat,
    ) != #[trigger] chunk_name_spec(single_section, i, title, cs[b].label, b as nat) by {
        let la = cs[a].label;
        let lb = cs[b].label;
        if la is Single {
            lemma_single_chunk_alone(elems, a);
        } else if lb is Single {
            lemma_single_chunk_alone(elems, b);
        } else {
            let na = chunk_name_spec(single_section, i, title, la, a as nat);
            let nb = chunk_name_spec(single_section, i, title, lb, b as nat);
            lemma_chunk_name_numbered(single_section, i, title, la, a as nat);
            lemma_chunk_name_numbered(single_section, i, title, lb, b as nat);
            let ha = if la is Page {
                prefix + "page-"@
            } else {
                prefix + "chapter-"@
            };
            let hb = if lb is Page {
                prefix + "page-"@
            } else {
                prefix + "chapter-"@
            };
            if na == nb {
                if (la is Page) == (lb is Page) {
                    lemma_numbered_unique(na, ha, (a + 1) as nat, (b + 1) as nat);
                } else {
                    let k = prefix.len() as int;
                    let ta = choose|t: Seq<char>| #![auto] na == ha + pad3((a + 1) as nat) + t && (t.len() == 0 || !is_digit(t[0]));
                    let tb = choose|t: Seq<char>| #![auto] nb == hb + pad3((b + 1) as nat) + t && (t.len() == 0 || !is_digit(t[0]));
                    assert(na[k] == ha[k]);
                    assert(nb[k] == hb[k]);
                }
            }
        }
    }
}

proof fn lemma_section_chunk_numbered(i: nat, title: Option<Seq<char>>, label: LabelView, j: nat)
    ensures
        numbered_name(chunk_name_spec(false, i, title, label, j) + ".md"@, "section-"@, i + 1),
{
    reveal_strlit(".md");
    reveal_strlit("-");
    let ts = title_slug(title);
    let name = chunk_name_spec(false, i, title, label, j) + ".md"@;
    let t = match label {
        LabelView::Single => ts + ".md"@,
        LabelView::Page => ts + "-"@ + "page-"@ + pad3(j + 1) + ".md"@,
        LabelView::Chapter(c) => {
            let slug = sanitized(c);
            ts + "-"@ + "chapter-"@ + pad3(j + 1) + (if slug.len() == 0 {
                Seq::empty()
            } else {
                "-"@ + slug
            }) + ".md"@
        },
    };
    assert(name =~= "section-"@ + pad3(i + 1) + t);
    if ts.len() > 0 {
        assert(ts[0] == '-');
        assert(t[0] == ts[0]);
    } else {
        assert(t[0] == '-' || t[0] == '.');
    }
    lemma_numbered_intro("section-"@, i + 1, t);
}

/// In a document of several sections, chunks of different sections never
/// share a file name (every name starts with its own section number);
/// with [`lemma_chunk_names_distinct`], every chunk file of a document is
/// written to a file of its own.
pub proof fn lemma_section_files_distinct(
    i1: nat,
    t1: Option<Seq<char>>,
    l1: LabelView,
    j1: nat,
    i2: nat,
    t2: Option<Seq<char>>,
    l2: LabelView,
    j2: nat,
)
    requires
        i1 != i2,
    ensures
        chunk_name_spec(false, i1, t1, l1, j1) + ".md"@ != chunk_name_spec(false, i2, t2, l2, j2) + ".md"@,
{
    lemma_section_chunk_numbered(i1, t1, l1, j1);
    lemma_section_chunk_numbered(i2, t2, l2, j2);
    if chunk_name_spec(false, i1, t1, l1, j1) + ".md"@ == chunk_name_spec(false, i2, t2, l2, j2) + ".md"@ {
        lemma_numbered_unique(chunk_name_spec(false, i1, t1, l1, j1) + ".md"@, "section-"@, i1 + 1, i2 + 1);
    }
}

/// Media files in a common picture format are pulled out as images: an
/// entry of a media folder (not an embedded object) with bytes whose
/// extension is png, jpg, jpeg, gif, bmp, tif, tiff, webp, emf, wmf or svg
/// becomes the next image, `img-NNN.<ext>` under `images/` (or its slide or
/// sheet folder); any other extension makes it the next media file,
/// `media-NNN.<ext>` under `media/`.
pub proof fn lemma_pictures_are_images(
    names: Seq<Seq<char>>,
    data: Seq<Option<Seq<u8>>>,
    buckets: Seq<(Seq<char>, Seq<char>)>,
    kind: OfficeKind,
    img0: nat,
    k: int,
    b: Seq<u8>,
)
    requires
        0 < k <= names.len(),
        k <= data.len(),
        is_asset_entry_spec(names[k - 1]),
        !in_embed_dir(lower_seq(names[k - 1])),
        data[k - 1] == Some(b),
        b.len() > 0,
    ensures
        ({
            let (out0, img, media, embed) = asset_plan(names, data, buckets, kind, img0, k - 1);
            let (out, img2, media2, embed2) = asset_plan(names, data, buckets, kind, img0, k);
            let e = asset_ext(names[k - 1], b);
            let picture = e == "png"@ || e == "jpg"@ || e == "jpeg"@ || e == "gif"@ || e == "bmp"@ || e
                == "tif"@ || e == "tiff"@ || e == "webp"@ || e == "emf"@ || e == "wmf"@ || e == "svg"@;
            &&& out == out0.push(out.last())
            &&& picture ==> out.last().kind == AssetKind::Image && out.last().file_name == "img-"@ + pad3(img + 1)
                + "."@ + e && has_prefix(out.last().dir, "images"@) && img2 == img + 1 && media2 == media
            &&& !picture ==> out.last().kind == AssetKind::Media && out.last().file_name == "media-"@ + pad3(
                media + 1,
            ) + "."@ + e && out.last().dir == "media"@ && img2 == img && media2 == media + 1
        }),
{
    reveal_strlit("images");
    let (out0, img, media, embed) = asset_plan(names, data, buckets, kind, img0, k - 1);
    let (out, img2, media2, embed2) = asset_plan(names, data, buckets, kind, img0, k);
    assert(out =~= out0.push(out.last()));
    let e = asset_ext(names[k - 1], b);
    if is_image_ext_spec(e) {
        let d = out.last().dir;
        assert(d.subrange(0, 6) =~= "images"@);
    }
}

// ---------------------------------------------------------------------------
// Laws of target resolution
// ---------------------------------------------------------------------------

/// A normal path segment: not empty, `.` or `..`, and free of `/`.
pub open spec fn normal_segment(x: Seq<char>) -> bool {
    x.len() != 0 && x != seq!['.'] && x != seq!['.', '.'] && !x.contains('/')
}

proof fn lemma_normalize_normal(segs: Seq<Seq<char>>)
    requires
        forall|j: int| 0 <= j < segs.len() ==> !(#[trigger] segs[j]).contains('/'),
    ensures
        forall|j: int| 0 <= j < normalize_segments(segs).len() ==> normal_segment(#[trigger] normalize_segments(segs)[j]),
    decreases segs.len(),
{
    if segs.len() > 0 {
        assert forall|j: int| 0 <= j < segs.drop_last().len() implies !(#[trigger] segs.drop_last()[j]).contains('/') by {
            assert(segs.drop_last()[j] == segs[j]);
        }
        lemma_normalize_normal(segs.drop_last());
        let p = normalize_segments(segs.drop_last());
        let x = segs.last();
        let r = normalize_segments(segs);
        assert(!x.contains('/')) by {
            assert(x == segs[segs.len() - 1]);
        }
        assert forall|j: int| 0 <= j < r.len() implies normal_segment(#[trigger] r[j]) by {
            if j < p.len() {
                assert(r[j] == p[j]);
            }
        }
    }
}

proof fn lemma_normalize_fixed(parts: Seq<Seq<char>>)
    requires
        forall|j: int| 0 <= j < parts.len() ==> normal_segment(#[trigger] parts[j]),
    ensures
        normalize_segments(parts) == parts,
    decreases parts.len(),
{
    if parts.len() > 0 {
        lemma_normalize_fixed(parts.drop_last());
        assert(normal_segment(parts[parts.len() - 1]));
        assert(parts.drop_last().push(parts.last()) =~= parts);
    }
}

proof fn lemma_split_append_plain(s: Seq<char>, y: Seq<char>, sep: char)
    requires
        !y.contains(sep),
    ensures
        split_on(s + y, sep) == split_on(s, sep).update(
            split_on(s, sep).len() - 1,
            split_on(s, sep).last() + y,
        ),
    decreases y.len(),
{
    lemma_split_len(s, sep);
    if y.len() == 0 {
        assert(s + y =~= s);
        assert(split_on(s, sep).last() + y =~= split_on(s, sep).last());
        assert(split_on(s, sep).update(split_on(s, sep).len() - 1, split_on(s, sep).last()) =~= split_on(s, sep));
    } else {
        let y0 = y.drop_last();
        assert(!y0.contains(sep)) by {
            if y0.contains(sep) {
                let i = choose|i: int| 0 <= i < y0.len() && y0[i] == sep;
                assert(y[i] == sep);
            }
        }
        lemma_split_append_plain(s, y0, sep);
        assert((s + y).drop_last() =~= s + y0);
        assert((s + y).last() == y.last());
        assert(y.last() != sep) by {
            assert(y[y.len() - 1] == y.last());
        }
        lemma_split_len(s + y0, sep);
        let sp = split_on(s, sep);
        let r = split_on(s + y0, sep);
        assert(r == sp.update(sp.len() - 1, sp.last() + y0));
        assert(r.len() == sp.len());
        assert(r.last() == sp.last() + y0);
        assert(split_on(s + y, sep) == r.update(r.len() - 1, r.last().push(y.last())));
        assert((sp.last() + y0).push(y.last()) =~= sp.last() + y);
        assert(split_on(s + y, sep) =~= sp.update(sp.len() - 1, sp.last() + y));
    }
}

proof fn lemma_split_join(parts: Seq<Seq<char>>)
    requires
        parts.len() >= 1,
        forall|j: int| 0 <= j < parts.len() ==> !(#[trigger] parts[j]).contains('/'),
    ensures
        split_on(join_with(parts, '/'), '/') == parts,
    decreases parts.len(),
{
    if parts.len() == 1 {
        assert(!parts[0].contains('/'));
        lemma_split_append_plain(Seq::empty(), parts[0], '/');
        assert(Seq::<char>::empty() + parts[0] =~= parts[0]);
        assert(Seq::<char>::empty() + parts[0] =~= parts[0]);
        assert(split_on(Seq::<char>::empty(), '/') =~= seq![Seq::<char>::empty()]);
        assert(seq![Seq::<char>::empty()].update(0, Seq::<char>::empty() + parts[0]) =~= parts);
    } else {
        let d = parts.drop_last();
        assert forall|j: int| 0 <= j < d.len() implies !(#[trigger] d[j]).contains('/') by {
            assert(d[j] == parts[j]);
        }
        lemma_split_join(d);
        let j0 = join_with(d, '/');
        let x = parts.last();
        assert(!x.contains('/')) by {
            assert(x == parts[parts.len() - 1]);
        }
        assert(join_with(parts, '/') == j0.push('/') + x);
        assert(split_on(j0.push('/'), '/') == split_on(j0, '/').push(Seq::<char>::empty())) by {
            assert(j0.push('/').drop_last() =~= j0);
        }
        lemma_split_append_plain(j0.push('/'), x, '/');
        let sp = split_on(j0.push('/'), '/');
        assert(sp.update(sp.len() - 1, sp.last() + x) =~= parts);
    }
}

/// A resolved target is already normal: every `/`-separated segment of it
/// is a normal name (so it is not empty and has no leading, trailing or
/// doubled `/`, and no `.` or `..` segment), and resolving it again,
/// relative to an empty base directory or as a zip-absolute target, gives
/// it back.
pub proof fn lemma_resolved_target_is_normal(base_dir: Seq<char>, target: Seq<char>)
    ensures
        resolved_target(base_dir, target) matches Some(p) ==> resolved_target(Seq::empty(), p) == Some(p)
            && resolved_target(Seq::empty(), seq!['/'] + p) == Some(p),
        resolved_target(base_dir, target) matches Some(p) ==> p.len() > 0 && forall|j: int|
            0 <= j < split_on(p, '/').len() ==> normal_segment(#[trigger] split_on(p, '/')[j]),
{
    let c = rel_combined(base_dir, target);
    let sp = split_on(c, '/');
    lemma_split_pieces(c, '/');
    assert forall|j: int| 0 <= j < sp.len() implies !(#[trigger] sp[j]).contains('/') by {
        if sp[j].contains('/') {
            let i = choose|i: int| 0 <= i < sp[j].len() && sp[j][i] == '/';
            assert(sp[j][i] != '/');
        }
    }
    lemma_normalize_normal(sp);
    let parts = normalize_segments(sp);
    if parts.len() > 0 {
        let p = join_with(parts, '/');
        assert forall|j: int| 0 <= j < parts.len() implies !(#[trigger] parts[j]).contains('/') by {
            assert(normal_segment(parts[j]));
        }
        lemma_split_join(parts);
        lemma_normalize_fixed(parts);
        assert(Seq::<char>::empty() + p =~= p);
        assert(!(p.len() > 0 && p[0] == '/')) by {
            if p.len() > 0 && p[0] == '/' {
                lemma_split_len(p, '/');
                assert(split_on(p, '/')[0] == parts[0]);
                lemma_first_piece(p, '/');
                assert(normal_segment(parts[0]));
            }
        }
        assert((seq!['/'] + p).drop_first() =~= p);
        assert(p.len() > 0) by {
            if p.len() == 0 {
                lemma_split_len(p, '/');
                assert(split_on(p, '/')[0] == parts[0]);
                assert(normal_segment(parts[0]));
            }
        }
    }
}

proof fn lemma_split_leading_sep(x: Seq<char>, sep: char)
    ensures
        split_on(seq![sep] + x, sep) == seq![Seq::<char>::empty()] + split_on(x, sep),
    decreases x.len(),
{
    let e = seq![Seq::<char>::empty()];
    if x.len() == 0 {
        assert(seq![sep] + x =~= seq![sep]);
        assert(seq![sep].drop_last() =~= Seq::<char>::empty());
        assert(x =~= Seq::<char>::empty());
        assert(split_on(Seq::<char>::empty(), sep) == e);
        assert(split_on(seq![sep], sep) == split_on(seq![sep].drop_last(), sep).push(Seq::<char>::empty()));
        assert(e + split_on(x, sep) =~= split_on(seq![sep], sep));
    } else {
        lemma_split_leading_sep(x.drop_last(), sep);
        lemma_split_len(x.drop_last(), sep);
        let y = seq![sep] + x;
        assert(y.drop_last() =~= seq![sep] + x.drop_last());
        assert(y.last() == x.last());
        let r = split_on(x.drop_last(), sep);
        if x.last() == sep {
            assert((e + r).push(Seq::<char>::empty()) =~= e + r.push(Seq::<char>::empty()));
        } else {
            assert((e + r).update((e + r).len() - 1, (e + r).last().push(x.last())) =~= e + r.update(
                r.len() - 1,
                r.last().push(x.last()),
            ));
        }
    }
}

proof fn lemma_normalize_leading_empty(segs: Seq<Seq<char>>)
    ensures
        normalize_segments(seq![Seq::<char>::empty()] + segs) == normalize_segments(segs),
    decreases segs.len(),
{
    let e = seq![Seq::<char>::empty()];
    if segs.len() == 0 {
        assert(e + segs =~= e);
        assert(e.drop_last() =~= Seq::<Seq<char>>::empty());
        assert(normalize_segments(e) == seg_step(normalize_segments(e.drop_last()), e.last()));
        assert(e.last().len() == 0);
        assert(normalize_segments(e) =~= Seq::<Seq<char>>::empty());
    } else {
        lemma_normalize_leading_empty(segs.drop_last());
        assert(normalize_segments(e + segs) == seg_step(
            normalize_segments((e + segs).drop_last()),
            (e + segs).last(),
        ));
        assert((e + segs).drop_last() =~= e + segs.drop_last());
        assert((e + segs).last() == segs.last());
    }
}

/// A zip-absolute target (one starting with `/`) ignores the base
/// directory: it resolves as the rest of the target does relative to the
/// package root.
pub proof fn lemma_absolute_target_ignores_base(base_dir: Seq<char>, t: Seq<char>)
    ensures
        resolved_target(base_dir, seq!['/'] + t) == resolved_target(Seq::empty(), t),
{
    let st = seq!['/'] + t;
    assert(st.drop_first() =~= t);
    if t.len() > 0 && t[0] == '/' {
        assert(t =~= seq!['/'] + t.drop_first());
        lemma_split_leading_sep(t.drop_first(), '/');
        lemma_normalize_leading_empty(split_on(t.drop_first(), '/'));
    } else {
        assert(Seq::<char>::empty() + t =~= t);
    }
}

proof fn lemma_first_piece(s: Seq<char>, sep: char)
    requires
        s.len() > 0,
        s[0] == sep,
    ensures
        split_on(s, sep)[0].len() == 0,
    decreases s.len(),
{
    lemma_split_len(s.drop_last(), sep);
    if s.len() == 1 {
        assert(s.drop_last() =~= Seq::<char>::empty());
    } else {
        lemma_first_piece(s.drop_last(), sep);
        lemma_split_len(s.drop_last().drop_last(), sep);
        let r = split_on(s.drop_last(), sep);
        if r.len() == 1 && s.last() != sep {
            lemma_first_piece_len(s.drop_last(), sep);
        }
    }
}

proof fn lemma_first_piece_len(s: Seq<char>, sep: char)
    requires
        s.len() > 0,
        s[0] == sep,
    ensures
        split_on(s, sep).len() >= 2,
    decreases s.len(),
{
    if s.len() == 1 {
        assert(s.drop_last() =~= Seq::<char>::empty());
    } else {
        lemma_first_piece_len(s.drop_last(), sep);
    }
}

} // verus!
