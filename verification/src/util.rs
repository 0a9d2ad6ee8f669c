//! Character-level helpers shared by the renderers and naming rules.

use vstd::prelude::*;

use crate::office::last_index_of;

verus! {

// ---------------------------------------------------------------------------
// Specifications of small text operations
// ---------------------------------------------------------------------------

/// ASCII lowercase of one character (non-ASCII-uppercase characters are kept).
pub open spec fn lower_char(c: char) -> char {
    if 65 <= (c as u32) <= 90 {
        (((c as u32) + 32) as u8) as char
    } else {
        c
    }
}

/// ASCII lowercase of a character sequence.
pub open spec fn lower_seq(s: Seq<char>) -> Seq<char> {
    Seq::new(s.len(), |i: int| lower_char(s[i]))
}

/// `s` begins with `p`.
pub open spec fn has_prefix(s: Seq<char>, p: Seq<char>) -> bool {
    p.len() <= s.len() && s.subrange(0, p.len() as int) == p
}

/// `s` ends with `p`.
pub open spec fn has_suffix(s: Seq<char>, p: Seq<char>) -> bool {
    p.len() <= s.len() && s.subrange(s.len() - p.len(), s.len() as int) == p
}

/// `p` occurs in `s` at position `i`.
pub open spec fn occurs_at(s: Seq<char>, p: Seq<char>, i: int) -> bool {
    0 <= i && i + p.len() <= s.len() && s.subrange(i, i + p.len()) == p
}

/// `p` occurs somewhere in `s`.
pub open spec fn contains_seq(s: Seq<char>, p: Seq<char>) -> bool {
    exists|i: int| occurs_at(s, p, i)
}

/// The decimal digit character for `d` (`0 <= d < 10`).
pub open spec fn digit_char(d: int) -> char {
    ((48 + d) as u8) as char
}

/// Decimal rendering of `n`, without leading zeros.
pub open spec fn decimal(n: nat) -> Seq<char>
    decreases n,
{
    if n < 10 {
        seq![digit_char(n as int)]
    } else {
        decimal(n / 10).push(digit_char((n % 10) as int))
    }
}

/// Decimal rendering of `n`, left-padded with zeros to at least three digits.
pub open spec fn pad3(n: nat) -> Seq<char> {
    let d = decimal(n);
    if d.len() >= 3 {
        d
    } else {
        Seq::new((3 - d.len()) as nat, |i: int| '0') + d
    }
}

// ---------------------------------------------------------------------------
// Trusted std primitives on strings
// ---------------------------------------------------------------------------

/// `String::push`: appends one character.
#[verifier::external_body]
pub(crate) fn push_char(s: &mut String, c: char)
    ensures
        final(s)@ == old(s)@.push(c),
{
    s.push(c);
}

// ---------------------------------------------------------------------------
// Verified helpers
// ---------------------------------------------------------------------------

/// The characters of `s`, in order.
pub fn chars_of(s: &str) -> (v: Vec<char>)
    ensures
        v@ == s@,
{
    let mut v: Vec<char> = Vec::new();
    for c in it: s.chars()
        invariant
            v@ == it.seq().take(it.index() as int),
    {
        v.push(c);
    }
    v
}

/// Appends every character of `cs` to `s`.
pub fn push_chars(s: &mut String, cs: &Vec<char>)
    ensures
        final(s)@ == old(s)@ + cs@,
{
    let mut i: usize = 0;
    while i < cs.len()
        invariant
            i <= cs.len(),
            s@ == old(s)@ + cs@.take(i as int),
        decreases cs.len() - i,
    {
        push_char(s, cs[i]);
        assert(cs@.take(i + 1) == cs@.take(i as int).push(cs@[i as int]));
        i += 1;
    }
    assert(cs@.take(cs.len() as int) == cs@);
}

/// Appends every character of `t` to `s`.
pub fn push_str(s: &mut String, t: &str)
    ensures
        final(s)@ == old(s)@ + t@,
{
    let cs = chars_of(t);
    push_chars(s, &cs);
}

/// A string holding exactly the characters `cs`.
pub fn string_of(cs: &Vec<char>) -> (r: String)
    ensures
        r@ == cs@,
{
    let mut r = String::new();
    push_chars(&mut r, cs);
    r
}

/// Character-wise equality of two character vectors.
pub fn chars_eq(a: &Vec<char>, b: &Vec<char>) -> (r: bool)
    ensures
        r == (a@ == b@),
{
    if a.len() != b.len() {
        return false;
    }
    let mut i: usize = 0;
    while i < a.len()
        invariant
            a.len() == b.len(),
            i <= a.len(),
            forall|j: int| 0 <= j < i ==> a@[j] == b@[j],
        decreases a.len() - i,
    {
        if a[i] != b[i] {
            return false;
        }
        i += 1;
    }
    assert(a@ =~= b@);
    true
}

/// Character-wise equality of two strings.
pub fn str_eq(a: &str, b: &str) -> (r: bool)
    ensures
        r == (a@ == b@),
{
    let va = chars_of(a);
    let vb = chars_of(b);
    chars_eq(&va, &vb)
}

/// ASCII lowercase of one character.
pub fn lower_char_exec(c: char) -> (r: char)
    ensures
        r == lower_char(c),
{
    if 'A' <= c && c <= 'Z' {
        ((c as u8) + 32) as char
    } else {
        c
    }
}

/// ASCII lowercase of a character vector.
pub fn lower_chars(cs: &Vec<char>) -> (r: Vec<char>)
    ensures
        r@ == lower_seq(cs@),
{
    let mut r: Vec<char> = Vec::new();
    let mut i: usize = 0;
    while i < cs.len()
        invariant
            i <= cs.len(),
            r@ == lower_seq(cs@.take(i as int)),
        decreases cs.len() - i,
    {
        r.push(lower_char_exec(cs[i]));
        assert(lower_seq(cs@.take(i + 1)) =~= lower_seq(cs@.take(i as int)).push(lower_char(cs@[i as int])));
        i += 1;
    }
    assert(cs@.take(cs.len() as int) == cs@);
    r
}

/// Whether `p` occurs in `s` at position `i`.
pub fn occurs_at_exec(s: &Vec<char>, p: &Vec<char>, i: usize) -> (r: bool)
    ensures
        r == occurs_at(s@, p@, i as int),
{
    if i > s.len() || p.len() > s.len() - i {
        return false;
    }
    let mut j: usize = 0;
    while j < p.len()
        invariant
            i + p.len() <= s.len(),
            j <= p.len(),
            forall|k: int| 0 <= k < j ==> s@[i + k] == p@[k],
        decreases p.len() - j,
    {
        if s[i + j] != p[j] {
            assert(s@.subrange(i as int, i + p.len())[j as int] != p@[j as int]);
            return false;
        }
        j += 1;
    }
    assert(s@.subrange(i as int, i + p.len()) =~= p@);
    true
}

/// Whether `p` occurs somewhere in `s`.
pub fn contains_exec(s: &Vec<char>, p: &Vec<char>) -> (r: bool)
    ensures
        r == contains_seq(s@, p@),
{
    if p.len() > s.len() {
        return false;
    }
    if p.len() == 0 {
        assert(s@.subrange(0, 0) =~= p@);
        assert(occurs_at(s@, p@, 0));
        return true;
    }
    let last: usize = s.len() - p.len();
    let mut i: usize = 0;
    while i <= last
        invariant
            last + p.len() == s.len(),
            p.len() > 0,
            i <= last + 1,
            forall|k: int| 0 <= k < i ==> !occurs_at(s@, p@, k),
        decreases last + 1 - i,
    {
        if occurs_at_exec(s, p, i) {
            return true;
        }
        i += 1;
    }
    assert forall|k: int| !occurs_at(s@, p@, k) by {
        if 0 <= k && k < i {
        }
    }
    false
}

/// Whether `s` begins with `p`.
pub fn has_prefix_exec(s: &Vec<char>, p: &Vec<char>) -> (r: bool)
    ensures
        r == has_prefix(s@, p@),
{
    occurs_at_exec(s, p, 0)
}

/// Whether `s` ends with `p`.
pub fn has_suffix_exec(s: &Vec<char>, p: &Vec<char>) -> (r: bool)
    ensures
        r == has_suffix(s@, p@),
{
    if p.len() > s.len() {
        return false;
    }
    occurs_at_exec(s, p, s.len() - p.len())
}

/// Appends the decimal rendering of `n`.
pub fn push_decimal(s: &mut String, n: u64)
    ensures
        final(s)@ == old(s)@ + decimal(n as nat),
    decreases n,
{
    if n >= 10 {
        push_decimal(s, n / 10);
    }
    let d: u8 = (n % 10) as u8;
    push_char(s, (48u8 + d) as char);
}

/// Appends the decimal rendering of `n`, zero-padded to three digits.
pub fn push_pad3(s: &mut String, n: u64)
    ensures
        final(s)@ == old(s)@ + pad3(n as nat),
{
    let ghost d = decimal(n as nat);
    if n < 10 {
        push_char(s, '0');
        push_char(s, '0');
        assert(d.len() == 1);
        assert(Seq::new(2, |i: int| '0') =~= seq!['0', '0']);
    } else if n < 100 {
        push_char(s, '0');
        assert(decimal((n / 10) as nat).len() == 1);
        assert(d.len() == 2);
        assert(Seq::new(1, |i: int| '0') =~= seq!['0']);
    } else {
        proof {
            lemma_decimal_len_ge3(n as nat);
        }
    }
    let ghost before = s@;
    push_decimal(s, n);
    assert(s@ =~= old(s)@ + pad3(n as nat));
}

proof fn lemma_decimal_len_ge3(n: nat)
    requires
        n >= 100,
    ensures
        decimal(n).len() >= 3,
    decreases n,
{
    if n / 10 >= 100 {
        lemma_decimal_len_ge3(n / 10);
    } else {
        assert(n / 10 >= 10);
        assert(decimal((n / 10) / 10).len() == 1);
        assert(decimal(n / 10).len() == 2);
    }
}

// ---------------------------------------------------------------------------
// File-name sanitising
// ---------------------------------------------------------------------------

/// What `char::is_alphanumeric` answers for a character outside ASCII
/// that is not whitespace (Unicode Alphabetic or Numeric).
pub uninterp spec fn unicode_alphanumeric(c: char) -> bool;

/// ASCII letters and digits.
pub open spec fn ascii_alnum(c: char) -> bool {
    let u = c as u32;
    (48 <= u <= 57) || (65 <= u <= 90) || (97 <= u <= 122)
}

/// What `char::is_alphanumeric` answers: among ASCII characters exactly the
/// letters and digits; never a whitespace character; otherwise the Unicode
/// Alphabetic or Numeric property ([`unicode_alphanumeric`]).
pub open spec fn alphanumeric(c: char) -> bool {
    if (c as u32) < 128 {
        ascii_alnum(c)
    } else if unicode_whitespace(c) {
        false
    } else {
        unicode_alphanumeric(c)
    }
}

/// Whether `c` has the Unicode `White_Space` property, as
/// `char::is_whitespace` answers: the 25 code points U+0009..U+000D, U+0020,
/// U+0085, U+00A0, U+1680, U+2000..U+200A, U+2028, U+2029, U+202F, U+205F
/// and U+3000.
pub open spec fn unicode_whitespace(c: char) -> bool {
    let u = c as u32;
    (0x09 <= u <= 0x0d) || u == 0x20 || u == 0x85 || u == 0xa0 || u == 0x1680 || (0x2000 <= u <= 0x200a)
        || u == 0x2028 || u == 0x2029 || u == 0x202f || u == 0x205f || u == 0x3000
}

/// `char::is_alphanumeric`: true for characters with the Unicode
/// Alphabetic or Numeric property.  Among ASCII characters these are exactly
/// the letters and digits, and no whitespace character has either property;
/// for the other characters the answer is named.
#[verifier::external_body]
fn is_alphanumeric(c: char) -> (r: bool)
    ensures
        r == alphanumeric(c),
        (c as u32) >= 128 && !unicode_whitespace(c) ==> r == unicode_alphanumeric(c),
{
    c.is_alphanumeric()
}

/// Whether `c` is whitespace (Unicode `White_Space`); see
/// [`unicode_whitespace`].
pub(crate) fn is_whitespace(c: char) -> (r: bool)
    ensures
        r == unicode_whitespace(c),
{
    let u = c as u32;
    (0x09 <= u && u <= 0x0d) || u == 0x20 || u == 0x85 || u == 0xa0 || u == 0x1680 || (0x2000 <= u && u
        <= 0x200a) || u == 0x2028 || u == 0x2029 || u == 0x202f || u == 0x205f || u == 0x3000
}

/// Characters that a file name may not hold on common file systems.
pub open spec fn is_path_special(c: char) -> bool {
    c == '/' || c == '\\' || c == ':' || c == '*' || c == '?' || c == '"' || c == '<' || c == '>'
        || c == '|'
}

/// How one character of a name is rewritten: kept, or replaced by `_`.
/// Whitespace is replaced only when `fold_ws` holds.
pub open spec fn sanitize_char_with(c: char, fold_ws: bool) -> char {
    if alphanumeric(c) || c == '-' || c == '_' {
        c
    } else if (fold_ws && unicode_whitespace(c)) || is_path_special(c) {
        '_'
    } else {
        c
    }
}

/// Characters trimmed from both ends of a sanitised name.
pub open spec fn is_trim_char(c: char) -> bool {
    c == '_' || c == '.'
}

/// `s` without its leading `_` / `.` characters.
pub open spec fn trim_lead(s: Seq<char>) -> Seq<char>
    decreases s.len(),
{
    if s.len() > 0 && is_trim_char(s[0]) {
        trim_lead(s.drop_first())
    } else {
        s
    }
}

/// `s` without its trailing `_` / `.` characters.
pub open spec fn trim_trail(s: Seq<char>) -> Seq<char>
    decreases s.len(),
{
    if s.len() > 0 && is_trim_char(s.last()) {
        trim_trail(s.drop_last())
    } else {
        s
    }
}

/// Number of characters a sanitised name keeps at most.
pub const MAX_NAME_CHARS: usize = 60;

/// The sanitised form of a name: each character mapped by [`sanitize_char_with`],
/// `_` and `.` trimmed from both ends, `untitled` when nothing is left, and
/// cut to its first [`MAX_NAME_CHARS`] characters.  (A name of more than 60
/// characters is always more than 60 UTF-8 bytes long, and a name of at most
/// 60 characters is kept whole, so cutting by bytes or by characters agree.)
pub open spec fn sanitized_with(s: Seq<char>, fold_ws: bool) -> Seq<char> {
    let mapped = Seq::new(s.len(), |i: int| sanitize_char_with(s[i], fold_ws));
    let t = trim_trail(trim_lead(mapped));
    if t.len() == 0 {
        "untitled"@
    } else if t.len() > MAX_NAME_CHARS {
        t.take(MAX_NAME_CHARS as int)
    } else {
        t
    }
}

/// A sanitised file name: whitespace is folded to `_` as well.
pub open spec fn sanitized(s: Seq<char>) -> Seq<char> {
    sanitized_with(s, true)
}

/// Turns an arbitrary title into a safe file-name fragment.
pub fn sanitize_filename(s: &str) -> (r: String)
    ensures
        r@ == sanitized(s@),
{
    sanitize_name(s, true)
}

/// Sanitises a name; whitespace is folded to `_` only when `fold_ws` holds.
pub fn sanitize_name(s: &str, fold_ws: bool) -> (r: String)
    ensures
        r@ == sanitized_with(s@, fold_ws),
{
    let cs = chars_of(s);
    let mut mapped: Vec<char> = Vec::new();
    let mut k: usize = 0;
    while k < cs.len()
        invariant
            k <= cs.len(),
            mapped@ == Seq::new(k as nat, |i: int| sanitize_char_with(cs@[i], fold_ws)),
        decreases cs.len() - k,
    {
        let c = cs[k];
        let out = if is_alphanumeric(c) || c == '-' || c == '_' {
            c
        } else if (fold_ws && is_whitespace(c)) || c == '/' || c == '\\' || c == ':' || c == '*' || c == '?'
            || c == '"' || c == '<' || c == '>' || c == '|' {
            '_'
        } else {
            c
        };
        mapped.push(out);
        assert(mapped@ =~= Seq::new((k + 1) as nat, |i: int| sanitize_char_with(cs@[i], fold_ws)));
        k += 1;
    }
    let ghost m = mapped@;
    assert(m =~= Seq::new(s@.len(), |i: int| sanitize_char_with(s@[i], fold_ws)));
    // leading trim
    let n = mapped.len();
    let mut lo: usize = 0;
    assert(m.skip(0) =~= m);
    while lo < n && (mapped[lo] == '_' || mapped[lo] == '.')
        invariant
            n == m.len(),
            mapped@ == m,
            lo <= n,
            trim_lead(m) == trim_lead(m.skip(lo as int)),
        decreases n - lo,
    {
        assert(m.skip(lo as int).drop_first() =~= m.skip(lo + 1));
        lo += 1;
    }
    let ghost led = m.skip(lo as int);
    assert(trim_lead(led) == led);
    // trailing trim
    let mut hi: usize = n;
    assert(m.subrange(lo as int, n as int) =~= led);
    while hi > lo && (mapped[hi - 1] == '_' || mapped[hi - 1] == '.')
        invariant
            n == m.len(),
            mapped@ == m,
            lo <= hi <= n,
            trim_trail(led) == trim_trail(m.subrange(lo as int, hi as int)),
        decreases hi - lo,
    {
        assert(m.subrange(lo as int, hi as int).drop_last() =~= m.subrange(lo as int, hi - 1));
        hi -= 1;
    }
    let ghost t = m.subrange(lo as int, hi as int);
    assert(trim_trail(t) == t);
    let mut trimmed = String::new();
    let mut i: usize = lo;
    while i < hi
        invariant
            lo <= i <= hi <= n,
            n == m.len(),
            mapped@ == m,
            trimmed@ == m.subrange(lo as int, i as int),
        decreases hi - i,
    {
        push_char(&mut trimmed, mapped[i]);
        assert(m.subrange(lo as int, i + 1) =~= m.subrange(lo as int, i as int).push(m[i as int]));
        i += 1;
    }
    assert(trimmed@ == t);
    assert(trim_trail(trim_lead(m)) == t);
    if hi == lo {
        assert(t.len() == 0);
        return String::from_str("untitled");
    }
    if hi - lo > MAX_NAME_CHARS {
        let mut r = String::new();
        let mut j: usize = lo;
        while j < lo + MAX_NAME_CHARS
            invariant
                lo <= j <= lo + MAX_NAME_CHARS <= hi <= n,
                n == m.len(),
                mapped@ == m,
                r@ == m.subrange(lo as int, j as int),
            decreases lo + MAX_NAME_CHARS - j,
        {
            push_char(&mut r, mapped[j]);
            assert(m.subrange(lo as int, j + 1) =~= m.subrange(lo as int, j as int).push(m[j as int]));
            j += 1;
        }
        assert(r@ =~= t.take(MAX_NAME_CHARS as int));
        return r;
    }
    trimmed
}

// ---------------------------------------------------------------------------
// Path components (std::path; their answers depend on the target platform's
// separator rules, so nothing is stated of them)
// ---------------------------------------------------------------------------

/// A path that is a single plain file name: not empty, no `/`, `\\` or
/// `:` (so no separator or prefix on any platform), and not `.` or `..`.
pub open spec fn simple_name(p: Seq<char>) -> bool {
    &&& p.len() > 0
    &&& !p.contains('/')
    &&& !p.contains('\\')
    &&& !p.contains(':')
    &&& p != seq!['.']
    &&& p != seq!['.', '.']
}

/// The extension of a file name as `Path::extension` documents it: the
/// part after the final `.`, none when the name has no `.` other than a
/// leading one.
pub open spec fn name_extension(f: Seq<char>) -> Option<Seq<char>> {
    match last_index_of(f, '.') {
        Some(k) => if k > 0 {
            Some(f.subrange(k + 1, f.len() as int))
        } else {
            None
        },
        None => None,
    }
}

/// The stem of a file name as `Path::file_stem` documents it: the part
/// before the final `.`, the whole name when it has no `.` other than a
/// leading one.
pub open spec fn name_stem(f: Seq<char>) -> Seq<char> {
    match last_index_of(f, '.') {
        Some(k) => if k > 0 {
            f.subrange(0, k)
        } else {
            f
        },
        None => f,
    }
}

/// The part of a path after its last `/` (the whole path when it has none).
pub open spec fn last_component(p: Seq<char>) -> Seq<char> {
    match last_index_of(p, '/') {
        Some(k) => p.subrange(k + 1, p.len() as int),
        None => p,
    }
}

/// A path that every platform splits the same way: `/` is its only
/// separator (it holds no `\\` or `:`, so no Windows prefix), it does not
/// begin with `//` (a network-share prefix on Windows), and it ends in a
/// plain file name.  Its file name is its last component.
pub open spec fn plain_path(p: Seq<char>) -> bool {
    &&& !p.contains('\\')
    &&& !p.contains(':')
    &&& !(p.len() >= 2 && p[0] == '/' && p[1] == '/')
    &&& simple_name(last_component(p))
}

/// A path with no file name on any platform: empty, or the root `/` alone.
pub open spec fn nameless_path(p: Seq<char>) -> bool {
    p.len() == 0 || p == seq!['/']
}

/// Whether `c` separates path components on some platform (`/` on all of
/// them, `\\` on Windows).
pub open spec fn is_any_sep(c: char) -> bool {
    c == '/' || c == '\\'
}

/// The last index of a separator in `p`, if any.
pub open spec fn last_sep_index(p: Seq<char>) -> Option<int>
    decreases p.len(),
{
    if p.len() == 0 {
        None
    } else if is_any_sep(p.last()) {
        Some(p.len() - 1)
    } else {
        last_sep_index(p.drop_last())
    }
}

/// The extension every platform gives `p`: the text after its last `.`,
/// when that dot lies in the last component (after every `/` and `\\`) and
/// is not its first character, the character before the dot is neither `.`
/// (so the component is not `..`) nor `:` (the end of a Windows drive
/// prefix), and the path does not begin with two separators (a Windows
/// network or device prefix).  None when these conditions fail, which
/// means that nothing is said, not that there is no extension.
pub open spec fn portable_extension(p: Seq<char>) -> Option<Seq<char>> {
    match last_index_of(p, '.') {
        None => None,
        Some(i) => {
            let start = match last_sep_index(p) {
                Some(k) => k + 1,
                None => 0,
            };
            if i > start && p[i - 1] != '.' && p[i - 1] != ':' && !(p.len() >= 2 && is_any_sep(p[0])
                && is_any_sep(p[1])) {
                Some(p.subrange(i + 1, p.len() as int))
            } else {
                None
            }
        },
    }
}

/// `Path::extension` of `path`, as a string.  Its documentation gives the
/// part of the file name (the last component) after the final `.`, and
/// none when the file name has no `.` other than a leading one or there is
/// no file name.  Which part of a general path is the file name depends on
/// the platform's separators and prefixes, so the extension is stated for
/// paths that every platform splits alike, and for any path whose last dot
/// every platform reads as the start of the extension
/// ([`portable_extension`]); for any path, one without `.` has no extension
/// and an extension holds no `.`.
#[verifier::external_body]
pub(crate) fn path_extension(path: &str) -> (r: Option<String>)
    ensures
        !path@.contains('.') ==> r is None,
        r matches Some(e) ==> !e@.contains('.'),
        plain_path(path@) ==> match r {
            Some(e) => name_extension(last_component(path@)) == Some(e@),
            None => name_extension(last_component(path@)) is None,
        },
        nameless_path(path@) ==> r is None,
        match portable_extension(path@) {
            Some(e) => match r {
                Some(x) => x@ == e,
                None => false,
            },
            None => true,
        },
{
    std::path::Path::new(path).extension().and_then(|s| s.to_str()).map(|s| s.to_string())
}

/// `Path::file_stem` of `path`, as a string: the stem of the file name
/// (the last component), none when there is no file name.  Stated for paths
/// that every platform splits alike.
#[verifier::external_body]
pub(crate) fn path_file_stem(path: &str) -> (r: Option<String>)
    ensures
        plain_path(path@) ==> match r {
            Some(s) => s@ == name_stem(last_component(path@)),
            None => false,
        },
        nameless_path(path@) ==> r is None,
{
    std::path::Path::new(path).file_stem().and_then(|s| s.to_str()).map(|s| s.to_string())
}

/// `Path::file_name` of `path`, as a string: the last component, none when
/// there is none.  Stated for paths that every platform splits alike.
#[verifier::external_body]
pub(crate) fn path_file_name(path: &str) -> (r: Option<String>)
    ensures
        plain_path(path@) ==> match r {
            Some(s) => s@ == last_component(path@),
            None => false,
        },
        nameless_path(path@) ==> r is None,
{
    std::path::Path::new(path).file_name().and_then(|s| s.to_str()).map(|s| s.to_string())
}

/// The folder name for an input whose file stem is `stem`: the sanitised
/// stem, or `output` when the path has none.
pub open spec fn stem_name(stem: Option<Seq<char>>) -> Seq<char> {
    match stem {
        Some(s) => sanitized(s),
        None => "output"@,
    }
}

/// The folder name for an input with the given file stem.
pub fn stem_folder_name(stem: Option<&str>) -> (r: String)
    ensures
        r@ == stem_name(
            match stem {
                Some(s) => Some(s@),
                None => None,
            },
        ),
{
    match stem {
        Some(s) => sanitize_filename(s),
        None => String::from_str("output"),
    }
}

/// The name of the per-input output folder: the sanitised file stem of
/// `path`, or `output` when it has none.
pub fn input_stem(path: &str) -> (r: String)
    ensures
        exists|stem: Option<Seq<char>>| r@ == stem_name(stem),
        plain_path(path@) ==> r@ == stem_name(Some(name_stem(last_component(path@)))),
        nameless_path(path@) ==> r@ == "output"@,
        0 < r@.len() <= MAX_NAME_CHARS,
{
    let stem = path_file_stem(path);
    let r = match &stem {
        Some(s) => stem_folder_name(Some(s.as_str())),
        None => stem_folder_name(None),
    };
    proof {
        let w: Option<Seq<char>> = match stem {
            Some(s) => Some(s@),
            None => None,
        };
        assert(r@ == stem_name(w));
        if let Some(t) = w {
            lemma_sanitized_is_safe(t);
        } else {
            reveal_strlit("output");
        }
    }
    r
}

// ---------------------------------------------------------------------------
// Laws of sanitised names
// ---------------------------------------------------------------------------

proof fn lemma_trim_lead(s: Seq<char>)
    ensures
        exists|k: int| 0 <= k <= s.len() && trim_lead(s) == s.skip(k),
        trim_lead(s).len() > 0 ==> !is_trim_char(trim_lead(s)[0]),
    decreases s.len(),
{
    if s.len() > 0 && is_trim_char(s[0]) {
        lemma_trim_lead(s.drop_first());
        let k = choose|k: int| 0 <= k <= s.drop_first().len() && trim_lead(s.drop_first()) == s.drop_first().skip(k);
        assert(s.drop_first().skip(k) =~= s.skip(k + 1));
    } else {
        assert(s.skip(0) =~= s);
    }
}

proof fn lemma_trim_trail(s: Seq<char>)
    ensures
        exists|k: int| 0 <= k <= s.len() && trim_trail(s) == s.take(k),
    decreases s.len(),
{
    if s.len() > 0 && is_trim_char(s.last()) {
        lemma_trim_trail(s.drop_last());
        let k = choose|k: int| 0 <= k <= s.drop_last().len() && trim_trail(s.drop_last()) == s.drop_last().take(k);
        assert(s.drop_last().take(k) =~= s.take(k));
    } else {
        assert(s.take(s.len() as int) =~= s);
    }
}

/// A character that a sanitised name may hold: no whitespace and no path
/// separator or other special character.
pub open spec fn safe_name_char(c: char) -> bool {
    !is_path_special(c) && !unicode_whitespace(c)
}

/// A sanitised file name is usable as one: it is never empty, holds at
/// most 60 characters, holds no whitespace and no path separator or other
/// special character, and (unless it is the placeholder `untitled`) does
/// not start with `_` or `.`.
pub proof fn lemma_sanitized_is_safe(s: Seq<char>)
    ensures
        0 < sanitized(s).len() <= MAX_NAME_CHARS,
        forall|i: int| 0 <= i < sanitized(s).len() ==> safe_name_char(#[trigger] sanitized(s)[i]),
        sanitized(s) == "untitled"@ || !is_trim_char(sanitized(s)[0]),
{
    reveal_strlit("untitled");
    let mapped = Seq::new(s.len(), |i: int| sanitize_char_with(s[i], true));
    let led = trim_lead(mapped);
    lemma_trim_lead(mapped);
    lemma_trim_trail(led);
    let t = trim_trail(led);
    let k1 = choose|k: int| 0 <= k <= mapped.len() && led == mapped.skip(k);
    let k2 = choose|k: int| 0 <= k <= led.len() && t == led.take(k);
    assert forall|i: int| 0 <= i < t.len() implies safe_name_char(#[trigger] t[i]) by {
        assert(t[i] == mapped[k1 + i]);
        assert(t[i] == sanitize_char_with(s[k1 + i], true));
    }
    if t.len() > 0 {
        assert(t[0] == led[0]);
    } else {
        let u = "untitled"@;
        assert forall|i: int| 0 <= i < u.len() implies safe_name_char(#[trigger] u[i]) by {
            assert(u[i] == 'u' || u[i] == 'n' || u[i] == 't' || u[i] == 'i' || u[i] == 'l' || u[i] == 'e' || u[i]
                == 'd');
        }
    }
}

/// Sanitising a sanitised name changes nothing, unless cutting to 60
/// characters left it ending in `_` or `.` (the one case in which a second
/// pass trims further).
pub proof fn lemma_sanitized_idempotent(s: Seq<char>)
    requires
        !is_trim_char(sanitized(s).last()),
    ensures
        sanitized(sanitized(s)) == sanitized(s),
{
    reveal_strlit("untitled");
    lemma_sanitized_is_safe(s);
    let r = sanitized(s);
    let mapped = Seq::new(r.len(), |i: int| sanitize_char_with(r[i], true));
    assert forall|i: int| 0 <= i < r.len() implies #[trigger] mapped[i] == r[i] by {
        assert(safe_name_char(r[i]));
    }
    assert(mapped =~= r);
    assert(trim_lead(r) == r);
    assert(trim_trail(r) == r);
}

} // verus!
