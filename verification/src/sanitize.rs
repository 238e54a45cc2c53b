//! Turning object keys and key segments into names that are safe to create
//! on disk: Windows-illegal characters, reserved device names, trailing dots
//! and spaces, extended-length paths, and the plaintext name of an object.

use std::borrow::Cow;
use vstd::prelude::*;

use crate::text::{
    append_chars, ascii_lower, ascii_upper, ascii_upper_exec, ascii_upper_str, chars_of, copy_range, is_sep,
    is_sep_exec, string_of,
};

verus! {

// ---------------------------------------------------------------------------
// Specification
// ---------------------------------------------------------------------------

/// Characters that Windows refuses in file names but S3 keys allow.
pub open spec fn is_win_illegal(c: char) -> bool {
    c == '<' || c == '>' || c == ':' || c == '"' || c == '|' || c == '?' || c == '*'
}

/// A character replaced by `_` on Windows: an illegal one or a control character.
pub open spec fn is_replaced(c: char) -> bool {
    is_win_illegal(c) || (c as u32) < 0x20
}

pub open spec fn replace_char(c: char) -> char {
    if is_replaced(c) {
        '_'
    } else {
        c
    }
}

/// Every replaced character of `s` turned into `_`.
pub open spec fn replace_illegal(s: Seq<char>) -> Seq<char> {
    s.map_values(|c: char| replace_char(c))
}

pub open spec fn is_dot_or_space(c: char) -> bool {
    c == '.' || c == ' '
}

/// `s.trim_end_matches([' ', '.'])`.
pub open spec fn trim_end_dots_spaces(s: Seq<char>) -> Seq<char>
    decreases s.len(),
{
    if s.len() > 0 && is_dot_or_space(s.last()) {
        trim_end_dots_spaces(s.drop_last())
    } else {
        s
    }
}

/// The part of `s` before its first `.` (all of `s` when it has none).
pub open spec fn before_first_dot(s: Seq<char>) -> Seq<char>
    decreases s.len(),
{
    if s.len() == 0 {
        s
    } else if s[0] == '.' {
        Seq::<char>::empty()
    } else {
        seq![s[0]] + before_first_dot(s.drop_first())
    }
}

/// A reserved Windows device name (`CON`, `PRN`, `AUX`, `NUL`, `COM1`..`COM9`,
/// `LPT1`..`LPT9`), compared ASCII-case-insensitively.
pub open spec fn is_reserved_name(stem: Seq<char>) -> bool {
    let u = ascii_upper_str(stem);
    ||| u == seq!['C', 'O', 'N']
    ||| u == seq!['P', 'R', 'N']
    ||| u == seq!['A', 'U', 'X']
    ||| u == seq!['N', 'U', 'L']
    ||| {
        &&& u.len() == 4
        &&& (u.take(3) == seq!['C', 'O', 'M'] || u.take(3) == seq!['L', 'P', 'T'])
        &&& '1' <= u[3] <= '9'
    }
}

/// One path segment made safe to write: unchanged off Windows; on Windows
/// illegal and control characters become `_`, trailing dots and spaces go, an
/// empty result becomes `_`, and a reserved device name gets a `_` prefix.
pub open spec fn sanitized(seg: Seq<char>, windows: bool) -> Seq<char> {
    if !windows {
        seg
    } else {
        let trimmed = trim_end_dots_spaces(replace_illegal(seg));
        if trimmed.len() == 0 {
            seq!['_']
        } else if is_reserved_name(before_first_dot(trimmed)) {
            seq!['_'] + trimmed
        } else {
            trimmed
        }
    }
}

pub open spec fn is_ascii_alpha(c: char) -> bool {
    ('a' <= c <= 'z') || ('A' <= c <= 'Z')
}

/// An absolute drive-letter path: `X:\` or `X:/` followed by anything.
pub open spec fn is_drive_absolute(p: Seq<char>) -> bool {
    p.len() >= 3 && is_ascii_alpha(p[0]) && p[1] == ':' && is_sep(p[2])
}

/// Starts with `\\`: a UNC or an already-verbatim path.
pub open spec fn starts_with_double_backslash(p: Seq<char>) -> bool {
    p.len() >= 2 && p[0] == '\\' && p[1] == '\\'
}

/// The `\\?\` verbatim marker.
pub open spec fn verbatim_prefix() -> Seq<char> {
    seq!['\\', '\\', '?', '\\']
}

/// Every `/` of `p` turned into `\`.
pub open spec fn backslashed(p: Seq<char>) -> Seq<char> {
    p.map_values(|c: char| if c == '/' { '\\' } else { c })
}

/// Whether `long_path` rewrites `p`.
pub open spec fn needs_verbatim(p: Seq<char>, windows: bool) -> bool {
    windows && !starts_with_double_backslash(p) && is_drive_absolute(p)
}

/// The extended-length form of `p` on Windows drive-absolute paths, `p` otherwise.
pub open spec fn long_path_of(p: Seq<char>, windows: bool) -> Seq<char> {
    if needs_verbatim(p, windows) {
        verbatim_prefix() + backslashed(p)
    } else {
        p
    }
}

// ---------------------------------------------------------------------------
// Implementation
// ---------------------------------------------------------------------------

fn is_replaced_exec(c: char) -> (b: bool)
    ensures
        b == is_replaced(c),
{
    c == '<' || c == '>' || c == ':' || c == '"' || c == '|' || c == '?' || c == '*' || (c as u32)
        < 0x20
}

fn replace_illegal_exec(v: &Vec<char>) -> (out: Vec<char>)
    ensures
        out@ == replace_illegal(v@),
{
    let mut out: Vec<char> = Vec::new();
    let mut i: usize = 0;
    while i < v.len()
        invariant
            i <= v.len(),
            out@ == replace_illegal(v@.take(i as int)),
        decreases v.len() - i,
    {
        let c: char = v[i];
        if is_replaced_exec(c) {
            out.push('_');
        } else {
            out.push(c);
        }
        i = i + 1;
        assert(replace_illegal(v@.take(i as int)) =~= replace_illegal(v@.take(i - 1)).push(
            replace_char(v@[i - 1]),
        ));
    }
    assert(v@.take(v.len() as int) =~= v@);
    out
}

fn trim_end_dots_spaces_exec(v: &Vec<char>) -> (out: Vec<char>)
    ensures
        out@ == trim_end_dots_spaces(v@),
{
    let mut j: usize = v.len();
    assert(v@.take(j as int) =~= v@);
    while j > 0 && (v[j - 1] == '.' || v[j - 1] == ' ')
        invariant
            j <= v.len(),
            trim_end_dots_spaces(v@) == trim_end_dots_spaces(v@.take(j as int)),
        decreases j,
    {
        assert(v@.take(j as int).drop_last() =~= v@.take(j - 1));
        j = j - 1;
    }
    assert(v@.take(j as int) =~= v@.subrange(0, j as int));
    copy_range(v, 0, j)
}

proof fn lemma_before_first_dot(s: Seq<char>, i: int)
    requires
        0 <= i <= s.len(),
        forall|k: int| 0 <= k < i ==> s[k] != '.',
        i == s.len() || s[i] == '.',
    ensures
        before_first_dot(s) == s.take(i),
    decreases s.len(),
{
    if s.len() > 0 && i > 0 {
        lemma_before_first_dot(s.drop_first(), i - 1);
        assert(s.take(i) =~= seq![s[0]] + s.drop_first().take(i - 1));
    } else if s.len() == 0 {
        assert(s.take(i) =~= s);
    } else {
        assert(s.take(i) =~= Seq::<char>::empty());
    }
}

fn before_first_dot_exec(v: &Vec<char>) -> (out: Vec<char>)
    ensures
        out@ == before_first_dot(v@),
{
    let mut i: usize = 0;
    while i < v.len() && v[i] != '.'
        invariant
            i <= v.len(),
            forall|k: int| 0 <= k < i ==> v@[k] != '.',
        decreases v.len() - i,
    {
        i = i + 1;
    }
    proof {
        lemma_before_first_dot(v@, i as int);
    }
    assert(v@.take(i as int) =~= v@.subrange(0, i as int));
    copy_range(v, 0, i)
}

fn ascii_upper_vec(v: &Vec<char>) -> (out: Vec<char>)
    ensures
        out@ == ascii_upper_str(v@),
{
    let mut out: Vec<char> = Vec::new();
    let mut i: usize = 0;
    while i < v.len()
        invariant
            i <= v.len(),
            out@ == ascii_upper_str(v@.take(i as int)),
        decreases v.len() - i,
    {
        let c: char = ascii_upper_exec(v[i]);
        out.push(c);
        i = i + 1;
        assert(ascii_upper_str(v@.take(i as int)) =~= ascii_upper_str(v@.take(i - 1)).push(
            ascii_upper(v@[i - 1]),
        ));
    }
    assert(v@.take(v.len() as int) =~= v@);
    out
}

/// `u` is exactly the three characters `a`, `b`, `c`.
fn is_word3(u: &Vec<char>, a: char, b: char, c: char) -> (r: bool)
    ensures
        r == (u@ == seq![a, b, c]),
{
    let r: bool = u.len() == 3 && u[0] == a && u[1] == b && u[2] == c;
    proof {
        if u.len() == 3 && u@[0] == a && u@[1] == b && u@[2] == c {
            assert(u@ =~= seq![a, b, c]);
        }
    }
    r
}

fn is_reserved_chars(v: &Vec<char>) -> (b: bool)
    ensures
        b == is_reserved_name(v@),
{
    let u: Vec<char> = ascii_upper_vec(v);
    if is_word3(&u, 'C', 'O', 'N') || is_word3(&u, 'P', 'R', 'N') || is_word3(&u, 'A', 'U', 'X')
        || is_word3(&u, 'N', 'U', 'L') {
        return true;
    }
    if u.len() != 4 {
        return false;
    }
    let com: bool = u[0] == 'C' && u[1] == 'O' && u[2] == 'M';
    let lpt: bool = u[0] == 'L' && u[1] == 'P' && u[2] == 'T';
    proof {
        if com {
            assert(u@.take(3) =~= seq!['C', 'O', 'M']);
        }
        if lpt {
            assert(u@.take(3) =~= seq!['L', 'P', 'T']);
        }
        if u@.take(3) == seq!['C', 'O', 'M'] {
            assert(u@.take(3)[0] == 'C' && u@.take(3)[1] == 'O' && u@.take(3)[2] == 'M');
        }
        if u@.take(3) == seq!['L', 'P', 'T'] {
            assert(u@.take(3)[0] == 'L' && u@.take(3)[1] == 'P' && u@.take(3)[2] == 'T');
        }
    }
    (com || lpt) && '1' <= u[3] && u[3] <= '9'
}

/// True if `stem` (the part before the first `.`) is a reserved Windows device
/// name: creating such a file fails or, worse, targets a device.
pub fn is_windows_reserved(stem: &str) -> (b: bool)
    ensures
        b == is_reserved_name(stem@),
{
    let v: Vec<char> = chars_of(stem);
    is_reserved_chars(&v)
}

/// `sanitize_segment` on characters.
pub fn sanitize_chars(seg: &Vec<char>, windows: bool) -> (out: Vec<char>)
    ensures
        out@ == sanitized(seg@, windows),
{
    if !windows {
        return copy_all(seg);
    }
    let replaced: Vec<char> = replace_illegal_exec(seg);
    let trimmed: Vec<char> = trim_end_dots_spaces_exec(&replaced);
    if trimmed.len() == 0 {
        let mut out: Vec<char> = Vec::new();
        out.push('_');
        assert(out@ =~= seq!['_']);
        return out;
    }
    let stem: Vec<char> = before_first_dot_exec(&trimmed);
    if is_reserved_chars(&stem) {
        let mut out: Vec<char> = Vec::new();
        out.push('_');
        append_chars(&mut out, &trimmed);
        assert(out@ =~= seq!['_'] + trimmed@);
        out
    } else {
        trimmed
    }
}

fn copy_all(v: &Vec<char>) -> (out: Vec<char>)
    ensures
        out@ == v@,
{
    let out: Vec<char> = copy_range(v, 0, v.len());
    assert(v@.subrange(0, v.len() as int) =~= v@);
    out
}

/// Make one path segment safe to write on disk. On Windows (`windows == true`)
/// illegal characters are replaced with `_`, trailing dots/spaces (which
/// Windows silently strips, causing collisions) are removed, and reserved
/// device names are neutralized; on other platforms the segment is returned
/// unchanged.
pub fn sanitize_segment(seg: &str, windows: bool) -> (out: String)
    ensures
        out@ == sanitized(seg@, windows),
{
    let v: Vec<char> = chars_of(seg);
    let s: Vec<char> = sanitize_chars(&v, windows);
    string_of(&s)
}

fn backslashed_exec(v: &Vec<char>) -> (out: Vec<char>)
    ensures
        out@ == backslashed(v@),
{
    let mut out: Vec<char> = Vec::new();
    let mut i: usize = 0;
    while i < v.len()
        invariant
            i <= v.len(),
            out@ == backslashed(v@.take(i as int)),
        decreases v.len() - i,
    {
        let c: char = v[i];
        if c == '/' {
            out.push('\\');
        } else {
            out.push(c);
        }
        i = i + 1;
        assert(backslashed(v@.take(i as int)) =~= backslashed(v@.take(i - 1)).push(
            if v@[i - 1] == '/' { '\\' } else { v@[i - 1] },
        ));
    }
    assert(v@.take(v.len() as int) =~= v@);
    out
}

/// On Windows, prefix an absolute drive-letter path (`C:\...`) with the `\\?\`
/// verbatim marker (and turn its `/` into `\`) so paths beyond the legacy
/// `MAX_PATH` limit still work. Unchanged on other platforms, for UNC or
/// already-verbatim paths, and for relative paths.
pub fn long_path(path: &str, windows: bool) -> (out: Cow<'_, str>)
    ensures
        out@ == long_path_of(path@, windows),
        out is Borrowed <==> !needs_verbatim(path@, windows),
{
    let v: Vec<char> = chars_of(path);
    let rewrite: bool = windows && !(v.len() >= 2 && v[0] == '\\' && v[1] == '\\') && v.len()
        >= 3 && (('a' <= v[0] && v[0] <= 'z') || ('A' <= v[0] && v[0] <= 'Z')) && v[1] == ':'
        && is_sep_exec(v[2]);
    if !rewrite {
        return Cow::Borrowed(path);
    }
    let mut out: Vec<char> = Vec::new();
    out.push('\\');
    out.push('\\');
    out.push('?');
    out.push('\\');
    assert(out@ =~= verbatim_prefix());
    let tail: Vec<char> = backslashed_exec(&v);
    append_chars(&mut out, &tail);
    Cow::Owned(string_of(&out))
}

// ---------------------------------------------------------------------------
// Laws
// ---------------------------------------------------------------------------

proof fn lemma_trim_end_dots_spaces(s: Seq<char>)
    ensures
        trim_end_dots_spaces(s).len() <= s.len(),
        trim_end_dots_spaces(s) == s.take(trim_end_dots_spaces(s).len() as int),
        trim_end_dots_spaces(s).len() > 0 ==> !is_dot_or_space(trim_end_dots_spaces(s).last()),
    decreases s.len(),
{
    if s.len() > 0 && is_dot_or_space(s.last()) {
        lemma_trim_end_dots_spaces(s.drop_last());
        let t = trim_end_dots_spaces(s.drop_last());
        assert(s.drop_last().take(t.len() as int) =~= s.take(t.len() as int));
    } else {
        assert(s.take(s.len() as int) =~= s);
    }
}

proof fn lemma_before_first_dot_prefixed(t: Seq<char>)
    ensures
        before_first_dot(seq!['_'] + t) == seq!['_'] + before_first_dot(t),
{
    let s = seq!['_'] + t;
    assert(s[0] == '_');
    assert(s.drop_first() =~= t);
}

proof fn lemma_underscore_not_reserved(t: Seq<char>)
    ensures
        !is_reserved_name(seq!['_'] + t),
{
    let s = seq!['_'] + t;
    let u = ascii_upper_str(s);
    assert(u[0] == '_');
    assert(u != seq!['C', 'O', 'N']);
    assert(u != seq!['P', 'R', 'N']);
    assert(u != seq!['A', 'U', 'X']);
    assert(u != seq!['N', 'U', 'L']);
    if u.len() == 4 {
        assert(u.take(3)[0] == '_');
        assert(u.take(3) != seq!['C', 'O', 'M']);
        assert(u.take(3) != seq!['L', 'P', 'T']);
    }
}

/// Off Windows a segment is written exactly as it is.
pub proof fn sanitize_is_identity_off_windows(seg: Seq<char>)
    ensures
        sanitized(seg, false) == seg,
{
}

/// On Windows a sanitized segment is non-empty, holds no illegal or control
/// character, does not end in a dot or a space, and its stem is no reserved
/// device name.
pub proof fn sanitize_windows_is_safe(seg: Seq<char>)
    ensures
        sanitized(seg, true).len() > 0,
        !is_dot_or_space(sanitized(seg, true).last()),
        forall|k: int|
            0 <= k < sanitized(seg, true).len() ==> !is_replaced(#[trigger] sanitized(seg, true)[k]),
        !is_reserved_name(before_first_dot(sanitized(seg, true))),
{
    let r = replace_illegal(seg);
    let t = trim_end_dots_spaces(r);
    lemma_trim_end_dots_spaces(r);
    assert forall|k: int| 0 <= k < t.len() implies !is_replaced(#[trigger] t[k]) by {
        assert(t[k] == r[k]);
    }
    if t.len() == 0 {
        let o = seq!['_'];
        assert(o.last() == '_');
        assert(before_first_dot(o) == seq!['_'] + before_first_dot(Seq::<char>::empty())) by {
            lemma_before_first_dot_prefixed(Seq::<char>::empty());
            assert(seq!['_'] + Seq::<char>::empty() =~= o);
        }
        lemma_underscore_not_reserved(before_first_dot(Seq::<char>::empty()));
    } else if is_reserved_name(before_first_dot(t)) {
        let o = seq!['_'] + t;
        assert(o.last() == t.last());
        assert forall|k: int| 0 <= k < o.len() implies !is_replaced(#[trigger] o[k]) by {
            if k > 0 {
                assert(o[k] == t[k - 1]);
            }
        }
        lemma_before_first_dot_prefixed(t);
        lemma_underscore_not_reserved(before_first_dot(t));
    }
}

/// Sanitizing twice is sanitizing once.
pub proof fn sanitize_is_idempotent(seg: Seq<char>, windows: bool)
    ensures
        sanitized(sanitized(seg, windows), windows) == sanitized(seg, windows),
{
    if windows {
        let o = sanitized(seg, true);
        sanitize_windows_is_safe(seg);
        assert(replace_illegal(o) =~= o);
        assert(trim_end_dots_spaces(o) == o);
    }
}

/// Sanitizing adds no path separator to a segment that has none.
pub proof fn sanitize_adds_no_separator(seg: Seq<char>, windows: bool)
    requires
        forall|k: int| 0 <= k < seg.len() ==> !is_sep(#[trigger] seg[k]),
    ensures
        forall|k: int|
            0 <= k < sanitized(seg, windows).len() ==> !is_sep(
                #[trigger] sanitized(seg, windows)[k],
            ),
{
    if windows {
        let r = replace_illegal(seg);
        let t = trim_end_dots_spaces(r);
        lemma_trim_end_dots_spaces(r);
        assert forall|k: int| 0 <= k < t.len() implies !is_sep(#[trigger] t[k]) by {
            assert(t[k] == r[k]);
        }
        let o = sanitized(seg, true);
        if t.len() > 0 && is_reserved_name(before_first_dot(t)) {
            assert forall|k: int| 0 <= k < o.len() implies !is_sep(#[trigger] o[k]) by {
                if k > 0 {
                    assert(o[k] == t[k - 1]);
                }
            }
        }
    }
}

/// `long_path` leaves everything alone off Windows.
pub proof fn long_path_is_identity_off_windows(p: Seq<char>)
    ensures
        long_path_of(p, false) == p,
{
}

/// A path in extended-length form is not rewritten again.
pub proof fn long_path_is_idempotent(p: Seq<char>, windows: bool)
    ensures
        long_path_of(long_path_of(p, windows), windows) == long_path_of(p, windows),
{
    if needs_verbatim(p, windows) {
        let o = long_path_of(p, windows);
        assert(o[0] == '\\' && o[1] == '\\');
    }
}

/// A rewritten path starts with `\\?\` and holds no `/`.
pub proof fn long_path_rewrite_shape(p: Seq<char>)
    requires
        needs_verbatim(p, true),
    ensures
        long_path_of(p, true).take(4) == verbatim_prefix(),
        forall|k: int| 0 <= k < long_path_of(p, true).len() ==> #[trigger] long_path_of(p, true)[k] != '/',
{
    let o = long_path_of(p, true);
    assert(o.take(4) =~= verbatim_prefix());
    assert forall|k: int| 0 <= k < o.len() implies #[trigger] o[k] != '/' by {
        if k >= 4 {
            assert(o[k] == backslashed(p)[k - 4]);
        }
    }
}

/// `c` is the letter `up` in either ASCII case.
pub open spec fn either_case(c: char, up: char) -> bool {
    c == up || c == ascii_lower(up)
}

/// The names of the Windows devices, in any ASCII casing: `CON`, `PRN`, `AUX`,
/// `NUL`, `COM1` to `COM9`, `LPT1` to `LPT9`.
pub open spec fn is_device_name(s: Seq<char>) -> bool {
    ||| s.len() == 3 && either_case(s[0], 'C') && either_case(s[1], 'O') && either_case(s[2], 'N')
    ||| s.len() == 3 && either_case(s[0], 'P') && either_case(s[1], 'R') && either_case(s[2], 'N')
    ||| s.len() == 3 && either_case(s[0], 'A') && either_case(s[1], 'U') && either_case(s[2], 'X')
    ||| s.len() == 3 && either_case(s[0], 'N') && either_case(s[1], 'U') && either_case(s[2], 'L')
    ||| s.len() == 4 && either_case(s[0], 'C') && either_case(s[1], 'O') && either_case(s[2], 'M')
        && '1' <= s[3] <= '9'
    ||| s.len() == 4 && either_case(s[0], 'L') && either_case(s[1], 'P') && either_case(s[2], 'T')
        && '1' <= s[3] <= '9'
}

/// A tail that may follow a device name in a file name: nothing, or an
/// extension part starting with `.` that Windows keeps as it is.
pub open spec fn is_plain_extension(ext: Seq<char>) -> bool {
    ext.len() == 0 || (ext[0] == '.' && !is_dot_or_space(ext.last()) && forall|k: int|
        0 <= k < ext.len() ==> !is_replaced(#[trigger] ext[k]))
}

proof fn lemma_device_upper(s: Seq<char>)
    requires
        is_device_name(s),
    ensures
        is_reserved_name(s),
        forall|k: int| 0 <= k < s.len() ==> s[k] != '.' && !is_replaced(#[trigger] s[k]) && !is_dot_or_space(s[k]),
{
    let u = ascii_upper_str(s);
    assert(u.len() == s.len());
    assert forall|k: int| 0 <= k < s.len() implies ('A' <= #[trigger] s[k] <= 'Z' || 'a' <= s[k] <= 'z' || '1' <= s[k] <= '9') by {
    }
    if s.len() == 3 {
        if either_case(s[0], 'C') && either_case(s[1], 'O') && either_case(s[2], 'N') {
            assert(u =~= seq!['C', 'O', 'N']);
        } else if either_case(s[0], 'P') && either_case(s[1], 'R') && either_case(s[2], 'N') {
            assert(u =~= seq!['P', 'R', 'N']);
        } else if either_case(s[0], 'A') && either_case(s[1], 'U') && either_case(s[2], 'X') {
            assert(u =~= seq!['A', 'U', 'X']);
        } else {
            assert(u =~= seq!['N', 'U', 'L']);
        }
    } else {
        assert(u[3] == s[3]);
        if either_case(s[0], 'C') {
            assert(u.take(3) =~= seq!['C', 'O', 'M']);
        } else {
            assert(u.take(3) =~= seq!['L', 'P', 'T']);
        }
    }
}

/// On Windows every device name, in any ASCII casing and with or without an
/// extension, is written with a `_` in front: `PRN` becomes `_PRN`,
/// `nul.json` becomes `_nul.json`, `Lpt9.txt` becomes `_Lpt9.txt`.
pub proof fn device_names_are_neutralized(stem: Seq<char>, ext: Seq<char>)
    requires
        is_device_name(stem),
        is_plain_extension(ext),
    ensures
        is_reserved_name(stem),
        sanitized(stem + ext, true) == seq!['_'] + (stem + ext),
{
    lemma_device_upper(stem);
    let s = stem + ext;
    assert forall|k: int| 0 <= k < s.len() implies !is_replaced(#[trigger] s[k]) by {
        if k >= stem.len() {
            assert(s[k] == ext[k - stem.len()]);
        }
    }
    assert(replace_illegal(s) =~= s);
    assert(!is_dot_or_space(s.last()));
    assert(trim_end_dots_spaces(s) == s);
    lemma_before_first_dot(s, stem.len() as int);
    assert(s.take(stem.len() as int) =~= stem);
}

} // verus!
