//! Destination paths on disk: joining the safe segments of a relative path
//! under the chosen directory, and claiming a path that no earlier file of the
//! same batch holds, case-insensitively where the file system is.
//!
//! `Path` and `PathBuf` are opaque here; what the standard library computes on
//! them is named below and reached through one small wrapper per operation.

use std::collections::HashSet;
use std::path::{Path, PathBuf};
use vstd::prelude::*;

use crate::naming::{
    dest_segments, dest_segments_compose, fallback_name, has_kept_segment, plaintext_file_name_for,
    is_clean_segment, joined, plaintext_name, posix_dest_keeps_clean_segments, safe_dest_segments,
    separators_are_interchangeable, slashed, views,
};
use crate::sanitize::{long_path, long_path_of};
use crate::text::{append_chars, chars_of, decimal, push_decimal, string_of};

verus! {

#[verifier::external_type_specification]
#[verifier::external_body]
pub struct ExPathBuf(PathBuf);

#[verifier::external_type_specification]
#[verifier::external_body]
pub struct ExPath(Path);

// ---------------------------------------------------------------------------
// Names for what the standard library computes on paths
// ---------------------------------------------------------------------------

/// `Path::to_path_buf`.
pub uninterp spec fn owned_path(p: &Path) -> PathBuf;

/// `PathBuf::push` of a segment onto a path.
pub uninterp spec fn path_pushed(base: PathBuf, seg: Seq<char>) -> PathBuf;

/// `Path::join` of a path and a name.
pub uninterp spec fn path_joined(dir: PathBuf, name: Seq<char>) -> PathBuf;

/// `Path::to_string_lossy`.
pub uninterp spec fn path_text(p: PathBuf) -> Seq<char>;

/// `Path::parent`.
pub uninterp spec fn parent_dir(p: PathBuf) -> Option<PathBuf>;

/// `Path::file_stem`, where it is valid UTF-8.
pub uninterp spec fn stem_of(p: PathBuf) -> Option<Seq<char>>;

/// `Path::extension`, where it is valid UTF-8.
pub uninterp spec fn extension_of(p: PathBuf) -> Option<Seq<char>>;

/// `str::to_lowercase` (full Unicode lower-casing).
pub uninterp spec fn lowercased(s: Seq<char>) -> Seq<char>;

/// `Path::file_name`, where it is valid UTF-8.
pub uninterp spec fn file_name_of(p: &Path) -> Option<Seq<char>>;

/// `Path::with_file_name`.
pub uninterp spec fn path_with_name(p: &Path, name: Seq<char>) -> PathBuf;

/// `PathBuf::from` a string.
pub uninterp spec fn path_from_text(s: Seq<char>) -> PathBuf;

/// The strings a `HashSet<String>` holds.
pub uninterp spec fn claimed_keys(set: HashSet<String>) -> Set<Seq<char>>;

// ---------------------------------------------------------------------------
// Wrappers
// ---------------------------------------------------------------------------

/// `std::path::MAIN_SEPARATOR`: `\` on Windows, where `\` separates path
/// components, and `/` on Unix, where only `/` does. The contract says just
/// that: the separator is `\` exactly on the platform whose paths split at `\`
/// (where `Path` takes `b` as the stem of `a\b`).
#[verifier::external_body]
pub(crate) fn main_separator() -> (c: char)
    ensures
        (c == '\\') == host_is_windows(),
{
    std::path::MAIN_SEPARATOR
}

/// Calls `Path::to_path_buf`.
#[verifier::external_body]
fn to_path_buf(p: &Path) -> (out: PathBuf)
    ensures
        out == owned_path(p),
{
    p.to_path_buf()
}

/// Calls `PathBuf::push`.
#[verifier::external_body]
fn push_segment(p: &mut PathBuf, seg: &str)
    ensures
        *final(p) == path_pushed(*old(p), seg@),
{
    p.push(seg)
}

/// Calls `PathBuf::from` on a string.
#[verifier::external_body]
fn path_from(s: String) -> (out: PathBuf)
    ensures
        out == path_from_text(s@),
{
    PathBuf::from(s)
}

/// Calls `Path::join`.
#[verifier::external_body]
fn join_name(dir: &PathBuf, name: &str) -> (out: PathBuf)
    ensures
        out == path_joined(*dir, name@),
{
    dir.join(name)
}

/// Calls `Path::to_string_lossy`, owned.
#[verifier::external_body]
fn lossy_text(p: &PathBuf) -> (out: String)
    ensures
        out@ == path_text(*p),
{
    p.to_string_lossy().to_string()
}

/// Calls `Path::parent`, owned.
#[verifier::external_body]
fn parent_of(p: &PathBuf) -> (out: Option<PathBuf>)
    ensures
        match out {
            Some(d) => parent_dir(*p) == Some(d),
            None => parent_dir(*p) is None,
        },
{
    p.parent().map(Path::to_path_buf)
}

/// Calls `Path::file_stem`; `None` also where the stem is not valid UTF-8.
#[verifier::external_body]
fn file_stem_text(p: &PathBuf) -> (out: Option<String>)
    ensures
        match out {
            Some(s) => stem_of(*p) == Some(s@),
            None => stem_of(*p) is None,
        },
{
    p.file_stem().and_then(|s| s.to_str()).map(str::to_string)
}

/// Calls `Path::extension`; `None` also where the extension is not valid UTF-8.
#[verifier::external_body]
fn extension_text(p: &PathBuf) -> (out: Option<String>)
    ensures
        match out {
            Some(s) => extension_of(*p) == Some(s@),
            None => extension_of(*p) is None,
        },
{
    p.extension().and_then(|s| s.to_str()).map(str::to_string)
}

/// Calls `Path::file_name`; `None` also where the name is not valid UTF-8.
#[verifier::external_body]
pub(crate) fn file_name_text(p: &Path) -> (out: Option<String>)
    ensures
        match out {
            Some(s) => file_name_of(p) == Some(s@),
            None => file_name_of(p) is None,
        },
{
    p.file_name().and_then(|s| s.to_str()).map(str::to_string)
}

/// Calls `Path::with_file_name`.
#[verifier::external_body]
pub(crate) fn with_file_name(p: &Path, name: &str) -> (out: PathBuf)
    ensures
        out == path_with_name(p, name@),
{
    p.with_file_name(name)
}

/// Calls `str::to_lowercase`.
#[verifier::external_body]
fn to_lowercase(s: &str) -> (out: String)
    ensures
        out@ == lowercased(s@),
{
    s.to_lowercase()
}

/// Calls `HashSet::new`: a set that holds nothing.
#[verifier::external_body]
fn new_claims() -> (out: HashSet<String>)
    ensures
        claimed_keys(out) == Set::<Seq<char>>::empty(),
{
    HashSet::new()
}

/// Calls `HashSet::insert`: the key is held afterwards, and the result says
/// whether it was new (an already held key leaves the set as it was).
#[verifier::external_body]
fn claim_key(set: &mut HashSet<String>, key: String) -> (fresh: bool)
    ensures
        fresh == !claimed_keys(*old(set)).contains(key@),
        claimed_keys(*final(set)) == claimed_keys(*old(set)).insert(key@),
{
    set.insert(key)
}

// ---------------------------------------------------------------------------
// Specification
// ---------------------------------------------------------------------------

/// The build target is Windows: its paths split at `\`, so the stem of `a\b`
/// is `b` (on Unix it is the whole `a\b`).
pub open spec fn host_is_windows() -> bool {
    stem_of(path_from_text(seq!['a', '\\', 'b'])) == Some(seq!['b'])
}

/// `base` with each of `segs` pushed in turn.
pub open spec fn pushed_all(base: PathBuf, segs: Seq<Seq<char>>) -> PathBuf
    decreases segs.len(),
{
    if segs.len() == 0 {
        base
    } else {
        path_pushed(pushed_all(base, segs.drop_last()), segs.last())
    }
}

/// The destination path of `rel` under `dest_dir` on a host that is Windows or not.
pub open spec fn dest_path(dest_dir: &Path, rel: Seq<char>, windows: bool) -> PathBuf {
    pushed_all(owned_path(dest_dir), dest_segments(rel, windows))
}

/// The key under which a path is claimed: its text, lower-cased where the
/// comparison is case-insensitive.
pub open spec fn path_key(p: PathBuf, ci: bool) -> Seq<char> {
    if ci {
        lowercased(path_text(p))
    } else {
        path_text(p)
    }
}

/// `{stem} ({n}).{ext}`, or `{stem} ({n})` without an extension.
pub open spec fn numbered_name(stem: Seq<char>, n: nat, ext: Option<Seq<char>>) -> Seq<char> {
    let base = stem + seq![' ', '('] + decimal(n) + seq![')'];
    match ext {
        Some(e) => base + seq!['.'] + e,
        None => base,
    }
}

/// The directory numbered alternatives of `path` go in: its parent, or the
/// empty path when it has none.
pub open spec fn dir_of(path: PathBuf) -> PathBuf {
    match parent_dir(path) {
        Some(d) => d,
        None => path_from_text(Seq::<char>::empty()),
    }
}

/// The `n`-th alternative to `path`: in the same directory, its stem (or
/// `download`) numbered `n`, its extension kept.
pub open spec fn numbered_path(path: PathBuf, n: nat) -> PathBuf {
    let stem = match stem_of(path) {
        Some(s) => s,
        None => fallback_name(),
    };
    path_joined(dir_of(path), numbered_name(stem, n, extension_of(path)))
}

/// What `claim_unique` does with `path` against the keys `held`: the path
/// itself when its key is free; else the first numbered alternative, from 2
/// on, whose key is free; `n` is that number, `resulting` the keys afterwards.
pub open spec fn claims(
    path: PathBuf,
    ci: bool,
    held: Set<Seq<char>>,
    out: PathBuf,
    resulting: Set<Seq<char>>,
) -> bool {
    if !held.contains(path_key(path, ci)) {
        out == path && resulting == held.insert(path_key(path, ci))
    } else {
        exists|n: nat|
            #![trigger numbered_path(path, n)]
            {
                &&& 2 <= n <= u32::MAX
                &&& out == numbered_path(path, n)
                &&& forall|m: nat|
                    2 <= m < n ==> held.contains(#[trigger] path_key(numbered_path(path, m), ci))
                &&& if !held.contains(path_key(numbered_path(path, n), ci)) {
                    resulting == held.insert(path_key(numbered_path(path, n), ci))
                } else {
                    n == u32::MAX && resulting == held
                }
            }
    }
}

// ---------------------------------------------------------------------------
// Implementation
// ---------------------------------------------------------------------------

/// `safe_dest_path` for a host that is Windows or not.
pub fn safe_dest_path_for(dest_dir: &Path, rel_path: &str, windows: bool) -> (out: PathBuf)
    ensures
        out == dest_path(dest_dir, rel_path@, windows),
{
    let segs: Vec<String> = safe_dest_segments(rel_path, windows);
    let ghost target = dest_segments(rel_path@, windows);
    let mut out: PathBuf = to_path_buf(dest_dir);
    let mut i: usize = 0;
    assert(target.take(0) =~= Seq::<Seq<char>>::empty());
    while i < segs.len()
        invariant
            i <= segs.len(),
            views(segs@) == target,
            out == pushed_all(owned_path(dest_dir), target.take(i as int)),
        decreases segs.len() - i,
    {
        assert(segs@[i as int]@ == target[i as int]);
        push_segment(&mut out, segs[i].as_str());
        assert(target.take(i + 1).drop_last() =~= target.take(i as int));
        i = i + 1;
    }
    assert(target.take(segs.len() as int) =~= target);
    out
}

/// Join a frontend-supplied relative path onto `dest_dir`, preserving folder
/// structure while making escape impossible: each segment is split on `/` and
/// `\`, empty / `.` / `..` segments are dropped and each surviving segment is
/// sanitized for the host file system; with nothing left, `download` is used.
/// The caller strips `.age` from the final segment.
pub fn safe_dest_path(dest_dir: &Path, rel_path: &str) -> (out: PathBuf)
    ensures
        out == dest_path(dest_dir, rel_path@, host_is_windows()),
{
    let windows: bool = main_separator() == '\\';
    safe_dest_path_for(dest_dir, rel_path, windows)
}

fn key_of(p: &PathBuf, ci: bool) -> (out: String)
    ensures
        out@ == path_key(*p, ci),
{
    let text: String = lossy_text(p);
    if ci {
        to_lowercase(text.as_str())
    } else {
        text
    }
}

fn numbered(dir: &PathBuf, stem: &Vec<char>, n: u32, ext: &Option<String>) -> (out: PathBuf)
    ensures
        out == path_joined(
            *dir,
            numbered_name(
                stem@,
                n as nat,
                match ext {
                    Some(e) => Some(e@),
                    None => None,
                },
            ),
        ),
{
    let mut name: Vec<char> = Vec::new();
    append_chars(&mut name, stem);
    name.push(' ');
    name.push('(');
    push_decimal(&mut name, n as u64);
    name.push(')');
    let ghost base = stem@ + seq![' ', '('] + decimal(n as nat) + seq![')'];
    assert(name@ =~= base);
    match ext {
        Some(e) => {
            name.push('.');
            let ev: Vec<char> = chars_of(e.as_str());
            append_chars(&mut name, &ev);
            assert(name@ =~= base + seq!['.'] + e@);
        },
        None => {},
    }
    let s: String = string_of(&name);
    join_name(dir, s.as_str())
}

fn stem_or_fallback(p: &PathBuf) -> (out: Vec<char>)
    ensures
        out@ == match stem_of(*p) {
            Some(s) => s,
            None => fallback_name(),
        },
{
    match file_stem_text(p) {
        Some(s) => chars_of(s.as_str()),
        None => {
            let mut out: Vec<char> = Vec::new();
            out.push('d');
            out.push('o');
            out.push('w');
            out.push('n');
            out.push('l');
            out.push('o');
            out.push('a');
            out.push('d');
            assert(out@ =~= fallback_name());
            out
        },
    }
}

/// Disambiguate `path` against the destination paths already claimed in this
/// batch, so two keys that map to the same on-disk name do not overwrite each
/// other: a collision gets a ` (n)` suffix before the extension, counting from
/// 2. `ci` selects case-insensitive comparison (macOS/Windows file systems).
pub fn claim_unique(path: PathBuf, ci: bool, claimed: &mut HashSet<String>) -> (out: PathBuf)
    ensures
        claims(path, ci, claimed_keys(*old(claimed)), out, claimed_keys(*final(claimed))),
{
    let ghost held = claimed_keys(*old(claimed));
    let key: String = key_of(&path, ci);
    if claim_key(claimed, key) {
        return path;
    }
    let dir: PathBuf = match parent_of(&path) {
        Some(d) => d,
        None => path_from(String::new()),
    };
    let stem: Vec<char> = stem_or_fallback(&path);
    let ext: Option<String> = extension_text(&path);
    let mut n: u32 = 2;
    loop
        invariant
            2 <= n <= u32::MAX,
            held == claimed_keys(*old(claimed)),
            held.contains(path_key(path, ci)),
            claimed_keys(*claimed) == held,
            dir == dir_of(path),
            stem@ == match stem_of(path) {
                Some(s) => s,
                None => fallback_name(),
            },
            match ext {
                Some(e) => extension_of(path) == Some(e@),
                None => extension_of(path) is None,
            },
            forall|m: nat| 2 <= m < n ==> held.contains(#[trigger] path_key(numbered_path(path, m), ci)),
        decreases u32::MAX - n,
    {
        let candidate: PathBuf = numbered(&dir, &stem, n, &ext);
        assert(candidate == numbered_path(path, n as nat));
        let k: String = key_of(&candidate, ci);
        if claim_key(claimed, k) {
            assert(claims(path, ci, held, candidate, claimed_keys(*claimed)));
            return candidate;
        }
        if n == u32::MAX {
            assert(held.insert(k@) =~= held);
            assert(claims(path, ci, held, candidate, claimed_keys(*claimed)));
            return candidate;
        }
        n = n + 1;
    }
}

/// `unique_dest_path` for a host that is Windows or not: `claim_unique` of
/// `safe_dest_path_for`.
pub fn unique_dest_path_for(
    dest_dir: &Path,
    rel_path: &str,
    windows: bool,
    case_insensitive: bool,
    claimed: &mut HashSet<String>,
) -> (out: PathBuf)
    ensures
        claims(
            dest_path(dest_dir, rel_path@, windows),
            case_insensitive,
            claimed_keys(*old(claimed)),
            out,
            claimed_keys(*final(claimed)),
        ),
{
    let base: PathBuf = safe_dest_path_for(dest_dir, rel_path, windows);
    claim_unique(base, case_insensitive, claimed)
}

/// Like `safe_dest_path`, but also de-duplicated against `claimed`, so a batch
/// download never has two files collapse onto one path. Call once per file of
/// a batch with a shared `claimed` set; `case_insensitive` says whether the
/// destination file system ignores case.
pub fn unique_dest_path(
    dest_dir: &Path,
    rel_path: &str,
    case_insensitive: bool,
    claimed: &mut HashSet<String>,
) -> (out: PathBuf)
    ensures
        claims(
                dest_path(dest_dir, rel_path@, host_is_windows()),
                case_insensitive,
                claimed_keys(*old(claimed)),
                out,
                claimed_keys(*final(claimed)),
            ),
{
    let windows: bool = main_separator() == '\\';
    unique_dest_path_for(dest_dir, rel_path, windows, case_insensitive, claimed)
}

/// The destination paths of `rels` under `dest_dir`.
pub open spec fn dest_paths(dest_dir: &Path, rels: Seq<Seq<char>>, windows: bool) -> Seq<PathBuf> {
    rels.map_values(|r: Seq<char>| dest_path(dest_dir, r, windows))
}

/// A run of claims: claim `i` takes `paths[i]` against the keys `sets[i]`,
/// returns `outs[i]` and leaves the keys `sets[i + 1]`.
pub open spec fn claim_run(
    paths: Seq<PathBuf>,
    ci: bool,
    sets: Seq<Set<Seq<char>>>,
    outs: Seq<PathBuf>,
) -> bool {
    &&& sets.len() == paths.len() + 1
    &&& outs.len() == paths.len()
    &&& forall|i: int|
        0 <= i < paths.len() ==> claims(#[trigger] paths[i], ci, sets[i], outs[i], sets[i + 1])
}

/// The destinations of a whole batch `rel_paths` under `dest_dir`, each
/// claimed in turn against the destinations before it, starting from nothing.
pub fn unique_dest_paths(dest_dir: &Path, rel_paths: &Vec<String>, case_insensitive: bool) -> (out: Vec<PathBuf>)
    ensures
        exists|sets: Seq<Set<Seq<char>>>|
            #[trigger] claim_run(
                dest_paths(dest_dir, views(rel_paths@), host_is_windows()),
                case_insensitive,
                sets,
                out@,
            ) && sets[0] == Set::<Seq<char>>::empty(),
{
    let windows: bool = main_separator() == '\\';
    let mut claimed: HashSet<String> = new_claims();
    let mut out: Vec<PathBuf> = Vec::new();
    let ghost paths = dest_paths(dest_dir, views(rel_paths@), windows);
    let ghost mut sets: Seq<Set<Seq<char>>> = seq![Set::<Seq<char>>::empty()];
    let mut i: usize = 0;
    while i < rel_paths.len()
        invariant
            i <= rel_paths.len(),
            paths == dest_paths(dest_dir, views(rel_paths@), windows),
            sets.len() == i + 1,
            out@.len() == i,
            sets[0] == Set::<Seq<char>>::empty(),
            sets[i as int] == claimed_keys(claimed),
            forall|k: int|
                0 <= k < i ==> claims(#[trigger] paths[k], case_insensitive, sets[k], out@[k], sets[k + 1]),
        decreases rel_paths.len() - i,
    {
        assert(paths[i as int] == dest_path(dest_dir, rel_paths@[i as int]@, windows));
        let p: PathBuf = unique_dest_path_for(dest_dir, rel_paths[i].as_str(), windows, case_insensitive, &mut claimed);
        proof {
            sets = sets.push(claimed_keys(claimed));
        }
        out.push(p);
        i = i + 1;
    }
    assert(claim_run(paths, case_insensitive, sets, out@));
    out
}

// ---------------------------------------------------------------------------
// Laws
// ---------------------------------------------------------------------------

/// A claim leaves the returned path's key held. Either that key was free
/// before and is the one key added, or (only when every alternative up to
/// `u32::MAX` was taken, where the search cannot go on) nothing changed.
pub proof fn claim_holds_result(
    path: PathBuf,
    ci: bool,
    held: Set<Seq<char>>,
    out: PathBuf,
    resulting: Set<Seq<char>>,
)
    requires
        claims(path, ci, held, out, resulting),
    ensures
        resulting.contains(path_key(out, ci)),
        (!held.contains(path_key(out, ci)) && resulting == held.insert(path_key(out, ci)))
            || resulting == held,
{
    if held.contains(path_key(path, ci)) {
        let n = choose|n: nat|
            #![trigger numbered_path(path, n)]
            {
                &&& 2 <= n <= u32::MAX
                &&& out == numbered_path(path, n)
                &&& forall|m: nat|
                    2 <= m < n ==> held.contains(#[trigger] path_key(numbered_path(path, m), ci))
                &&& if !held.contains(path_key(numbered_path(path, n), ci)) {
                    resulting == held.insert(path_key(numbered_path(path, n), ci))
                } else {
                    n == u32::MAX && resulting == held
                }
            };
        assert(out == numbered_path(path, n));
    }
}

/// Two files of one batch never share a destination: when a later claim adds
/// a key, that key differs from the key of every earlier claim's path.
pub proof fn successive_claims_differ(
    first: PathBuf,
    second: PathBuf,
    ci: bool,
    start: Set<Seq<char>>,
    out1: PathBuf,
    mid: Set<Seq<char>>,
    out2: PathBuf,
    end: Set<Seq<char>>,
)
    requires
        claims(first, ci, start, out1, mid),
        claims(second, ci, mid, out2, end),
        end != mid,
    ensures
        path_key(out1, ci) != path_key(out2, ci),
{
    claim_holds_result(first, ci, start, out1, mid);
    claim_holds_result(second, ci, mid, out2, end);
}

/// Claim `k` of a run added a key (it did not find every numbered
/// alternative taken).
pub open spec fn claim_added(sets: Seq<Set<Seq<char>>>, k: int) -> bool {
    sets[k + 1] != sets[k]
}

proof fn lemma_pushed_all_concat(base: PathBuf, s1: Seq<Seq<char>>, s2: Seq<Seq<char>>)
    ensures
        pushed_all(base, s1 + s2) == pushed_all(pushed_all(base, s1), s2),
    decreases s2.len(),
{
    if s2.len() == 0 {
        assert(s1 + s2 =~= s1);
    } else {
        lemma_pushed_all_concat(base, s1, s2.drop_last());
        assert((s1 + s2).drop_last() =~= s1 + s2.drop_last());
        assert((s1 + s2).last() == s2.last());
    }
}

/// The destination of `a/b` is the destination of `b` joined under the
/// destination of `a`, when each of `a` and `b` keeps a segment.
pub proof fn dest_path_composes(dest_dir: &Path, a: Seq<char>, b: Seq<char>, windows: bool)
    requires
        has_kept_segment(a, windows),
        has_kept_segment(b, windows),
    ensures
        dest_path(dest_dir, a + seq!['/'] + b, windows) == pushed_all(
            dest_path(dest_dir, a, windows),
            dest_segments(b, windows),
        ),
{
    dest_segments_compose(a, b, windows);
    lemma_pushed_all_concat(owned_path(dest_dir), dest_segments(a, windows), dest_segments(b, windows));
}

/// `/` and `\\` lead to the same destination.
pub proof fn dest_path_ignores_separator_kind(dest_dir: &Path, rel: Seq<char>, windows: bool)
    ensures
        dest_path(dest_dir, slashed(rel), windows) == dest_path(dest_dir, rel, windows),
{
    separators_are_interchangeable(rel, windows);
}

/// The first claim of a batch (nothing held yet) returns the path itself and
/// holds exactly its key.
pub proof fn first_claim_keeps_path(path: PathBuf, ci: bool, out: PathBuf, resulting: Set<Seq<char>>)
    requires
        claims(path, ci, Set::<Seq<char>>::empty(), out, resulting),
    ensures
        out == path,
        resulting == Set::<Seq<char>>::empty().insert(path_key(path, ci)),
{
}

/// Off Windows, the first file of a batch whose relative path is made of clean
/// segments lands on the destination directory with exactly those segments
/// pushed: `logs/12:00/a.txt` under `/dest` is `/dest` + `logs` + `12:00` +
/// `a.txt`, nothing sanitized.
pub proof fn posix_first_destination_is_verbatim(
    dest_dir: &Path,
    segs: Seq<Seq<char>>,
    ci: bool,
    out: PathBuf,
    resulting: Set<Seq<char>>,
)
    requires
        segs.len() > 0,
        forall|i: int| 0 <= i < segs.len() ==> is_clean_segment(#[trigger] segs[i]),
        claims(dest_path(dest_dir, joined(segs), false), ci, Set::<Seq<char>>::empty(), out, resulting),
    ensures
        out == pushed_all(owned_path(dest_dir), segs),
{
    posix_dest_keeps_clean_segments(segs);
}

/// The same for the first file of a whole batch run off Windows.
pub proof fn posix_batch_first_is_verbatim(
    dest_dir: &Path,
    rels: Seq<Seq<char>>,
    segs: Seq<Seq<char>>,
    ci: bool,
    sets: Seq<Set<Seq<char>>>,
    outs: Seq<PathBuf>,
)
    requires
        rels.len() > 0,
        rels[0] == joined(segs),
        segs.len() > 0,
        forall|i: int| 0 <= i < segs.len() ==> is_clean_segment(#[trigger] segs[i]),
        claim_run(dest_paths(dest_dir, rels, false), ci, sets, outs),
        sets[0] == Set::<Seq<char>>::empty(),
    ensures
        outs[0] == pushed_all(owned_path(dest_dir), segs),
{
    let paths = dest_paths(dest_dir, rels, false);
    assert(paths[0] == dest_path(dest_dir, joined(segs), false));
    assert(claims(paths[0], ci, sets[0], outs[0], sets[1]));
    posix_first_destination_is_verbatim(dest_dir, segs, ci, outs[0], sets[1]);
}

/// The keys of the paths `outs`.
pub open spec fn keys_of(outs: Seq<PathBuf>, ci: bool) -> Set<Seq<char>> {
    Set::new(|k: Seq<char>| exists|j: int| 0 <= j < outs.len() && k == path_key(outs[j], ci))
}

proof fn lemma_run_sets(
    paths: Seq<PathBuf>,
    ci: bool,
    sets: Seq<Set<Seq<char>>>,
    outs: Seq<PathBuf>,
    i: int,
)
    requires
        claim_run(paths, ci, sets, outs),
        forall|k: int| 0 <= k < paths.len() ==> #[trigger] claim_added(sets, k),
        0 <= i <= paths.len(),
    ensures
        sets[i] == sets[0].union(keys_of(outs.take(i), ci)),
        forall|k: int| 0 <= k < i ==> !(#[trigger] sets[k]).contains(path_key(outs[k], ci)) && sets[k + 1] == sets[k].insert(path_key(outs[k], ci)),
    decreases i,
{
    if i == 0 {
        assert(keys_of(outs.take(0), ci) =~= Set::<Seq<char>>::empty());
        assert(sets[0].union(Set::<Seq<char>>::empty()) =~= sets[0]);
    } else {
        lemma_run_sets(paths, ci, sets, outs, i - 1);
        let k = i - 1;
        assert(claim_added(sets, k));
        assert(claims(paths[k], ci, sets[k], outs[k], sets[k + 1]));
        claim_holds_result(paths[k], ci, sets[k], outs[k], sets[k + 1]);
        let key = path_key(outs[k], ci);
        assert(keys_of(outs.take(i), ci) =~= keys_of(outs.take(k), ci).insert(key)) by {
            assert forall|x: Seq<char>| keys_of(outs.take(i), ci).contains(x) implies keys_of(outs.take(k), ci).insert(key).contains(x) by {
                let j = choose|j: int| 0 <= j < outs.take(i).len() && x == path_key(outs.take(i)[j], ci);
                if j < k {
                    assert(outs.take(k)[j] == outs.take(i)[j]);
                }
            }
            assert forall|x: Seq<char>| keys_of(outs.take(k), ci).insert(key).contains(x) implies keys_of(outs.take(i), ci).contains(x) by {
                if x == key {
                    assert(outs.take(i)[k] == outs[k]);
                } else {
                    let j = choose|j: int| 0 <= j < outs.take(k).len() && x == path_key(outs.take(k)[j], ci);
                    assert(outs.take(i)[j] == outs.take(k)[j]);
                }
            }
        }
        assert(sets[i] =~= sets[0].union(keys_of(outs.take(i), ci)));
    }
}

/// A batch of claims never puts two files on one destination: the keys of
/// the returned paths are pairwise distinct and none was held at the start;
/// the keys held after `i` claims are those at the start and the first `i`
/// returned keys; and a path is returned unchanged whenever its key is held
/// neither at the start nor by an earlier result. This holds unless some claim
/// found every numbered alternative up to `u32::MAX` taken (then that claim
/// leaves the keys unchanged).
pub proof fn batch_claims_are_distinct(
    paths: Seq<PathBuf>,
    ci: bool,
    sets: Seq<Set<Seq<char>>>,
    outs: Seq<PathBuf>,
)
    requires
        claim_run(paths, ci, sets, outs),
        forall|k: int| 0 <= k < paths.len() ==> #[trigger] claim_added(sets, k),
    ensures
        forall|i: int, j: int|
            0 <= i < j < outs.len() ==> path_key(#[trigger] outs[i], ci) != path_key(#[trigger] outs[j], ci),
        forall|i: int| 0 <= i < outs.len() ==> !sets[0].contains(path_key(#[trigger] outs[i], ci)),
        forall|i: int| 0 <= i <= outs.len() ==> #[trigger] sets[i] == sets[0].union(keys_of(outs.take(i), ci)),
        forall|i: int|
            0 <= i < paths.len() && !sets[0].contains(path_key(#[trigger] paths[i], ci)) && (forall|j: int|
                0 <= j < i ==> path_key(outs[j], ci) != path_key(paths[i], ci)) ==> outs[i] == paths[i],
{
    let n = paths.len() as int;
    lemma_run_sets(paths, ci, sets, outs, n);
    assert forall|i: int| 0 <= i <= outs.len() implies #[trigger] sets[i] == sets[0].union(keys_of(outs.take(i), ci)) by {
        lemma_run_sets(paths, ci, sets, outs, i);
    }
    assert forall|i: int, j: int| 0 <= i < j < outs.len() implies path_key(#[trigger] outs[i], ci) != path_key(#[trigger] outs[j], ci) by {
        lemma_run_sets(paths, ci, sets, outs, j);
        assert(outs.take(j)[i] == outs[i]);
        assert(keys_of(outs.take(j), ci).contains(path_key(outs[i], ci)));
    }
    assert forall|i: int| 0 <= i < outs.len() implies !sets[0].contains(path_key(#[trigger] outs[i], ci)) by {
        lemma_run_sets(paths, ci, sets, outs, i);
    }
    assert forall|i: int|
        0 <= i < paths.len() && !sets[0].contains(path_key(#[trigger] paths[i], ci)) && (forall|j: int|
            0 <= j < i ==> path_key(outs[j], ci) != path_key(paths[i], ci)) implies outs[i] == paths[i] by {
        lemma_run_sets(paths, ci, sets, outs, i);
        if keys_of(outs.take(i), ci).contains(path_key(paths[i], ci)) {
            let j = choose|j: int| 0 <= j < outs.take(i).len() && path_key(paths[i], ci) == path_key(outs.take(i)[j], ci);
            assert(outs.take(i)[j] == outs[j]);
        }
        assert(claims(paths[i], ci, sets[i], outs[i], sets[i + 1]));
    }
}

/// Derive a safe output file name from an object key: the last path segment
/// (splitting on both `/` and `\`), without a single trailing `.age`, with
/// path-traversal and empty names rejected, sanitized for the host file
/// system. A key like `..\..\evil.age` can never escape the destination.
pub fn plaintext_file_name(key: &str) -> (out: String)
    ensures
        out@ == plaintext_name(key@, host_is_windows()),
{
    let windows: bool = main_separator() == '\\';
    plaintext_file_name_for(key, windows)
}

/// The path actually handed to file-system calls: extended-length on Windows
/// (see `long_path`), unchanged elsewhere.
pub fn fs_path(path: &Path) -> (out: PathBuf)
    ensures
        out == path_from_text(long_path_of(path_text(owned_path(path)), host_is_windows())),
{
    let windows: bool = main_separator() == '\\';
    let owned: PathBuf = to_path_buf(path);
    let text: String = lossy_text(&owned);
    let long = long_path(text.as_str(), windows);
    let s: String = cow_into_owned(long);
    path_from(s)
}

/// `Cow::into_owned` for strings.
fn cow_into_owned(c: std::borrow::Cow<'_, str>) -> (out: String)
    ensures
        out@ == c@,
{
    match c {
        std::borrow::Cow::Borrowed(b) => b.to_owned(),
        std::borrow::Cow::Owned(o) => o,
    }
}

/// `profiles.json` under the configuration directory.
pub fn profiles_path(config_dir: &Path) -> (out: PathBuf)
    ensures
        out == path_joined(owned_path(config_dir), seq!['p', 'r', 'o', 'f', 'i', 'l', 'e', 's', '.', 'j', 's', 'o', 'n']),
{
    let dir: PathBuf = to_path_buf(config_dir);
    let name: &str = "profiles.json";
    proof {
        reveal_strlit("profiles.json");
        assert(name@ =~= seq!['p', 'r', 'o', 'f', 'i', 'l', 'e', 's', '.', 'j', 's', 'o', 'n']);
    }
    join_name(&dir, name)
}

} // verus!
