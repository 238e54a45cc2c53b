//! From object keys to local names: the plaintext file name of an object, and
//! the safe relative segments of a frontend-supplied path. No result of this
//! module can name a parent or current directory or hold a separator.

use vstd::prelude::*;

use crate::sanitize::{
    device_names_are_neutralized, is_device_name, is_plain_extension,
    sanitize_adds_no_separator, sanitize_chars, sanitize_windows_is_safe, sanitized,
};
use crate::text::{
    chars_of, copy_range, is_dot_name, is_dot_name_exec, is_sep, is_sep_exec,
    lemma_split_seps_nonempty, lemma_split_seps_pieces, lemma_split_seps_step, split_seps, string_of, trim_end_ws,
    trim_start_ws, trim_ws, trim_ws_exec, is_white_space,
};

verus! {

// ---------------------------------------------------------------------------
// Specification
// ---------------------------------------------------------------------------

/// `download`: the name used when a key yields nothing usable.
pub open spec fn fallback_name() -> Seq<char> {
    seq!['d', 'o', 'w', 'n', 'l', 'o', 'a', 'd']
}

/// The last non-empty piece, if any.
pub open spec fn last_nonempty(pieces: Seq<Seq<char>>) -> Option<Seq<char>>
    decreases pieces.len(),
{
    if pieces.len() == 0 {
        None
    } else if pieces.last().len() > 0 {
        Some(pieces.last())
    } else {
        last_nonempty(pieces.drop_last())
    }
}

/// The `.age` suffix.
pub open spec fn age_suffix() -> Seq<char> {
    seq!['.', 'a', 'g', 'e']
}

/// `s.strip_suffix(".age").unwrap_or(s)`.
pub open spec fn strip_age(s: Seq<char>) -> Seq<char> {
    if s.len() >= 4 && s.skip(s.len() - 4) == age_suffix() {
        s.take(s.len() - 4)
    } else {
        s
    }
}

/// `s` with every separator removed.
pub open spec fn remove_seps(s: Seq<char>) -> Seq<char>
    decreases s.len(),
{
    if s.len() == 0 {
        s
    } else if is_sep(s.last()) {
        remove_seps(s.drop_last())
    } else {
        remove_seps(s.drop_last()).push(s.last())
    }
}

/// The name an object is saved under before host sanitizing: the last
/// non-empty segment of the key (the whole key when there is none), without
/// one trailing `.age`, separators and surrounding white space; `download`
/// when that leaves nothing, `.` or `..`.
pub open spec fn plaintext_base(key: Seq<char>) -> Seq<char> {
    let last = match last_nonempty(split_seps(key)) {
        Some(p) => p,
        None => key,
    };
    let cleaned = trim_ws(remove_seps(strip_age(last)));
    if cleaned.len() == 0 || is_dot_name(cleaned) {
        fallback_name()
    } else {
        cleaned
    }
}

/// The plaintext file name of `key` for a host that is Windows or not.
pub open spec fn plaintext_name(key: Seq<char>, windows: bool) -> Seq<char> {
    sanitized(plaintext_base(key), windows)
}

/// What becomes of one raw segment of a relative path: trimmed, dropped when
/// empty, `.` or `..`, sanitized, and dropped again when that leaves an empty,
/// `.` or `..` name.
pub open spec fn keep_segment(raw: Seq<char>, windows: bool) -> Option<Seq<char>> {
    let seg = trim_ws(raw);
    if seg.len() == 0 || is_dot_name(seg) {
        None
    } else {
        let safe = sanitized(seg, windows);
        if safe.len() == 0 || is_dot_name(safe) {
            None
        } else {
            Some(safe)
        }
    }
}

/// The kept segments of `pieces`, in order.
pub open spec fn kept_segments(pieces: Seq<Seq<char>>, windows: bool) -> Seq<Seq<char>>
    decreases pieces.len(),
{
    if pieces.len() == 0 {
        Seq::empty()
    } else {
        let prev = kept_segments(pieces.drop_last(), windows);
        match keep_segment(pieces.last(), windows) {
            Some(s) => prev.push(s),
            None => prev,
        }
    }
}

/// The segments pushed under the destination directory for `rel`: its kept
/// segments, or `download` alone when none is kept.
pub open spec fn dest_segments(rel: Seq<char>, windows: bool) -> Seq<Seq<char>> {
    let kept = kept_segments(split_seps(rel), windows);
    if kept.len() == 0 {
        seq![fallback_name()]
    } else {
        kept
    }
}

/// The character views of a sequence of strings.
pub open spec fn views(v: Seq<String>) -> Seq<Seq<char>> {
    v.map_values(|s: String| s@)
}

/// A name that stays inside the directory it is created in: non-empty, not
/// `.` or `..`, and without a separator.
pub open spec fn is_contained_name(s: Seq<char>) -> bool {
    &&& s.len() > 0
    &&& !is_dot_name(s)
    &&& forall|k: int| 0 <= k < s.len() ==> !is_sep(#[trigger] s[k])
}

// ---------------------------------------------------------------------------
// Implementation
// ---------------------------------------------------------------------------

fn fallback_vec() -> (out: Vec<char>)
    ensures
        out@ == fallback_name(),
{
    let mut out: Vec<char> = Vec::new();
    out.push('d');
    out.push('o');
    out.push('w');
    out.push('n');
    out.push('l');
    out.push('o');
    out.push('a');
    out.push('d');
    assert(out@ =~= fallback_name());
    out
}

fn strip_age_exec(v: &Vec<char>) -> (out: Vec<char>)
    ensures
        out@ == strip_age(v@),
{
    let n: usize = v.len();
    if n >= 4 && v[n - 4] == '.' && v[n - 3] == 'a' && v[n - 2] == 'g' && v[n - 1] == 'e' {
        assert(v@.skip(n - 4) =~= age_suffix());
        assert(v@.take(n - 4) =~= v@.subrange(0, n - 4));
        copy_range(v, 0, n - 4)
    } else {
        proof {
            if n >= 4 && v@.skip(n - 4) == age_suffix() {
                assert(v@.skip(n - 4)[0] == '.');
                assert(v@.skip(n - 4)[1] == 'a');
                assert(v@.skip(n - 4)[2] == 'g');
                assert(v@.skip(n - 4)[3] == 'e');
            }
        }
        assert(v@.subrange(0, n as int) =~= v@);
        copy_range(v, 0, n)
    }
}

fn remove_seps_exec(v: &Vec<char>) -> (out: Vec<char>)
    ensures
        out@ == remove_seps(v@),
{
    let mut out: Vec<char> = Vec::new();
    let mut i: usize = 0;
    while i < v.len()
        invariant
            i <= v.len(),
            out@ == remove_seps(v@.take(i as int)),
        decreases v.len() - i,
    {
        assert(v@.take(i + 1).drop_last() =~= v@.take(i as int));
        if !is_sep_exec(v[i]) {
            out.push(v[i]);
        }
        i = i + 1;
    }
    assert(v@.take(v.len() as int) =~= v@);
    out
}

/// The last non-empty piece of `split_seps(key)`, or `None`.
fn last_nonempty_piece(key: &Vec<char>) -> (out: Option<Vec<char>>)
    ensures
        match out {
            Some(p) => last_nonempty(split_seps(key@)) == Some(p@),
            None => last_nonempty(split_seps(key@)) is None,
        },
{
    let mut found: Option<Vec<char>> = None;
    let mut cur: Vec<char> = Vec::new();
    let mut i: usize = 0;
    proof {
        assert(key@.take(0) =~= Seq::<char>::empty());
        assert(split_seps(key@.take(0)).drop_last() =~= Seq::<Seq<char>>::empty());
    }
    while i < key.len()
        invariant
            i <= key.len(),
            split_seps(key@.take(i as int)).len() >= 1,
            cur@ == split_seps(key@.take(i as int)).last(),
            match found {
                Some(p) => last_nonempty(split_seps(key@.take(i as int)).drop_last()) == Some(p@),
                None => last_nonempty(split_seps(key@.take(i as int)).drop_last()) is None,
            },
        decreases key.len() - i,
    {
        let c: char = key[i];
        let ghost before = split_seps(key@.take(i as int));
        proof {
            lemma_split_seps_step(key@, i as int);
        }
        if is_sep_exec(c) {
            if cur.len() > 0 {
                found = Some(cur);
            }
            cur = Vec::new();
            proof {
                let after = split_seps(key@.take(i + 1));
                assert(after.drop_last() =~= before);
                assert(after.last() =~= Seq::<char>::empty());
            }
        } else {
            cur.push(c);
            proof {
                let after = split_seps(key@.take(i + 1));
                assert(after.drop_last() =~= before.drop_last());
            }
        }
        i = i + 1;
    }
    assert(key@.take(key.len() as int) =~= key@);
    if cur.len() > 0 {
        Some(cur)
    } else {
        found
    }
}

/// `plaintext_file_name` for a given host kind.
pub fn plaintext_file_name_for(key: &str, windows: bool) -> (out: String)
    ensures
        out@ == plaintext_name(key@, windows),
{
    let k: Vec<char> = chars_of(key);
    let last: Vec<char> = match last_nonempty_piece(&k) {
        Some(p) => p,
        None => k,
    };
    let stripped: Vec<char> = strip_age_exec(&last);
    let no_seps: Vec<char> = remove_seps_exec(&stripped);
    let cleaned: Vec<char> = trim_ws_exec(&no_seps);
    let base: Vec<char> = if cleaned.len() == 0 || is_dot_name_exec(&cleaned) {
        fallback_vec()
    } else {
        cleaned
    };
    let safe: Vec<char> = sanitize_chars(&base, windows);
    string_of(&safe)
}

fn keep_segment_exec(raw: &Vec<char>, windows: bool) -> (out: Option<Vec<char>>)
    ensures
        match out {
            Some(s) => keep_segment(raw@, windows) == Some(s@),
            None => keep_segment(raw@, windows) is None,
        },
{
    let seg: Vec<char> = trim_ws_exec(raw);
    if seg.len() == 0 || is_dot_name_exec(&seg) {
        return None;
    }
    let safe: Vec<char> = sanitize_chars(&seg, windows);
    if safe.len() == 0 || is_dot_name_exec(&safe) {
        return None;
    }
    Some(safe)
}

/// The segments that `safe_dest_path` pushes under the destination directory
/// for `rel_path`, on a host that is Windows or not.
pub fn safe_dest_segments(rel_path: &str, windows: bool) -> (out: Vec<String>)
    ensures
        views(out@) == dest_segments(rel_path@, windows),
{
    let r: Vec<char> = chars_of(rel_path);
    let mut kept: Vec<String> = Vec::new();
    let mut cur: Vec<char> = Vec::new();
    let mut i: usize = 0;
    proof {
        assert(r@.take(0) =~= Seq::<char>::empty());
        assert(split_seps(r@.take(0)).drop_last() =~= Seq::<Seq<char>>::empty());
        assert(views(kept@) =~= Seq::<Seq<char>>::empty());
    }
    while i < r.len()
        invariant
            i <= r.len(),
            r@ == rel_path@,
            split_seps(r@.take(i as int)).len() >= 1,
            cur@ == split_seps(r@.take(i as int)).last(),
            views(kept@) == kept_segments(split_seps(r@.take(i as int)).drop_last(), windows),
        decreases r.len() - i,
    {
        let c: char = r[i];
        let ghost before = split_seps(r@.take(i as int));
        proof {
            lemma_split_seps_step(r@, i as int);
        }
        if is_sep_exec(c) {
            let ghost done = before.drop_last();
            match keep_segment_exec(&cur, windows) {
                Some(s) => {
                    let st: String = string_of(&s);
                    let ghost old_kept = kept@;
                    kept.push(st);
                    assert(views(kept@) =~= views(old_kept).push(s@));
                },
                None => {},
            }
            cur = Vec::new();
            proof {
                let after = split_seps(r@.take(i + 1));
                assert(after.drop_last() =~= before);
                assert(before.drop_last() =~= done);
                assert(after.last() =~= Seq::<char>::empty());
            }
        } else {
            cur.push(c);
            proof {
                let after = split_seps(r@.take(i + 1));
                assert(after.drop_last() =~= before.drop_last());
            }
        }
        i = i + 1;
    }
    assert(r@.take(r.len() as int) =~= r@);
    let ghost pieces = split_seps(r@);
    match keep_segment_exec(&cur, windows) {
        Some(s) => {
            let st: String = string_of(&s);
            let ghost old_kept = kept@;
            kept.push(st);
            assert(views(kept@) =~= views(old_kept).push(s@));
        },
        None => {},
    }
    assert(views(kept@) == kept_segments(pieces, windows));
    if kept.len() == 0 {
        let f: Vec<char> = fallback_vec();
        kept.push(string_of(&f));
        assert(views(kept@) =~= seq![fallback_name()]);
    }
    kept
}

// ---------------------------------------------------------------------------
// Laws
// ---------------------------------------------------------------------------

proof fn lemma_trim_ws_keeps(s: Seq<char>)
    ensures
        forall|k: int| 0 <= k < trim_ws(s).len() ==> exists|j: int| 0 <= j < s.len() && #[trigger] trim_ws(s)[k] == s[j],
{
    lemma_trim_start_suffix(s);
    lemma_trim_end_prefix(trim_start_ws(s));
    let a = trim_start_ws(s);
    let t = trim_ws(s);
    assert forall|k: int| 0 <= k < t.len() implies exists|j: int| 0 <= j < s.len() && #[trigger] t[k] == s[j] by {
        assert(t[k] == a[k]);
        assert(a[k] == s[k + (s.len() - a.len())]);
    }
}

proof fn lemma_trim_start_suffix(s: Seq<char>)
    ensures
        trim_start_ws(s).len() <= s.len(),
        trim_start_ws(s) == s.skip(s.len() - trim_start_ws(s).len()),
    decreases s.len(),
{
    if s.len() > 0 && crate::text::is_white_space(s[0]) {
        lemma_trim_start_suffix(s.drop_first());
        let t = trim_start_ws(s.drop_first());
        assert(s.drop_first().skip(s.drop_first().len() - t.len()) =~= s.skip(s.len() - t.len()));
    } else {
        assert(s.skip(0) =~= s);
    }
}

proof fn lemma_trim_end_prefix(s: Seq<char>)
    ensures
        trim_end_ws(s).len() <= s.len(),
        trim_end_ws(s) == s.take(trim_end_ws(s).len() as int),
    decreases s.len(),
{
    if s.len() > 0 && crate::text::is_white_space(s.last()) {
        lemma_trim_end_prefix(s.drop_last());
        let t = trim_end_ws(s.drop_last());
        assert(s.drop_last().take(t.len() as int) =~= s.take(t.len() as int));
    } else {
        assert(s.take(s.len() as int) =~= s);
    }
}

proof fn lemma_remove_seps(s: Seq<char>)
    ensures
        forall|k: int| 0 <= k < remove_seps(s).len() ==> !is_sep(#[trigger] remove_seps(s)[k]),
    decreases s.len(),
{
    if s.len() > 0 {
        lemma_remove_seps(s.drop_last());
        let prev = remove_seps(s.drop_last());
        if !is_sep(s.last()) {
            let r = prev.push(s.last());
            assert forall|k: int| 0 <= k < r.len() implies !is_sep(#[trigger] r[k]) by {
                if k < prev.len() {
                    assert(r[k] == prev[k]);
                }
            }
        }
    }
}

proof fn lemma_fallback_contained()
    ensures
        is_contained_name(fallback_name()),
{
    let f = fallback_name();
    assert(f[0] == 'd');
    assert(f != seq!['.']);
    assert(f != seq!['.', '.']);
}

/// A contained name stays contained when sanitized for any host.
proof fn lemma_sanitized_contained(seg: Seq<char>, windows: bool)
    requires
        is_contained_name(seg),
    ensures
        is_contained_name(sanitized(seg, windows)),
{
    sanitize_adds_no_separator(seg, windows);
    if windows {
        sanitize_windows_is_safe(seg);
        let o = sanitized(seg, true);
        if o == seq!['.'] || o == seq!['.', '.'] {
            assert(o.last() == '.');
        }
    }
}

/// The plaintext file name of any key, on any host, is a single name that
/// stays inside the destination directory: never empty, `.` or `..`, and
/// without a separator. A key such as `..\..\evil.age` cannot escape.
pub proof fn plaintext_name_is_contained(key: Seq<char>, windows: bool)
    ensures
        is_contained_name(plaintext_name(key, windows)),
{
    let last = match last_nonempty(split_seps(key)) {
        Some(p) => p,
        None => key,
    };
    let r = remove_seps(strip_age(last));
    let cleaned = trim_ws(r);
    lemma_remove_seps(strip_age(last));
    lemma_trim_ws_keeps(r);
    lemma_fallback_contained();
    assert forall|k: int| 0 <= k < cleaned.len() implies !is_sep(#[trigger] cleaned[k]) by {
        let j = choose|j: int| 0 <= j < r.len() && cleaned[k] == r[j];
    }
    lemma_sanitized_contained(plaintext_base(key), windows);
}

proof fn lemma_kept_contained(pieces: Seq<Seq<char>>, windows: bool)
    requires
        forall|i: int, k: int|
            0 <= i < pieces.len() && 0 <= k < pieces[i].len() ==> !is_sep(#[trigger] pieces[i][k]),
    ensures
        forall|i: int|
            0 <= i < kept_segments(pieces, windows).len() ==> is_contained_name(
                #[trigger] kept_segments(pieces, windows)[i],
            ),
    decreases pieces.len(),
{
    if pieces.len() > 0 {
        let init = pieces.drop_last();
        assert forall|i: int, k: int| 0 <= i < init.len() && 0 <= k < init[i].len() implies !is_sep(
            #[trigger] init[i][k],
        ) by {
            assert(init[i] == pieces[i]);
        }
        lemma_kept_contained(init, windows);
        let prev = kept_segments(init, windows);
        let raw = pieces.last();
        let seg = trim_ws(raw);
        lemma_trim_ws_keeps(raw);
        assert forall|k: int| 0 <= k < seg.len() implies !is_sep(#[trigger] seg[k]) by {
            let j = choose|j: int| 0 <= j < raw.len() && seg[k] == raw[j];
            assert(raw[j] == pieces[pieces.len() - 1][j]);
        }
        if seg.len() > 0 && !is_dot_name(seg) {
            sanitize_adds_no_separator(seg, windows);
            let safe = sanitized(seg, windows);
            if safe.len() > 0 && !is_dot_name(safe) {
                let all = prev.push(safe);
                assert(is_contained_name(safe));
                assert forall|i: int| 0 <= i < all.len() implies is_contained_name(#[trigger] all[i]) by {
                    if i < prev.len() {
                        assert(all[i] == prev[i]);
                    }
                }
            }
        }
    }
}

/// Every segment that `safe_dest_path` pushes stays inside the destination
/// directory: none is empty, `.` or `..`, none holds a separator, and there is
/// at least one. `../../etc/passwd` can only land under the destination.
pub proof fn dest_segments_are_contained(rel: Seq<char>, windows: bool)
    ensures
        dest_segments(rel, windows).len() >= 1,
        forall|i: int|
            0 <= i < dest_segments(rel, windows).len() ==> is_contained_name(
                #[trigger] dest_segments(rel, windows)[i],
            ),
{
    lemma_split_seps_pieces(rel);
    lemma_kept_contained(split_seps(rel), windows);
    lemma_fallback_contained();
}

/// `s` with every `\\` turned into `/`.
pub open spec fn slashed(s: Seq<char>) -> Seq<char> {
    s.map_values(|c: char| if c == '\\' { '/' } else { c })
}

proof fn lemma_split_slashed(s: Seq<char>)
    ensures
        split_seps(slashed(s)) == split_seps(s),
    decreases s.len(),
{
    if s.len() > 0 {
        lemma_split_slashed(s.drop_last());
        assert(slashed(s).drop_last() =~= slashed(s.drop_last()));
        assert(slashed(s).last() == if s.last() == '\\' { '/' } else { s.last() });
    }
}

/// `/` and `\\` are interchangeable separators in a relative path: turning
/// every `\\` into `/` changes no destination segment.
pub proof fn separators_are_interchangeable(rel: Seq<char>, windows: bool)
    ensures
        dest_segments(slashed(rel), windows) == dest_segments(rel, windows),
{
    lemma_split_slashed(rel);
}

proof fn lemma_split_concat(a: Seq<char>, b: Seq<char>)
    ensures
        split_seps(a + seq!['/'] + b) == split_seps(a) + split_seps(b),
    decreases b.len(),
{
    let x = a + seq!['/'];
    if b.len() == 0 {
        assert(x + b =~= x);
        assert(x.drop_last() =~= a);
        assert(split_seps(a) + split_seps(b) =~= split_seps(a).push(Seq::<char>::empty()));
    } else {
        lemma_split_concat(a, b.drop_last());
        lemma_split_seps_nonempty(b.drop_last());
        lemma_split_seps_nonempty(a);
        assert((x + b).drop_last() =~= x + b.drop_last());
        assert((x + b).last() == b.last());
        let p = split_seps(a);
        let q = split_seps(b.drop_last());
        if is_sep(b.last()) {
            assert((p + q).push(Seq::<char>::empty()) =~= p + q.push(Seq::<char>::empty()));
        } else {
            assert((p + q).update((p + q).len() - 1, (p + q).last().push(b.last())) =~= p + q.update(
                q.len() - 1,
                q.last().push(b.last()),
            ));
        }
    }
}

proof fn lemma_kept_concat(p: Seq<Seq<char>>, q: Seq<Seq<char>>, windows: bool)
    ensures
        kept_segments(p + q, windows) == kept_segments(p, windows) + kept_segments(q, windows),
    decreases q.len(),
{
    if q.len() == 0 {
        assert(p + q =~= p);
        assert(kept_segments(p, windows) + kept_segments(q, windows) =~= kept_segments(p, windows));
    } else {
        lemma_kept_concat(p, q.drop_last(), windows);
        assert((p + q).drop_last() =~= p + q.drop_last());
        assert((p + q).last() == q.last());
        let kp = kept_segments(p, windows);
        let kq = kept_segments(q.drop_last(), windows);
        match keep_segment(q.last(), windows) {
            Some(seg) => {
                assert((kp + kq).push(seg) =~= kp + kq.push(seg));
            },
            None => {},
        }
    }
}

/// `rel` keeps at least one of its segments.
pub open spec fn has_kept_segment(rel: Seq<char>, windows: bool) -> bool {
    kept_segments(split_seps(rel), windows).len() > 0
}

/// Joining `a/b` pushes the segments of `a`, then those of `b`, when each of
/// them keeps a segment of its own.
pub proof fn dest_segments_compose(a: Seq<char>, b: Seq<char>, windows: bool)
    requires
        has_kept_segment(a, windows),
        has_kept_segment(b, windows),
    ensures
        dest_segments(a + seq!['/'] + b, windows) == dest_segments(a, windows) + dest_segments(b, windows),
{
    lemma_split_concat(a, b);
    lemma_kept_concat(split_seps(a), split_seps(b), windows);
}

/// A segment that needs no cleaning: non-empty, not `.` or `..`, without a
/// separator, and without white space at either end.
pub open spec fn is_clean_segment(s: Seq<char>) -> bool {
    &&& s.len() > 0
    &&& !is_dot_name(s)
    &&& forall|k: int| 0 <= k < s.len() ==> !is_sep(#[trigger] s[k])
    &&& !is_white_space(s[0])
    &&& !is_white_space(s.last())
}

/// `segs` joined with `/`.
pub open spec fn joined(segs: Seq<Seq<char>>) -> Seq<char>
    decreases segs.len(),
{
    if segs.len() <= 1 {
        if segs.len() == 0 {
            Seq::empty()
        } else {
            segs[0]
        }
    } else {
        joined(segs.drop_last()) + seq!['/'] + segs.last()
    }
}

proof fn lemma_split_single(s: Seq<char>)
    requires
        forall|k: int| 0 <= k < s.len() ==> !is_sep(#[trigger] s[k]),
    ensures
        split_seps(s) == seq![s],
    decreases s.len(),
{
    if s.len() > 0 {
        assert(forall|k: int| 0 <= k < s.drop_last().len() ==> s.drop_last()[k] == s[k]);
        lemma_split_single(s.drop_last());
        assert(s.drop_last().push(s.last()) =~= s);
        assert(seq![s.drop_last()].update(0, s.drop_last().push(s.last())) =~= seq![s]);
    } else {
        assert(s =~= Seq::<char>::empty());
    }
}

proof fn lemma_clean_trim(s: Seq<char>)
    requires
        is_clean_segment(s),
    ensures
        trim_ws(s) == s,
{
    assert(trim_start_ws(s) == s);
}

proof fn lemma_clean_kept(s: Seq<char>)
    requires
        is_clean_segment(s),
    ensures
        keep_segment(s, false) == Some(s),
{
    lemma_clean_trim(s);
}

proof fn lemma_split_joined(segs: Seq<Seq<char>>)
    requires
        segs.len() > 0,
        forall|i: int| 0 <= i < segs.len() ==> is_clean_segment(#[trigger] segs[i]),
    ensures
        split_seps(joined(segs)) == segs,
    decreases segs.len(),
{
    if segs.len() == 1 {
        lemma_split_single(segs[0]);
        assert(seq![segs[0]] =~= segs);
    } else {
        let init = segs.drop_last();
        assert(forall|i: int| 0 <= i < init.len() ==> init[i] == segs[i]);
        lemma_split_joined(init);
        lemma_split_concat(joined(init), segs.last());
        lemma_split_single(segs.last());
        assert(init + seq![segs.last()] =~= segs);
    }
}

proof fn lemma_kept_clean(segs: Seq<Seq<char>>)
    requires
        forall|i: int| 0 <= i < segs.len() ==> is_clean_segment(#[trigger] segs[i]),
    ensures
        kept_segments(segs, false) == segs,
    decreases segs.len(),
{
    if segs.len() > 0 {
        let init = segs.drop_last();
        assert(forall|i: int| 0 <= i < init.len() ==> init[i] == segs[i]);
        lemma_kept_clean(init);
        lemma_clean_kept(segs.last());
        assert(init.push(segs.last()) =~= segs);
    }
}

/// Off Windows a relative path made of clean segments joined by `/` lands on
/// exactly those segments, character for character: nothing is sanitized, so
/// `backups/2026-06-20T12:30:00Z/db.sql` keeps its `:`.
pub proof fn posix_dest_keeps_clean_segments(segs: Seq<Seq<char>>)
    requires
        segs.len() > 0,
        forall|i: int| 0 <= i < segs.len() ==> is_clean_segment(#[trigger] segs[i]),
    ensures
        dest_segments(joined(segs), false) == segs,
{
    lemma_split_joined(segs);
    lemma_kept_clean(segs);
}

proof fn lemma_last_piece(dir: Seq<char>, name: Seq<char>)
    requires
        name.len() > 0,
        forall|k: int| 0 <= k < name.len() ==> !is_sep(#[trigger] name[k]),
    ensures
        last_nonempty(split_seps(dir + seq!['/'] + name)) == Some(name),
{
    lemma_split_concat(dir, name);
    lemma_split_single(name);
    assert((split_seps(dir) + seq![name]).last() == name);
}

proof fn lemma_remove_seps_none(s: Seq<char>)
    requires
        forall|k: int| 0 <= k < s.len() ==> !is_sep(#[trigger] s[k]),
    ensures
        remove_seps(s) == s,
    decreases s.len(),
{
    if s.len() > 0 {
        assert(forall|k: int| 0 <= k < s.drop_last().len() ==> s.drop_last()[k] == s[k]);
        lemma_remove_seps_none(s.drop_last());
        assert(s.drop_last().push(s.last()) =~= s);
    }
}

/// Off Windows the plaintext name of a key whose last segment is clean is that
/// segment verbatim, without one trailing `.age`: nothing is sanitized, so
/// `exports/2026-06-20T12:30:00Z.json.age` gives `2026-06-20T12:30:00Z.json`.
pub proof fn posix_name_is_last_segment(dir: Seq<char>, name: Seq<char>)
    requires
        is_clean_segment(name),
    ensures
        plaintext_name(dir + seq!['/'] + name + age_suffix(), false) == name,
        strip_age(name) == name ==> plaintext_name(dir + seq!['/'] + name, false) == name,
{
    let tagged = name + age_suffix();
    assert forall|k: int| 0 <= k < tagged.len() implies !is_sep(#[trigger] tagged[k]) by {
        if k >= name.len() {
            assert(tagged[k] == age_suffix()[k - name.len()]);
        }
    }
    assert(dir + seq!['/'] + name + age_suffix() =~= dir + seq!['/'] + tagged);
    lemma_last_piece(dir, tagged);
    assert(tagged.skip(tagged.len() - 4) =~= age_suffix());
    assert(tagged.take(tagged.len() - 4) =~= name);
    lemma_remove_seps_none(name);
    lemma_clean_trim(name);
    lemma_last_piece(dir, name);
}

/// On Windows an object named after a device keeps its name behind a `_`:
/// `jobs/prn.log.age` gives `_prn.log`, `x/CON.age` gives `_CON`.
pub proof fn windows_device_key_is_neutralized(dir: Seq<char>, stem: Seq<char>, ext: Seq<char>)
    requires
        is_device_name(stem),
        is_plain_extension(ext),
        is_clean_segment(stem + ext),
    ensures
        plaintext_name(dir + seq!['/'] + (stem + ext) + age_suffix(), true) == seq!['_'] + (stem + ext),
{
    posix_name_is_last_segment(dir, stem + ext);
    device_names_are_neutralized(stem, ext);
    let name = stem + ext;
    let tagged = name + age_suffix();
    assert forall|k: int| 0 <= k < tagged.len() implies !is_sep(#[trigger] tagged[k]) by {
        if k >= name.len() {
            assert(tagged[k] == age_suffix()[k - name.len()]);
        }
    }
    assert(dir + seq!['/'] + name + age_suffix() =~= dir + seq!['/'] + tagged);
    lemma_last_piece(dir, tagged);
    assert(tagged.skip(tagged.len() - 4) =~= age_suffix());
    assert(tagged.take(tagged.len() - 4) =~= name);
    lemma_remove_seps_none(name);
    lemma_clean_trim(name);
}

} // verus!
