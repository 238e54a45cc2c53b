//! Download bookkeeping: which objects are decrypted, the size hint reported
//! with progress, the temporary file a download is written to before the
//! atomic rename, and the steps of a plain stream copy.

use std::path::{Path, PathBuf};
use vstd::prelude::*;

use crate::naming::{age_suffix, fallback_name};
use crate::paths::{file_name_of, file_name_text, path_with_name, with_file_name};
use crate::text::{
    append_chars, ascii_lower_exec, ascii_lower_str, chars_of, decimal,
    lemma_decimal_injective, push_decimal, string_of,
};

verus! {

/// Size of the buffer a plain copy reads into: 64 KiB.
pub const COPY_CHUNK_LEN: usize = 65536;

// ---------------------------------------------------------------------------
// Specification
// ---------------------------------------------------------------------------

/// An object is decrypted when its key ends in `.age`, ASCII case ignored;
/// everything else is passed through unchanged.
pub open spec fn is_age_object(key: Seq<char>) -> bool {
    let low = ascii_lower_str(key);
    low.len() >= 4 && low.skip(low.len() - 4) == age_suffix()
}

/// The content length an object reports, as the progress total: `0` when
/// absent or negative.
pub open spec fn size_hint(content_length: Option<i64>) -> u64 {
    match content_length {
        Some(v) => if v > 0 {
            v as u64
        } else {
            0
        },
        None => 0,
    }
}

/// `.occ-part`.
pub open spec fn part_marker() -> Seq<char> {
    seq!['.', 'o', 'c', 'c', '-', 'p', 'a', 'r', 't']
}

/// `.{file_name}.occ-part{counter}`: the hidden temporary sibling a download
/// is written to.
pub open spec fn temp_name(file_name: Seq<char>, counter: nat) -> Seq<char> {
    seq!['.'] + file_name + part_marker() + decimal(counter)
}

/// The file name a temporary path is derived from: the destination's own
/// name, or `download`.
pub open spec fn name_or_fallback(dest: &Path) -> Seq<char> {
    match file_name_of(dest) {
        Some(n) => n,
        None => fallback_name(),
    }
}

/// One step of a plain copy after a read of `read` bytes with `total` copied
/// before it.
pub enum CopyStep {
    /// Write the `len` bytes just read; `total` bytes are then copied, which is
    /// what progress reports.
    Write { len: usize, total: u64 },
    /// The source is exhausted: flush; `total` bytes were copied.
    Finish { total: u64 },
}

// ---------------------------------------------------------------------------
// Implementation
// ---------------------------------------------------------------------------

/// Whether the object under `key` is decrypted (`.age`, any ASCII case).
pub fn is_age_key(key: &str) -> (b: bool)
    ensures
        b == is_age_object(key@),
{
    let k: Vec<char> = chars_of(key);
    let n: usize = k.len();
    let ghost low = ascii_lower_str(k@);
    if n < 4 {
        return false;
    }
    let c0: char = ascii_lower_exec(k[n - 4]);
    let c1: char = ascii_lower_exec(k[n - 3]);
    let c2: char = ascii_lower_exec(k[n - 2]);
    let c3: char = ascii_lower_exec(k[n - 1]);
    let r: bool = c0 == '.' && c1 == 'a' && c2 == 'g' && c3 == 'e';
    proof {
        let tail = low.skip(n - 4);
        assert(tail[0] == c0 && tail[1] == c1 && tail[2] == c2 && tail[3] == c3);
        if r {
            assert(tail =~= age_suffix());
        }
        if tail == age_suffix() {
            assert(age_suffix()[0] == '.' && age_suffix()[1] == 'a');
            assert(age_suffix()[2] == 'g' && age_suffix()[3] == 'e');
        }
    }
    r
}

/// The progress total for an object's reported content length.
pub fn size_hint_of(content_length: Option<i64>) -> (out: u64)
    ensures
        out == size_hint(content_length),
{
    match content_length {
        Some(v) => if v > 0 {
            v as u64
        } else {
            0
        },
        None => 0,
    }
}

/// `.{file_name}.occ-part{counter}`.
pub fn temp_file_name(file_name: &str, counter: u64) -> (out: String)
    ensures
        out@ == temp_name(file_name@, counter as nat),
{
    let mut v: Vec<char> = Vec::new();
    v.push('.');
    let f: Vec<char> = chars_of(file_name);
    append_chars(&mut v, &f);
    v.push('.');
    v.push('o');
    v.push('c');
    v.push('c');
    v.push('-');
    v.push('p');
    v.push('a');
    v.push('r');
    v.push('t');
    assert(v@ =~= seq!['.'] + file_name@ + part_marker());
    push_decimal(&mut v, counter);
    string_of(&v)
}

/// The temporary path a download to `dest_path` is written to: a hidden
/// sibling in the same directory, so the final rename stays on one volume.
pub fn temp_path(dest_path: &Path, counter: u64) -> (out: PathBuf)
    ensures
        out == path_with_name(dest_path, temp_name(name_or_fallback(dest_path), counter as nat)),
{
    let name: String = match file_name_text(dest_path) {
        Some(n) => n,
        None => {
            let d: &str = "download";
            proof {
                reveal_strlit("download");
                assert(d@ =~= fallback_name());
            }
            d.to_owned()
        },
    };
    let tmp: String = temp_file_name(name.as_str(), counter);
    with_file_name(dest_path, tmp.as_str())
}

/// What a download of one object is set up with before any byte moves.
pub struct DownloadPlan {
    /// The progress total: the object's content length (`0` when unknown).
    pub total: u64,
    /// The hidden sibling the plaintext is written to before the rename.
    pub temp_path: PathBuf,
    /// Whether the object is decrypted (`.age`) or passed through.
    pub decrypt: bool,
}

/// Set up the download of the object under `key` to `dest_path`, with the
/// object's reported `content_length` and a process-wide `counter` value.
pub fn plan_download(key: &str, dest_path: &Path, content_length: Option<i64>, counter: u64) -> (plan: DownloadPlan)
    ensures
        plan.total == size_hint(content_length),
        plan.decrypt == is_age_object(key@),
        plan.temp_path == path_with_name(
            dest_path,
            temp_name(name_or_fallback(dest_path), counter as nat),
        ),
{
    let total: u64 = size_hint_of(content_length);
    let temp_path: PathBuf = temp_path(dest_path, counter);
    let decrypt: bool = is_age_key(key);
    DownloadPlan { total, temp_path, decrypt }
}

/// The next step of a plain copy, after a read of `read` bytes with `total`
/// bytes copied so far. A read of nothing ends the copy.
pub fn copy_step(total: u64, read: usize) -> (step: CopyStep)
    requires
        total + read <= u64::MAX,
    ensures
        read == 0 ==> step == (CopyStep::Finish { total }),
        read > 0 ==> step == (CopyStep::Write { len: read, total: (total + read) as u64 }),
{
    if read == 0 {
        CopyStep::Finish { total }
    } else {
        CopyStep::Write { len: read, total: total + read as u64 }
    }
}

// ---------------------------------------------------------------------------
// Laws
// ---------------------------------------------------------------------------

/// Different counters give different temporary names for the same file, so
/// concurrent downloads to one destination never share a temporary file.
pub proof fn temp_names_are_distinct(file_name: Seq<char>, a: nat, b: nat)
    requires
        a != b,
    ensures
        temp_name(file_name, a) != temp_name(file_name, b),
{
    let pre = seq!['.'] + file_name + part_marker();
    if temp_name(file_name, a) == temp_name(file_name, b) {
        assert(temp_name(file_name, a).skip(pre.len() as int) =~= decimal(a));
        assert(temp_name(file_name, b).skip(pre.len() as int) =~= decimal(b));
        lemma_decimal_injective(a, b);
    }
}

/// Deciding to decrypt ignores ASCII case: `x.AGE` is decrypted like `x.age`.
pub proof fn age_detection_ignores_ascii_case(a: Seq<char>, b: Seq<char>)
    requires
        ascii_lower_str(a) == ascii_lower_str(b),
    ensures
        is_age_object(a) == is_age_object(b),
{
}

} // verus!
