//! Connection profiles and the secrets kept for them.
//!
//! Non-secret metadata lives in a list of profiles keyed by id; secrets (the
//! S3 secret key and the private age key) live in the OS secure store, one
//! bundled entry per profile, with older per-kind entries migrated forward.
//! This module holds the data, the list operations, the store account names,
//! and every decision taken on what the secure store answers.

use vstd::prelude::*;

use crate::text::{append_chars, chars_eq, chars_of, string_of, trim_ws, trim_ws_exec};

verus! {

/// Service name under which every secure-store entry of the app is kept.
pub const KEYRING_SERVICE: &'static str = "de.occ-secure-exports.app";

/// File name of the profile list in the configuration directory.
pub const PROFILES_FILE: &'static str = "profiles.json";

// ---------------------------------------------------------------------------
// Profiles
// ---------------------------------------------------------------------------

/// A saved connection. Contains no secrets.
#[derive(Debug, Clone)]
pub struct ConnectionProfile {
    pub id: String,
    pub name: String,
    pub endpoint: String,
    pub region: String,
    pub bucket: String,
    pub access_key_id: String,
    pub path_style: bool,
    /// Optional prefix the browser starts at (e.g. a tenant base path).
    pub base_prefix: String,
    /// Whether the S3 secret is kept in the OS secure store.
    pub remember_secret: bool,
    /// Whether the private age key is kept in the OS secure store.
    pub remember_key: bool,
}

/// Profile-list text with nothing but white space in it reads as no profiles.
pub fn is_blank(text: &str) -> (b: bool)
    ensures
        b == (trim_ws(text@).len() == 0),
{
    let v: Vec<char> = chars_of(text);
    let t: Vec<char> = trim_ws_exec(&v);
    t.len() == 0
}

/// `i` is the first position of `ps` holding a profile with id `id`.
pub open spec fn is_first_with_id(ps: Seq<ConnectionProfile>, id: Seq<char>, i: int) -> bool {
    &&& 0 <= i < ps.len()
    &&& ps[i].id@ == id
    &&& forall|j: int| 0 <= j < i ==> (#[trigger] ps[j]).id@ != id
}

/// Some profile of `ps` has id `id`.
pub open spec fn has_id(ps: Seq<ConnectionProfile>, id: Seq<char>) -> bool {
    exists|i: int| 0 <= i < ps.len() && (#[trigger] ps[i]).id@ == id
}

/// The first position of a profile with id `id`, if any.
pub open spec fn first_with_id(ps: Seq<ConnectionProfile>, id: Seq<char>) -> Option<int> {
    if exists|i: int| is_first_with_id(ps, id, i) {
        Some(choose|i: int| is_first_with_id(ps, id, i))
    } else {
        None
    }
}

/// `ps` with `p` inserted or updated: the first profile with `p`'s id is
/// replaced by `p`; without one, `p` is appended.
pub open spec fn upserted(ps: Seq<ConnectionProfile>, p: ConnectionProfile) -> Seq<ConnectionProfile> {
    match first_with_id(ps, p.id@) {
        Some(i) => ps.update(i, p),
        None => ps.push(p),
    }
}

/// `ps` without the profiles whose id is `id`, the others in order.
pub open spec fn without_id(ps: Seq<ConnectionProfile>, id: Seq<char>) -> Seq<ConnectionProfile>
    decreases ps.len(),
{
    if ps.len() == 0 {
        ps
    } else if ps.last().id@ == id {
        without_id(ps.drop_last(), id)
    } else {
        without_id(ps.drop_last(), id).push(ps.last())
    }
}

proof fn lemma_first_is_unique(ps: Seq<ConnectionProfile>, id: Seq<char>, i: int, j: int)
    requires
        is_first_with_id(ps, id, i),
        is_first_with_id(ps, id, j),
    ensures
        i == j,
{
    if i < j {
        assert(ps[i].id@ != id);
    } else if j < i {
        assert(ps[j].id@ != id);
    }
}

proof fn lemma_first_exists(ps: Seq<ConnectionProfile>, id: Seq<char>, k: int)
    requires
        0 <= k < ps.len(),
        ps[k].id@ == id,
    ensures
        exists|i: int| is_first_with_id(ps, id, i),
    decreases k,
{
    if forall|j: int| 0 <= j < k ==> (#[trigger] ps[j]).id@ != id {
        assert(is_first_with_id(ps, id, k));
    } else {
        let j = choose|j: int| 0 <= j < k && (#[trigger] ps[j]).id@ == id;
        lemma_first_exists(ps, id, j);
    }
}

/// Insert or update `profile` (matched by id) in the list of saved profiles.
pub fn upsert_profile(profiles: &mut Vec<ConnectionProfile>, profile: ConnectionProfile)
    ensures
        final(profiles)@ == upserted(old(profiles)@, profile),
{
    let mut i: usize = 0;
    while i < profiles.len()
        invariant
            i <= profiles.len(),
            profiles@ == old(profiles)@,
            forall|j: int| 0 <= j < i ==> (#[trigger] profiles@[j]).id@ != profile.id@,
        decreases profiles.len() - i,
    {
        if profiles[i].id == profile.id {
            proof {
                assert(is_first_with_id(profiles@, profile.id@, i as int));
                let c = choose|c: int| is_first_with_id(profiles@, profile.id@, c);
                lemma_first_is_unique(profiles@, profile.id@, i as int, c);
            }
            profiles.set(i, profile);
            return;
        }
        i = i + 1;
    }
    proof {
        if exists|c: int| is_first_with_id(profiles@, profile.id@, c) {
            let c = choose|c: int| is_first_with_id(profiles@, profile.id@, c);
            assert(profiles@[c].id@ == profile.id@);
        }
    }
    profiles.push(profile);
}

/// Remove every profile with id `id` from the list, the others kept in order.
pub fn delete_profile(profiles: &mut Vec<ConnectionProfile>, id: &str)
    ensures
        final(profiles)@ == without_id(old(profiles)@, id@),
{
    let ghost start = profiles@;
    let ghost mut j: int = 0;
    let wanted: Vec<char> = chars_of(id);
    let mut i: usize = 0;
    proof {
        assert(start.take(0) =~= Seq::<ConnectionProfile>::empty());
        assert(profiles@ =~= without_id(start.take(0), id@) + start.skip(0));
    }
    while i < profiles.len()
        invariant
            start == old(profiles)@,
            0 <= j <= start.len(),
            i == without_id(start.take(j), id@).len(),
            profiles@ == without_id(start.take(j), id@) + start.skip(j),
            wanted@ == id@,
        decreases profiles.len() - i,
    {
        let ghost kept = without_id(start.take(j), id@);
        assert(profiles@[i as int] == start[j]);
        assert(start.take(j + 1).drop_last() =~= start.take(j));
        assert(start.take(j + 1).last() == start[j]);
        let here: Vec<char> = chars_of(profiles[i].id.as_str());
        if chars_eq(&here, &wanted) {
            profiles.remove(i);
            proof {
                assert(profiles@ =~= kept + start.skip(j + 1));
                j = j + 1;
            }
        } else {
            proof {
                assert(profiles@ =~= kept.push(start[j]) + start.skip(j + 1));
                j = j + 1;
            }
            i = i + 1;
        }
    }
    proof {
        assert(j == start.len());
        assert(start.take(j) =~= start);
        assert(profiles@ =~= without_id(start, id@));
    }
}

// ---------------------------------------------------------------------------
// Laws of the profile list
// ---------------------------------------------------------------------------

proof fn lemma_first_with_id_some(ps: Seq<ConnectionProfile>, id: Seq<char>, i: int)
    requires
        is_first_with_id(ps, id, i),
    ensures
        first_with_id(ps, id) == Some(i),
{
    let c = choose|c: int| is_first_with_id(ps, id, c);
    lemma_first_is_unique(ps, id, i, c);
}

proof fn lemma_first_with_id_none(ps: Seq<ConnectionProfile>, id: Seq<char>)
    requires
        first_with_id(ps, id) is None,
    ensures
        !has_id(ps, id),
{
    if has_id(ps, id) {
        let k = choose|k: int| 0 <= k < ps.len() && (#[trigger] ps[k]).id@ == id;
        lemma_first_exists(ps, id, k);
    }
}

/// After an upsert the profile is in the list, at the first position of its
/// id; every other position keeps its profile, and the list grows by at most
/// one.
pub proof fn upsert_places_profile(ps: Seq<ConnectionProfile>, p: ConnectionProfile)
    ensures
        first_with_id(upserted(ps, p), p.id@) matches Some(i) && upserted(ps, p)[i] == p,
        upserted(ps, p).len() == ps.len() || upserted(ps, p).len() == ps.len() + 1,
        forall|j: int|
            0 <= j < ps.len() && ps[j].id@ != p.id@ ==> #[trigger] upserted(ps, p)[j] == ps[j],
        upserted(ps, p).len() == ps.len() + 1 <==> !has_id(ps, p.id@),
{
    let id = p.id@;
    match first_with_id(ps, id) {
        Some(i) => {
            let c = choose|c: int| is_first_with_id(ps, id, c);
            let u = ps.update(c, p);
            assert(is_first_with_id(u, id, c));
            lemma_first_with_id_some(u, id, c);
        },
        None => {
            lemma_first_with_id_none(ps, id);
            let u = ps.push(p);
            assert(is_first_with_id(u, id, ps.len() as int));
            lemma_first_with_id_some(u, id, ps.len() as int);
        },
    }
}

/// Upserting the same profile twice is upserting it once.
pub proof fn upsert_is_idempotent(ps: Seq<ConnectionProfile>, p: ConnectionProfile)
    ensures
        upserted(upserted(ps, p), p) == upserted(ps, p),
{
    upsert_places_profile(ps, p);
    let u = upserted(ps, p);
    let i = first_with_id(u, p.id@)->0;
    assert(u.update(i, p) =~= u);
}

/// Upserting keeps ids a key of the list: with distinct ids before, the ids
/// stay distinct.
pub proof fn upsert_keeps_ids_distinct(ps: Seq<ConnectionProfile>, p: ConnectionProfile)
    requires
        forall|a: int, b: int| 0 <= a < b < ps.len() ==> (#[trigger] ps[a]).id@ != (#[trigger] ps[b]).id@,
    ensures
        forall|a: int, b: int|
            0 <= a < b < upserted(ps, p).len() ==> (#[trigger] upserted(ps, p)[a]).id@ != (
            #[trigger] upserted(ps, p)[b]).id@,
{
    let id = p.id@;
    let u = upserted(ps, p);
    match first_with_id(ps, id) {
        Some(i) => {
            let c = choose|c: int| is_first_with_id(ps, id, c);
            assert forall|a: int, b: int| 0 <= a < b < u.len() implies (#[trigger] u[a]).id@ != (
            #[trigger] u[b]).id@ by {
                if a == c {
                    assert(ps[c].id@ == id);
                    assert(ps[b].id@ != ps[c].id@);
                } else if b == c {
                    assert(ps[a].id@ != ps[c].id@);
                }
            }
        },
        None => {
            lemma_first_with_id_none(ps, id);
            assert forall|a: int, b: int| 0 <= a < b < u.len() implies (#[trigger] u[a]).id@ != (
            #[trigger] u[b]).id@ by {
                if b == ps.len() {
                    assert(ps[a].id@ != id);
                }
            }
        },
    }
}

proof fn lemma_without_id_facts(ps: Seq<ConnectionProfile>, id: Seq<char>)
    ensures
        without_id(ps, id).len() <= ps.len(),
        forall|k: int| 0 <= k < without_id(ps, id).len() ==> (#[trigger] without_id(ps, id)[k]).id@ != id,
        forall|j: int|
            0 <= j < ps.len() && (#[trigger] ps[j]).id@ != id ==> without_id(ps, id).contains(ps[j]),
        forall|k: int|
            0 <= k < without_id(ps, id).len() ==> ps.contains(#[trigger] without_id(ps, id)[k]),
    decreases ps.len(),
{
    if ps.len() > 0 {
        let init = ps.drop_last();
        lemma_without_id_facts(init, id);
        let w = without_id(init, id);
        let r = without_id(ps, id);
        assert forall|j: int| 0 <= j < ps.len() && (#[trigger] ps[j]).id@ != id implies r.contains(ps[j]) by {
            if j < ps.len() - 1 {
                assert(init[j] == ps[j]);
                assert(w.contains(init[j]));
                let k = choose|k: int| 0 <= k < w.len() && w[k] == init[j];
                if ps.last().id@ != id {
                    assert(r[k] == w[k]);
                }
            } else {
                assert(r[r.len() - 1] == ps[j]);
            }
        }
        assert forall|k: int| 0 <= k < r.len() implies ps.contains(#[trigger] r[k]) by {
            if k < w.len() {
                assert(r[k] == w[k]);
                assert(init.contains(w[k]));
                let j = choose|j: int| 0 <= j < init.len() && init[j] == w[k];
                assert(ps[j] == init[j]);
            } else {
                assert(r[k] == ps[ps.len() - 1]);
            }
        }
        assert forall|k: int| 0 <= k < r.len() implies (#[trigger] r[k]).id@ != id by {
            if k < w.len() {
                assert(r[k] == w[k]);
            }
        }
    }
}

/// After deleting an id no profile with it is left, every profile with
/// another id is kept, and nothing new appears.
pub proof fn delete_removes_exactly_id(ps: Seq<ConnectionProfile>, id: Seq<char>)
    ensures
        !has_id(without_id(ps, id), id),
        forall|j: int|
            0 <= j < ps.len() && (#[trigger] ps[j]).id@ != id ==> without_id(ps, id).contains(ps[j]),
        forall|k: int|
            0 <= k < without_id(ps, id).len() ==> ps.contains(#[trigger] without_id(ps, id)[k]),
{
    lemma_without_id_facts(ps, id);
}

/// Deleting an id twice is deleting it once.
pub proof fn delete_is_idempotent(ps: Seq<ConnectionProfile>, id: Seq<char>)
    ensures
        without_id(without_id(ps, id), id) == without_id(ps, id),
    decreases ps.len(),
{
    if ps.len() > 0 {
        delete_is_idempotent(ps.drop_last(), id);
        let w = without_id(ps.drop_last(), id);
        if ps.last().id@ != id {
            assert(w.push(ps.last()).drop_last() =~= w);
        }
    }
}

proof fn lemma_without_id_update(ps: Seq<ConnectionProfile>, i: int, p: ConnectionProfile, id: Seq<char>)
    requires
        0 <= i < ps.len(),
        ps[i].id@ == id,
        p.id@ == id,
    ensures
        without_id(ps.update(i, p), id) == without_id(ps, id),
    decreases ps.len(),
{
    let u = ps.update(i, p);
    if i == ps.len() - 1 {
        assert(u.drop_last() =~= ps.drop_last());
    } else {
        lemma_without_id_update(ps.drop_last(), i, p, id);
        assert(u.drop_last() =~= ps.drop_last().update(i, p));
        assert(u.last() == ps.last());
    }
}

/// Deleting a profile's id undoes upserting it: what is left is what deleting
/// the id from the list before gives.
pub proof fn delete_undoes_upsert(ps: Seq<ConnectionProfile>, p: ConnectionProfile)
    ensures
        without_id(upserted(ps, p), p.id@) == without_id(ps, p.id@),
{
    match first_with_id(ps, p.id@) {
        Some(i) => {
            let c = choose|c: int| is_first_with_id(ps, p.id@, c);
            lemma_without_id_update(ps, c, p, p.id@);
        },
        None => {
            assert(ps.push(p).drop_last() =~= ps);
        },
    }
}

// ---------------------------------------------------------------------------
// Secrets
// ---------------------------------------------------------------------------

/// Both secrets of a connection, stored together in one secure-store entry so
/// the OS asks for access at most once per connect. Either may be absent (the
/// user chose not to remember it).
#[derive(Debug, Clone)]
pub struct StoredSecrets {
    pub s3_secret: Option<String>,
    pub age_key: Option<String>,
}

impl StoredSecrets {
    /// Neither secret is remembered.
    pub fn is_empty(&self) -> (b: bool)
        ensures
            b == (self.s3_secret is None && self.age_key is None),
    {
        self.s3_secret.is_none() && self.age_key.is_none()
    }
}

impl Default for StoredSecrets {
    fn default() -> (out: Self)
        ensures
            out.s3_secret is None,
            out.age_key is None,
    {
        StoredSecrets { s3_secret: None, age_key: None }
    }
}

/// The per-kind entries used before secrets were bundled; read once to
/// migrate them forward.
#[derive(Clone, Copy, Debug, PartialEq, Eq, Structural)]
pub enum LegacyKind {
    S3Secret,
    AgeKey,
}

/// `s3-secret` / `age-key`.
pub open spec fn legacy_suffix(kind: LegacyKind) -> Seq<char> {
    match kind {
        LegacyKind::S3Secret => seq!['s', '3', '-', 's', 'e', 'c', 'r', 'e', 't'],
        LegacyKind::AgeKey => seq!['a', 'g', 'e', '-', 'k', 'e', 'y'],
    }
}

impl LegacyKind {
    /// The account suffix of this kind's legacy entry.
    pub fn suffix(self) -> (s: &'static str)
        ensures
            s@ == legacy_suffix(self),
    {
        match self {
            LegacyKind::S3Secret => {
                let s: &'static str = "s3-secret";
                proof {
                    reveal_strlit("s3-secret");
                    assert(s@ =~= legacy_suffix(self));
                }
                s
            },
            LegacyKind::AgeKey => {
                let s: &'static str = "age-key";
                proof {
                    reveal_strlit("age-key");
                    assert(s@ =~= legacy_suffix(self));
                }
                s
            },
        }
    }
}

/// `::`.
pub open spec fn account_separator() -> Seq<char> {
    seq![':', ':']
}

/// `creds`.
pub open spec fn creds_suffix() -> Seq<char> {
    seq!['c', 'r', 'e', 'd', 's']
}

/// `{id}::creds`: the account of a profile's bundled entry.
pub open spec fn creds_account_of(id: Seq<char>) -> Seq<char> {
    id + account_separator() + creds_suffix()
}

/// `{id}::{suffix}`: the account of a profile's legacy entry of one kind.
pub open spec fn legacy_account_of(id: Seq<char>, kind: LegacyKind) -> Seq<char> {
    id + account_separator() + legacy_suffix(kind)
}

fn account(id: &str, suffix: &str) -> (out: String)
    ensures
        out@ == id@ + account_separator() + suffix@,
{
    let mut v: Vec<char> = chars_of(id);
    v.push(':');
    v.push(':');
    let s: Vec<char> = chars_of(suffix);
    let ghost head = v@;
    append_chars(&mut v, &s);
    assert(head =~= id@ + account_separator());
    string_of(&v)
}

/// The account of the bundled secrets entry of profile `id`.
pub fn creds_account(id: &str) -> (out: String)
    ensures
        out@ == creds_account_of(id@),
{
    let suffix: &str = "creds";
    proof {
        reveal_strlit("creds");
        assert(suffix@ =~= creds_suffix());
    }
    account(id, suffix)
}

/// The account of the legacy entry of kind `kind` of profile `id`.
pub fn legacy_account(id: &str, kind: LegacyKind) -> (out: String)
    ensures
        out@ == legacy_account_of(id@, kind),
{
    account(id, kind.suffix())
}

// ---------------------------------------------------------------------------
// What the secure store answers, and what is done with it
// ---------------------------------------------------------------------------

/// A failure of the secure store, as the `keyring` crate reports it, with its
/// details as plain values.
#[derive(Debug, Clone)]
pub enum KeyringError {
    /// The platform store failed at run time (e.g. no D-Bus session bus).
    PlatformFailure(String),
    /// The store could not be accessed (e.g. it is locked).
    NoStorageAccess(String),
    /// There is no entry for this account.
    NoEntry,
    /// The stored secret is not UTF-8.
    BadEncoding(Vec<u8>),
    /// An attribute exceeded a platform length limit.
    TooLong(String, u32),
    /// An attribute is invalid.
    Invalid(String, String),
    /// This many entries match.
    Ambiguous(usize),
}

/// The store itself is unavailable, as opposed to a logic error.
pub open spec fn is_outage(e: KeyringError) -> bool {
    e is PlatformFailure || e is NoStorageAccess
}

/// True when a secure-store error means the store itself is unavailable (no
/// Secret Service on a headless Linux box, a locked store), as opposed to a
/// logic error. Then "remember" degrades to ask-each-time instead of failing.
pub fn is_backend_unavailable(e: &KeyringError) -> (b: bool)
    ensures
        b == is_outage(*e),
{
    match e {
        KeyringError::PlatformFailure(_) => true,
        KeyringError::NoStorageAccess(_) => true,
        _ => false,
    }
}

/// What reading the bundled entry of a profile gave.
#[derive(Debug)]
pub enum SecretsLookup {
    /// Opening the entry failed.
    EntryFailed(KeyringError),
    /// The entry holds this text.
    Read(String),
    /// Reading the entry failed.
    ReadFailed(KeyringError),
}

/// What to do next when loading a profile's secrets.
#[derive(Debug)]
pub enum SecretsNext {
    /// Decode this text as the bundled secrets; text that does not decode is
    /// reported as corrupted credentials, never read as "nothing remembered".
    Decode(String),
    /// Behave as if nothing was remembered (the store is unavailable).
    NothingRemembered,
    /// There is no bundled entry: read and migrate the legacy ones.
    MigrateLegacy,
    /// Fail with this error.
    Fail(KeyringError),
}

/// The decision `get_secrets` takes on what the store answered.
pub open spec fn lookup_decision(outcome: SecretsLookup) -> SecretsNext {
    match outcome {
        SecretsLookup::EntryFailed(e) => if is_outage(e) {
            SecretsNext::NothingRemembered
        } else {
            SecretsNext::Fail(e)
        },
        SecretsLookup::Read(json) => SecretsNext::Decode(json),
        SecretsLookup::ReadFailed(e) => if e is NoEntry {
            SecretsNext::MigrateLegacy
        } else if is_outage(e) {
            SecretsNext::NothingRemembered
        } else {
            SecretsNext::Fail(e)
        },
    }
}

/// Decide what loading a profile's secrets does after the store's answer.
pub fn next_after_lookup(outcome: SecretsLookup) -> (next: SecretsNext)
    ensures
        next == lookup_decision(outcome),
{
    match outcome {
        SecretsLookup::EntryFailed(e) => if is_backend_unavailable(&e) {
            SecretsNext::NothingRemembered
        } else {
            SecretsNext::Fail(e)
        },
        SecretsLookup::Read(json) => SecretsNext::Decode(json),
        SecretsLookup::ReadFailed(e) => match e {
            KeyringError::NoEntry => SecretsNext::MigrateLegacy,
            _ => if is_backend_unavailable(&e) {
                SecretsNext::NothingRemembered
            } else {
                SecretsNext::Fail(e)
            },
        },
    }
}

/// The result of storing secrets after a step (opening the entry, or writing
/// the password) answered `step`.
pub open spec fn store_decision(step: Result<(), KeyringError>) -> Result<bool, KeyringError> {
    match step {
        Ok(()) => Ok(true),
        Err(e) => if is_outage(e) {
            Ok(false)
        } else {
            Err(e)
        },
    }
}

/// `set_secrets` reports `Ok(true)` when stored, `Ok(false)` when the store is
/// unavailable (the caller falls back to ask-each-time), and fails otherwise.
pub fn store_outcome(step: Result<(), KeyringError>) -> (out: Result<bool, KeyringError>)
    ensures
        out == store_decision(step),
{
    match step {
        Ok(()) => Ok(true),
        Err(e) => if is_backend_unavailable(&e) {
            Ok(false)
        } else {
            Err(e)
        },
    }
}

/// The two store calls of deleting a profile's bundled secrets.
#[derive(Clone, Copy, Debug, PartialEq, Eq, Structural)]
pub enum DeleteStep {
    /// Opening the bundled entry.
    OpenEntry,
    /// Deleting its credential.
    DeleteCredential,
}

/// Deleting counts as done (`Ok`) when the step succeeded, when the store is
/// unavailable, or, for the credential itself, when there was none.
pub open spec fn delete_decision(step: DeleteStep, r: Result<(), KeyringError>) -> Result<(), KeyringError> {
    match r {
        Ok(()) => Ok(()),
        Err(e) => if is_outage(e) || (step == DeleteStep::DeleteCredential && e is NoEntry) {
            Ok(())
        } else {
            Err(e)
        },
    }
}

/// A missing entry or an unavailable store is treated as already clean.
pub fn delete_outcome(step: DeleteStep, r: Result<(), KeyringError>) -> (out: Result<(), KeyringError>)
    ensures
        out == delete_decision(step, r),
{
    match r {
        Ok(()) => Ok(()),
        Err(e) => {
            let missing: bool = match e {
                KeyringError::NoEntry => true,
                _ => false,
            };
            if is_backend_unavailable(&e) || (step == DeleteStep::DeleteCredential && missing) {
                Ok(())
            } else {
                Err(e)
            }
        },
    }
}

/// Storing an empty set of secrets deletes the profile's entries instead of
/// writing an empty bundle.
pub fn set_plan(secrets: &StoredSecrets) -> (delete_instead: bool)
    ensures
        delete_instead == (secrets.s3_secret is None && secrets.age_key is None),
{
    secrets.is_empty()
}

/// Legacy secrets are bundled forward (and the legacy entries removed) only
/// when at least one of them was found.
pub fn needs_migration(found: &StoredSecrets) -> (b: bool)
    ensures
        b == !(found.s3_secret is None && found.age_key is None),
{
    !found.is_empty()
}

// ---------------------------------------------------------------------------
// Laws of the secure store
// ---------------------------------------------------------------------------

/// The bundled entry of one profile is never the legacy entry of any profile.
pub proof fn bundled_never_legacy(a: Seq<char>, b: Seq<char>, kind: LegacyKind)
    ensures
        creds_account_of(a) != legacy_account_of(b, kind),
{
    let x = creds_account_of(a);
    let y = legacy_account_of(b, kind);
    assert(x.last() == 's');
    assert(y.last() == legacy_suffix(kind).last());
}

/// The two legacy kinds of entries never share an account.
pub proof fn legacy_kinds_never_collide(a: Seq<char>, b: Seq<char>)
    ensures
        legacy_account_of(a, LegacyKind::S3Secret) != legacy_account_of(b, LegacyKind::AgeKey),
{
    let x = legacy_account_of(a, LegacyKind::S3Secret);
    let y = legacy_account_of(b, LegacyKind::AgeKey);
    assert(x.last() == 't');
    assert(y.last() == 'y');
}

/// Different profiles have different bundled and legacy accounts.
pub proof fn accounts_are_injective(a: Seq<char>, b: Seq<char>, kind: LegacyKind)
    ensures
        creds_account_of(a) == creds_account_of(b) ==> a == b,
        legacy_account_of(a, kind) == legacy_account_of(b, kind) ==> a == b,
{
    if creds_account_of(a) == creds_account_of(b) {
        assert(creds_account_of(a).take(a.len() as int) =~= a);
        assert(creds_account_of(b).take(b.len() as int) =~= b);
    }
    if legacy_account_of(a, kind) == legacy_account_of(b, kind) {
        assert(legacy_account_of(a, kind).take(a.len() as int) =~= a);
        assert(legacy_account_of(b, kind).take(b.len() as int) =~= b);
    }
}

/// An unavailable store never fails an operation: loading reads as nothing
/// remembered, storing reports `false`, deleting counts as done.
pub proof fn outages_degrade_gracefully(e: KeyringError, step: DeleteStep)
    requires
        is_outage(e),
    ensures
        lookup_decision(SecretsLookup::EntryFailed(e)) == SecretsNext::NothingRemembered,
        lookup_decision(SecretsLookup::ReadFailed(e)) == SecretsNext::NothingRemembered,
        store_decision(Err(e)) == Ok::<bool, KeyringError>(false),
        delete_decision(step, Err(e)) == Ok::<(), KeyringError>(()),
{
}

/// A logic error of the store is never swallowed: every decision fails with
/// it (a missing entry aside, which loading migrates and deleting accepts).
pub proof fn logic_errors_propagate(e: KeyringError, step: DeleteStep)
    requires
        !is_outage(e),
        !(e is NoEntry),
    ensures
        lookup_decision(SecretsLookup::EntryFailed(e)) == SecretsNext::Fail(e),
        lookup_decision(SecretsLookup::ReadFailed(e)) == SecretsNext::Fail(e),
        store_decision(Err(e)) == Err::<bool, KeyringError>(e),
        delete_decision(step, Err(e)) == Err::<(), KeyringError>(e),
{
}

} // verus!
