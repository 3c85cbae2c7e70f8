//! The session store: which logged-in user each session id belongs to, kept
//! in a least-recently-used cache of bounded size.

use vstd::prelude::*;
use lru_time_cache::LruCache;
use textnonce::TextNonce;
use crate::models::{User, UserModel};

verus! {

#[verifier::external_type_specification]
#[verifier::external_body]
#[verifier::reject_recursive_types(Key)]
#[verifier::reject_recursive_types(Value)]
pub struct ExLruCache<Key, Value>(LruCache<Key, Value>);

/// The number of sessions the store keeps at most.
pub const SESSION_CAPACITY: usize = 10;

/// The length of a session id.
pub const SESSION_ID_LEN: usize = 64;

/// The name of the cookie that carries the session id.
pub const SESSION_COOKIE: &'static str = "BUP_SESSION";

/// Whether every character is one of base64's URL-safe alphabet:
/// `A`-`Z`, `a`-`z`, `0`-`9`, `-` and `_`.
pub open spec fn is_url_safe(s: Seq<char>) -> bool {
    forall|i: int|
        0 <= i < s.len() ==> {
            let c = #[trigger] s[i];
            ('A' <= c <= 'Z') || ('a' <= c <= 'z') || ('0' <= c <= '9') || c == '-' || c == '_'
        }
}

/// Calls `TextNonce::sized_urlsafe` of `textnonce` and takes the nonce's text.
/// The source shows: a length under 16 or not divisible by 4 is refused; otherwise
/// the text is the URL-safe base64 encoding of `length / 4 * 3` bytes (the current
/// time, then random bytes), so it has `length` characters of that alphabet and no
/// padding. A clock set before the Unix epoch is refused as well, so success is not
/// promised for any length. The characters themselves rest on the clock and on
/// chance, and are not stated. The random bytes come from the operating system's
/// source (`OsRng::fill_bytes`), which panics when that source fails.
#[verifier::external_body]
fn url_safe_nonce(length: usize) -> (r: Result<String, String>)
    ensures
        length < 16 || length % 4 != 0 ==> r is Err,
        r matches Ok(s) ==> s@.len() == length && is_url_safe(s@),
{
    match TextNonce::sized_urlsafe(length) {
        Ok(nonce) => Ok(nonce.into_string()),
        Err(e) => Err(e),
    }
}

/// The session of a logged-in user.
#[derive(Clone)]
pub struct UserSession(pub User);

impl View for UserSession {
    type V = UserModel;

    open spec fn view(&self) -> UserModel {
        self.0@
    }
}

impl UserSession {
    /// The session of `user`.
    pub fn new(user: User) -> (session: UserSession)
        ensures
            session@ == user@,
    {
        UserSession(user)
    }

    /// A copy of this session.
    pub fn duplicate(&self) -> (r: UserSession)
        ensures
            r@ == self@,
    {
        UserSession(self.0.duplicate())
    }
}

/// The entries of a session cache, as (session id, user) pairs.
pub type Entries = Seq<(Seq<char>, UserModel)>;

/// What a session cache holds: its (key, session) pairs, ordered from the least
/// recently used to the most recently used.
pub uninterp spec fn cache_entries(cache: LruCache<String, UserSession>) -> Seq<(Seq<char>, UserModel)>;

/// The capacity that a session cache was made with.
pub uninterp spec fn cache_capacity(cache: LruCache<String, UserSession>) -> nat;

/// No key occurs twice among the entries.
pub open spec fn unique_keys(entries: Entries) -> bool {
    forall|i: int, j: int|
        0 <= i < entries.len() && 0 <= j < entries.len() && i != j ==> entries[i].0 != entries[j].0
}

/// Whether some entry has the key `key`.
pub open spec fn has_key(entries: Entries, key: Seq<char>) -> bool {
    exists|i: int| 0 <= i < entries.len() && entries[i].0 == key
}

/// The position of the entry with key `key`, or -1 if there is none.
pub open spec fn index_of(entries: Entries, key: Seq<char>) -> int {
    if has_key(entries, key) {
        choose|i: int| 0 <= i < entries.len() && entries[i].0 == key
    } else {
        -1
    }
}

/// The user whose session has id `key`, if any.
pub open spec fn lookup(entries: Entries, key: Seq<char>) -> Option<UserModel> {
    if has_key(entries, key) {
        Some(entries[index_of(entries, key)].1)
    } else {
        None
    }
}

/// The entries after a read of `key`: a present key becomes the most recently used.
pub open spec fn after_read(entries: Entries, key: Seq<char>) -> Entries {
    if has_key(entries, key) {
        let i = index_of(entries, key);
        entries.remove(i).push(entries[i])
    } else {
        entries
    }
}

/// The entries after `key` is stored with `value` in a cache of capacity `capacity`:
/// a present key is overwritten and becomes the most recently used; a new key is
/// appended as the most recently used, after the least recently used entries are
/// dropped so that at most `capacity` entries remain.
pub open spec fn after_insert(entries: Entries, key: Seq<char>, value: UserModel, capacity: nat) -> Entries {
    if has_key(entries, key) {
        entries.remove(index_of(entries, key)).push((key, value))
    } else {
        let dropped: int = if entries.len() >= capacity {
            entries.len() - capacity + 1
        } else {
            0
        };
        entries.skip(dropped).push((key, value))
    }
}

/// Calls `LruCache::with_capacity` of `lru_time_cache`: a cache limited by key count
/// alone, with no expiry time. The source shows that it starts empty and keeps the
/// capacity it is given.
#[verifier::external_body]
fn new_cache(capacity: usize) -> (cache: LruCache<String, UserSession>)
    ensures
        cache_entries(cache) == Seq::<(Seq<char>, UserModel)>::empty(),
        cache_capacity(cache) == capacity,
{
    LruCache::with_capacity(capacity)
}

/// Calls `LruCache::insert` of `lru_time_cache` on a cache without expiry time.
/// The source shows: a present key has its value replaced and moves to the most
/// recently used end, and its old value is returned; otherwise, when the cache holds
/// `capacity` entries or more, the least recently used ones are dropped until
/// `capacity - 1` remain, the new pair is appended as the most recently used, and
/// `None` is returned. With capacity 0 the call panics, which `requires` leaves out.
#[verifier::external_body]
fn cache_insert(cache: &mut LruCache<String, UserSession>, key: String, value: UserSession) -> (r: Option<UserSession>)
    requires
        cache_capacity(*old(cache)) > 0,
        unique_keys(cache_entries(*old(cache))),
    ensures
        cache_entries(*final(cache)) == after_insert(
            cache_entries(*old(cache)),
            key@,
            value@,
            cache_capacity(*old(cache)),
        ),
        cache_capacity(*final(cache)) == cache_capacity(*old(cache)),
        match r {
            Some(v) => lookup(cache_entries(*old(cache)), key@) == Some(v@),
            None => !has_key(cache_entries(*old(cache)), key@),
        },
{
    cache.insert(key, value)
}

/// Calls `LruCache::get` of `lru_time_cache` on a cache without expiry time.
/// The source shows: a present key moves to the most recently used end and its
/// value is returned; otherwise nothing changes and `None` is returned.
#[verifier::external_body]
fn cache_get<'a>(cache: &'a mut LruCache<String, UserSession>, key: &String) -> (r: Option<&'a UserSession>)
    requires
        unique_keys(cache_entries(*old(cache))),
    ensures
        cache_entries(*final(cache)) == after_read(cache_entries(*old(cache)), key@),
        cache_capacity(*final(cache)) == cache_capacity(*old(cache)),
        match r {
            Some(v) => lookup(cache_entries(*old(cache)), key@) == Some(v@),
            None => !has_key(cache_entries(*old(cache)), key@),
        },
{
    cache.get(key)
}

/// The sessions of logged-in users, by session id.
pub struct SessionStore {
    sessions: LruCache<String, UserSession>,
}

impl View for SessionStore {
    type V = Seq<(Seq<char>, UserModel)>;

    closed spec fn view(&self) -> Seq<(Seq<char>, UserModel)> {
        cache_entries(self.sessions)
    }
}

impl SessionStore {
    /// The store keeps at most `SESSION_CAPACITY` sessions, no id twice.
    pub closed spec fn well_formed(&self) -> bool {
        &&& cache_capacity(self.sessions) == SESSION_CAPACITY
        &&& unique_keys(cache_entries(self.sessions))
        &&& cache_entries(self.sessions).len() <= SESSION_CAPACITY
    }

    /// An empty store.
    pub fn new() -> (store: SessionStore)
        ensures
            store.well_formed(),
            store@ == Seq::<(Seq<char>, UserModel)>::empty(),
    {
        SessionStore { sessions: new_cache(SESSION_CAPACITY) }
    }

    /// What a well-formed store promises of its sessions: at most
    /// `SESSION_CAPACITY` of them, no id twice.
    pub proof fn lemma_well_formed(&self)
        requires
            self.well_formed(),
        ensures
            unique_keys(self@),
            self@.len() <= SESSION_CAPACITY,
    {
    }

    /// A fresh session id: `SESSION_ID_LEN` URL-safe characters, from the current
    /// time and random bytes. `None` when the system could not provide one.
    pub fn new_id() -> (id: Option<String>)
        ensures
            id matches Some(s) ==> s@.len() == SESSION_ID_LEN && is_url_safe(s@),
    {
        match url_safe_nonce(SESSION_ID_LEN) {
            Ok(s) => Some(s),
            Err(_) => None,
        }
    }

    /// Saves `session` under `id`.
    pub fn insert(&mut self, id: String, session: UserSession)
        requires
            old(self).well_formed(),
        ensures
            final(self).well_formed(),
            final(self)@ == after_insert(old(self)@, id@, session@, SESSION_CAPACITY as nat),
    {
        proof {
            lemma_store_well_formed(self@, id@, session@, SESSION_CAPACITY as nat);
        }
        let _ = cache_insert(&mut self.sessions, id, session);
    }

    /// The session saved under `id`, if one exists; a read makes it the most
    /// recently used.
    pub fn get(&mut self, id: &String) -> (r: Option<UserSession>)
        requires
            old(self).well_formed(),
        ensures
            final(self).well_formed(),
            final(self)@ == after_read(old(self)@, id@),
            match r {
                Some(s) => lookup(old(self)@, id@) == Some(s@),
                None => lookup(old(self)@, id@) is None,
            },
    {
        proof {
            lemma_read_well_formed(self@, id@);
        }
        match cache_get(&mut self.sessions, id) {
            Some(s) => Some(s.duplicate()),
            None => None,
        }
    }
}

impl UserSession {
    /// The session that a request carries: the one saved under the value of its
    /// session cookie, if it has such a cookie and the store holds that id.
    pub fn from_request(store: &mut SessionStore, cookie: Option<&String>) -> (r: Option<UserSession>)
        requires
            old(store).well_formed(),
        ensures
            final(store).well_formed(),
            match cookie {
                None => r is None && final(store)@ == old(store)@,
                Some(id) => {
                    &&& final(store)@ == after_read(old(store)@, id@)
                    &&& match r {
                        Some(s) => lookup(old(store)@, id@) == Some(s@),
                        None => lookup(old(store)@, id@) is None,
                    }
                },
            },
    {
        match cookie {
            None => None,
            Some(id) => store.get(id),
        }
    }
}

proof fn lemma_index_of(entries: Entries, key: Seq<char>)
    requires
        has_key(entries, key),
    ensures
        0 <= index_of(entries, key) < entries.len(),
        entries[index_of(entries, key)].0 == key,
{
}

/// Storing a session into a store that keeps at most `capacity` sessions, no id
/// twice, leaves a store that again keeps at most `capacity` sessions, no id twice.
pub proof fn lemma_store_well_formed(entries: Entries, key: Seq<char>, value: UserModel, capacity: nat)
    requires
        capacity > 0,
        unique_keys(entries),
        entries.len() <= capacity,
    ensures
        unique_keys(after_insert(entries, key, value, capacity)),
        after_insert(entries, key, value, capacity).len() <= capacity,
{
    let r = after_insert(entries, key, value, capacity);
    if has_key(entries, key) {
        lemma_index_of(entries, key);
        let i = index_of(entries, key);
        let rest = entries.remove(i);
        assert forall|a: int| 0 <= a < rest.len() implies rest[a].0 != key by {
            if a < i {
                assert(rest[a] == entries[a]);
            } else {
                assert(rest[a] == entries[a + 1]);
            }
        }
        assert forall|a: int, b: int| 0 <= a < r.len() && 0 <= b < r.len() && a != b implies r[a].0
            != r[b].0 by {
            if a < rest.len() && b < rest.len() {
                let a2 = if a < i { a } else { a + 1 };
                let b2 = if b < i { b } else { b + 1 };
                assert(rest[a] == entries[a2]);
                assert(rest[b] == entries[b2]);
            }
        }
    } else {
        let dropped: int = if entries.len() >= capacity {
            entries.len() - capacity + 1
        } else {
            0
        };
        let rest = entries.skip(dropped);
        assert forall|a: int| 0 <= a < rest.len() implies rest[a].0 != key by {
            assert(rest[a] == entries[a + dropped]);
        }
        assert forall|a: int, b: int| 0 <= a < r.len() && 0 <= b < r.len() && a != b implies r[a].0
            != r[b].0 by {
            if a < rest.len() && b < rest.len() {
                assert(rest[a] == entries[a + dropped]);
                assert(rest[b] == entries[b + dropped]);
            }
        }
    }
}

/// Reading a session neither adds nor removes one, and keeps ids unique.
pub proof fn lemma_read_well_formed(entries: Entries, key: Seq<char>)
    requires
        unique_keys(entries),
    ensures
        unique_keys(after_read(entries, key)),
        after_read(entries, key).len() == entries.len(),
{
    if has_key(entries, key) {
        lemma_index_of(entries, key);
        let i = index_of(entries, key);
        let rest = entries.remove(i);
        let r = after_read(entries, key);
        assert forall|a: int, b: int| 0 <= a < r.len() && 0 <= b < r.len() && a != b implies r[a].0
            != r[b].0 by {
            let a2 = if a == rest.len() { i } else if a < i { a } else { a + 1 };
            let b2 = if b == rest.len() { i } else if b < i { b } else { b + 1 };
            assert(r[a] == entries[a2]);
            assert(r[b] == entries[b2]);
        }
    }
}

/// A read gives back what the last write stored: right after `key` is stored
/// with `value`, the session under `key` is `value`, and it is the most recently used.
pub proof fn lemma_read_after_write(entries: Entries, key: Seq<char>, value: UserModel, capacity: nat)
    requires
        capacity > 0,
        unique_keys(entries),
        entries.len() <= capacity,
    ensures
        lookup(after_insert(entries, key, value, capacity), key) == Some(value),
        after_insert(entries, key, value, capacity).last() == (key, value),
        after_read(after_insert(entries, key, value, capacity), key) == after_insert(entries, key, value, capacity),
{
    let r = after_insert(entries, key, value, capacity);
    lemma_store_well_formed(entries, key, value, capacity);
    if has_key(entries, key) {
        lemma_index_of(entries, key);
    }
    let last: int = r.len() - 1;
    assert(r[last] == (key, value));
    assert(has_key(r, key));
    lemma_index_of(r, key);
    assert(index_of(r, key) == last);
    assert(r.remove(last).push(r[last]) =~= r);
}

/// Storing one session leaves every other session in place, except the least
/// recently used one when the store is full and the id is new.
pub proof fn lemma_store_keeps_others(
    entries: Entries,
    key: Seq<char>,
    value: UserModel,
    capacity: nat,
    other: Seq<char>,
)
    requires
        capacity > 0,
        unique_keys(entries),
        entries.len() <= capacity,
        other != key,
        has_key(entries, key) || entries.len() < capacity || entries[0].0 != other,
    ensures
        lookup(after_insert(entries, key, value, capacity), other) == lookup(entries, other),
{
    lemma_store_well_formed(entries, key, value, capacity);
    if has_key(entries, other) {
        lemma_store_keeps_present(entries, key, value, capacity, other);
    } else {
        lemma_store_adds_only_key(entries, key, value, capacity, other);
    }
}

proof fn lemma_store_keeps_present(
    entries: Entries,
    key: Seq<char>,
    value: UserModel,
    capacity: nat,
    other: Seq<char>,
)
    requires
        capacity > 0,
        unique_keys(entries),
        unique_keys(after_insert(entries, key, value, capacity)),
        entries.len() <= capacity,
        other != key,
        has_key(entries, other),
        has_key(entries, key) || entries.len() < capacity || entries[0].0 != other,
    ensures
        lookup(after_insert(entries, key, value, capacity), other) == lookup(entries, other),
{
    let r = after_insert(entries, key, value, capacity);
    lemma_index_of(entries, other);
    let j = index_of(entries, other);
    let j2: int;
    if has_key(entries, key) {
        lemma_index_of(entries, key);
        let i = index_of(entries, key);
        j2 = if j < i { j } else { j - 1 };
        assert(r[j2] == entries[j]);
    } else {
        let dropped: int = if entries.len() >= capacity {
            entries.len() - capacity + 1
        } else {
            0
        };
        if dropped == 1 {
            assert(j != 0);
        }
        j2 = j - dropped;
        assert(r[j2] == entries[j]);
    }
    assert(has_key(r, other));
    lemma_index_of(r, other);
    assert(index_of(r, other) == j2);
}

proof fn lemma_store_adds_only_key(
    entries: Entries,
    key: Seq<char>,
    value: UserModel,
    capacity: nat,
    other: Seq<char>,
)
    requires
        capacity > 0,
        other != key,
        !has_key(entries, other),
    ensures
        !has_key(after_insert(entries, key, value, capacity), other),
{
    let r = after_insert(entries, key, value, capacity);
    assert forall|a: int| 0 <= a < r.len() implies r[a].0 != other by {
        if a < r.len() - 1 {
            if has_key(entries, key) {
                lemma_index_of(entries, key);
                let i = index_of(entries, key);
                let a2 = if a < i { a } else { a + 1 };
                assert(r[a] == entries[a2]);
            } else {
                let dropped: int = if entries.len() >= capacity {
                    entries.len() - capacity + 1
                } else {
                    0
                };
                assert(r[a] == entries[a + dropped]);
            }
        }
    }
}

/// A full store that receives a new id drops exactly its least recently used
/// session and stays full.
pub proof fn lemma_store_evicts_least_recent(
    entries: Entries,
    key: Seq<char>,
    value: UserModel,
    capacity: nat,
)
    requires
        capacity > 0,
        unique_keys(entries),
        entries.len() == capacity,
        !has_key(entries, key),
    ensures
        !has_key(after_insert(entries, key, value, capacity), entries[0].0),
        after_insert(entries, key, value, capacity).len() == capacity,
        after_insert(entries, key, value, capacity) == entries.drop_first().push((key, value)),
{
    let r = after_insert(entries, key, value, capacity);
    assert(entries.skip(1) =~= entries.drop_first());
    assert forall|a: int| 0 <= a < r.len() implies r[a].0 != entries[0].0 by {
        if a < r.len() - 1 {
            assert(r[a] == entries[a + 1]);
        }
    }
}

/// A read changes no session: every id gives back the same session as before.
/// A read of an id that has no session changes nothing at all.
pub proof fn lemma_read_changes_no_session(entries: Entries, key: Seq<char>, other: Seq<char>)
    requires
        unique_keys(entries),
    ensures
        lookup(after_read(entries, key), other) == lookup(entries, other),
        !has_key(entries, key) ==> after_read(entries, key) == entries,
{
    let r = after_read(entries, key);
    lemma_read_well_formed(entries, key);
    if has_key(entries, key) {
        lemma_index_of(entries, key);
        let i = index_of(entries, key);
        if has_key(entries, other) {
            lemma_index_of(entries, other);
            let j = index_of(entries, other);
            let j2 = if j == i { r.len() - 1 } else if j < i { j } else { j - 1 };
            assert(r[j2] == entries[j]);
            assert(has_key(r, other));
            lemma_index_of(r, other);
            assert(index_of(r, other) == j2);
        } else {
            assert forall|a: int| 0 <= a < r.len() implies r[a].0 != other by {
                let a2 = if a == r.len() - 1 { i } else if a < i { a } else { a + 1 };
                assert(r[a] == entries[a2]);
            }
        }
    }
}

/// A read of a present id makes its session the most recently used one, so that
/// it is the last to be dropped.
pub proof fn lemma_read_refreshes(entries: Entries, key: Seq<char>)
    requires
        has_key(entries, key),
    ensures
        after_read(entries, key).last().0 == key,
        after_read(entries, key).len() == entries.len(),
{
    lemma_index_of(entries, key);
}

/// The entries after each of `writes` is stored in turn, first to last.
pub open spec fn after_inserts(entries: Entries, writes: Entries, capacity: nat) -> Entries
    decreases writes.len(),
{
    if writes.len() == 0 {
        entries
    } else {
        after_insert(
            after_inserts(entries, writes.drop_last(), capacity),
            writes.last().0,
            writes.last().1,
            capacity,
        )
    }
}

/// One write of another id moves a session at most one place away from the most
/// recently used end, and keeps it while it is not the least recently used one of
/// a full store.
proof fn lemma_one_other_write(
    entries: Entries,
    key: Seq<char>,
    value: UserModel,
    j: int,
    other: Seq<char>,
    other_value: UserModel,
    capacity: nat,
) -> (j2: int)
    requires
        capacity > 0,
        unique_keys(entries),
        entries.len() <= capacity,
        0 <= j < entries.len(),
        entries[j] == (key, value),
        entries.len() - 1 - j < capacity - 1,
        other != key,
    ensures
        0 <= j2 < after_insert(entries, other, other_value, capacity).len(),
        after_insert(entries, other, other_value, capacity)[j2] == (key, value),
        after_insert(entries, other, other_value, capacity).len() - 1 - j2 <= entries.len() - j,
{
    let r = after_insert(entries, other, other_value, capacity);
    if has_key(entries, other) {
        lemma_index_of(entries, other);
        let i = index_of(entries, other);
        assert(i != j);
        if i < j {
            assert(r[j - 1] == entries[j]);
            j - 1
        } else {
            assert(r[j] == entries[j]);
            j
        }
    } else if entries.len() >= capacity {
        assert(j >= 1);
        assert(r[j - 1] == entries[j]);
        j - 1
    } else {
        assert(r[j] == entries[j]);
        j
    }
}

proof fn lemma_survives_writes(
    entries: Entries,
    key: Seq<char>,
    value: UserModel,
    writes: Entries,
    capacity: nat,
) -> (j: int)
    requires
        capacity > 0,
        unique_keys(entries),
        entries.len() <= capacity,
        entries.len() > 0,
        entries.last() == (key, value),
        writes.len() < capacity,
        forall|i: int| 0 <= i < writes.len() ==> (#[trigger] writes[i]).0 != key,
    ensures
        unique_keys(after_inserts(entries, writes, capacity)),
        after_inserts(entries, writes, capacity).len() <= capacity,
        0 <= j < after_inserts(entries, writes, capacity).len(),
        after_inserts(entries, writes, capacity)[j] == (key, value),
        after_inserts(entries, writes, capacity).len() - 1 - j <= writes.len(),
    decreases writes.len(),
{
    if writes.len() == 0 {
        entries.len() - 1
    } else {
        let before = writes.drop_last();
        assert forall|i: int| 0 <= i < before.len() implies (#[trigger] before[i]).0 != key by {
            assert(before[i] == writes[i]);
        }
        let j0 = lemma_survives_writes(entries, key, value, before, capacity);
        let mid = after_inserts(entries, before, capacity);
        assert(writes.last() == writes[writes.len() - 1]);
        lemma_store_well_formed(mid, writes.last().0, writes.last().1, capacity);
        lemma_one_other_write(mid, key, value, j0, writes.last().0, writes.last().1, capacity)
    }
}

/// A read finds a session for as long as fewer than `capacity` writes of other ids
/// have followed its own write: the store of ten keeps a session through nine
/// other logins.
pub proof fn lemma_session_survives_other_writes(
    entries: Entries,
    key: Seq<char>,
    value: UserModel,
    writes: Entries,
    capacity: nat,
)
    requires
        capacity > 0,
        unique_keys(entries),
        entries.len() <= capacity,
        writes.len() < capacity,
        forall|i: int| 0 <= i < writes.len() ==> (#[trigger] writes[i]).0 != key,
    ensures
        lookup(after_inserts(after_insert(entries, key, value, capacity), writes, capacity), key)
            == Some(value),
{
    let first = after_insert(entries, key, value, capacity);
    lemma_store_well_formed(entries, key, value, capacity);
    lemma_read_after_write(entries, key, value, capacity);
    let j = lemma_survives_writes(first, key, value, writes, capacity);
    let r = after_inserts(first, writes, capacity);
    assert(has_key(r, key));
    lemma_index_of(r, key);
    assert(index_of(r, key) == j);
}

/// The ids that `writes` store, each once.
pub open spec fn write_ids(writes: Entries) -> Set<Seq<char>> {
    writes.map_values(|w: (Seq<char>, UserModel)| w.0).to_set()
}

/// The entries after position `j` have distinct ids, so when all of them are among
/// `ids` there are at most as many of them as `ids` has members.
proof fn lemma_later_ids_bound(entries: Entries, j: int, ids: Set<Seq<char>>)
    requires
        unique_keys(entries),
        0 <= j < entries.len(),
        ids.finite(),
        forall|i: int| j < i < entries.len() ==> ids.contains(#[trigger] entries[i].0),
    ensures
        entries.len() - 1 - j <= ids.len(),
{
    let later = Seq::new((entries.len() - 1 - j) as nat, |i: int| entries[j + 1 + i].0);
    assert forall|a: int, b: int| 0 <= a < later.len() && 0 <= b < later.len() && a != b implies later[a]
        != later[b] by {
        assert(entries[j + 1 + a].0 != entries[j + 1 + b].0);
    }
    assert(later.no_duplicates());
    later.unique_seq_to_set();
    assert forall|x: Seq<char>| later.to_set().contains(x) implies ids.contains(x) by {
        let a = choose|a: int| 0 <= a < later.len() && later[a] == x;
        assert(ids.contains(entries[j + 1 + a].0));
    }
    vstd::set_lib::lemma_len_subset(later.to_set(), ids);
}

/// One write of an id among `ids` keeps a session whose more recent entries all
/// have ids among `ids`, and keeps that true of it.
proof fn lemma_one_write_within_ids(
    entries: Entries,
    key: Seq<char>,
    value: UserModel,
    j: int,
    other: Seq<char>,
    other_value: UserModel,
    capacity: nat,
    ids: Set<Seq<char>>,
) -> (j2: int)
    requires
        capacity > 0,
        unique_keys(entries),
        entries.len() <= capacity,
        0 <= j < entries.len(),
        entries[j] == (key, value),
        ids.finite(),
        ids.len() < capacity,
        !ids.contains(key),
        ids.contains(other),
        forall|i: int| j < i < entries.len() ==> ids.contains(#[trigger] entries[i].0),
    ensures
        0 <= j2 < after_insert(entries, other, other_value, capacity).len(),
        after_insert(entries, other, other_value, capacity)[j2] == (key, value),
        forall|i: int|
            j2 < i < after_insert(entries, other, other_value, capacity).len() ==> ids.contains(
                #[trigger] after_insert(entries, other, other_value, capacity)[i].0,
            ),
{
    let r = after_insert(entries, other, other_value, capacity);
    if has_key(entries, other) {
        lemma_index_of(entries, other);
        let i = index_of(entries, other);
        assert(i != j);
        let j2 = if i < j { j - 1 } else { j };
        assert(r[j2] == entries[j]);
        assert forall|a: int| j2 < a < r.len() implies ids.contains(#[trigger] r[a].0) by {
            if a < r.len() - 1 {
                let a0 = if a < i { a } else { a + 1 };
                assert(r[a] == entries[a0]);
            }
        }
        j2
    } else if entries.len() >= capacity {
        assert forall|a: int| j < a < entries.len() implies ids.remove(other).contains(
            #[trigger] entries[a].0,
        ) by {
            assert(ids.contains(entries[a].0));
        }
        lemma_later_ids_bound(entries, j, ids.remove(other));
        assert(j >= 1);
        assert(r[j - 1] == entries[j]);
        assert forall|a: int| j - 1 < a < r.len() implies ids.contains(#[trigger] r[a].0) by {
            if a < r.len() - 1 {
                assert(r[a] == entries[a + 1]);
            }
        }
        j - 1
    } else {
        assert(r[j] == entries[j]);
        assert forall|a: int| j < a < r.len() implies ids.contains(#[trigger] r[a].0) by {
            if a < r.len() - 1 {
                assert(r[a] == entries[a]);
            }
        }
        j
    }
}

proof fn lemma_survives_within_ids(
    entries: Entries,
    key: Seq<char>,
    value: UserModel,
    writes: Entries,
    capacity: nat,
    ids: Set<Seq<char>>,
) -> (j: int)
    requires
        capacity > 0,
        unique_keys(entries),
        entries.len() <= capacity,
        entries.len() > 0,
        entries.last() == (key, value),
        ids.finite(),
        ids.len() < capacity,
        !ids.contains(key),
        forall|i: int| 0 <= i < writes.len() ==> ids.contains((#[trigger] writes[i]).0),
    ensures
        unique_keys(after_inserts(entries, writes, capacity)),
        after_inserts(entries, writes, capacity).len() <= capacity,
        0 <= j < after_inserts(entries, writes, capacity).len(),
        after_inserts(entries, writes, capacity)[j] == (key, value),
        forall|i: int|
            j < i < after_inserts(entries, writes, capacity).len() ==> ids.contains(
                #[trigger] after_inserts(entries, writes, capacity)[i].0,
            ),
    decreases writes.len(),
{
    if writes.len() == 0 {
        entries.len() - 1
    } else {
        let before = writes.drop_last();
        assert forall|i: int| 0 <= i < before.len() implies ids.contains((#[trigger] before[i]).0) by {
            assert(before[i] == writes[i]);
        }
        let j0 = lemma_survives_within_ids(entries, key, value, before, capacity, ids);
        let mid = after_inserts(entries, before, capacity);
        assert(writes.last() == writes[writes.len() - 1]);
        lemma_store_well_formed(mid, writes.last().0, writes.last().1, capacity);
        lemma_one_write_within_ids(
            mid,
            key,
            value,
            j0,
            writes.last().0,
            writes.last().1,
            capacity,
            ids,
        )
    }
}

/// A session is still found after any number of writes, with no reads between
/// them, that use fewer than `capacity` ids other than its own: the store of ten
/// keeps a session however often up to nine other ids are saved.
pub proof fn lemma_session_survives_few_other_ids(
    entries: Entries,
    key: Seq<char>,
    value: UserModel,
    writes: Entries,
    capacity: nat,
)
    requires
        capacity > 0,
        unique_keys(entries),
        entries.len() <= capacity,
        forall|i: int| 0 <= i < writes.len() ==> (#[trigger] writes[i]).0 != key,
        write_ids(writes).len() < capacity,
    ensures
        lookup(after_inserts(after_insert(entries, key, value, capacity), writes, capacity), key)
            == Some(value),
{
    let ids = write_ids(writes);
    let names = writes.map_values(|w: (Seq<char>, UserModel)| w.0);
    vstd::seq_lib::seq_to_set_is_finite(names);
    assert forall|i: int| 0 <= i < writes.len() implies ids.contains((#[trigger] writes[i]).0) by {
        assert(names[i] == writes[i].0);
    }
    assert(!ids.contains(key)) by {
        if ids.contains(key) {
            let i = choose|i: int| 0 <= i < names.len() && names[i] == key;
            assert(writes[i].0 == key);
        }
    }
    let first = after_insert(entries, key, value, capacity);
    lemma_store_well_formed(entries, key, value, capacity);
    lemma_read_after_write(entries, key, value, capacity);
    let j = lemma_survives_within_ids(first, key, value, writes, capacity, ids);
    let r = after_inserts(first, writes, capacity);
    assert(has_key(r, key));
    lemma_index_of(r, key);
    assert(index_of(r, key) == j);
}

} // verus!
