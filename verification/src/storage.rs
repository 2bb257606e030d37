//! The storage engine: the key space, the command handlers, and the
//! expiry sweep.
//!
//! The key space is a vector of entries with pairwise distinct keys; its
//! mathematical model is the entry sequence, and every command is
//! specified against `spec_execute`, a pure transition function from the
//! key space, the command words and the current time to the next key
//! space and the reply.

use crate::resp::{RESP, RespData};
use crate::set::{
    KeyExistence, KeyExpiry, SetArgs, join_with_spaces, parse_set_arguments, spec_join_spaces,
    spec_parse_set_args,
};
use crate::storage_result::{StorageError, StorageErrorData, StorageResult};
use crate::text::{case_eq, eq_ignore_case};
use vstd::prelude::*;
use vstd::string::StringExecFns;

verus! {

/// A value stored under a key; currently only text.
#[derive(Debug, PartialEq)]
pub enum StorageValue {
    String(String),
}

impl DeepView for StorageValue {
    type V = Seq<char>;

    open spec fn deep_view(&self) -> Seq<char> {
        match self {
            StorageValue::String(s) => s@,
        }
    }
}

/// One stored entry: a key, its value, and the optional absolute instant,
/// in milliseconds since the Unix epoch, at which it expires.
#[derive(Debug, PartialEq)]
pub struct StorageEntry {
    pub key: String,
    pub value: StorageValue,
    pub expires_at: Option<u64>,
}

/// The mathematical shape of a stored entry.
pub struct EntryData {
    pub key: Seq<char>,
    pub value: Seq<char>,
    pub expires_at: Option<u64>,
}

impl DeepView for StorageEntry {
    type V = EntryData;

    open spec fn deep_view(&self) -> EntryData {
        EntryData { key: self.key@, value: self.value.deep_view(), expires_at: self.expires_at }
    }
}

/// The key space.
pub struct Storage {
    pub store: Vec<StorageEntry>,
}

// --- the model of the key space ---

/// The position of the entry holding `k`, if any.
pub open spec fn spec_find_index(s: Seq<EntryData>, k: Seq<char>) -> Option<int>
    decreases s.len(),
{
    if s.len() == 0 {
        None
    } else if s[0].key == k {
        Some(0)
    } else {
        match spec_find_index(s.drop_first(), k) {
            Some(i) => Some(i + 1),
            None => None,
        }
    }
}

/// The entry holding `k`, if any.
pub open spec fn spec_find_entry(s: Seq<EntryData>, k: Seq<char>) -> Option<EntryData>
    decreases s.len(),
{
    if s.len() == 0 {
        None
    } else if s[0].key == k {
        Some(s[0])
    } else {
        spec_find_entry(s.drop_first(), k)
    }
}

/// No key appears twice.
pub open spec fn keys_unique(s: Seq<EntryData>) -> bool {
    forall|i: int, j: int| 0 <= i < j < s.len() ==> s[i].key != s[j].key
}

/// Writing `k` to `v` with expiry `e`: the existing entry is replaced in
/// place, or a new entry is appended.
pub open spec fn spec_upsert(s: Seq<EntryData>, k: Seq<char>, v: Seq<char>, e: Option<u64>) -> Seq<
    EntryData,
>
    decreases s.len(),
{
    let entry = EntryData { key: k, value: v, expires_at: e };
    if s.len() == 0 {
        seq![entry]
    } else if s[0].key == k {
        seq![entry] + s.drop_first()
    } else {
        seq![s[0]] + spec_upsert(s.drop_first(), k, v, e)
    }
}

/// Whether `e` is past its expiry instant at time `now`.
pub open spec fn spec_expired(e: EntryData, now: u64) -> bool {
    match e.expires_at {
        Some(t) => t <= now,
        None => false,
    }
}

/// The key space after one sweep at time `now`: the expired entries are
/// gone, everything else is kept in order.
pub open spec fn spec_sweep(s: Seq<EntryData>, now: u64) -> Seq<EntryData>
    decreases s.len(),
{
    if s.len() == 0 {
        Seq::empty()
    } else if spec_expired(s[0], now) {
        spec_sweep(s.drop_first(), now)
    } else {
        seq![s[0]] + spec_sweep(s.drop_first(), now)
    }
}

// --- lemmas about the model ---

/// `spec_find_index` finds the first match, and `spec_find_entry` is the
/// entry at that position.
pub proof fn lemma_find_index(s: Seq<EntryData>, k: Seq<char>)
    ensures
        match spec_find_index(s, k) {
            Some(i) => 0 <= i < s.len() && s[i].key == k && (forall|m: int|
                0 <= m < i ==> s[m].key != k) && spec_find_entry(s, k) == Some(s[i]),
            None => (forall|m: int| 0 <= m < s.len() ==> s[m].key != k) && spec_find_entry(s, k)
                is None,
        },
    decreases s.len(),
{
    if s.len() > 0 && s[0].key != k {
        lemma_find_index(s.drop_first(), k);
        let rest = s.drop_first();
        match spec_find_index(rest, k) {
            Some(i) => {
                assert forall|m: int| 0 <= m < i + 1 implies s[m].key != k by {
                    if m > 0 {
                        assert(rest[m - 1] == s[m]);
                    }
                }
                assert(s[i + 1] == rest[i]);
            },
            None => {
                assert forall|m: int| 0 <= m < s.len() implies s[m].key != k by {
                    if m > 0 {
                        assert(rest[m - 1] == s[m]);
                    }
                }
            },
        }
    }
}

/// There is an entry for `k` exactly when some position holds it.
pub proof fn lemma_find_entry_exists(s: Seq<EntryData>, k: Seq<char>)
    ensures
        spec_find_entry(s, k) is Some <==> exists|i: int| 0 <= i < s.len() && s[i].key == k,
{
    lemma_find_index(s, k);
    match spec_find_index(s, k) {
        Some(i) => {
            assert(0 <= i < s.len() && s[i].key == k);
        },
        None => {},
    }
}

/// The upsert, expressed over the found position: an in-place update when
/// the key exists, an append when it does not.
pub proof fn lemma_upsert_as_update(s: Seq<EntryData>, k: Seq<char>, v: Seq<char>, e: Option<u64>)
    ensures
        match spec_find_index(s, k) {
            Some(i) => spec_upsert(s, k, v, e) == s.update(
                i,
                EntryData { key: k, value: v, expires_at: e },
            ),
            None => spec_upsert(s, k, v, e) == s.push(
                EntryData { key: k, value: v, expires_at: e },
            ),
        },
    decreases s.len(),
{
    let entry = EntryData { key: k, value: v, expires_at: e };
    if s.len() == 0 {
        assert(spec_upsert(s, k, v, e) =~= s.push(entry));
    } else if s[0].key == k {
        assert(spec_upsert(s, k, v, e) =~= s.update(0, entry));
    } else {
        lemma_upsert_as_update(s.drop_first(), k, v, e);
        lemma_find_index(s.drop_first(), k);
        let rest = s.drop_first();
        match spec_find_index(rest, k) {
            Some(i) => {
                assert(seq![s[0]] + rest.update(i, entry) =~= s.update(i + 1, entry));
            },
            None => {
                assert(seq![s[0]] + rest.push(entry) =~= s.push(entry));
            },
        }
    }
}

/// After a write, the written key holds exactly the new entry, every
/// other key is untouched, and keys stay pairwise distinct.
pub proof fn lemma_upsert_find(s: Seq<EntryData>, k: Seq<char>, v: Seq<char>, e: Option<u64>)
    requires
        keys_unique(s),
    ensures
        keys_unique(spec_upsert(s, k, v, e)),
        spec_find_entry(spec_upsert(s, k, v, e), k) == Some(
            EntryData { key: k, value: v, expires_at: e },
        ),
        forall|k2: Seq<char>|
            k2 != k ==> #[trigger] spec_find_entry(spec_upsert(s, k, v, e), k2) == spec_find_entry(
                s,
                k2,
            ),
    decreases s.len(),
{
    let entry = EntryData { key: k, value: v, expires_at: e };
    let out = spec_upsert(s, k, v, e);
    if s.len() == 0 {
        assert(out == seq![entry]);
        assert(out.drop_first() =~= Seq::<EntryData>::empty());
        assert forall|k2: Seq<char>| k2 != k implies #[trigger] spec_find_entry(out, k2)
            == spec_find_entry(s, k2) by {
            assert(spec_find_entry(out, k2) == spec_find_entry(out.drop_first(), k2));
        }
    } else if s[0].key == k {
        assert(out == seq![entry] + s.drop_first());
        assert(out[0] == entry);
        assert(out.drop_first() =~= s.drop_first());
        assert forall|i: int, j: int| 0 <= i < j < out.len() implies out[i].key != out[j].key by {
            if i > 0 {
                assert(out[i] == s[i]);
            }
            assert(out[j] == s[j]);
        }
        assert forall|k2: Seq<char>| k2 != k implies #[trigger] spec_find_entry(out, k2)
            == spec_find_entry(s, k2) by {
            assert(spec_find_entry(out, k2) == spec_find_entry(out.drop_first(), k2));
            assert(spec_find_entry(s, k2) == spec_find_entry(s.drop_first(), k2));
        }
    } else {
        assert(keys_unique(s.drop_first())) by {
            assert forall|i: int, j: int|
                0 <= i < j < s.drop_first().len() implies s.drop_first()[i].key != s.drop_first()[
                j
            ].key by {
                assert(s.drop_first()[i] == s[i + 1]);
                assert(s.drop_first()[j] == s[j + 1]);
            }
        }
        lemma_upsert_find(s.drop_first(), k, v, e);
        let rest_out = spec_upsert(s.drop_first(), k, v, e);
        assert(out == seq![s[0]] + rest_out);
        assert(out[0] == s[0]);
        assert(out.drop_first() =~= rest_out);
        lemma_find_entry_exists(s.drop_first(), k);
        // the head key differs from `k`, so it is absent from the rewritten
        // tail unless it was already in the tail, which uniqueness forbids
        assert forall|i: int, j: int| 0 <= i < j < out.len() implies out[i].key != out[j].key by {
            if i == 0 {
                if out[j].key == s[0].key {
                    assert(rest_out[j - 1].key == s[0].key);
                    lemma_find_entry_exists(rest_out, s[0].key);
                    assert(spec_find_entry(rest_out, s[0].key) is Some);
                    assert(spec_find_entry(s.drop_first(), s[0].key) is Some);
                    lemma_find_entry_exists(s.drop_first(), s[0].key);
                    let w = choose|w: int|
                        0 <= w < s.drop_first().len() && s.drop_first()[w].key == s[0].key;
                    assert(s[w + 1].key == s[0].key);
                    assert(false);
                }
            } else {
                assert(out[i] == rest_out[i - 1]);
                assert(out[j] == rest_out[j - 1]);
            }
        }
        assert forall|k2: Seq<char>| k2 != k implies #[trigger] spec_find_entry(out, k2)
            == spec_find_entry(s, k2) by {
            if k2 == s[0].key {
                assert(spec_find_entry(out, k2) == Some(out[0]));
                assert(spec_find_entry(s, k2) == Some(s[0]));
            } else {
                assert(spec_find_entry(out, k2) == spec_find_entry(rest_out, k2));
                assert(spec_find_entry(s, k2) == spec_find_entry(s.drop_first(), k2));
            }
        }
    }
}

/// A key present after the sweep was present before it.
pub proof fn lemma_sweep_key_present(s: Seq<EntryData>, now: u64, k: Seq<char>)
    ensures
        spec_find_entry(spec_sweep(s, now), k) is Some ==> spec_find_entry(s, k) is Some,
    decreases s.len(),
{
    if s.len() > 0 {
        lemma_sweep_key_present(s.drop_first(), now, k);
        if !spec_expired(s[0], now) {
            let out = spec_sweep(s, now);
            assert(out == seq![s[0]] + spec_sweep(s.drop_first(), now));
            assert(out[0] == s[0]);
            assert(out.drop_first() =~= spec_sweep(s.drop_first(), now));
        }
    }
}

/// The sweep relates the key spaces exactly: an entry survives if and
/// only if it was present and not yet expired; in particular an entry
/// with no expiry is never removed.
pub proof fn lemma_sweep_find(s: Seq<EntryData>, now: u64, k: Seq<char>)
    requires
        keys_unique(s),
    ensures
        spec_find_entry(spec_sweep(s, now), k) == match spec_find_entry(s, k) {
            Some(e) => if spec_expired(e, now) {
                None
            } else {
                Some(e)
            },
            None => None::<EntryData>,
        },
    decreases s.len(),
{
    if s.len() > 0 {
        assert(keys_unique(s.drop_first())) by {
            assert forall|i: int, j: int|
                0 <= i < j < s.drop_first().len() implies s.drop_first()[i].key != s.drop_first()[
                j
            ].key by {
                assert(s.drop_first()[i] == s[i + 1]);
                assert(s.drop_first()[j] == s[j + 1]);
            }
        }
        lemma_sweep_find(s.drop_first(), now, k);
        let rest_sweep = spec_sweep(s.drop_first(), now);
        if spec_expired(s[0], now) {
            if s[0].key == k {
                lemma_find_index(s.drop_first(), k);
                match spec_find_index(s.drop_first(), k) {
                    Some(w) => {
                        assert(s.drop_first()[w] == s[w + 1]);
                        assert(false);
                    },
                    None => {},
                }
            }
        } else {
            let out = spec_sweep(s, now);
            assert(out == seq![s[0]] + rest_sweep);
            assert(out[0] == s[0]);
            assert(out.drop_first() =~= rest_sweep);
        }
    }
}

/// The sweep keeps keys pairwise distinct.
pub proof fn lemma_sweep_unique(s: Seq<EntryData>, now: u64)
    requires
        keys_unique(s),
    ensures
        keys_unique(spec_sweep(s, now)),
    decreases s.len(),
{
    if s.len() > 0 {
        assert(keys_unique(s.drop_first())) by {
            assert forall|i: int, j: int|
                0 <= i < j < s.drop_first().len() implies s.drop_first()[i].key != s.drop_first()[
                j
            ].key by {
                assert(s.drop_first()[i] == s[i + 1]);
                assert(s.drop_first()[j] == s[j + 1]);
            }
        }
        lemma_sweep_unique(s.drop_first(), now);
        if !spec_expired(s[0], now) {
            let rest_sweep = spec_sweep(s.drop_first(), now);
            let out = spec_sweep(s, now);
            assert(out == seq![s[0]] + rest_sweep);
            assert forall|i: int, j: int|
                0 <= i < j < out.len() implies out[i].key != out[j].key by {
                if i == 0 {
                    if out[j].key == s[0].key {
                        assert(rest_sweep[j - 1].key == s[0].key);
                        lemma_find_entry_exists(rest_sweep, s[0].key);
                        lemma_sweep_key_present(s.drop_first(), now, s[0].key);
                        lemma_find_entry_exists(s.drop_first(), s[0].key);
                        let w = choose|w: int|
                            0 <= w < s.drop_first().len() && s.drop_first()[w].key == s[0].key;
                        assert(s[w + 1].key == s[0].key);
                        assert(false);
                    }
                } else {
                    assert(out[i] == rest_sweep[i - 1]);
                    assert(out[j] == rest_sweep[j - 1]);
                }
            }
        }
    }
}

/// Appending an entry to the swept prefix: the entry stays exactly when
/// it is not yet expired.
pub proof fn lemma_sweep_push(s: Seq<EntryData>, x: EntryData, now: u64)
    ensures
        spec_sweep(s.push(x), now) == if spec_expired(x, now) {
            spec_sweep(s, now)
        } else {
            spec_sweep(s, now).push(x)
        },
    decreases s.len(),
{
    if s.len() == 0 {
        assert(s.push(x).drop_first() =~= Seq::<EntryData>::empty());
        assert(s.push(x)[0] == x);
        assert(spec_sweep(Seq::<EntryData>::empty(), now) == Seq::<EntryData>::empty());
        assert(s =~= Seq::<EntryData>::empty());
        if spec_expired(x, now) {
        } else {
            assert(spec_sweep(s.push(x), now) =~= spec_sweep(s, now).push(x));
        }
    } else {
        assert(s.push(x).drop_first() =~= s.drop_first().push(x));
        assert(s.push(x)[0] == s[0]);
        lemma_sweep_push(s.drop_first(), x, now);
        if spec_expired(s[0], now) {
            assert(spec_sweep(s.push(x), now) == spec_sweep(s.drop_first().push(x), now));
            assert(spec_sweep(s, now) == spec_sweep(s.drop_first(), now));
        } else {
            assert(spec_sweep(s.push(x), now) == seq![s[0]] + spec_sweep(
                s.drop_first().push(x),
                now,
            ));
            assert(spec_sweep(s, now) == seq![s[0]] + spec_sweep(s.drop_first(), now));
            if !spec_expired(x, now) {
                assert(spec_sweep(s.push(x), now) =~= spec_sweep(s, now).push(x));
            }
        }
    }
}

// --- the command transition function ---

/// The absolute expiry instant of a write at time `now`, saturating at
/// the largest representable instant.
pub open spec fn spec_expiry_instant(now: u64, e: Option<KeyExpiry>) -> Option<u64> {
    match e {
        None => None,
        Some(KeyExpiry::EX(secs)) => if now + secs * 1000 > u64::MAX {
            Some(u64::MAX)
        } else {
            Some((now + secs * 1000) as u64)
        },
        Some(KeyExpiry::PX(ms)) => if now + ms > u64::MAX {
            Some(u64::MAX)
        } else {
            Some((now + ms) as u64)
        },
    }
}

/// The SET command over the key space: the option grammar, the existence
/// condition, the write, and the reply.
pub open spec fn spec_execute_set(store: Seq<EntryData>, cmd: Seq<Seq<char>>, now: u64) -> (
    Seq<EntryData>,
    Result<RespData, StorageErrorData>,
) {
    if cmd.len() < 3 {
        (store, Err(StorageErrorData::CommandInternalError("set takes a key and a value"@)))
    } else {
        let opts = cmd.subrange(3, cmd.len() as int);
        match spec_parse_set_args(opts) {
            None => (store, Err(StorageErrorData::CommandSyntaxError(spec_join_spaces(opts)))),
            Some(a) => {
                let key = cmd[1];
                let value = cmd[2];
                let prev = spec_find_entry(store, key);
                let blocked = (a.existence == Some(KeyExistence::NX) && prev is Some) || (
                a.existence == Some(KeyExistence::XX) && prev is None);
                let post = if blocked {
                    store
                } else {
                    spec_upsert(store, key, value, spec_expiry_instant(now, a.expiry))
                };
                let reply = if a.get {
                    match prev {
                        Some(e) => RespData::BulkString(e.value),
                        None => RespData::Null,
                    }
                } else if blocked {
                    RespData::Null
                } else {
                    RespData::SimpleString("OK"@)
                };
                (post, Ok(reply))
            },
        }
    }
}

/// One command against the key space at time `now`: the next key space
/// and the reply. Dispatch is by the case-folded first word.
pub open spec fn spec_execute(store: Seq<EntryData>, cmd: Seq<Seq<char>>, now: u64) -> (
    Seq<EntryData>,
    Result<RespData, StorageErrorData>,
) {
    if cmd.len() == 0 {
        (store, Err(StorageErrorData::IncorrectRequest))
    } else if case_eq(cmd[0], "ping"@) {
        (store, Ok(RespData::SimpleString("PONG"@)))
    } else if case_eq(cmd[0], "echo"@) {
        if cmd.len() >= 2 {
            (store, Ok(RespData::BulkString(cmd[1])))
        } else {
            (store, Err(StorageErrorData::CommandInternalError("echo takes exactly one argument"@)))
        }
    } else if case_eq(cmd[0], "set"@) {
        spec_execute_set(store, cmd, now)
    } else {
        (store, Err(StorageErrorData::CommandNotAvailable(cmd[0])))
    }
}

/// How an executed command relates the states and the returned value to
/// the transition function.
pub open spec fn execution_matches(
    pre: Seq<EntryData>,
    post: Seq<EntryData>,
    cmd: Seq<Seq<char>>,
    r: StorageResult<RESP>,
    now: u64,
) -> bool {
    let (st2, res) = spec_execute(pre, cmd, now);
    &&& post == st2
    &&& match (r, res) {
        (Ok(v), Ok(d)) => v.deep_view() == d,
        (Err(e), Err(d)) => e.deep_view() == d,
        _ => false,
    }
}

/// Dispatch is oblivious to state for PING: whatever the key space, the
/// remaining arguments and the clock, the reply is PONG and nothing
/// changes.
pub proof fn lemma_ping_idempotent(store: Seq<EntryData>, cmd: Seq<Seq<char>>, now: u64)
    requires
        cmd.len() >= 1,
        case_eq(cmd[0], "ping"@),
    ensures
        spec_execute(store, cmd, now) == (
            store,
            Ok::<RespData, StorageErrorData>(RespData::SimpleString("PONG"@)),
        ),
{
}

/// Dispatch is oblivious to state for ECHO: whatever the key space and
/// the clock, the first argument comes back as a bulk string and nothing
/// changes.
pub proof fn lemma_echo_returns_argument(store: Seq<EntryData>, cmd: Seq<Seq<char>>, now: u64)
    requires
        cmd.len() >= 2,
        case_eq(cmd[0], "echo"@),
    ensures
        spec_execute(store, cmd, now) == (
            store,
            Ok::<RespData, StorageErrorData>(RespData::BulkString(cmd[1])),
        ),
{
    reveal_strlit("echo");
    reveal_strlit("ping");
    assert(crate::text::lower_code("echo"@[0]) == 101);
    assert(crate::text::lower_code("ping"@[0]) == 112);
    assert(!case_eq(cmd[0], "ping"@));
}

/// SET's existence semantics, for every state, key, value, option list
/// and clock: a write blocked by its condition leaves the key space
/// untouched, an unblocked one leaves the key holding the new value and
/// every other key as it was, and a syntax error never writes.
pub proof fn lemma_set_existence(store: Seq<EntryData>, cmd: Seq<Seq<char>>, now: u64)
    requires
        keys_unique(store),
        cmd.len() >= 3,
    ensures
        ({
            let (post, _) = spec_execute_set(store, cmd, now);
            match spec_parse_set_args(cmd.subrange(3, cmd.len() as int)) {
                None => post == store,
                Some(a) => {
                    let prev = spec_find_entry(store, cmd[1]);
                    let blocked = (a.existence == Some(KeyExistence::NX) && prev is Some) || (
                    a.existence == Some(KeyExistence::XX) && prev is None);
                    &&& keys_unique(post)
                    &&& blocked ==> post == store
                    &&& !blocked ==> spec_find_entry(post, cmd[1]) == Some(
                        EntryData {
                            key: cmd[1],
                            value: cmd[2],
                            expires_at: spec_expiry_instant(now, a.expiry),
                        },
                    ) && (forall|k2: Seq<char>|
                        k2 != cmd[1] ==> #[trigger] spec_find_entry(post, k2) == spec_find_entry(
                            store,
                            k2,
                        ))
                },
            }
        }),
{
    match spec_parse_set_args(cmd.subrange(3, cmd.len() as int)) {
        None => {},
        Some(a) => {
            lemma_upsert_find(store, cmd[1], cmd[2], spec_expiry_instant(now, a.expiry));
        },
    }
}

/// Relies on `std::time::SystemTime::now`: the wall clock, read as whole
/// milliseconds since the Unix epoch (saturated into `u64`). Nothing is
/// assumed of the value.
#[verifier::external_body]
fn now_millis() -> u64 {
    match std::time::SystemTime::now().duration_since(std::time::UNIX_EPOCH) {
        Ok(d) => {
            let ms = d.as_millis();
            if ms > u64::MAX as u128 {
                u64::MAX
            } else {
                ms as u64
            }
        },
        Err(_) => 0,
    }
}

/// A field-for-field copy of an entry.
fn clone_entry(e: &StorageEntry) -> (r: StorageEntry)
    ensures
        r == *e,
{
    StorageEntry {
        key: e.key.clone(),
        value: match &e.value {
            StorageValue::String(s) => StorageValue::String(s.clone()),
        },
        expires_at: e.expires_at,
    }
}

impl Storage {
    /// The key space is well formed: no key appears twice.
    pub open spec fn wf(self) -> bool {
        keys_unique(self.store.deep_view())
    }

    /// An empty key space.
    pub fn new() -> (r: Self)
        ensures
            r.store@.len() == 0,
            r.wf(),
    {
        let store: Vec<StorageEntry> = Vec::new();
        Self { store }
    }

    /// The position of the entry holding `key`, if any.
    fn find_index(&self, key: &String) -> (r: Option<usize>)
        ensures
            match r {
                Some(i) => spec_find_index(self.store.deep_view(), key@) == Some(i as int),
                None => spec_find_index(self.store.deep_view(), key@) is None,
            },
    {
        let ghost dv = self.store.deep_view();
        let mut i: usize = 0;
        while i < self.store.len()
            invariant
                i <= self.store@.len(),
                dv == self.store.deep_view(),
                dv.len() == self.store@.len(),
                forall|m: int| 0 <= m < self.store@.len() ==> dv[m] == self.store@[m].deep_view(),
                forall|m: int| 0 <= m < i ==> #[trigger] dv[m].key != key@,
            decreases self.store@.len() - i,
        {
            if self.store[i].key == *key {
                proof {
                    assert(dv[i as int] == self.store@[i as int].deep_view());
                    assert(dv[i as int].key == key@);
                    lemma_find_index(dv, key@);
                }
                return Some(i);
            }
            i = i + 1;
        }
        proof {
            lemma_find_index(dv, key@);
        }
        None
    }

    /// Executes one command against the key space, reading the clock for
    /// any expiry computation: for some reading of the clock, the key
    /// space and the reply are exactly those of the transition function.
    pub fn process_command(&mut self, command: &Vec<String>) -> (r: StorageResult<RESP>)
        requires
            old(self).wf(),
        ensures
            final(self).wf(),
            exists|now: u64|
                #[trigger] execution_matches(
                    old(self).store.deep_view(),
                    final(self).store.deep_view(),
                    command.deep_view(),
                    r,
                    now,
                ),
    {
        let now = now_millis();
        let r = self.process_command_at(command, now);
        proof {
            assert(execution_matches(
                old(self).store.deep_view(),
                self.store.deep_view(),
                command.deep_view(),
                r,
                now,
            ));
        }
        r
    }

    /// Executes one command against the key space as of the instant
    /// `now`: the key space and the reply are exactly those of the
    /// transition function.
    pub fn process_command_at(&mut self, command: &Vec<String>, now: u64) -> (r: StorageResult<
        RESP,
    >)
        requires
            old(self).wf(),
        ensures
            final(self).wf(),
            execution_matches(
                old(self).store.deep_view(),
                final(self).store.deep_view(),
                command.deep_view(),
                r,
                now,
            ),
    {
        if command.len() == 0 {
            return Err(StorageError::IncorrectRequest);
        }
        let ghost cmd = command.deep_view();
        proof {
            assert(cmd[0] == command@[0]@);
        }
        if eq_ignore_case(command[0].as_str(), "ping") {
            self.command_ping(command)
        } else if eq_ignore_case(command[0].as_str(), "echo") {
            proof {
                if command@.len() >= 2 {
                    assert(cmd[1] == command@[1]@);
                }
            }
            self.command_echo(command)
        } else if eq_ignore_case(command[0].as_str(), "set") {
            self.command_set_at(command, now)
        } else {
            Err(StorageError::CommandNotAvailable(command[0].clone()))
        }
    }

    /// PING: always PONG, whatever the arguments and the key space.
    pub fn command_ping(&self, _command: &Vec<String>) -> (r: StorageResult<RESP>)
        ensures
            r matches Ok(v) && v.deep_view() == RespData::SimpleString("PONG"@),
    {
        Ok(RESP::SimpleString("PONG".to_owned()))
    }

    /// ECHO: the single argument back as a bulk string; the arity is
    /// checked before the argument is touched.
    pub fn command_echo(&self, command: &Vec<String>) -> (r: StorageResult<RESP>)
        ensures
            command@.len() >= 2 ==> (r matches Ok(v) && v.deep_view() == RespData::BulkString(
                command@[1]@,
            )),
            command@.len() < 2 ==> (r matches Err(e) && e.deep_view()
                == StorageErrorData::CommandInternalError("echo takes exactly one argument"@)),
    {
        if command.len() < 2 {
            return Err(
                StorageError::CommandInternalError("echo takes exactly one argument".to_owned()),
            );
        }
        Ok(RESP::BulkString(command[1].clone()))
    }

    /// SET as of the instant `now`: parses the trailing options, applies
    /// the existence condition, writes, and answers as the transition
    /// function says.
    fn command_set_at(&mut self, command: &Vec<String>, now: u64) -> (r: StorageResult<RESP>)
        requires
            old(self).wf(),
        ensures
            final(self).wf(),
            ({
                let (st2, res) = spec_execute_set(
                    old(self).store.deep_view(),
                    command.deep_view(),
                    now,
                );
                final(self).store.deep_view() == st2 && match (r, res) {
                    (Ok(v), Ok(d)) => v.deep_view() == d,
                    (Err(e), Err(d)) => e.deep_view() == d,
                    _ => false,
                }
            }),
    {
        let ghost cmd = command.deep_view();
        let ghost pre = self.store.deep_view();
        if command.len() < 3 {
            return Err(StorageError::CommandInternalError("set takes a key and a value".to_owned()));
        }
        let mut opts: Vec<String> = Vec::new();
        let mut i: usize = 3;
        while i < command.len()
            invariant
                3 <= i <= command@.len(),
                cmd == command.deep_view(),
                cmd.len() == command@.len(),
                forall|m: int| 0 <= m < command@.len() ==> cmd[m] == command@[m]@,
                opts.deep_view() =~= cmd.subrange(3, i as int),
            decreases command@.len() - i,
        {
            let ghost opts_pre = opts.deep_view();
            opts.push(command[i].clone());
            proof {
                assert(opts.deep_view().len() == opts_pre.len() + 1);
                assert forall|m: int| 0 <= m < opts.deep_view().len() implies opts.deep_view()[m]
                    == cmd.subrange(3, i + 1)[m] by {
                    if m < opts_pre.len() {
                        assert(opts.deep_view()[m] == opts_pre[m]);
                        assert(opts_pre[m] == cmd.subrange(3, i as int)[m]);
                    } else {
                        assert(opts.deep_view()[m] == command@[i as int]@);
                        assert(cmd.subrange(3, i + 1)[m] == cmd[i as int]);
                    }
                }
                assert(opts.deep_view() =~= cmd.subrange(3, i + 1));
            }
            i = i + 1;
        }
        proof {
            assert(opts.deep_view() =~= cmd.subrange(3, cmd.len() as int));
        }
        let args = match parse_set_arguments(&opts) {
            Ok(a) => a,
            Err(e) => {
                return Err(e);
            },
        };
        let key = &command[1];
        let value = &command[2];
        proof {
            assert(key@ == cmd[1]);
            assert(value@ == cmd[2]);
            lemma_find_index(pre, key@);
        }
        let prev_idx = self.find_index(key);
        let blocked = match (args.existence, &prev_idx) {
            (Some(KeyExistence::NX), Some(_)) => true,
            (Some(KeyExistence::XX), None) => true,
            _ => false,
        };
        let prev_value: Option<String> = match &prev_idx {
            Some(idx) => match &self.store[*idx].value {
                StorageValue::String(s) => Some(s.clone()),
            },
            None => None,
        };
        let expires_at: Option<u64> = match args.expiry {
            None => None,
            Some(KeyExpiry::EX(secs)) => {
                let ms = match secs.checked_mul(1000) {
                    Some(p) => p,
                    None => u64::MAX,
                };
                Some(now.saturating_add(ms))
            },
            Some(KeyExpiry::PX(ms)) => Some(now.saturating_add(ms)),
        };
        proof {
            assert(expires_at == spec_expiry_instant(now, args.expiry));
        }
        if !blocked {
            let entry = StorageEntry {
                key: key.clone(),
                value: StorageValue::String(value.clone()),
                expires_at,
            };
            proof {
                lemma_upsert_as_update(pre, key@, value@, expires_at);
                lemma_upsert_find(pre, key@, value@, expires_at);
            }
            match prev_idx {
                Some(idx) => {
                    self.store[idx] = entry;
                },
                None => {
                    self.store.push(entry);
                },
            }
            proof {
                assert(self.store.deep_view() =~= spec_upsert(pre, key@, cmd[2], expires_at));
            }
        }
        if args.get {
            match prev_value {
                Some(s) => Ok(RESP::BulkString(s)),
                None => Ok(RESP::Null),
            }
        } else if blocked {
            Ok(RESP::Null)
        } else {
            Ok(RESP::SimpleString("OK".to_owned()))
        }
    }

    /// Sweeps the key space, reading the clock: for some reading, the
    /// expired entries are gone and everything else is kept in order; an
    /// entry with no expiry is never removed, whatever the clock said.
    pub fn expire_keys(&mut self)
        requires
            old(self).wf(),
        ensures
            final(self).wf(),
            exists|now: u64|
                final(self).store.deep_view() == #[trigger] spec_sweep(
                    old(self).store.deep_view(),
                    now,
                ),
    {
        let now = now_millis();
        self.expire_keys_at(now);
        proof {
            assert(self.store.deep_view() == spec_sweep(old(self).store.deep_view(), now));
        }
    }

    /// Sweeps the key space as of the instant `now`: exactly the entries
    /// past their expiry are removed, everything else keeps its order.
    pub fn expire_keys_at(&mut self, now: u64)
        requires
            old(self).wf(),
        ensures
            final(self).wf(),
            final(self).store.deep_view() == spec_sweep(old(self).store.deep_view(), now),
    {
        let ghost pre = self.store.deep_view();
        let mut kept: Vec<StorageEntry> = Vec::new();
        let mut i: usize = 0;
        while i < self.store.len()
            invariant
                i <= self.store@.len(),
                pre == self.store.deep_view(),
                pre.len() == self.store@.len(),
                forall|m: int| 0 <= m < self.store@.len() ==> pre[m] == self.store@[m].deep_view(),
                kept.deep_view() == spec_sweep(pre.take(i as int), now),
            decreases self.store@.len() - i,
        {
            let e = &self.store[i];
            let expired = match e.expires_at {
                Some(t) => t <= now,
                None => false,
            };
            proof {
                assert(pre.take(i + 1).drop_last() =~= pre.take(i as int));
                lemma_sweep_push(pre.take(i as int), pre[i as int], now);
                assert(pre.take(i as int).push(pre[i as int]) =~= pre.take(i + 1));
            }
            if !expired {
                let copy = clone_entry(e);
                let ghost kept_pre = kept.deep_view();
                kept.push(copy);
                proof {
                    assert(kept.deep_view() =~= kept_pre.push(pre[i as int]));
                }
            }
            i = i + 1;
        }
        proof {
            assert(pre.take(self.store@.len() as int) =~= pre);
            lemma_sweep_unique(pre, now);
        }
        self.store = kept;
    }
}

} // verus!
