//! The command interpreter. It maps parsed memcached commands onto the LRU
//! engine it owns, mints CAS tokens and normalises TTLs.
use vstd::prelude::*;
use vstd::string::StringSliceAdditionalSpecFns;

use crate::bytes::{concat_bytes, copy_bytes};
use crate::lru::{
    entry_weight,
    is_expired,
    is_expired_at,
    is_live,
    refreshed,
    retimed,
    HasWeight,
    LruCache,
    LruEntry,
    Weight,
};
use crate::numeric::{decimal, decimal_bytes, parse_u64, spec_parse_u64};

verus! {

/// Keys as they come from the client.
pub type Key<'a> = &'a [u8];

/// Keys as they are stored.
pub type StoredKey = Vec<u8>;

/// Keys as they go back to the client.
pub type ReturnedKey<'a> = &'a [u8];

/// Data as it comes from the client.
pub type Data<'a> = &'a [u8];

/// Data as it is stored.
pub type StoredData = Vec<u8>;

/// Data as it goes back to the client.
pub type ReturnedData = Vec<u8>;

pub type Ttl = u32;

pub type Flags = u32;

pub type CasUnique = u64;

pub type IncrValue = u64;

pub type Capacity = usize;

/// TTLs from this many seconds (30 days) on are absolute epoch times.
pub const MAGIC_DATE: Ttl = 60 * 60 * 24 * 30;

/// The longest key a setter accepts.
pub const MAX_KEY: usize = 255;

/// The largest value a setter accepts (1 MiB).
pub const MAX_DATA: usize = 1024 * 1024;

/// Bytes charged to a stored value beyond its data: its flags and CAS token.
pub const CONTAINER_OVERHEAD: usize = 12;

/// A stored value: the client's bytes, its opaque flags and its CAS token.
#[derive(Debug)]
pub struct DataContainer {
    pub data: StoredData,
    pub flags: Flags,
    pub unique: CasUnique,
}

/// The weight of a stored value holding `len` bytes, saturated.
pub open spec fn container_weight(len: nat) -> nat {
    if len + CONTAINER_OVERHEAD <= usize::MAX {
        (len + CONTAINER_OVERHEAD) as nat
    } else {
        usize::MAX as nat
    }
}

impl HasWeight for DataContainer {
    open spec fn spec_weight(&self) -> nat {
        container_weight(self.data@.len())
    }

    fn weight(&self) -> (r: Weight) {
        let n = self.data.len();
        if n > usize::MAX - CONTAINER_OVERHEAD {
            usize::MAX
        } else {
            n + CONTAINER_OVERHEAD
        }
    }
}

#[derive(Debug, PartialEq, Eq)]
pub enum SetterType {
    Put,
    Add,
    Replace,
    Append,
    Prepend,
    Cas(CasUnique),
}

#[derive(Debug, PartialEq, Eq)]
pub enum GetterType {
    Get,
    Gets,
}

#[derive(Debug, PartialEq, Eq)]
pub enum IncrementerType {
    Incr,
    Decr,
}

/// A parsed command.
#[derive(Debug, PartialEq, Eq)]
pub enum ServerCommand<'a> {
    Setter { setter: SetterType, key: Key<'a>, data: Data<'a>, ttl: Ttl, flags: Flags },
    Getter { getter: GetterType, keys: Vec<Key<'a>> },
    Delete { key: Key<'a> },
    Touch { key: Key<'a>, ttl: Ttl },
    Incrementer { incrementer: IncrementerType, key: Key<'a>, value: IncrValue },
    FlushAll,
    Bad(&'a [u8]),
    Quit,
    Version,
    Verbosity,
}

/// One item found by `get` or `gets`.
#[derive(Debug, PartialEq, Eq)]
pub struct SingleGetResponse<'a> {
    pub key: ReturnedKey<'a>,
    pub data: ReturnedData,
    pub flags: Flags,
    pub unique: CasUnique,
}

/// The outcome of a command, ready to be written to the client.
#[derive(Debug, PartialEq, Eq)]
pub enum Response<'a> {
    DataResponse { responses: Vec<SingleGetResponse<'a>> },
    GetsResponse { responses: Vec<SingleGetResponse<'a>> },
    IncrResponse { value: IncrValue },
    DeletedResponse,
    TouchedResponse,
    OkResponse,
    StoredResponse,
    NotStoredResponse,
    ExistsResponse,
    NotFoundResponse,
    ErrorResponse,
    ClientErrorResponse { message: &'a [u8] },
    ServerError { message: &'a [u8] },
    VersionResponse,
    TooBig,
}

/// What the engine holds for each key.
pub type Entries = Map<Seq<u8>, LruEntry<DataContainer>>;

/// The absolute expiry that a TTL from the wire stands for at `now`: none for
/// 0, `now + ttl` (saturated) below `MAGIC_DATE`, and `ttl` itself from there on.
pub open spec fn spec_wrap_ttl(ttl: Ttl, now: Ttl) -> Option<Ttl> {
    if ttl == 0 {
        None
    } else if ttl < MAGIC_DATE {
        if now + ttl <= u32::MAX {
            Some((now + ttl) as Ttl)
        } else {
            Some(u32::MAX)
        }
    } else {
        Some(ttl)
    }
}

/// The CAS token minted after `last`.
pub open spec fn next_token(last: CasUnique) -> CasUnique {
    if last == u64::MAX {
        0
    } else {
        (last + 1) as CasUnique
    }
}

/// The message of the error for `incr` / `decr` on a value that is no number.
pub open spec fn non_numeric_message() -> Seq<u8> {
    "cannot increment or decrement non-numeric value".spec_bytes()
}

/// The engine refuses to write `data` under `key` for its weight.
pub open spec fn too_heavy(key: Seq<u8>, data_len: nat, expires: Option<Ttl>, now: Ttl, capacity: nat) -> bool {
    !is_expired(expires, now) && entry_weight(key.len(), container_weight(data_len)) > capacity
}

/// `e` holds `data`, `flags` and `unique`, expires at `expires` and was last
/// used at `now`.
pub open spec fn holds_item(
    e: LruEntry<DataContainer>,
    data: Seq<u8>,
    flags: Flags,
    unique: CasUnique,
    expires: Option<Ttl>,
    now: Ttl,
) -> bool {
    &&& e.data.data@ == data
    &&& e.data.flags == flags
    &&& e.data.unique == unique
    &&& e.expires == expires
    &&& e.used == now
}

/// `m2` is `m` after the engine's `set` of the item under `key` at `now`: an
/// item already expired leaves `m` as it was; one heavier than the capacity
/// removes the old entry; otherwise the item is stored and other keys are at
/// most evicted, never changed.
pub open spec fn written(
    m: Entries,
    m2: Entries,
    key: Seq<u8>,
    data: Seq<u8>,
    flags: Flags,
    unique: CasUnique,
    expires: Option<Ttl>,
    now: Ttl,
    capacity: nat,
) -> bool {
    if is_expired(expires, now) {
        m2 == m
    } else if too_heavy(key, data.len(), expires, now, capacity) {
        m2 == m.remove(key)
    } else {
        &&& m2.contains_key(key)
        &&& holds_item(m2[key], data, flags, unique, expires, now)
        &&& m2[key].weight == entry_weight(key.len(), container_weight(data.len()))
        &&& forall|k2: Seq<u8>|
            #![trigger m2.contains_key(k2)]
            m2.contains_key(k2) && k2 != key ==> m.contains_key(k2) && m2[k2] == m[k2]
    }
}

/// A store command that got past its precondition: a fresh token is minted,
/// the item is written, and the reply is `TooBig` exactly when the engine
/// refused it for its weight.
pub open spec fn stored(
    m: Entries,
    c: CasUnique,
    m2: Entries,
    c2: CasUnique,
    key: Seq<u8>,
    data: Seq<u8>,
    flags: Flags,
    expires: Option<Ttl>,
    now: Ttl,
    capacity: nat,
    r: Response,
) -> bool {
    &&& c2 == next_token(c)
    &&& written(m, m2, key, data, flags, c2, expires, now, capacity)
    &&& r == if too_heavy(key, data.len(), expires, now, capacity) {
        Response::TooBig
    } else {
        Response::StoredResponse
    }
}

/// Nothing changed and the reply is `r0`.
pub open spec fn unchanged(m: Entries, c: CasUnique, m2: Entries, c2: CasUnique, r: Response, r0: Response) -> bool {
    m2 == m && c2 == c && r == r0
}

/// The effect of a setter command.
pub open spec fn setter_applied(
    m: Entries,
    c: CasUnique,
    m2: Entries,
    c2: CasUnique,
    setter: SetterType,
    key: Seq<u8>,
    data: Seq<u8>,
    ttl: Ttl,
    flags: Flags,
    now: Ttl,
    capacity: nat,
    r: Response,
) -> bool {
    let expires = spec_wrap_ttl(ttl, now);
    let present = is_live(m, key, now);
    if key.len() > MAX_KEY || data.len() > MAX_DATA {
        unchanged(m, c, m2, c2, r, Response::TooBig)
    } else {
        match setter {
            SetterType::Put => stored(m, c, m2, c2, key, data, flags, expires, now, capacity, r),
            SetterType::Add => if present {
                unchanged(m, c, m2, c2, r, Response::NotStoredResponse)
            } else {
                stored(m, c, m2, c2, key, data, flags, expires, now, capacity, r)
            },
            SetterType::Replace => if present {
                stored(m, c, m2, c2, key, data, flags, expires, now, capacity, r)
            } else {
                unchanged(m, c, m2, c2, r, Response::NotStoredResponse)
            },
            SetterType::Append => if !present {
                unchanged(m, c, m2, c2, r, Response::NotStoredResponse)
            } else if m[key].data.data@.len() + data.len() > usize::MAX {
                unchanged(m, c, m2, c2, r, Response::TooBig)
            } else {
                stored(
                    m,
                    c,
                    m2,
                    c2,
                    key,
                    m[key].data.data@ + data,
                    m[key].data.flags,
                    m[key].expires,
                    now,
                    capacity,
                    r,
                )
            },
            SetterType::Prepend => if !present {
                unchanged(m, c, m2, c2, r, Response::NotStoredResponse)
            } else if m[key].data.data@.len() + data.len() > usize::MAX {
                unchanged(m, c, m2, c2, r, Response::TooBig)
            } else {
                stored(
                    m,
                    c,
                    m2,
                    c2,
                    key,
                    data + m[key].data.data@,
                    m[key].data.flags,
                    m[key].expires,
                    now,
                    capacity,
                    r,
                )
            },
            SetterType::Cas(unique) => if !present {
                unchanged(m, c, m2, c2, r, Response::NotFoundResponse)
            } else if m[key].data.unique != unique {
                unchanged(m, c, m2, c2, r, Response::ExistsResponse)
            } else {
                stored(m, c, m2, c2, key, data, flags, expires, now, capacity, r)
            },
        }
    }
}

/// What a `get` of `item` under `key` reports: key, data, flags and token.
pub open spec fn item_view(key: Seq<u8>, e: LruEntry<DataContainer>) -> (Seq<u8>, Seq<u8>, Flags, CasUnique) {
    (key, e.data.data@, e.data.flags, e.data.unique)
}

/// The entries after getting each of `keys` in turn at `now`: each hit moves
/// its entry's last use to `now`.
pub open spec fn touch_keys(m: Entries, keys: Seq<Seq<u8>>, now: Ttl) -> Entries
    decreases keys.len(),
{
    if keys.len() == 0 {
        m
    } else {
        let m1 = touch_keys(m, keys.drop_last(), now);
        let k = keys.last();
        if is_live(m1, k, now) {
            m1.insert(k, refreshed(m1[k], now))
        } else {
            m1
        }
    }
}

/// The items that getting each of `keys` in turn at `now` finds, in order;
/// misses are skipped.
pub open spec fn found_items(m: Entries, keys: Seq<Seq<u8>>, now: Ttl) -> Seq<
    (Seq<u8>, Seq<u8>, Flags, CasUnique),
>
    decreases keys.len(),
{
    if keys.len() == 0 {
        Seq::empty()
    } else {
        let m1 = touch_keys(m, keys.drop_last(), now);
        let k = keys.last();
        let rest = found_items(m, keys.drop_last(), now);
        if is_live(m1, k, now) {
            rest.push(item_view(k, m1[k]))
        } else {
            rest
        }
    }
}

/// The items of a `get` or `gets` reply, as key, data, flags and token.
pub open spec fn response_items(rs: Seq<SingleGetResponse>) -> Seq<(Seq<u8>, Seq<u8>, Flags, CasUnique)> {
    rs.map_values(|x: SingleGetResponse| (x.key@, x.data@, x.flags, x.unique))
}

/// The keys of a `get` or `gets` command as byte strings.
pub open spec fn key_seqs(keys: Seq<&[u8]>) -> Seq<Seq<u8>> {
    keys.map_values(|k: &[u8]| k@)
}

/// The effect of `get` or `gets`.
pub open spec fn getter_applied(
    m: Entries,
    c: CasUnique,
    m2: Entries,
    c2: CasUnique,
    getter: GetterType,
    keys: Seq<Seq<u8>>,
    now: Ttl,
    r: Response,
) -> bool {
    &&& m2 == touch_keys(m, keys, now)
    &&& c2 == c
    &&& match getter {
        GetterType::Get => r matches Response::DataResponse { responses } && response_items(
            responses@,
        ) == found_items(m, keys, now),
        GetterType::Gets => r matches Response::GetsResponse { responses } && response_items(
            responses@,
        ) == found_items(m, keys, now),
    }
}

/// The number that `incr` or `decr` by `value` makes of `current`: `incr`
/// wraps modulo 2^64, `decr` stops at 0.
pub open spec fn stepped(incrementer: IncrementerType, current: u64, value: u64) -> u64 {
    match incrementer {
        IncrementerType::Incr => if current + value <= u64::MAX {
            (current + value) as u64
        } else {
            (current + value - u64::MAX - 1) as u64
        },
        IncrementerType::Decr => if current >= value {
            (current - value) as u64
        } else {
            0
        },
    }
}

/// The effect of `incr` or `decr`.
pub open spec fn incrementer_applied(
    m: Entries,
    c: CasUnique,
    m2: Entries,
    c2: CasUnique,
    incrementer: IncrementerType,
    key: Seq<u8>,
    value: IncrValue,
    now: Ttl,
    capacity: nat,
    r: Response,
) -> bool {
    if !is_live(m, key, now) {
        unchanged(m, c, m2, c2, r, Response::NotFoundResponse)
    } else {
        match spec_parse_u64(m[key].data.data@) {
            None => {
                &&& m2 == m.insert(key, refreshed(m[key], now))
                &&& c2 == c
                &&& r matches Response::ClientErrorResponse { message } && message@
                    == non_numeric_message()
            },
            Some(current) => {
                let n = stepped(incrementer, current, value);
                &&& c2 == next_token(c)
                &&& written(
                    m,
                    m2,
                    key,
                    decimal(n as nat),
                    m[key].data.flags,
                    c2,
                    m[key].expires,
                    now,
                    capacity,
                )
                &&& r == Response::IncrResponse { value: n }
            },
        }
    }
}

/// The effect of `command` at `now` on the entries `m` and the last CAS
/// token `c`, giving `m2`, `c2` and the reply `r`.
pub open spec fn applied(
    m: Entries,
    c: CasUnique,
    m2: Entries,
    c2: CasUnique,
    command: ServerCommand,
    now: Ttl,
    capacity: nat,
    r: Response,
) -> bool {
    match command {
        ServerCommand::Setter { setter, key, data, ttl, flags } => setter_applied(
            m,
            c,
            m2,
            c2,
            setter,
            key@,
            data@,
            ttl,
            flags,
            now,
            capacity,
            r,
        ),
        ServerCommand::Getter { getter, keys } => getter_applied(
            m,
            c,
            m2,
            c2,
            getter,
            key_seqs(keys@),
            now,
            r,
        ),
        ServerCommand::Delete { key } => {
            &&& m2 == m.remove(key@)
            &&& c2 == c
            &&& r == if m.contains_key(key@) {
                Response::DeletedResponse
            } else {
                Response::NotFoundResponse
            }
        },
        ServerCommand::Touch { key, ttl } => if is_live(m, key@, now) {
            &&& m2 == m.insert(key@, retimed(m[key@], spec_wrap_ttl(ttl, now), now))
            &&& c2 == c
            &&& r == Response::TouchedResponse
        } else {
            unchanged(m, c, m2, c2, r, Response::NotFoundResponse)
        },
        ServerCommand::Incrementer { incrementer, key, value } => incrementer_applied(
            m,
            c,
            m2,
            c2,
            incrementer,
            key@,
            value,
            now,
            capacity,
            r,
        ),
        ServerCommand::FlushAll => {
            &&& m2 == Map::<Seq<u8>, LruEntry<DataContainer>>::empty()
            &&& c2 == c
            &&& r == Response::OkResponse
        },
        ServerCommand::Bad(_) => unchanged(m, c, m2, c2, r, Response::ErrorResponse),
        ServerCommand::Version => unchanged(m, c, m2, c2, r, Response::VersionResponse),
        ServerCommand::Verbosity => unchanged(m, c, m2, c2, r, Response::OkResponse),
        ServerCommand::Quit => false,
    }
}

/// Translates a TTL from the wire into an absolute expiry at `now`.
pub fn wrap_ttl(ttl: Ttl, now: Ttl) -> (r: Option<Ttl>)
    ensures
        r == spec_wrap_ttl(ttl, now),
{
    if ttl == 0 {
        None
    } else if ttl < MAGIC_DATE {
        if now > u32::MAX - ttl {
            Some(u32::MAX)
        } else {
            Some(now + ttl)
        }
    } else {
        Some(ttl)
    }
}

/// Relies on time::get_time: a reading of the wall clock in seconds since the
/// epoch, cut to 32 bits. Nothing is promised of the reading.
#[verifier::external_body]
pub fn epoch_time() -> (r: Ttl) {
    time::get_time().sec as Ttl
}

/// Reads `current_data` as an unsigned 64-bit decimal.
fn forgetful_parse_int(current_data: &[u8]) -> (r: Option<IncrValue>)
    ensures
        r == spec_parse_u64(current_data@),
{
    parse_u64(current_data)
}

/// The interpreter: the engine, the last CAS token minted, and the clock it
/// reads (a fixed time, or the wall clock when `None`).
#[derive(Debug)]
pub struct Store {
    store: LruCache<DataContainer>,
    last_cas_id: CasUnique,
    clock: Option<Ttl>,
}

impl Store {
    /// The engine is consistent.
    pub closed spec fn wf(&self) -> bool {
        self.store.wf()
    }

    /// What the engine holds for each key.
    pub closed spec fn entries(&self) -> Entries {
        self.store@
    }

    /// The last CAS token minted.
    pub closed spec fn last_token(&self) -> CasUnique {
        self.last_cas_id
    }

    /// The engine's byte budget.
    pub closed spec fn spec_capacity(&self) -> nat {
        self.store.spec_capacity()
    }

    /// The sum of the weights of the stored entries.
    pub closed spec fn spec_weight(&self) -> nat {
        self.store.spec_weight()
    }

    /// The fixed time that the store reads, or `None` for the wall clock.
    pub closed spec fn clock(&self) -> Option<Ttl> {
        self.clock
    }

    /// `t` is a time that the store's clock may read.
    pub open spec fn reads(&self, t: Ttl) -> bool {
        self.clock() matches Some(c) ==> t == c
    }

    /// Every operation keeps the store consistent, and a consistent store's
    /// weight never exceeds its capacity.
    pub proof fn lemma_weight_bound(&self)
        requires
            self.wf(),
        ensures
            self.spec_weight() <= self.spec_capacity(),
    {
        self.store.lemma_weight_bound();
    }

    /// An empty store with the given byte budget, on the wall clock.
    pub fn new(capacity: Capacity) -> (r: Store)
        ensures
            r.wf(),
            r.entries() == Map::<Seq<u8>, LruEntry<DataContainer>>::empty(),
            r.last_token() == 0,
            r.spec_capacity() == capacity,
            r.clock() is None,
    {
        Store { store: LruCache::new(capacity), last_cas_id: 0, clock: None }
    }

    /// An empty store with the given byte budget whose clock always reads `now`.
    pub fn with_clock(capacity: Capacity, now: Ttl) -> (r: Store)
        ensures
            r.wf(),
            r.entries() == Map::<Seq<u8>, LruEntry<DataContainer>>::empty(),
            r.last_token() == 0,
            r.spec_capacity() == capacity,
            r.clock() == Some(now),
    {
        Store { store: LruCache::new(capacity), last_cas_id: 0, clock: Some(now) }
    }

    /// Reads the store's clock.
    pub fn now(&self) -> (r: Ttl)
        ensures
            self.reads(r),
    {
        match self.clock {
            Some(t) => t,
            None => epoch_time(),
        }
    }

    /// Mints the next CAS token.
    fn make_cas_id(&mut self) -> (r: CasUnique)
        ensures
            r == next_token(old(self).last_cas_id),
            final(self).last_cas_id == r,
            final(self).store == old(self).store,
            final(self).clock == old(self).clock,
    {
        self.last_cas_id = if self.last_cas_id == u64::MAX {
            0
        } else {
            self.last_cas_id + 1
        };
        self.last_cas_id
    }

    /// Mints a token and writes the item under `key`.
    fn store_item<'a>(
        &mut self,
        key: &[u8],
        data: StoredData,
        flags: Flags,
        expires: Option<Ttl>,
        now: Ttl,
    ) -> (r: Response<'a>)
        requires
            old(self).wf(),
        ensures
            final(self).wf(),
            final(self).spec_capacity() == old(self).spec_capacity(),
            final(self).clock() == old(self).clock(),
            stored(
                old(self).entries(),
                old(self).last_token(),
                final(self).entries(),
                final(self).last_token(),
                key@,
                data@,
                flags,
                expires,
                now,
                old(self).spec_capacity(),
                r,
            ),
    {
        let token = self.make_cas_id();
        let container = DataContainer { data: data, flags: flags, unique: token };
        let accepted = self.store.set(copy_bytes(key), container, expires, now);
        if !accepted && !is_expired_at(expires, now) {
            Response::TooBig
        } else {
            Response::StoredResponse
        }
    }

    fn apply_setter<'a>(
        &mut self,
        setter: SetterType,
        key: Key<'a>,
        data: Data<'a>,
        ttl: Ttl,
        flags: Flags,
        now: Ttl,
    ) -> (r: Response<'a>)
        requires
            old(self).wf(),
        ensures
            final(self).wf(),
            final(self).spec_capacity() == old(self).spec_capacity(),
            final(self).clock() == old(self).clock(),
            setter_applied(
                old(self).entries(),
                old(self).last_token(),
                final(self).entries(),
                final(self).last_token(),
                setter,
                key@,
                data@,
                ttl,
                flags,
                now,
                old(self).spec_capacity(),
                r,
            ),
    {
        if key.len() > MAX_KEY || data.len() > MAX_DATA {
            return Response::TooBig;
        }
        let expires = wrap_ttl(ttl, now);
        match setter {
            SetterType::Put => self.store_item(key, copy_bytes(data), flags, expires, now),
            SetterType::Add => {
                if self.store.contains(key, now) {
                    Response::NotStoredResponse
                } else {
                    self.store_item(key, copy_bytes(data), flags, expires, now)
                }
            },
            SetterType::Replace => {
                if self.store.contains(key, now) {
                    self.store_item(key, copy_bytes(data), flags, expires, now)
                } else {
                    Response::NotStoredResponse
                }
            },
            SetterType::Append => {
                let (new_vec, old_ttl, old_flags) = match self.store.peek_entry(key, now) {
                    None => {
                        return Response::NotStoredResponse;
                    },
                    Some(entry) => {
                        let current = entry.data.data.as_slice();
                        if current.len() > usize::MAX - data.len() {
                            return Response::TooBig;
                        }
                        (concat_bytes(current, data), entry.expires, entry.data.flags)
                    },
                };
                self.store_item(key, new_vec, old_flags, old_ttl, now)
            },
            SetterType::Prepend => {
                let (new_vec, old_ttl, old_flags) = match self.store.peek_entry(key, now) {
                    None => {
                        return Response::NotStoredResponse;
                    },
                    Some(entry) => {
                        let current = entry.data.data.as_slice();
                        if current.len() > usize::MAX - data.len() {
                            return Response::TooBig;
                        }
                        (concat_bytes(data, current), entry.expires, entry.data.flags)
                    },
                };
                self.store_item(key, new_vec, old_flags, old_ttl, now)
            },
            SetterType::Cas(unique) => {
                match self.store.peek_entry(key, now) {
                    None => Response::NotFoundResponse,
                    Some(entry) => {
                        if entry.data.unique != unique {
                            // a failed cas leaves the entry's recency alone
                            Response::ExistsResponse
                        } else {
                            self.store_item(key, copy_bytes(data), flags, expires, now)
                        }
                    },
                }
            },
        }
    }

    fn apply_getter<'a>(&mut self, getter: GetterType, keys: Vec<Key<'a>>, now: Ttl) -> (r: Response<
        'a,
    >)
        requires
            old(self).wf(),
        ensures
            final(self).wf(),
            final(self).spec_capacity() == old(self).spec_capacity(),
            final(self).clock() == old(self).clock(),
            getter_applied(
                old(self).entries(),
                old(self).last_token(),
                final(self).entries(),
                final(self).last_token(),
                getter,
                key_seqs(keys@),
                now,
                r,
            ),
    {
        let ghost m = self.entries();
        let ghost ks = key_seqs(keys@);
        let mut found: Vec<SingleGetResponse<'a>> = Vec::with_capacity(keys.len());
        let mut i: usize = 0;
        assert(ks.take(0) =~= Seq::<Seq<u8>>::empty());
        assert(response_items(found@) =~= Seq::empty());
        while i < keys.len()
            invariant
                self.wf(),
                self.spec_capacity() == old(self).spec_capacity(),
                self.clock() == old(self).clock(),
                self.last_token() == old(self).last_token(),
                m == old(self).entries(),
                ks == key_seqs(keys@),
                i <= keys@.len(),
                self.entries() == touch_keys(m, ks.take(i as int), now),
                response_items(found@) == found_items(m, ks.take(i as int), now),
            decreases keys@.len() - i,
        {
            let ckey: Key<'a> = keys[i];
            assert(ks.take(i + 1).drop_last() =~= ks.take(i as int));
            assert(ks.take(i + 1).last() == ckey@);
            match self.store.get(ckey, now) {
                Some(item) => {
                    let one = SingleGetResponse {
                        key: ckey,
                        data: copy_bytes(item.data.as_slice()),
                        flags: item.flags,
                        unique: item.unique,
                    };
                    found.push(one);
                    assert(response_items(found@) =~= found_items(m, ks.take(i + 1), now));
                },
                None => {},
            }
            i = i + 1;
        }
        assert(ks.take(keys@.len() as int) =~= ks);
        match getter {
            GetterType::Get => Response::DataResponse { responses: found },
            GetterType::Gets => Response::GetsResponse { responses: found },
        }
    }

    fn apply_incr<'a>(
        &mut self,
        incrementer: IncrementerType,
        key: Key<'a>,
        value: IncrValue,
        now: Ttl,
    ) -> (r: Response<'a>)
        requires
            old(self).wf(),
        ensures
            final(self).wf(),
            final(self).spec_capacity() == old(self).spec_capacity(),
            final(self).clock() == old(self).clock(),
            incrementer_applied(
                old(self).entries(),
                old(self).last_token(),
                final(self).entries(),
                final(self).last_token(),
                incrementer,
                key@,
                value,
                now,
                old(self).spec_capacity(),
                r,
            ),
    {
        let ghost m = self.entries();
        let (current, expires, flags) = match self.store.get_full_entry(key, now) {
            None => {
                return Response::NotFoundResponse;
            },
            Some(entry) => (
                forgetful_parse_int(entry.data.data.as_slice()),
                entry.expires,
                entry.data.flags,
            ),
        };
        let ghost touched = self.entries();
        match current {
            None => Response::ClientErrorResponse {
                message: "cannot increment or decrement non-numeric value".as_bytes(),
            },
            Some(current_int) => {
                let new_int = match incrementer {
                    // memcached saturates in the negative direction...
                    IncrementerType::Decr => if current_int >= value {
                        current_int - value
                    } else {
                        0
                    },
                    // ...but wraps in the positive direction
                    IncrementerType::Incr => if current_int > u64::MAX - value {
                        value - (u64::MAX - current_int) - 1
                    } else {
                        current_int + value
                    },
                };
                let new_data = decimal_bytes(new_int);
                let token = self.make_cas_id();
                let container = DataContainer { data: new_data, flags: flags, unique: token };
                self.store.set(copy_bytes(key), container, expires, now);
                proof {
                    let m2 = self.entries();
                    if too_heavy(key@, decimal(new_int as nat).len(), expires, now, old(self).spec_capacity()) {
                        assert(m2 =~= m.remove(key@));
                    } else {
                        assert forall|k2: Seq<u8>|
                            #![trigger m2.contains_key(k2)]
                            m2.contains_key(k2) && k2 != key@ implies m.contains_key(k2) && m2[k2]
                            == m[k2] by {
                            assert(touched.contains_key(k2));
                        }
                    }
                }
                Response::IncrResponse { value: new_int }
            },
        }
    }

    /// Applies `command` with the clock reading `now`.
    pub fn apply_at<'a>(&mut self, command: ServerCommand<'a>, now: Ttl) -> (r: Response<'a>)
        requires
            old(self).wf(),
            !(command is Quit),
        ensures
            final(self).wf(),
            final(self).spec_capacity() == old(self).spec_capacity(),
            final(self).clock() == old(self).clock(),
            applied(
                old(self).entries(),
                old(self).last_token(),
                final(self).entries(),
                final(self).last_token(),
                command,
                now,
                old(self).spec_capacity(),
                r,
            ),
    {
        match command {
            ServerCommand::Setter { setter, key, data, ttl, flags } => {
                self.apply_setter(setter, key, data, ttl, flags, now)
            },
            ServerCommand::Getter { getter, keys } => self.apply_getter(getter, keys, now),
            ServerCommand::Delete { key } => {
                if self.store.delete(key) {
                    Response::DeletedResponse
                } else {
                    Response::NotFoundResponse
                }
            },
            ServerCommand::Touch { key, ttl } => {
                let expires = wrap_ttl(ttl, now);
                if self.store.touch(key, expires, now) {
                    Response::TouchedResponse
                } else {
                    Response::NotFoundResponse
                }
            },
            ServerCommand::Incrementer { incrementer, key, value } => {
                self.apply_incr(incrementer, key, value, now)
            },
            ServerCommand::FlushAll => {
                self.store.clear();
                Response::OkResponse
            },
            ServerCommand::Bad(_) => Response::ErrorResponse,
            ServerCommand::Version => Response::VersionResponse,
            // accepted and ignored: nothing lets a client see a verbosity
            ServerCommand::Verbosity => Response::OkResponse,
            ServerCommand::Quit => Response::ErrorResponse,
        }
    }

    /// Applies `command` at the time the store's clock reads. `quit` belongs to
    /// the connection and never reaches the store.
    pub fn apply<'a>(&mut self, command: ServerCommand<'a>) -> (r: Response<'a>)
        requires
            old(self).wf(),
            !(command is Quit),
        ensures
            final(self).wf(),
            final(self).spec_capacity() == old(self).spec_capacity(),
            final(self).clock() == old(self).clock(),
            exists|now: Ttl|
                old(self).reads(now) && applied(
                    old(self).entries(),
                    old(self).last_token(),
                    final(self).entries(),
                    final(self).last_token(),
                    command,
                    now,
                    old(self).spec_capacity(),
                    r,
                ),
    {
        let now = self.now();
        self.apply_at(command, now)
    }

    /// The value under `key` as text, read without touching its recency.
    pub fn simple_get(&mut self, key: &str) -> (r: Option<String>)
        requires
            old(self).wf(),
        ensures
            *final(self) == *old(self),
            exists|now: Ttl|
                old(self).reads(now) && match r {
                    Some(text) => is_live(old(self).entries(), key.spec_bytes(), now) && text@
                        == lossy_text(old(self).entries()[key.spec_bytes()].data.data@),
                    None => !is_live(old(self).entries(), key.spec_bytes(), now),
                },
    {
        let now = self.now();
        match self.store.fast_get(key.as_bytes(), now) {
            None => None,
            Some(container) => Some(lossy_string(container.data.as_slice())),
        }
    }

    /// The flags under `key`; a hit moves the entry's last use to now.
    pub fn simple_get_flags(&mut self, key: &str) -> (r: Option<Flags>)
        requires
            old(self).wf(),
        ensures
            final(self).wf(),
            final(self).spec_capacity() == old(self).spec_capacity(),
            final(self).clock() == old(self).clock(),
            final(self).last_token() == old(self).last_token(),
            exists|now: Ttl|
                old(self).reads(now) && final(self).entries() == touch_keys(
                    old(self).entries(),
                    seq![key.spec_bytes()],
                    now,
                ) && r == if is_live(old(self).entries(), key.spec_bytes(), now) {
                    Some(old(self).entries()[key.spec_bytes()].data.flags)
                } else {
                    None
                },
    {
        let now = self.now();
        let ghost k = key.spec_bytes();
        proof {
            assert(seq![k].drop_last() =~= Seq::<Seq<u8>>::empty());
        }
        let r = match self.store.get(key.as_bytes(), now) {
            None => None,
            Some(container) => Some(container.flags),
        };
        proof {
            assert(touch_keys(old(self).entries(), seq![k].drop_last(), now) == old(self).entries());
        }
        r
    }

    /// The expiry under `key`; a hit moves the entry's last use to now.
    pub fn simple_get_ttl(&mut self, key: &str) -> (r: Option<Ttl>)
        requires
            old(self).wf(),
        ensures
            final(self).wf(),
            final(self).spec_capacity() == old(self).spec_capacity(),
            final(self).clock() == old(self).clock(),
            final(self).last_token() == old(self).last_token(),
            exists|now: Ttl|
                old(self).reads(now) && final(self).entries() == touch_keys(
                    old(self).entries(),
                    seq![key.spec_bytes()],
                    now,
                ) && r == if is_live(old(self).entries(), key.spec_bytes(), now) {
                    old(self).entries()[key.spec_bytes()].expires
                } else {
                    None
                },
    {
        let now = self.now();
        let ghost k = key.spec_bytes();
        proof {
            assert(seq![k].drop_last() =~= Seq::<Seq<u8>>::empty());
        }
        let r = match self.store.get_full_entry(key.as_bytes(), now) {
            None => None,
            Some(entry) => entry.expires,
        };
        proof {
            assert(touch_keys(old(self).entries(), seq![k].drop_last(), now) == old(self).entries());
        }
        r
    }

    /// Stores `data` under `key` with no flags, no expiry and token 0.
    pub fn simple_set(&mut self, key: &str, data: &str)
        requires
            old(self).wf(),
        ensures
            final(self).wf(),
            final(self).spec_capacity() == old(self).spec_capacity(),
            final(self).clock() == old(self).clock(),
            final(self).last_token() == old(self).last_token(),
            exists|now: Ttl|
                old(self).reads(now) && written(
                    old(self).entries(),
                    final(self).entries(),
                    key.spec_bytes(),
                    data.spec_bytes(),
                    0,
                    0,
                    None,
                    now,
                    old(self).spec_capacity(),
                ),
    {
        self.simple_set_cas(key, data, 0);
    }

    /// Stores `data` under `key` with no flags, no expiry and the given token.
    pub fn simple_set_cas(&mut self, key: &str, data: &str, unique: CasUnique)
        requires
            old(self).wf(),
        ensures
            final(self).wf(),
            final(self).spec_capacity() == old(self).spec_capacity(),
            final(self).clock() == old(self).clock(),
            final(self).last_token() == old(self).last_token(),
            exists|now: Ttl|
                old(self).reads(now) && written(
                    old(self).entries(),
                    final(self).entries(),
                    key.spec_bytes(),
                    data.spec_bytes(),
                    0,
                    unique,
                    None,
                    now,
                    old(self).spec_capacity(),
                ),
    {
        let now = self.now();
        let key_vec = copy_bytes(key.as_bytes());
        let data_vec = copy_bytes(data.as_bytes());
        self.store.set(key_vec, DataContainer { data: data_vec, flags: 0, unique: unique }, None, now);
    }
}

/// The text that lossy UTF-8 decoding makes of some bytes.
pub uninterp spec fn lossy_text(b: Seq<u8>) -> Seq<char>;

/// Relies on String::from_utf8_lossy: decodes UTF-8, putting U+FFFD in place of
/// each invalid sequence; the result depends on the bytes alone.
#[verifier::external_body]
fn lossy_string(b: &[u8]) -> (r: String)
    ensures
        r@ == lossy_text(b@),
{
    String::from_utf8_lossy(b).into_owned()
}

/// Every stored CAS token is at most `c`: all of them were minted by the time
/// `c` was.
pub open spec fn tokens_minted(m: Entries, c: CasUnique) -> bool {
    forall|k: Seq<u8>| #[trigger] m.contains_key(k) ==> m[k].data.unique <= c
}

/// `wrap_ttl` is non-decreasing in the TTL within the relative region
/// `0 < t < MAGIC_DATE` and within the absolute region `t >= MAGIC_DATE`;
/// 0 means no expiry, and the absolute reading starts exactly at `MAGIC_DATE`.
pub proof fn lemma_wrap_ttl_monotonic(t1: Ttl, t2: Ttl, now: Ttl)
    requires
        t1 <= t2,
    ensures
        spec_wrap_ttl(0, now) is None,
        spec_wrap_ttl(MAGIC_DATE, now) == Some(MAGIC_DATE),
        0 < t1 && t2 < MAGIC_DATE ==> spec_wrap_ttl(t1, now)->0 <= spec_wrap_ttl(t2, now)->0,
        MAGIC_DATE <= t1 ==> spec_wrap_ttl(t1, now)->0 <= spec_wrap_ttl(t2, now)->0,
        0 < t1 < MAGIC_DATE ==> spec_wrap_ttl(t1, now)->0 >= now,
{
}

/// A `set` of a key and value within the size limits, whose entry fits the
/// capacity and has not already expired, is answered `STORED`, and a `get` of
/// the key right after finds exactly that value, its flags and the token the
/// `set` minted.
pub proof fn lemma_set_then_get(
    m: Entries,
    c: CasUnique,
    m2: Entries,
    c2: CasUnique,
    m3: Entries,
    c3: CasUnique,
    key: Seq<u8>,
    data: Seq<u8>,
    ttl: Ttl,
    flags: Flags,
    now: Ttl,
    capacity: nat,
    r1: Response,
    r2: Response,
)
    requires
        key.len() <= MAX_KEY,
        data.len() <= MAX_DATA,
        entry_weight(key.len(), container_weight(data.len())) <= capacity,
        !is_expired(spec_wrap_ttl(ttl, now), now),
        setter_applied(m, c, m2, c2, SetterType::Put, key, data, ttl, flags, now, capacity, r1),
        getter_applied(m2, c2, m3, c3, GetterType::Get, seq![key], now, r2),
    ensures
        r1 == Response::StoredResponse,
        r2 matches Response::DataResponse { responses } && response_items(responses@) == seq![
            (key, data, flags, c2),
        ],
{
    let ks = seq![key];
    assert(ks.drop_last() =~= Seq::<Seq<u8>>::empty());
    assert(touch_keys(m2, ks.drop_last(), now) == m2);
    assert(found_items(m2, ks.drop_last(), now) == Seq::<(Seq<u8>, Seq<u8>, Flags, CasUnique)>::empty());
    assert(found_items(m2, ks, now) =~= seq![(key, data, flags, c2)]);
}

/// A `cas` answered `STORED` found the key live with exactly the token it was
/// given.
pub proof fn lemma_cas_matched(
    m: Entries,
    c: CasUnique,
    m2: Entries,
    c2: CasUnique,
    key: Seq<u8>,
    data: Seq<u8>,
    ttl: Ttl,
    flags: Flags,
    now: Ttl,
    capacity: nat,
    unique: CasUnique,
    r: Response,
)
    requires
        setter_applied(m, c, m2, c2, SetterType::Cas(unique), key, data, ttl, flags, now, capacity, r),
        r == Response::StoredResponse,
    ensures
        is_live(m, key, now),
        m[key].data.unique == unique,
{
}

/// Two `cas` on one key, one after the other, that are both answered `STORED`
/// were given different tokens, provided every token held before the first was
/// already minted, the token counter has not run out, and the first did not
/// carry an expiry already past (which the engine refuses, leaving the old
/// entry in place).
pub proof fn lemma_cas_tokens_differ(
    m: Entries,
    c: CasUnique,
    m2: Entries,
    c2: CasUnique,
    m3: Entries,
    c3: CasUnique,
    key: Seq<u8>,
    data1: Seq<u8>,
    data2: Seq<u8>,
    ttl1: Ttl,
    ttl2: Ttl,
    flags1: Flags,
    flags2: Flags,
    now1: Ttl,
    now2: Ttl,
    capacity: nat,
    u1: CasUnique,
    u2: CasUnique,
    r1: Response,
    r2: Response,
)
    requires
        tokens_minted(m, c),
        c < u64::MAX,
        !is_expired(spec_wrap_ttl(ttl1, now1), now1),
        setter_applied(m, c, m2, c2, SetterType::Cas(u1), key, data1, ttl1, flags1, now1, capacity, r1),
        setter_applied(m2, c2, m3, c3, SetterType::Cas(u2), key, data2, ttl2, flags2, now2, capacity, r2),
        r1 == Response::StoredResponse,
        r2 == Response::StoredResponse,
    ensures
        u1 != u2,
        u2 == c2,
{
    lemma_cas_matched(m, c, m2, c2, key, data1, ttl1, flags1, now1, capacity, u1, r1);
    lemma_cas_matched(m2, c2, m3, c3, key, data2, ttl2, flags2, now2, capacity, u2, r2);
}

proof fn lemma_touch_keys_keeps_items(m: Entries, keys: Seq<Seq<u8>>, now: Ttl)
    ensures
        touch_keys(m, keys, now).dom() == m.dom(),
        forall|k: Seq<u8>|
            #[trigger] touch_keys(m, keys, now).contains_key(k) ==> touch_keys(m, keys, now)[k].data
                == m[k].data,
    decreases keys.len(),
{
    if keys.len() > 0 {
        lemma_touch_keys_keeps_items(m, keys.drop_last(), now);
        let m1 = touch_keys(m, keys.drop_last(), now);
        if is_live(m1, keys.last(), now) {
            assert(m1.insert(keys.last(), refreshed(m1[keys.last()], now)).dom() =~= m1.dom());
        }
    }
}

proof fn lemma_written_minted(
    m: Entries,
    m2: Entries,
    key: Seq<u8>,
    data: Seq<u8>,
    flags: Flags,
    unique: CasUnique,
    expires: Option<Ttl>,
    now: Ttl,
    capacity: nat,
    c: CasUnique,
    c2: CasUnique,
)
    requires
        tokens_minted(m, c),
        c <= c2,
        unique <= c2,
        written(m, m2, key, data, flags, unique, expires, now, capacity),
    ensures
        tokens_minted(m2, c2),
{
    assert forall|k: Seq<u8>| #[trigger] m2.contains_key(k) implies m2[k].data.unique <= c2 by {
        if k != key && !is_expired(expires, now) && !too_heavy(key, data.len(), expires, now, capacity) {
            assert(m.contains_key(k));
        }
    }
}

/// Commands only store tokens that the counter has reached: if every held
/// token is at most the last one minted before a command (and the counter has
/// not run out), the same holds after it.
pub proof fn lemma_tokens_stay_minted(
    m: Entries,
    c: CasUnique,
    m2: Entries,
    c2: CasUnique,
    command: ServerCommand,
    now: Ttl,
    capacity: nat,
    r: Response,
)
    requires
        tokens_minted(m, c),
        c < u64::MAX,
        applied(m, c, m2, c2, command, now, capacity, r),
    ensures
        tokens_minted(m2, c2),
        c <= c2,
{
    match command {
        ServerCommand::Setter { setter, key, data, ttl, flags } => {
            let expires = spec_wrap_ttl(ttl, now);
            if c2 != c {
                let k = key@;
                let (d, f, e) = match setter {
                    SetterType::Append => (m[k].data.data@ + data@, m[k].data.flags, m[k].expires),
                    SetterType::Prepend => (data@ + m[k].data.data@, m[k].data.flags, m[k].expires),
                    _ => (data@, flags, expires),
                };
                lemma_written_minted(m, m2, k, d, f, c2, e, now, capacity, c, c2);
            }
        },
        ServerCommand::Getter { getter, keys } => {
            lemma_touch_keys_keeps_items(m, key_seqs(keys@), now);
            assert forall|k: Seq<u8>| #[trigger] m2.contains_key(k) implies m2[k].data.unique <= c2 by {
                assert(m.contains_key(k));
            }
        },
        ServerCommand::Delete { key } => {
            assert forall|k: Seq<u8>| #[trigger] m2.contains_key(k) implies m2[k].data.unique <= c2 by {
                assert(m.contains_key(k));
            }
        },
        ServerCommand::Touch { key, ttl } => {
            assert forall|k: Seq<u8>| #[trigger] m2.contains_key(k) implies m2[k].data.unique <= c2 by {
                assert(m.contains_key(k));
            }
        },
        ServerCommand::Incrementer { incrementer, key, value } => {
            let k = key@;
            if is_live(m, k, now) {
                match spec_parse_u64(m[k].data.data@) {
                    None => {
                        assert forall|k2: Seq<u8>| #[trigger] m2.contains_key(k2) implies m2[k2].data.unique
                            <= c2 by {
                            assert(m.contains_key(k2));
                        }
                    },
                    Some(current) => {
                        let n = stepped(incrementer, current, value);
                        lemma_written_minted(
                            m,
                            m2,
                            k,
                            decimal(n as nat),
                            m[k].data.flags,
                            c2,
                            m[k].expires,
                            now,
                            capacity,
                            c,
                            c2,
                        );
                    },
                }
            }
        },
        _ => {},
    }
}

} // verus!
