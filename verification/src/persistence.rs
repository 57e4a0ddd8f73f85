//! The store: an embedded ordered key-value engine, a metadata partition,
//! and one accessor per schema.  Every accessor implements the same
//! capability contract — key derivation, codec, conflict merge, mapped
//! insert result — while the atomic read-merge-write cycle is shared.
//! Calls into the engine go through a small trusted boundary; everything
//! decided about the bytes read and written is verified.
use vstd::prelude::*;
use crate::codec::{
    dec_context, dec_crate, dec_crate_version, decode_context, decode_crate_version, enc_context,
    enc_crate, enc_crate_version, encode_context, encode_crate_version,
};
use crate::error::StoreError;
use crate::model::{
    ChangeKind, Context, Crate, CrateVersion, CrateVersionView, CrateView, sorted_unique,
    strs_view,
};
use crate::strutil::lex_lt;
use vstd::utf8::encode_utf8;

verus! {

/// Declares the engine's store handle.
#[verifier::external_type_specification]
#[verifier::external_body]
pub struct ExSledDb(sled::Db);

/// Declares the engine's partition ("tree") handle.
#[verifier::external_type_specification]
#[verifier::external_body]
pub struct ExSledTree(sled::Tree);

/// Declares the engine's error type; it is held opaquely in [`StoreError::Io`].
#[verifier::external_type_specification]
#[verifier::external_body]
pub struct ExSledError(sled::Error);

/// Relies on sled::Tree::clone: a clone is a handle to the same partition.
pub assume_specification [ <sled::Tree as Clone>::clone ](t: &sled::Tree) -> sled::Tree;

/// Relies on sled::Config::{new, path, open}: opens (creating if absent)
/// the store rooted at the given directory.
#[verifier::external_body]
fn db_open(path: &str) -> Result<sled::Db, sled::Error> {
    sled::Config::new().path(path).open()
}

/// Relies on sled::Db::open_tree: opens (creating if absent) the named
/// partition; opening it again returns a handle to the same partition.
#[verifier::external_body]
fn db_open_tree(db: &sled::Db, name: &str) -> Result<sled::Tree, sled::Error> {
    db.open_tree(name)
}

/// Relies on sled::Tree::get: reads the bytes currently stored at the
/// key, if any.  What comes back depends on the state on disk, so nothing
/// is promised of it.
#[verifier::external_body]
fn tree_get(t: &sled::Tree, key: &Vec<u8>) -> Result<Option<Vec<u8>>, sled::Error> {
    t.get(key).map(|o| o.map(|iv| iv.to_vec()))
}

/// Relies on sled::Tree::compare_and_swap: atomically replaces (or, for
/// `new` absent, deletes) the value at the key if and only if the current
/// value equals `old`; the boolean says whether the swap won.
#[verifier::external_body]
fn tree_cas(
    t: &sled::Tree,
    key: &Vec<u8>,
    old: &Option<Vec<u8>>,
    new: Option<Vec<u8>>,
) -> Result<bool, sled::Error> {
    t.compare_and_swap(key, old.as_ref(), new).map(|r| r.is_ok())
}

/// Relies on sled::Tree::insert: unconditionally stores the value at the
/// key.
#[verifier::external_body]
fn tree_insert(t: &sled::Tree, key: &Vec<u8>, value: Vec<u8>) -> Result<(), sled::Error> {
    t.insert(key, value).map(|_| ())
}

/// Strict lexicographic order on byte sequences: the order the engine
/// keeps its keys in.
pub open spec fn lex_bytes_lt(a: Seq<u8>, b: Seq<u8>) -> bool
    decreases a.len(),
{
    b.len() > 0 && (a.len() == 0 || a[0] < b[0] || (a[0] == b[0] && lex_bytes_lt(
        a.drop_first(),
        b.drop_first(),
    )))
}

/// Relies on sled::Tree::iter: the key/value pairs currently stored in
/// the partition.  Which pairs come back depends on the state on disk,
/// but on every outcome the engine yields each key once, in ascending
/// byte order.
#[verifier::external_body]
fn tree_entries(t: &sled::Tree) -> (r: Result<Vec<(Vec<u8>, Vec<u8>)>, sled::Error>)
    ensures
        r matches Ok(es) ==> forall|i: int, j: int|
            0 <= i < j < es@.len() ==> lex_bytes_lt(#[trigger] es@[i].0@, #[trigger] es@[j].0@),
{
    let mut out = Vec::new();
    for item in t.iter() {
        let (k, v) = item?;
        out.push((k.to_vec(), v.to_vec()));
    }
    Ok(out)
}

/// Relies on humantime::format_rfc3339 over the wall clock now: an RFC
/// 3339 timestamp whose first ten characters are the UTC calendar date,
/// four digits, a dash, two digits, a dash, two digits.  Like the
/// formatter itself, it assumes a wall clock between 1970 and 9999.
#[verifier::external_body]
fn now_rfc3339() -> (r: String)
    ensures
        r@.len() >= 10 && date_shaped(r@.subrange(0, 10)),
{
    humantime::format_rfc3339(std::time::SystemTime::now()).to_string()
}

/// A calendar date as the context partition keys it: `YYYY-MM-DD`.
pub open spec fn date_shaped(d: Seq<char>) -> bool {
    &&& d.len() == 10
    &&& forall|i: int|
        0 <= i < 10 && i != 4 && i != 7 ==> 48 <= (#[trigger] d[i]) as u32 <= 57
    &&& d[4] == '-'
    &&& d[7] == '-'
}

/// The element-wise view of an optional value.
pub open spec fn opt_view<T: View>(o: Option<T>) -> Option<T::V> {
    match o {
        Some(v) => Some(v@),
        None => None,
    }
}

/// How often a lost compare-and-swap race is retried before the store
/// reports it as a defect rather than spinning forever.
pub const CAS_RETRY_LIMIT: u64 = 1000;

/// The capability contract every partition accessor implements: a stored
/// record format with its codec and a default, an incoming event shape, a
/// deterministic key derivation, a pure conflict merge, and what a caller
/// learns back from a write.
pub trait TreeAccess: Sized {
    type StorageItem: View;

    type InsertItem: View<V = Self::InsertView>;

    type InsertView;

    type InsertResult;

    /// Which keys the event may be stored under.
    spec fn key_ok(item: Self::InsertView, k: Seq<u8>) -> bool;

    /// The pure conflict-merge policy of this partition; `None` would
    /// delete the key, which no accessor here ever asks for.
    spec fn spec_merge(
        new_item: Self::InsertView,
        existing: Option<<Self::StorageItem as View>::V>,
    ) -> Option<<Self::StorageItem as View>::V>;

    /// What a caller learns back from an upsert of this partition.
    spec fn spec_map_insert(stored: <Self::StorageItem as View>::V) -> Self::InsertResult;

    /// The encoding of a stored record.
    spec fn spec_enc(v: <Self::StorageItem as View>::V) -> Seq<u8>;

    /// The parse of a stored record.
    spec fn spec_dec(b: Seq<u8>) -> Option<<Self::StorageItem as View>::V>;

    /// The record an update starts from when the key holds nothing yet.
    spec fn spec_default() -> <Self::StorageItem as View>::V;

    /// The partition this accessor owns.
    fn tree(&self) -> &sled::Tree;

    /// Derives the key the event addresses.
    fn key(&self, item: &Self::InsertItem) -> (r: Vec<u8>)
        ensures
            Self::key_ok(item@, r@),
    ;

    /// Computes the next stored value from the event and the current one.
    fn merge(&self, new_item: &Self::InsertItem, existing: Option<Self::StorageItem>) -> (r: Option<
        Self::StorageItem,
    >)
        ensures
            opt_view(r) == Self::spec_merge(new_item@, opt_view(existing)),
    ;

    /// Maps the value as stored to what the caller learns back.
    fn map_insert_return_value(&self, stored: Self::StorageItem) -> (r: Self::InsertResult)
        ensures
            r == Self::spec_map_insert(stored@),
    ;

    /// Encodes a stored record.
    fn encode(v: &Self::StorageItem) -> (r: Vec<u8>)
        ensures
            r@ == Self::spec_enc(v@),
            Self::spec_dec(Self::spec_enc(v@)) == Some(v@),
    ;

    /// Decodes a stored record.
    fn decode(b: &Vec<u8>) -> (r: Option<Self::StorageItem>)
        ensures
            opt_view(r) == Self::spec_dec(b@),
    ;

    /// The default record, for updates of a key that holds nothing yet.
    fn make_default() -> (r: Self::StorageItem)
        ensures
            r@ == Self::spec_default(),
    ;
}

/// Atomically reads the key the event addresses, merges the event into
/// the current record, and writes the result back; the engine's
/// compare-and-swap keeps concurrent writers to the same key from
/// interleaving a stale read with a write.  On success the caller learns
/// the mapped insert result of the record as stored.
pub fn upsert<A: TreeAccess>(a: &A, item: &A::InsertItem) -> (r: Result<A::InsertResult, StoreError>)
    ensures
        r matches Ok(res) ==> exists|prev: Option<<A::StorageItem as View>::V>|
            {
                &&& #[trigger] A::spec_merge(item@, prev) is Some
                &&& res == A::spec_map_insert(A::spec_merge(item@, prev)->0)
            },
{
    let key = a.key(item);
    let mut attempts: u64 = CAS_RETRY_LIMIT;
    while attempts > 0
        decreases attempts,
    {
        attempts = attempts - 1;
        let prev_bytes = match tree_get(a.tree(), &key) {
            Ok(v) => v,
            Err(e) => {
                return Err(StoreError::Io(e));
            },
        };
        let prev: Option<A::StorageItem> = match &prev_bytes {
            None => None,
            Some(pb) => match A::decode(pb) {
                Some(v) => Some(v),
                None => {
                    return Err(StoreError::Serialization);
                },
            },
        };
        let ghost prev_view = opt_view(prev);
        match a.merge(item, prev) {
            Some(next) => {
                let enc = A::encode(&next);
                match tree_cas(a.tree(), &key, &prev_bytes, Some(enc)) {
                    Ok(true) => {
                        proof {
                            assert(A::spec_merge(item@, prev_view) is Some);
                        }
                        return Ok(a.map_insert_return_value(next));
                    },
                    Ok(false) => {},
                    Err(e) => {
                        return Err(StoreError::Io(e));
                    },
                }
            },
            None => {
                match tree_cas(a.tree(), &key, &prev_bytes, None) {
                    Ok(true) => {
                        return Err(StoreError::Bug("We always put a value or update the existing one"));
                    },
                    Ok(false) => {},
                    Err(e) => {
                        return Err(StoreError::Io(e));
                    },
                }
            },
        }
    }
    Err(StoreError::Bug("the compare-and-swap lost its race too many times"))
}

/// Atomically applies a mutation to the record stored at `key`, or to the
/// default record if the key holds nothing, and returns the record as
/// stored after the mutation.
pub fn update<A: TreeAccess, F: Fn(A::StorageItem) -> A::StorageItem>(
    a: &A,
    key: &Vec<u8>,
    f: F,
) -> (r: Result<A::StorageItem, StoreError>)
    requires
        forall|v: A::StorageItem| #[trigger] call_requires(f, (v,)),
    ensures
        r is Ok ==> exists|v0: A::StorageItem, out: A::StorageItem|
            #[trigger] call_ensures(f, (v0,), out) && out == r->Ok_0,
{
    let mut attempts: u64 = CAS_RETRY_LIMIT;
    while attempts > 0
        invariant
            forall|v: A::StorageItem| #[trigger] call_requires(f, (v,)),
        decreases attempts,
    {
        attempts = attempts - 1;
        let prev_bytes = match tree_get(a.tree(), key) {
            Ok(v) => v,
            Err(e) => {
                return Err(StoreError::Io(e));
            },
        };
        let base: A::StorageItem = match &prev_bytes {
            None => A::make_default(),
            Some(pb) => match A::decode(pb) {
                Some(v) => v,
                None => {
                    return Err(StoreError::Serialization);
                },
            },
        };
        let ghost base_snapshot = base;
        let next = f(base);
        proof {
            assert(call_ensures(f, (base_snapshot,), next));
        }
        let enc = A::encode(&next);
        match tree_cas(a.tree(), key, &prev_bytes, Some(enc)) {
            Ok(true) => {
                return Ok(next);
            },
            Ok(false) => {},
            Err(e) => {
                return Err(StoreError::Io(e));
            },
        }
    }
    Err(StoreError::Bug("the compare-and-swap lost its race too many times"))
}

/// Reads the record stored at a key, if any: the exact-key lookup the
/// accessor key scheme implies.  What comes back reflects the state on
/// disk; whatever it is, it decodes as this partition's record type.
pub fn get<A: TreeAccess>(a: &A, key: &Vec<u8>) -> (r: Result<Option<A::StorageItem>, StoreError>)
    ensures
        r matches Ok(Some(st)) ==> exists|b: Seq<u8>| #[trigger] A::spec_dec(b) == Some(st@),
{
    let bytes = match tree_get(a.tree(), key) {
        Ok(v) => v,
        Err(e) => {
            return Err(StoreError::Io(e));
        },
    };
    match bytes {
        None => Ok(None),
        Some(b) => match A::decode(&b) {
            Some(v) => Ok(Some(v)),
            None => Err(StoreError::Serialization),
        },
    }
}

/// Unconditionally overwrites the key the event addresses with the merge
/// of the event into an empty slot; no prior value is read.
pub fn insert<A: TreeAccess>(a: &A, item: &A::InsertItem) -> (r: Result<(), StoreError>)
    ensures
        r is Ok ==> A::spec_merge(item@, None) is Some,
{
    let key = a.key(item);
    match a.merge(item, None) {
        None => Err(StoreError::Bug("We always set a value")),
        Some(v) => {
            let enc = A::encode(&v);
            match tree_insert(a.tree(), &key, enc) {
                Ok(_) => Ok(()),
                Err(e) => Err(StoreError::Io(e)),
            }
        },
    }
}

/// The store handle: the embedded engine instance and its metadata
/// partition.  Accessors for the other partitions are opened on demand.
pub struct Store {
    inner: sled::Db,
    meta: sled::Tree,
}

impl Store {
    /// Opens (creating if absent) the store rooted at the directory and
    /// its metadata partition.  Whether it succeeds the engine decides;
    /// any failure is surfaced as the engine's own error, never swallowed
    /// and never another kind.
    pub fn open(path: &str) -> (r: Result<Store, StoreError>)
        ensures
            r matches Err(e) ==> e is Io,
    {
        let inner = match db_open(path) {
            Ok(db) => db,
            Err(e) => {
                return Err(StoreError::Io(e));
            },
        };
        let meta = match db_open_tree(&inner, "meta") {
            Ok(t) => t,
            Err(e) => {
                return Err(StoreError::Io(e));
            },
        };
        Ok(Store { inner, meta })
    }

    /// The accessor for the partition of immutable per-version records.
    /// A failure can only be the engine's own error.
    pub fn open_crate_versions(&self) -> (r: Result<CrateVersionsTree, StoreError>)
        ensures
            r matches Err(e) ==> e is Io,
    {
        match db_open_tree(&self.inner, "crate_versions") {
            Ok(t) => Ok(CrateVersionsTree { inner: t }),
            Err(e) => Err(StoreError::Io(e)),
        }
    }

    /// The accessor for the partition of cumulative crate records.  A
    /// failure can only be the engine's own error.
    pub fn open_crates(&self) -> (r: Result<CratesTree, StoreError>)
        ensures
            r matches Err(e) ==> e is Io,
    {
        match db_open_tree(&self.inner, "crates") {
            Ok(t) => Ok(CratesTree { inner: t }),
            Err(e) => Err(StoreError::Io(e)),
        }
    }

    /// The accessor for the daily run-context records, held in the
    /// metadata partition.  The partition is already open, so this never
    /// fails.
    pub fn context(&self) -> (r: Result<ContextTree, StoreError>)
        ensures
            r is Ok,
    {
        Ok(ContextTree { inner: self.meta.clone() })
    }
}

/// The accessor for one immutable record per (crate name, version) pair.
pub struct CrateVersionsTree {
    inner: sled::Tree,
}

impl TreeAccess for CrateVersionsTree {
    type StorageItem = CrateVersion;

    type InsertItem = CrateVersion;

    type InsertView = CrateVersionView;

    type InsertResult = ();

    /// The compound key: name, one colon, version.
    open spec fn key_ok(item: CrateVersionView, k: Seq<u8>) -> bool {
        k == encode_utf8(item.name) + seq![58u8] + encode_utf8(item.version)
    }

    /// Last write wins: re-observation is an idempotent refresh.
    open spec fn spec_merge(
        new_item: CrateVersionView,
        existing: Option<CrateVersionView>,
    ) -> Option<CrateVersionView> {
        Some(new_item)
    }

    /// Callers only care that the record now exists.
    open spec fn spec_map_insert(stored: CrateVersionView) -> () {
        ()
    }

    open spec fn spec_enc(v: CrateVersionView) -> Seq<u8> {
        enc_crate_version(v)
    }

    open spec fn spec_dec(b: Seq<u8>) -> Option<CrateVersionView> {
        dec_crate_version(b)
    }

    open spec fn spec_default() -> CrateVersionView {
        CrateVersionView { name: Seq::empty(), version: Seq::empty(), kind: ChangeKind::Added }
    }

    fn tree(&self) -> &sled::Tree {
        &self.inner
    }

    fn key(&self, item: &CrateVersion) -> (r: Vec<u8>) {
        let mut id = item.name.as_str().as_bytes_vec();
        id.push(58u8);
        let vb = item.version.as_str().as_bytes_vec();
        id.extend_from_slice(vb.as_slice());
        proof {
            assert(id@ =~= encode_utf8(item@.name) + seq![58u8] + encode_utf8(item@.version));
        }
        id
    }

    fn merge(&self, new_item: &CrateVersion, existing: Option<CrateVersion>) -> (r: Option<
        CrateVersion,
    >) {
        Some(
            CrateVersion {
                name: new_item.name.clone(),
                version: new_item.version.clone(),
                kind: new_item.kind,
            },
        )
    }

    fn map_insert_return_value(&self, stored: CrateVersion) -> (r: ()) {
        ()
    }

    fn encode(v: &CrateVersion) -> (r: Vec<u8>) {
        let out = encode_crate_version(v);
        proof {
            crate::codec::lemma_crate_version_round_trip(v@);
        }
        out
    }

    fn decode(b: &Vec<u8>) -> (r: Option<CrateVersion>) {
        decode_crate_version(b)
    }

    fn make_default() -> (r: CrateVersion) {
        CrateVersion { name: String::new(), version: String::new(), kind: ChangeKind::Added }
    }
}

/// The bytes every context key starts with.
pub open spec fn context_prefix() -> Seq<u8> {
    encode_utf8("context/"@)
}

/// The key of one day's context record.
pub open spec fn context_key(day: Seq<char>) -> Seq<u8> {
    context_prefix() + encode_utf8(day)
}

/// Builds the key of one day's context record; tests and reporting use it
/// to address simulated dates.
pub fn context_key_for_day(day: &str) -> (r: Vec<u8>)
    ensures
        r@ == context_key(day@),
{
    let mut k = "context/".as_bytes_vec();
    let db = day.as_bytes_vec();
    k.extend_from_slice(db.as_slice());
    proof {
        assert(k@ =~= context_key(day@));
    }
    k
}

/// Two different days never merge: their keys differ.
pub proof fn lemma_context_keys_per_day(d1: Seq<char>, d2: Seq<char>)
    requires
        d1 != d2,
    ensures
        context_key(d1) != context_key(d2),
{
    broadcast use vstd::utf8::encode_utf8_decode_utf8;

    if context_key(d1) == context_key(d2) {
        let p = context_prefix().len() as int;
        assert(context_key(d1).skip(p) =~= encode_utf8(d1));
        assert(context_key(d2).skip(p) =~= encode_utf8(d2));
        assert(encode_utf8(d1) == encode_utf8(d2));
        assert(vstd::utf8::decode_utf8(encode_utf8(d1)) == d1);
        assert(vstd::utf8::decode_utf8(encode_utf8(d2)) == d2);
    }
}

/// The field-wise saturating sum of two context records.
pub open spec fn ctx_plus(a: Context, b: Context) -> Context {
    Context {
        new_crates: crate::model::sat_add(a.new_crates, b.new_crates),
        new_crate_versions: crate::model::sat_add(a.new_crate_versions, b.new_crate_versions),
        errors: crate::model::sat_add(a.errors, b.errors),
    }
}

/// Merging a partial-day record into an existing one for the same day
/// adds the counters field-wise; when the sums fit the counter width they
/// are the exact sums.
pub proof fn lemma_context_additive(a: Context, b: Context)
    ensures
        ContextTree::spec_merge(b, Some(a)) == Some(ctx_plus(a, b)),
        a.new_crates + b.new_crates <= u64::MAX ==> ctx_plus(a, b).new_crates == a.new_crates
            + b.new_crates,
        a.new_crate_versions + b.new_crate_versions <= u64::MAX ==> ctx_plus(
            a,
            b,
        ).new_crate_versions == a.new_crate_versions + b.new_crate_versions,
        a.errors + b.errors <= u64::MAX ==> ctx_plus(a, b).errors == a.errors + b.errors,
{
}

/// Merging context records is commutative: out-of-order writes within a
/// day converge to the same total.
pub proof fn lemma_context_merge_commutative(a: Context, b: Context)
    ensures
        ctx_plus(a, b) == ctx_plus(b, a),
{
}

/// Merging context records is associative: repeated partial writes within
/// a day converge to the same total however they are grouped.
pub proof fn lemma_context_merge_associative(a: Context, b: Context, c: Context)
    ensures
        ctx_plus(ctx_plus(a, b), c) == ctx_plus(a, ctx_plus(b, c)),
{
}

/// The accessor for the daily run-context records.
pub struct ContextTree {
    inner: sled::Tree,
}

impl TreeAccess for ContextTree {
    type StorageItem = Context;

    type InsertItem = Context;

    type InsertView = Context;

    type InsertResult = ();

    /// Today's key, derived from the wall clock at call time: the context
    /// prefix and a date.
    open spec fn key_ok(item: Context, k: Seq<u8>) -> bool {
        exists|d: Seq<char>| date_shaped(d) && k == #[trigger] context_key(d)
    }

    /// Counters of the same day add up; the first write of a day is
    /// adopted as it is.
    open spec fn spec_merge(new_item: Context, existing: Option<Context>) -> Option<Context> {
        match existing {
            Some(e) => Some(ctx_plus(e, new_item)),
            None => Some(new_item),
        }
    }

    open spec fn spec_map_insert(stored: Context) -> () {
        ()
    }

    open spec fn spec_enc(v: Context) -> Seq<u8> {
        enc_context(v)
    }

    open spec fn spec_dec(b: Seq<u8>) -> Option<Context> {
        dec_context(b)
    }

    open spec fn spec_default() -> Context {
        Context { new_crates: 0, new_crate_versions: 0, errors: 0 }
    }

    fn tree(&self) -> &sled::Tree {
        &self.inner
    }

    fn key(&self, item: &Context) -> (r: Vec<u8>) {
        let stamp = now_rfc3339();
        let day = stamp.as_str().substring_char(0, 10);
        context_key_for_day(day)
    }

    fn merge(&self, new_item: &Context, existing: Option<Context>) -> (r: Option<Context>) {
        match existing {
            Some(e) => Some(e.merged(new_item)),
            None => Some(*new_item),
        }
    }

    fn map_insert_return_value(&self, stored: Context) -> (r: ()) {
        ()
    }

    fn encode(v: &Context) -> (r: Vec<u8>) {
        let out = encode_context(v);
        proof {
            crate::codec::lemma_context_round_trip(*v);
        }
        out
    }

    fn decode(b: &Vec<u8>) -> (r: Option<Context>) {
        decode_context(b)
    }

    fn make_default() -> (r: Context) {
        Context { new_crates: 0, new_crate_versions: 0, errors: 0 }
    }
}

/// A well-formed day-listing entry: the record decodes from some bytes
/// and the name is the text of some stored key.
pub open spec fn day_entry_ok(e: (String, Context)) -> bool {
    &&& exists|b: Seq<u8>| dec_context(b) == Some(e.1)
    &&& exists|kb: Seq<u8>|
        vstd::utf8::valid_utf8(kb) && e.0@ == vstd::utf8::decode_utf8(kb)
}

/// A well-formed day listing: every entry is well formed and the names
/// come out in the engine's ascending byte order of their keys.
pub open spec fn day_listing_ok(v: Seq<(String, Context)>) -> bool {
    &&& forall|i: int| #![trigger v[i]] 0 <= i < v.len() ==> day_entry_ok(v[i])
    &&& forall|i: int, j: int|
        #![trigger v[i], v[j]]
        0 <= i < j < v.len() ==> lex_bytes_lt(encode_utf8(v[i].0@), encode_utf8(v[j].0@))
}

impl ContextTree {
    /// Applies a mutation to today's record, creating it from the zero
    /// record if this is the day's first write.
    pub fn update_today<F: Fn(Context) -> Context>(&self, f: F) -> (r: Result<Context, StoreError>)
        requires
            forall|v: Context| #[trigger] call_requires(f, (v,)),
        ensures
            r is Ok ==> exists|v0: Context, out: Context|
                #[trigger] call_ensures(f, (v0,), out) && out == r->Ok_0,
    {
        let zero = Context { new_crates: 0, new_crate_versions: 0, errors: 0 };
        let key = self.key(&zero);
        update(self, &key, f)
    }

    /// The stored days in ascending key order, each key read back as its
    /// date string and each value decoded.  Which days come back reflects
    /// the state on disk; whatever it is, the listing is well formed as
    /// [`day_listing_ok`] says.  A key that is not text or a value that
    /// does not decode is surfaced as a serialization error.
    pub fn iter(&self) -> (r: Result<Vec<(String, Context)>, StoreError>)
        ensures
            r matches Ok(v) ==> day_listing_ok(v@),
            r matches Err(e) ==> e is Io || e is Serialization,
    {
        let entries = match tree_entries(&self.inner) {
            Ok(es) => es,
            Err(e) => {
                return Err(StoreError::Io(e));
            },
        };
        let mut out: Vec<(String, Context)> = Vec::new();
        let n = entries.len();
        let mut i: usize = 0;
        while i < n
            invariant
                n == entries@.len(),
                i <= n,
                out@.len() == i,
                forall|a: int, b: int|
                    0 <= a < b < n ==> lex_bytes_lt(
                        #[trigger] entries@[a].0@,
                        #[trigger] entries@[b].0@,
                    ),
                forall|j: int|
                    0 <= j < i ==> {
                        &&& dec_context(entries@[j].1@) == Some((#[trigger] out@[j]).1)
                        &&& vstd::utf8::valid_utf8(entries@[j].0@)
                        &&& out@[j].0@ == vstd::utf8::decode_utf8(entries@[j].0@)
                        &&& encode_utf8(out@[j].0@) == entries@[j].0@
                    },
            decreases n - i,
        {
            let kv = &entries[i];
            let name = match core::str::from_utf8(kv.0.as_slice()) {
                Ok(s) => {
                    proof {
                        vstd::utf8::encode_utf8_decode_utf8(s@);
                    }
                    s.to_owned()
                },
                Err(_) => {
                    return Err(StoreError::Serialization);
                },
            };
            let ctx = match decode_context(&kv.1) {
                Some(c) => c,
                None => {
                    return Err(StoreError::Serialization);
                },
            };
            let ghost name_view = name@;
            proof {
                assert(vstd::utf8::valid_utf8(entries@[i as int].0@));
                assert(encode_utf8(name_view) == entries@[i as int].0@);
                assert(name_view == vstd::utf8::decode_utf8(entries@[i as int].0@));
                assert(dec_context(entries@[i as int].1@) == Some(ctx));
            }
            let ghost old_out = out@;
            out.push((name, ctx));
            proof {
                assert forall|j: int| 0 <= j < i + 1 implies {
                    &&& dec_context(entries@[j].1@) == Some((#[trigger] out@[j]).1)
                    &&& vstd::utf8::valid_utf8(entries@[j].0@)
                    &&& out@[j].0@ == vstd::utf8::decode_utf8(entries@[j].0@)
                    &&& encode_utf8(out@[j].0@) == entries@[j].0@
                } by {
                    if j < i {
                        assert(out@[j] == old_out[j]);
                    } else {
                        assert(out@[j].0@ == name_view && out@[j].1 == ctx);
                    }
                }
            }
            i = i + 1;
        }
        proof {
            assert forall|a: int| #![trigger out@[a]] 0 <= a < out@.len() implies day_entry_ok(
                out@[a],
            ) by {
                assert(dec_context(entries@[a].1@) == Some(out@[a].1));
                assert(vstd::utf8::valid_utf8(entries@[a].0@));
                assert(out@[a].0@ == vstd::utf8::decode_utf8(entries@[a].0@));
            }
            assert forall|a: int, b2: int|
                #![trigger out@[a], out@[b2]]
                0 <= a < b2 < out@.len() implies lex_bytes_lt(
                encode_utf8(out@[a].0@),
                encode_utf8(out@[b2].0@),
            ) by {
                assert(encode_utf8(out@[a].0@) == entries@[a].0@);
                assert(encode_utf8(out@[b2].0@) == entries@[b2].0@);
                assert(lex_bytes_lt(entries@[a].0@, entries@[b2].0@));
            }
            assert(day_listing_ok(out@));
        }
        Ok(out)
    }
}

/// The accessor for cumulative crate records, keyed by crate name.
pub struct CratesTree {
    inner: sled::Tree,
}

/// The position the canonical order inserts `v` at: the length of the
/// longest prefix whose members all come before `v`.
pub open spec fn lower_bound(vs: Seq<Seq<char>>, v: Seq<char>) -> int
    decreases vs.len(),
{
    if vs.len() == 0 {
        0
    } else if lex_lt(vs[0], v) {
        1 + lower_bound(vs.drop_first(), v)
    } else {
        0
    }
}

/// What the scan that stops at the first member not before `v` returns.
pub proof fn lemma_lower_bound_at(vs: Seq<Seq<char>>, v: Seq<char>, i: int)
    requires
        0 <= i <= vs.len(),
        forall|j: int| 0 <= j < i ==> lex_lt(#[trigger] vs[j], v),
        i < vs.len() ==> !lex_lt(vs[i], v),
    ensures
        lower_bound(vs, v) == i,
    decreases vs.len(),
{
    if vs.len() == 0 {
    } else if lex_lt(vs[0], v) {
        assert(i >= 1);
        let rest = vs.drop_first();
        assert forall|j: int| 0 <= j < i - 1 implies lex_lt(#[trigger] rest[j], v) by {
            assert(rest[j] == vs[j + 1]);
        }
        assert(i - 1 < rest.len() ==> !lex_lt(rest[i - 1], v));
        lemma_lower_bound_at(rest, v, i - 1);
    } else {
        assert(i == 0);
    }
}

/// Where the lower bound lies, and how the members around it compare.
pub proof fn lemma_lower_bound_props(vs: Seq<Seq<char>>, v: Seq<char>)
    ensures
        0 <= lower_bound(vs, v) <= vs.len(),
        forall|j: int| 0 <= j < lower_bound(vs, v) ==> lex_lt(#[trigger] vs[j], v),
        lower_bound(vs, v) < vs.len() ==> !lex_lt(vs[lower_bound(vs, v)], v),
    decreases vs.len(),
{
    if vs.len() == 0 {
    } else if lex_lt(vs[0], v) {
        let rest = vs.drop_first();
        lemma_lower_bound_props(rest, v);
        assert forall|j: int| 0 <= j < lower_bound(vs, v) implies lex_lt(#[trigger] vs[j], v) by {
            if j >= 1 {
                assert(vs[j] == rest[j - 1]);
            }
        }
    }
}

/// The merge of one version into a stored list: a version already present
/// leaves the list unchanged, any other is inserted at its sorted
/// position.
pub open spec fn insert_sorted(vs: Seq<Seq<char>>, v: Seq<char>) -> Seq<Seq<char>> {
    if vs.contains(v) {
        vs
    } else {
        vs.insert(lower_bound(vs, v), v)
    }
}

/// The merged list always holds the merged version.
pub proof fn lemma_insert_sorted_has(vs: Seq<Seq<char>>, v: Seq<char>)
    ensures
        insert_sorted(vs, v).contains(v),
{
    if !vs.contains(v) {
        lemma_lower_bound_props(vs, v);
        let i = lower_bound(vs, v);
        assert(insert_sorted(vs, v)[i] == v);
    }
}

/// How long the merged list is: unchanged for a version already present,
/// one longer for a new one.
pub proof fn lemma_insert_sorted_len(vs: Seq<Seq<char>>, v: Seq<char>)
    ensures
        insert_sorted(vs, v).len() == if vs.contains(v) {
            vs.len() as int
        } else {
            vs.len() + 1 as int
        },
{
    if !vs.contains(v) {
        lemma_lower_bound_props(vs, v);
    }
}

/// Merging the same version again changes nothing: the merge is
/// idempotent.
pub proof fn lemma_insert_sorted_idempotent(vs: Seq<Seq<char>>, v: Seq<char>)
    ensures
        insert_sorted(insert_sorted(vs, v), v) == insert_sorted(vs, v),
{
    lemma_insert_sorted_has(vs, v);
}

/// Merging keeps a strictly sorted list strictly sorted, whatever order
/// versions arrive in.
pub proof fn lemma_insert_sorted_sorted(vs: Seq<Seq<char>>, v: Seq<char>)
    requires
        sorted_unique(vs),
    ensures
        sorted_unique(insert_sorted(vs, v)),
{
    if !vs.contains(v) {
        lemma_lower_bound_props(vs, v);
        let i = lower_bound(vs, v);
        let w = vs.insert(i, v);
        assert(w.len() == vs.len() + 1);
        assert forall|j: int| 0 <= j < w.len() implies #[trigger] w[j] == (if j < i {
            vs[j]
        } else if j == i {
            v
        } else {
            vs[j - 1]
        }) by {}
        if i < vs.len() {
            crate::strutil::lemma_lex_total(vs[i], v);
            assert(!vs.contains(v));
            assert(vs[i] != v) by {
                if vs[i] == v {
                    assert(vs.contains(v));
                }
            }
            assert(lex_lt(v, vs[i]));
        }
        assert forall|j: int, k: int| 0 <= j < k < w.len() implies lex_lt(
            #[trigger] w[j],
            #[trigger] w[k],
        ) by {
            if k < i {
            } else if j < i && k == i {
                assert(lex_lt(vs[j], v));
            } else if j < i && k > i {
                assert(j < k - 1);
                assert(lex_lt(vs[j], vs[k - 1]));
            } else if j == i {
                assert(i < k - 1 + 1 <= vs.len());
                if k - 1 == i {
                    assert(lex_lt(v, vs[i]));
                } else {
                    crate::strutil::lemma_lex_trans(v, vs[i], vs[k - 1]);
                }
            } else {
            }
        }
    }
}

/// The version list a sequence of version-added events leaves behind,
/// starting from no record.
pub open spec fn versions_after(events: Seq<Seq<char>>) -> Seq<Seq<char>>
    decreases events.len(),
{
    if events.len() == 0 {
        Seq::empty()
    } else {
        insert_sorted(versions_after(events.drop_last()), events.last())
    }
}

/// After any sequence of version-added events for one crate, in any
/// arrival order, the stored version list is strictly sorted under the
/// canonical ordering — sorted ascending and free of duplicates.
pub proof fn lemma_sort_invariant(events: Seq<Seq<char>>)
    ensures
        sorted_unique(versions_after(events)),
    decreases events.len(),
{
    if events.len() > 0 {
        lemma_sort_invariant(events.drop_last());
        lemma_insert_sorted_sorted(versions_after(events.drop_last()), events.last());
    }
}

/// Both branches of the crates merge apply [`insert_sorted`]: a first
/// event inserts into the empty list, later ones into the stored list.
pub proof fn lemma_crates_merge_applies_insert(new: CrateVersionView, existing: Option<CrateView>)
    ensures
        CratesTree::spec_merge(new, existing) is Some,
        CratesTree::spec_merge(new, existing)->0.versions == match existing {
            None => insert_sorted(Seq::empty(), new.version),
            Some(c) => insert_sorted(c.versions, new.version),
        },
{
    let e = Seq::<Seq<char>>::empty();
    assert(!e.contains(new.version));
    assert(lower_bound(e, new.version) == 0);
    assert(e.insert(0, new.version) =~= seq![new.version]);
}

/// Applying the same version-added event again, any number of times,
/// leaves the stored record exactly as after the first application.
pub proof fn lemma_crates_merge_idempotent(new: CrateVersionView, existing: Option<CrateView>)
    ensures
        CratesTree::spec_merge(new, CratesTree::spec_merge(new, existing)) == CratesTree::spec_merge(
            new,
            existing,
        ),
{
    lemma_crates_merge_applies_insert(new, existing);
    let first = CratesTree::spec_merge(new, existing)->0;
    lemma_crates_merge_applies_insert(new, Some(first));
    match existing {
        None => {
            lemma_insert_sorted_idempotent(Seq::empty(), new.version);
        },
        Some(c) => {
            lemma_insert_sorted_idempotent(c.versions, new.version);
        },
    }
    assert(CratesTree::spec_merge(new, Some(first))->0 =~= first);
}

/// The record after the same event was merged `n` further times.
pub open spec fn merge_repeated(new: CrateVersionView, existing: Option<CrateView>, n: nat) -> Option<
    CrateView,
>
    decreases n,
{
    if n == 0 {
        CratesTree::spec_merge(new, existing)
    } else {
        CratesTree::spec_merge(new, merge_repeated(new, existing, (n - 1) as nat))
    }
}

/// Applying the same version-added event any number of times produces a
/// version list identical in content and order to applying it once.
pub proof fn lemma_crates_merge_idempotent_many(
    new: CrateVersionView,
    existing: Option<CrateView>,
    n: nat,
)
    ensures
        merge_repeated(new, existing, n) == CratesTree::spec_merge(new, existing),
    decreases n,
{
    if n > 0 {
        lemma_crates_merge_idempotent_many(new, existing, (n - 1) as nat);
        lemma_crates_merge_idempotent(new, existing);
    }
}

/// The first event for a never-seen crate name reports a new crate; an
/// event on an existing record reports one only in the one case where the
/// record holds exactly the event's own version — then the merge changes
/// nothing and the record still has one version.
pub proof fn lemma_new_crate_detection(new: CrateVersionView, existing: Option<CrateView>)
    ensures
        existing is None ==> CratesTree::spec_map_insert(CratesTree::spec_merge(new, None)->0)
            == true,
        (existing matches Some(c) && c.versions.len() >= 1 && c.versions != seq![new.version])
            ==> CratesTree::spec_map_insert(CratesTree::spec_merge(new, existing)->0) == false,
{
    lemma_crates_merge_applies_insert(new, existing);
    match existing {
        None => {
            assert(CratesTree::spec_merge(new, None)->0.versions =~= seq![new.version]);
        },
        Some(c) => {
            if c.versions.len() >= 1 && c.versions != seq![new.version] {
                lemma_insert_sorted_len(c.versions, new.version);
                if c.versions.contains(new.version) && c.versions.len() == 1 {
                    let j = choose|j: int|
                        0 <= j < c.versions.len() && c.versions[j] == new.version;
                    assert(c.versions =~= seq![new.version]);
                }
            }
        },
    }
}

impl TreeAccess for CratesTree {
    type StorageItem = Crate;

    type InsertItem = CrateVersion;

    type InsertView = CrateVersionView;

    type InsertResult = bool;

    /// The key is the crate's name.
    open spec fn key_ok(item: CrateVersionView, k: Seq<u8>) -> bool {
        k == encode_utf8(item.name)
    }

    /// A first event makes a one-version record; later events merge their
    /// version into the list, deduplicated and kept sorted.
    open spec fn spec_merge(new_item: CrateVersionView, existing: Option<CrateView>) -> Option<
        CrateView,
    > {
        match existing {
            None => Some(CrateView { versions: seq![new_item.version] }),
            Some(c) => Some(CrateView { versions: insert_sorted(c.versions, new_item.version) }),
        }
    }

    /// Whether this write created a brand-new crate record: the record
    /// holds exactly one version after the write.
    open spec fn spec_map_insert(stored: CrateView) -> bool {
        stored.versions.len() == 1
    }

    open spec fn spec_enc(v: CrateView) -> Seq<u8> {
        enc_crate(v)
    }

    open spec fn spec_dec(b: Seq<u8>) -> Option<CrateView> {
        dec_crate(b)
    }

    open spec fn spec_default() -> CrateView {
        CrateView { versions: Seq::empty() }
    }

    fn tree(&self) -> &sled::Tree {
        &self.inner
    }

    fn key(&self, item: &CrateVersion) -> (r: Vec<u8>) {
        item.name.as_str().as_bytes_vec()
    }

    fn merge(&self, new_item: &CrateVersion, existing: Option<Crate>) -> (r: Option<Crate>) {
        match existing {
            None => {
                let mut versions: Vec<String> = Vec::new();
                versions.push(new_item.version.clone());
                let c = Crate { versions };
                proof {
                    assert(c@.versions =~= seq![new_item@.version]);
                    assert(c@ =~= CratesTree::spec_merge(new_item@, None)->0);
                }
                Some(c)
            },
            Some(c) => {
                let mut c = c;
                let ghost old_versions = c@.versions;
                let ghost old_vec = c.versions@;
                if !contains_string(&c.versions, &new_item.version) {
                    let pos = lower_bound_exec(&c.versions, &new_item.version);
                    proof {
                        lemma_lower_bound_props(strs_view(old_vec), new_item@.version);
                    }
                    c.versions.insert(pos, new_item.version.clone());
                    proof {
                        let nv = new_item@.version;
                        old_vec.insert_ensures(pos as int, c.versions@[pos as int]);
                        old_versions.insert_ensures(pos as int, nv);
                        assert forall|j: int| 0 <= j < strs_view(c.versions@).len() implies #[trigger] strs_view(
                            c.versions@,
                        )[j] == old_versions.insert(pos as int, nv)[j] by {
                            if j < pos {
                                assert(c.versions@[j] == old_vec[j]);
                            } else if j == pos {
                            } else {
                                assert(c.versions@[j] == old_vec[j - 1]);
                                assert(old_versions.insert(pos as int, nv)[j] == old_versions[j
                                    - 1]);
                            }
                        }
                        assert(strs_view(c.versions@) =~= old_versions.insert(
                            pos as int,
                            new_item@.version,
                        ));
                    }
                }
                proof {
                    assert(c@ =~= CratesTree::spec_merge(new_item@, Some(
                        CrateView { versions: old_versions },
                    ))->0);
                }
                Some(c)
            },
        }
    }

    fn map_insert_return_value(&self, stored: Crate) -> (r: bool) {
        stored.versions.len() == 1
    }

    fn encode(v: &Crate) -> (r: Vec<u8>) {
        let out = crate::codec::encode_crate(v);
        proof {
            crate::codec::lemma_crate_round_trip(v@);
        }
        out
    }

    fn decode(b: &Vec<u8>) -> (r: Option<Crate>) {
        crate::codec::decode_crate(b)
    }

    fn make_default() -> (r: Crate) {
        let c = Crate { versions: Vec::new() };
        proof {
            assert(c@ =~= CrateView { versions: Seq::empty() });
        }
        c
    }
}

/// Whether a version is already present in the list.
fn contains_string(vs: &Vec<String>, v: &String) -> (r: bool)
    ensures
        r == strs_view(vs@).contains(v@),
{
    let n = vs.len();
    let mut i: usize = 0;
    let mut found = false;
    while i < n
        invariant
            n == vs@.len(),
            i <= n,
            found <==> exists|j: int| 0 <= j < i && #[trigger] strs_view(vs@)[j] == v@,
        decreases n - i,
    {
        if vs[i].eq(v) {
            proof {
                assert(strs_view(vs@)[i as int] == v@);
            }
            found = true;
        }
        i = i + 1;
    }
    found
}

/// The index the canonical order inserts a version at: past every stored
/// version that comes before it.
fn lower_bound_exec(vs: &Vec<String>, v: &String) -> (r: usize)
    ensures
        r == lower_bound(strs_view(vs@), v@),
{
    let n = vs.len();
    let mut i: usize = 0;
    loop
        invariant
            n == vs@.len(),
            i <= n,
            forall|j: int| 0 <= j < i ==> lex_lt(#[trigger] strs_view(vs@)[j], v@),
        ensures
            i <= n,
            forall|j: int| 0 <= j < i ==> lex_lt(#[trigger] strs_view(vs@)[j], v@),
            i < n ==> !lex_lt(strs_view(vs@)[i as int], v@),
        decreases n - i,
    {
        if i == n {
            break ;
        }
        if !crate::strutil::str_lt(vs[i].as_str(), v.as_str()) {
            break ;
        }
        proof {
            assert(lex_lt(strs_view(vs@)[i as int], v@));
        }
        i = i + 1;
    }
    proof {
        lemma_lower_bound_at(strs_view(vs@), v@, i as int);
    }
    i
}

} // verus!
