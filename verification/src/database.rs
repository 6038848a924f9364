use vstd::prelude::*;
use vstd::string::{StringSliceAdditionalSpecFns, StrSliceExecFns, StringExecFns};
use vstd::utf8::encode_utf8;

use lmdb::{Cursor, Transaction};

use crate::data_stream::{compact_size, DataStream};

verus! {

#[verifier::external_type_specification]
#[verifier::external_body]
pub struct ExLmdbError(lmdb::Error);

#[verifier::external_type_specification]
#[verifier::external_body]
pub struct ExEnvironment(lmdb::Environment);

#[verifier::external_type_specification]
#[verifier::external_body]
pub struct ExEnvironmentBuilder(lmdb::EnvironmentBuilder);

#[verifier::external_type_specification]
#[verifier::external_body]
pub struct ExDatabase(lmdb::Database);

#[verifier::external_type_specification]
#[verifier::external_body]
pub struct ExRwTransaction<'env>(lmdb::RwTransaction<'env>);

#[verifier::external_type_specification]
#[verifier::external_body]
pub struct ExRoTransaction<'env>(lmdb::RoTransaction<'env>);

#[verifier::external_type_specification]
#[verifier::external_body]
pub struct ExRoCursor<'txn>(lmdb::RoCursor<'txn>);

#[verifier::external_type_specification]
#[verifier::external_body]
pub struct ExIoError(std::io::Error);

/// The `max_dbs` option of an environment builder.
pub uninterp spec fn builder_max_dbs(b: lmdb::EnvironmentBuilder) -> Option<u32>;

/// The `map_size` option of an environment builder.
pub uninterp spec fn builder_map_size(b: lmdb::EnvironmentBuilder) -> Option<usize>;

/// The environment was opened by a builder, at the given path, with the
/// given `max_dbs` and `map_size` options.
pub uninterp spec fn env_opened(
    e: lmdb::Environment,
    path: Seq<char>,
    max_dbs: Option<u32>,
    map_size: Option<usize>,
) -> bool;

/// The database was opened or created in the environment under the name.
pub uninterp spec fn db_created(e: lmdb::Environment, db: lmdb::Database, name: Seq<char>) -> bool;

/// `lmdb::Environment::new`: a builder with no option set.
#[verifier::external_body]
fn environment_builder() -> (b: lmdb::EnvironmentBuilder)
    ensures
        builder_max_dbs(b) is None,
        builder_map_size(b) is None,
{
    lmdb::Environment::new()
}

/// `lmdb::EnvironmentBuilder::set_max_dbs`: records the number of named
/// databases to allow.
#[verifier::external_body]
fn builder_set_max_dbs(builder: &mut lmdb::EnvironmentBuilder, max_dbs: u32)
    ensures
        builder_max_dbs(*final(builder)) == Some(max_dbs),
        builder_map_size(*final(builder)) == builder_map_size(*old(builder)),
{
    builder.set_max_dbs(max_dbs);
}

/// `lmdb::EnvironmentBuilder::set_map_size`: records the size of the memory
/// map.
#[verifier::external_body]
fn builder_set_map_size(builder: &mut lmdb::EnvironmentBuilder, map_size: usize)
    ensures
        builder_map_size(*final(builder)) == Some(map_size),
        builder_max_dbs(*final(builder)) == builder_max_dbs(*old(builder)),
{
    builder.set_map_size(map_size);
}

/// `lmdb::EnvironmentBuilder::open`: opens the environment in the directory
/// at `path` with the builder's options; whether it succeeds depends on the
/// file system.
#[verifier::external_body]
fn builder_open(builder: &lmdb::EnvironmentBuilder, path: &str) -> (r: Result<lmdb::Environment, lmdb::Error>)
    ensures
        r matches Ok(e) ==> env_opened(e, path@, builder_max_dbs(*builder), builder_map_size(*builder)),
{
    builder.open(std::path::Path::new(path))
}

/// `lmdb::Environment::create_db` with no flags: opens the named database,
/// creating it where needed; whether it succeeds depends on the environment.
/// It panics on a name holding a NUL character, which `requires` leaves out.
#[verifier::external_body]
fn env_create_db(env: &lmdb::Environment, name: &str) -> (r: Result<lmdb::Database, lmdb::Error>)
    requires
        !name@.contains('\0'),
    ensures
        r matches Ok(db) ==> db_created(*env, db, name@),
{
    env.create_db(Some(name), lmdb::DatabaseFlags::empty())
}

/// The writes that have been put in a read-write transaction, in order:
/// each with the database it went to, its key and its value.
pub uninterp spec fn txn_writes(t: lmdb::RwTransaction) -> Seq<(lmdb::Database, Seq<u8>, Seq<u8>)>;

/// The read-write transaction was begun in the environment.
pub uninterp spec fn rw_txn_in(t: lmdb::RwTransaction, e: lmdb::Environment) -> bool;

/// That `lmdb::Transaction::commit` of the transaction returned `Ok`.
pub uninterp spec fn txn_committed(t: lmdb::RwTransaction) -> bool;

/// `lmdb::Environment::begin_rw_txn`: starts a read-write transaction in the
/// environment, in which nothing has been put yet.
#[verifier::external_body]
fn env_begin_rw_txn<'env>(env: &'env lmdb::Environment) -> (r: Result<lmdb::RwTransaction<'env>, lmdb::Error>)
    ensures
        r matches Ok(t) ==> rw_txn_in(t, *env) && txn_writes(t).len() == 0,
{
    env.begin_rw_txn()
}

/// `lmdb::RwTransaction::put` with no flags: stores a key/value pair in the
/// database within the transaction; on `Ok` it is the transaction's latest
/// write. The transaction stays in its environment.
#[verifier::external_body]
fn rw_txn_put(txn: &mut lmdb::RwTransaction, db: lmdb::Database, key: &[u8], value: &[u8]) -> (r: Result<(), lmdb::Error>)
    ensures
        r is Ok ==> txn_writes(*final(txn)) == txn_writes(*old(txn)).push((db, key@, value@)),
        forall|e: lmdb::Environment| rw_txn_in(*old(txn), e) ==> #[trigger] rw_txn_in(*final(txn), e),
{
    txn.put(db, &key, &value, lmdb::WriteFlags::empty())
}

/// `lmdb::Transaction::commit` on a read-write transaction: saves its
/// writes; `Ok` means the commit succeeded. Whether it does depends on the
/// disk, and nothing is stated of that.
#[verifier::external_body]
fn rw_txn_commit(txn: lmdb::RwTransaction) -> (r: Result<(), lmdb::Error>)
    ensures
        r is Ok ==> txn_committed(txn),
{
    txn.commit()
}

/// The read-only transaction was begun in the environment.
pub uninterp spec fn ro_txn_in(t: lmdb::RoTransaction, e: lmdb::Environment) -> bool;

/// `lmdb::Environment::begin_ro_txn`: starts a read-only transaction in the
/// environment.
#[verifier::external_body]
fn env_begin_ro_txn<'env>(env: &'env lmdb::Environment) -> (r: Result<lmdb::RoTransaction<'env>, lmdb::Error>)
    ensures
        r matches Ok(t) ==> ro_txn_in(t, *env),
{
    env.begin_ro_txn()
}

/// What a lookup in a database found.
pub enum Lookup {
    Found(Vec<u8>),
    NotFound,
    Failed(lmdb::Error),
}

/// Looking up the key in the database within the read-only transaction gave
/// the outcome.
pub uninterp spec fn looked_up(t: lmdb::RoTransaction, db: lmdb::Database, key: Seq<u8>, l: Lookup) -> bool;

/// `lmdb::Transaction::get` on a read-only transaction: the value stored
/// under `key` in the database, `Error::NotFound` told apart from other
/// errors.
#[verifier::external_body]
fn ro_txn_get(txn: &lmdb::RoTransaction, db: lmdb::Database, key: &[u8]) -> (l: Lookup)
    ensures
        looked_up(*txn, db, key@, l),
{
    match txn.get(db, &key) {
        Ok(v) => Lookup::Found(v.to_vec()),
        Err(lmdb::Error::NotFound) => Lookup::NotFound,
        Err(e) => Lookup::Failed(e),
    }
}

/// The cursor runs over the database within the read-only transaction.
pub uninterp spec fn cursor_in(c: lmdb::RoCursor, t: lmdb::RoTransaction, db: lmdb::Database) -> bool;

/// The items the cursor has yielded, in order: each key (empty where LMDB
/// returned none) and its value.
pub uninterp spec fn cursor_yielded(c: lmdb::RoCursor) -> Seq<(Seq<u8>, Seq<u8>)>;

/// The cursor reported that it has no next item.
pub uninterp spec fn cursor_done(c: lmdb::RoCursor) -> bool;

/// `lmdb::Transaction::open_ro_cursor`: a new cursor over the database
/// within the transaction, which has yielded nothing yet.
#[verifier::external_body]
fn ro_txn_open_cursor<'txn>(txn: &'txn lmdb::RoTransaction, db: lmdb::Database) -> (r: Result<lmdb::RoCursor<'txn>, lmdb::Error>)
    ensures
        r matches Ok(c) ==> cursor_in(c, *txn, db) && cursor_yielded(c).len() == 0,
{
    txn.open_ro_cursor(db)
}

/// What one step of a cursor gave.
pub enum CursorStep {
    /// The next key, where LMDB returned one, and its value.
    Item(Option<Vec<u8>>, Vec<u8>),
    /// There is no next item: `Error::NotFound`, or any other error, which
    /// ends a walk over the items as `lmdb::Iter` does.
    End,
}

/// A key returned by a cursor, or the empty key where none was.
pub open spec fn key_or_empty(k: Option<Vec<u8>>) -> Seq<u8> {
    match k {
        Some(k) => k@,
        None => Seq::empty(),
    }
}

/// `lmdb::Cursor::get` with no key, no data and `MDB_NEXT`: the item after
/// the cursor, the first one for a new cursor, which is then among the
/// items it yielded; an error ends the walk. The cursor stays over its
/// database.
#[verifier::external_body]
fn cursor_next(cursor: &mut lmdb::RoCursor) -> (step: CursorStep)
    ensures
        step matches CursorStep::Item(k, v) ==> cursor_yielded(*final(cursor)) == cursor_yielded(
            *old(cursor),
        ).push((key_or_empty(k), v@)),
        step is End ==> cursor_done(*final(cursor)) && cursor_yielded(*final(cursor))
            == cursor_yielded(*old(cursor)),
        forall|t: lmdb::RoTransaction, db: lmdb::Database|
            cursor_in(*old(cursor), t, db) ==> #[trigger] cursor_in(*final(cursor), t, db),
{
    match cursor.get(None, None, lmdb_sys::MDB_NEXT) {
        Ok((k, v)) => CursorStep::Item(k.map(<[u8]>::to_vec), v.to_vec()),
        Err(_) => CursorStep::End,
    }
}


/// `Display` of an `lmdb::Error`: the message of LMDB's error code.
#[verifier::external_body]
fn lmdb_error_text(e: &lmdb::Error) -> String {
    format!("{}", e)
}

/// `Display` of a `std::io::Error`.
#[verifier::external_body]
fn io_error_text(e: &std::io::Error) -> String {
    format!("{}", e)
}

/// A failed store operation: the error, the database it concerned and the
/// key it concerned, where known.
#[derive(Debug)]
pub enum DBError {
    Lmdb { error: lmdb::Error, database: Option<String>, key: Option<Vec<u8>> },
    Io { error: std::io::Error, database: Option<String>, key: Option<Vec<u8>> },
}

/// The view of an optional key.
pub open spec fn key_view(k: Option<Vec<u8>>) -> Option<Seq<u8>> {
    match k {
        Some(k) => Some(k@),
        None => None,
    }
}

/// The view of an optional database name.
pub open spec fn name_view(n: Option<String>) -> Option<Seq<char>> {
    match n {
        Some(n) => Some(n@),
        None => None,
    }
}

/// `e` is an LMDB error about database `db` and key `key`.
pub open spec fn lmdb_error_about(e: DBError, db: Seq<char>, key: Option<Seq<u8>>) -> bool {
    e matches DBError::Lmdb { database, key: k, .. } && name_view(database) == Some(db)
        && key_view(k) == key
}

impl DBError {
    /// An LMDB error about the given database and key.
    pub fn lmdb(error: lmdb::Error, database: Option<&str>, key: Option<&[u8]>) -> (e: Self)
        ensures
            e matches DBError::Lmdb { error: x, .. } && x == error,
            e matches DBError::Lmdb { database: d, key: k, .. } && name_view(d) == match database {
                Some(s) => Some(s@),
                None => None,
            } && key_view(k) == match key {
                Some(k) => Some(k@),
                None => None,
            },
    {
        DBError::Lmdb {
            error,
            database: match database {
                Some(s) => Some(String::from_str(s)),
                None => None,
            },
            key: match key {
                Some(k) => Some(vstd::slice::slice_to_vec(k)),
                None => None,
            },
        }
    }

    /// An I/O error about the given database and key.
    pub fn io(error: std::io::Error, database: Option<&str>, key: Option<&[u8]>) -> (e: Self)
        ensures
            e matches DBError::Io { database: d, key: k, .. } && name_view(d) == match database {
                Some(s) => Some(s@),
                None => None,
            } && key_view(k) == match key {
                Some(k) => Some(k@),
                None => None,
            },
    {
        DBError::Io {
            error,
            database: match database {
                Some(s) => Some(String::from_str(s)),
                None => None,
            },
            key: match key {
                Some(k) => Some(vstd::slice::slice_to_vec(k)),
                None => None,
            },
        }
    }
}

impl From<lmdb::Error> for DBError {
    /// An LMDB error about no particular database or key.
    fn from(err: lmdb::Error) -> (e: Self) {
        DBError::Lmdb { error: err, database: None, key: None }
    }
}

impl vstd::std_specs::convert::FromSpecImpl<lmdb::Error> for DBError {
    open spec fn obeys_from_spec() -> bool {
        true
    }

    open spec fn from_spec(v: lmdb::Error) -> DBError {
        DBError::Lmdb { error: v, database: None, key: None }
    }
}

impl From<std::io::Error> for DBError {
    /// An I/O error about no particular database or key.
    fn from(err: std::io::Error) -> (e: Self) {
        DBError::Io { error: err, database: None, key: None }
    }
}

impl vstd::std_specs::convert::FromSpecImpl<std::io::Error> for DBError {
    open spec fn obeys_from_spec() -> bool {
        true
    }

    open spec fn from_spec(v: std::io::Error) -> DBError {
        DBError::Io { error: v, database: None, key: None }
    }
}

/// Where the last `::`-separated segment of a path starts, scanning from
/// index `i` with the current segment starting at `start`; separators are
/// matched left to right without overlap.
pub open spec fn segment_start(cs: Seq<char>, i: int, start: int) -> int
    decreases cs.len() - i,
{
    if i < 0 || i + 1 >= cs.len() {
        start
    } else if cs[i] == ':' && cs[i + 1] == ':' {
        segment_start(cs, i + 2, i + 2)
    } else {
        segment_start(cs, i + 1, start)
    }
}

/// The last `::`-separated segment of a path.
pub open spec fn last_segment(cs: Seq<char>) -> Seq<char> {
    cs.subrange(segment_start(cs, 0, 0), cs.len() as int)
}

/// The last `::`-separated segment of a type's path.
pub fn last_path_segment(full: &str) -> (seg: &str)
    ensures
        seg@ == last_segment(full@),
{
    let n = full.unicode_len();
    let mut i: usize = 0;
    let mut start: usize = 0;
    while n - i > 1
        invariant
            n == full@.len(),
            start <= i <= n,
            segment_start(full@, 0, 0) == segment_start(full@, i as int, start as int),
        decreases n - i,
    {
        if full.get_char(i) == ':' && full.get_char(i + 1) == ':' {
            i = i + 2;
            start = i;
        } else {
            i = i + 1;
        }
    }
    full.substring_char(start, n)
}

/// The lowercase form of a string, as `str::to_lowercase` gives it.
pub uninterp spec fn lowercase(s: Seq<char>) -> Seq<char>;

/// `str::to_lowercase`: the string mapped to lowercase by Unicode's rules;
/// its result is named `lowercase`.
#[verifier::external_body]
fn str_to_lowercase(s: &str) -> (r: String)
    ensures
        r@ == lowercase(s@),
{
    s.to_lowercase()
}

/// A key prefix made from a lowercased type name: the name and a colon.
pub fn type_prefix(lowered: &str) -> (p: String)
    ensures
        p@ == lowered@.push(':'),
{
    let mut p = String::from_str(lowered);
    let colon = ":";
    proof {
        reveal_strlit(":");
    }
    p.append(colon);
    assert(p@ =~= lowered@.push(':'));
    p
}

/// A key prefix for a value type: the last segment of some type path,
/// lowercased, and a colon.
pub open spec fn is_type_prefix(t: Seq<char>) -> bool {
    exists|full: Seq<char>| t == #[trigger] lowercase(last_segment(full)).push(':')
}

/// The key prefix for values of the type with the given path: its last
/// segment, lowercased, and a colon.
pub fn get_type_prefix(full_path: &str) -> (p: String)
    ensures
        p@ == lowercase(last_segment(full_path@)).push(':'),
{
    let seg = last_path_segment(full_path);
    let lower = str_to_lowercase(seg);
    type_prefix(lower.as_str())
}


/// A key tagged with the key prefix of the value type stored under it.
#[derive(Debug, Clone)]
pub struct TypedKey<K> {
    pub prefix: String,
    pub key: K,
}

/// Inputs that `put` accepts: one key/value pair or a slice of them.
pub trait KeyValueInput<K, V> {
    /// The pairs, each key tagged with the value type's key prefix.
    fn into_pairs(self, prefix: String) -> Vec<(TypedKey<K>, V)>;
}

impl<K, V> KeyValueInput<K, V> for (K, V) {
    fn into_pairs(self, prefix: String) -> (r: Vec<(TypedKey<K>, V)>)
        ensures
            r@.len() == 1,
            r@[0].0.prefix@ == prefix@,
            r@[0].0.key == self.0,
            r@[0].1 == self.1,
    {
        let (key, value) = self;
        let mut r: Vec<(TypedKey<K>, V)> = Vec::new();
        r.push((TypedKey { prefix, key }, value));
        r
    }
}

impl<'a, K: Clone, V: Clone> KeyValueInput<K, V> for &'a [(K, V)] {
    fn into_pairs(self, prefix: String) -> (r: Vec<(TypedKey<K>, V)>)
        ensures
            r@.len() == self@.len(),
            forall|i: int|
                0 <= i < r@.len() ==> #[trigger] r@[i].0.prefix@ == prefix@ && cloned::<K>(
                    self@[i].0,
                    r@[i].0.key,
                ) && cloned::<V>(self@[i].1, r@[i].1),
    {
        let mut r: Vec<(TypedKey<K>, V)> = Vec::new();
        let mut i: usize = 0;
        while i < self.len()
            invariant
                i <= self@.len(),
                r@.len() == i,
                forall|j: int|
                    0 <= j < i ==> #[trigger] r@[j].0.prefix@ == prefix@ && cloned::<K>(
                        self@[j].0,
                        r@[j].0.key,
                    ) && cloned::<V>(self@[j].1, r@[j].1),
            decreases self@.len() - i,
        {
            let k = self[i].0.clone();
            let v = self[i].1.clone();
            r.push((TypedKey { prefix: prefix.clone(), key: k }, v));
            i = i + 1;
        }
        r
    }
}

/// The bytes of a string streamed in as a value: its compact-size byte
/// length, then its UTF-8 bytes.
pub open spec fn string_value_bytes(s: Seq<char>) -> Seq<u8> {
    compact_size(encode_utf8(s).len() as u64) + encode_utf8(s)
}

/// The stored key of a tagged key: the prefix as a value, then the key's
/// bytes.
pub open spec fn typed_key_bytes(prefix: Seq<char>, key: Seq<u8>) -> Seq<u8> {
    string_value_bytes(prefix) + key
}

/// The stored key for a key prefix and a key's bytes.
pub fn key_bytes(prefix: &str, key: &[u8]) -> (k: Vec<u8>)
    ensures
        k@ == typed_key_bytes(prefix@, key@),
{
    let mut s = DataStream::new_empty();
    s.stream_in_bytes(prefix.as_bytes());
    s.write(key);
    s.data
}

/// The stored key/value pairs of tagged pairs.
pub open spec fn entry_bytes(pairs: Seq<(TypedKey<Vec<u8>>, Vec<u8>)>) -> Seq<(Seq<u8>, Seq<u8>)> {
    pairs.map_values(|p: (TypedKey<Vec<u8>>, Vec<u8>)| (typed_key_bytes(p.0.prefix@, p.0.key@), p.1@))
}

/// The views of stored key/value pairs.
pub open spec fn pair_views(pairs: Seq<(Vec<u8>, Vec<u8>)>) -> Seq<(Seq<u8>, Seq<u8>)> {
    pairs.map_values(|p: (Vec<u8>, Vec<u8>)| (p.0@, p.1@))
}

/// `e` is an LMDB error about the database "db" and either no key or one of
/// the given keys.
pub open spec fn db_error_about_some(e: DBError, keys: Seq<(Seq<u8>, Seq<u8>)>) -> bool {
    e matches DBError::Lmdb { database, key: k, .. } && name_view(database) == Some("db"@) && (
    k is None || exists|i: int| 0 <= i < keys.len() && key_view(k) == Some(#[trigger] keys[i].0))
}

/// The pairs `w`, each as a write to the database `db`.
pub open spec fn writes_to(db: lmdb::Database, w: Seq<(Seq<u8>, Seq<u8>)>) -> Seq<
    (lmdb::Database, Seq<u8>, Seq<u8>),
> {
    w.map_values(|p: (Seq<u8>, Seq<u8>)| (db, p.0, p.1))
}

/// A read-write transaction in the environment `e`, holding exactly the
/// pairs `w` written to the database `db`, in order, was committed.
pub open spec fn written(e: lmdb::Environment, db: lmdb::Database, w: Seq<(Seq<u8>, Seq<u8>)>) -> bool {
    exists|t: lmdb::RwTransaction|
        rw_txn_in(t, e) && #[trigger] txn_writes(t) == writes_to(db, w) && txn_committed(t)
}

/// Write the pairs in one read-write transaction.
fn write_all(env: &lmdb::Environment, db: lmdb::Database, writes: &Vec<(Vec<u8>, Vec<u8>)>) -> (r: Result<(), DBError>)
    ensures
        r is Ok ==> written(*env, db, pair_views(writes@)),
        r matches Err(e) ==> db_error_about_some(e, pair_views(writes@)),
{
    let db_name = "db";
    let mut txn = match env_begin_rw_txn(env) {
        Ok(t) => t,
        Err(e) => {
            return Err(DBError::lmdb(e, Some(db_name), None));
        },
    };
    assert(writes_to(db, pair_views(writes@).take(0)) =~= txn_writes(txn));
    let mut i: usize = 0;
    while i < writes.len()
        invariant
            i <= writes@.len(),
            db_name@ == "db"@,
            txn_writes(txn) == writes_to(db, pair_views(writes@).take(i as int)),
            rw_txn_in(txn, *env),
        decreases writes@.len() - i,
    {
        match rw_txn_put(&mut txn, db, writes[i].0.as_slice(), writes[i].1.as_slice()) {
            Ok(()) => {},
            Err(e) => {
                let err = DBError::lmdb(e, Some(db_name), Some(writes[i].0.as_slice()));
                assert(pair_views(writes@)[i as int].0 == writes@[i as int].0@);
                return Err(err);
            },
        }
        assert(pair_views(writes@).take(i + 1) =~= pair_views(writes@).take(i as int).push(
            (writes@[i as int].0@, writes@[i as int].1@),
        ));
        assert(writes_to(db, pair_views(writes@).take(i + 1)) =~= writes_to(
            db,
            pair_views(writes@).take(i as int),
        ).push((db, writes@[i as int].0@, writes@[i as int].1@)));
        i = i + 1;
    }
    assert(pair_views(writes@).take(i as int) =~= pair_views(writes@));
    let ghost t = txn;
    match rw_txn_commit(txn) {
        Ok(()) => {
            assert(rw_txn_in(t, *env) && txn_writes(t) == writes_to(db, pair_views(writes@))
                && txn_committed(t));
            Ok(())
        },
        Err(e) => Err(DBError::lmdb(e, Some(db_name), None)),
    }
}

/// What `put` does to the pending writes `p0` of a store in the given mode,
/// leaving `p1` and returning `r`.
pub open spec fn put_effect(
    manual: bool,
    p0: Seq<(Seq<u8>, Seq<u8>)>,
    p1: Seq<(Seq<u8>, Seq<u8>)>,
    pairs: Seq<(TypedKey<Vec<u8>>, Vec<u8>)>,
    r: Result<(), DBError>,
) -> bool {
    &&& manual ==> r is Ok && p1 == p0 + entry_bytes(pairs)
    &&& !manual ==> p1 == p0
    &&& r matches Err(e) ==> db_error_about_some(e, entry_bytes(pairs))
}

/// What `commit` does to the pending writes `p0` of a store in the given
/// mode, leaving `p1` and returning `r`.
pub open spec fn commit_effect(
    manual: bool,
    p0: Seq<(Seq<u8>, Seq<u8>)>,
    p1: Seq<(Seq<u8>, Seq<u8>)>,
    r: Result<(), DBError>,
) -> bool {
    &&& !manual ==> r is Ok && p1 == p0
    &&& manual ==> p1 == Seq::<(Seq<u8>, Seq<u8>)>::empty()
    &&& p0.len() == 0 ==> r is Ok
    &&& r matches Err(e) ==> db_error_about_some(e, p0)
}

/// In manual mode writes wait for `commit`, which takes all of them, those
/// pending before and those just put, and leaves none pending; otherwise
/// nothing is ever pending.
pub proof fn law_writes_wait_for_commit(
    manual: bool,
    p0: Seq<(Seq<u8>, Seq<u8>)>,
    p1: Seq<(Seq<u8>, Seq<u8>)>,
    p2: Seq<(Seq<u8>, Seq<u8>)>,
    pairs: Seq<(TypedKey<Vec<u8>>, Vec<u8>)>,
    r1: Result<(), DBError>,
    r2: Result<(), DBError>,
)
    requires
        put_effect(manual, p0, p1, pairs, r1),
        commit_effect(manual, p1, p2, r2),
    ensures
        manual ==> r1 is Ok && p1 == p0 + entry_bytes(pairs) && p2.len() == 0,
        manual && p0.len() == 0 && pairs.len() == 0 ==> r2 is Ok,
        manual ==> (r2 matches Err(e) ==> db_error_about_some(e, p0 + entry_bytes(pairs))),
        !manual ==> p2 == p0 && r2 is Ok,
{
    if manual && p0.len() == 0 && pairs.len() == 0 {
        assert(entry_bytes(pairs).len() == 0);
    }
}

/// The result that lookup outcome `l` of the stored key `key` gives: the
/// value found, no value where the key is not stored, or the LMDB error
/// about that key.
pub open spec fn lookup_gives(l: Lookup, key: Seq<u8>, r: Result<Option<Vec<u8>>, DBError>) -> bool {
    match l {
        Lookup::Found(v) => r matches Ok(Some(w)) && w@ == v@,
        Lookup::NotFound => r matches Ok(None),
        Lookup::Failed(e) => r matches Err(err) && (lmdb_error_about(err, "db"@, Some(key))
            && (err matches DBError::Lmdb { error, .. } && error == e)),
    }
}

/// What a lookup of the stored key `key` gives: the value found, no value
/// where the key is not stored, or the LMDB error about that key.
pub fn lookup_outcome(found: Lookup, key: &[u8]) -> (r: Result<Option<Vec<u8>>, DBError>)
    ensures
        lookup_gives(found, key@, r),
{
    match found {
        Lookup::Found(v) => Ok(Some(v)),
        Lookup::NotFound => Ok(None),
        Lookup::Failed(e) => Err(DBError::lmdb(e, Some("db"), Some(key))),
    }
}

/// `k` starts with `p`.
pub open spec fn has_prefix(k: Seq<u8>, p: Seq<u8>) -> bool {
    k.len() >= p.len() && k.subrange(0, p.len() as int) == p
}

/// The items whose key starts with `p`, in order.
pub open spec fn prefixed_items(items: Seq<(Seq<u8>, Seq<u8>)>, p: Seq<u8>) -> Seq<
    (Seq<u8>, Seq<u8>),
> {
    items.filter(|it: (Seq<u8>, Seq<u8>)| has_prefix(it.0, p))
}

/// Every item kept has a key starting with the prefix.
proof fn lemma_prefixed_items_have_prefix(items: Seq<(Seq<u8>, Seq<u8>)>, p: Seq<u8>)
    ensures
        forall|i: int|
            0 <= i < prefixed_items(items, p).len() ==> has_prefix(
                #[trigger] prefixed_items(items, p)[i].0,
                p,
            ),
{
    items.filter_lemma(|it: (Seq<u8>, Seq<u8>)| has_prefix(it.0, p));
}

/// Filtering a sequence extended by one item.
proof fn lemma_prefixed_items_push(
    items: Seq<(Seq<u8>, Seq<u8>)>,
    it: (Seq<u8>, Seq<u8>),
    p: Seq<u8>,
)
    ensures
        prefixed_items(items.push(it), p) == if has_prefix(it.0, p) {
            prefixed_items(items, p).push(it)
        } else {
            prefixed_items(items, p)
        },
{
    reveal_with_fuel(Seq::filter, 1);
    assert(items.push(it).drop_last() =~= items);
}

/// The items whose key starts with `prefix`, in order.
pub fn keep_prefixed(items: Vec<(Vec<u8>, Vec<u8>)>, prefix: &[u8]) -> (r: Vec<(Vec<u8>, Vec<u8>)>)
    ensures
        pair_views(r@) == prefixed_items(pair_views(items@), prefix@),
{
    let mut out: Vec<(Vec<u8>, Vec<u8>)> = Vec::new();
    let mut j: usize = 0;
    proof {
        reveal_with_fuel(Seq::filter, 1);
        assert(pair_views(items@).take(0) =~= Seq::<(Seq<u8>, Seq<u8>)>::empty());
    }
    while j < items.len()
        invariant
            j <= items@.len(),
            pair_views(out@) == prefixed_items(pair_views(items@).take(j as int), prefix@),
        decreases items@.len() - j,
    {
        let ghost iv = (items@[j as int].0@, items@[j as int].1@);
        proof {
            assert(pair_views(items@).take(j + 1) =~= pair_views(items@).take(j as int).push(iv));
            lemma_prefixed_items_push(pair_views(items@).take(j as int), iv, prefix@);
        }
        if starts_with(items[j].0.as_slice(), prefix) {
            let k = vstd::slice::slice_to_vec(items[j].0.as_slice());
            let v = vstd::slice::slice_to_vec(items[j].1.as_slice());
            let ghost prev = out@;
            out.push((k, v));
            assert(pair_views(out@) =~= pair_views(prev).push(iv));
        }
        j = j + 1;
    }
    assert(pair_views(items@).take(j as int) =~= pair_views(items@));
    out
}

/// A named LMDB database whose writes go straight to disk, or in manual
/// mode wait until `commit`.
#[derive(Debug)]
pub struct DBWrapper {
    env: lmdb::Environment,
    db: lmdb::Database,
    manual_mode: bool,
    pending_writes: Vec<(Vec<u8>, Vec<u8>)>,
}

impl DBWrapper {
    /// The writes waiting for `commit`.
    pub closed spec fn pending(&self) -> Seq<(Seq<u8>, Seq<u8>)> {
        pair_views(self.pending_writes@)
    }

    /// Whether writes wait for `commit`.
    pub closed spec fn is_manual(&self) -> bool {
        self.manual_mode
    }

    /// A transaction in the store's environment, holding exactly the pairs
    /// `w` written to the store's database, in order, was committed.
    pub closed spec fn wrote(&self, w: Seq<(Seq<u8>, Seq<u8>)>) -> bool {
        written(self.env, self.db, w)
    }

    /// A cursor over the store's database, within a read-only transaction in
    /// its environment, was walked to its end, and `kept` are the items it
    /// yielded whose key starts with `p`, in order.
    pub closed spec fn walked(&self, p: Seq<u8>, kept: Seq<(Seq<u8>, Seq<u8>)>) -> bool {
        exists|t: lmdb::RoTransaction, c: lmdb::RoCursor|
            ro_txn_in(t, self.env) && #[trigger] cursor_in(c, t, self.db) && cursor_done(c)
                && prefixed_items(cursor_yielded(c), p) == kept
    }

    /// A lookup of `key` in the store's database, within a read-only
    /// transaction in its environment, gave `l`.
    pub closed spec fn found(&self, key: Seq<u8>, l: Lookup) -> bool {
        exists|t: lmdb::RoTransaction| ro_txn_in(t, self.env) && #[trigger] looked_up(t, self.db, key, l)
    }

    /// The store's environment was opened at `path` with room for one named
    /// database and a map of `map_size` bytes, and its database is the one
    /// named `name` there.
    pub closed spec fn opened_as(&self, path: Seq<char>, name: Seq<char>, map_size: usize) -> bool {
        &&& env_opened(self.env, path, Some(1u32), Some(map_size))
        &&& db_created(self.env, self.db, name)
    }

    /// Open the environment at `path`, with room for one named database and
    /// a map of `map_size` bytes, and open or create the database `db_name`.
    pub fn new(path: &str, db_name: &str, manual_mode: bool, map_size: usize) -> (r: Result<
        Self,
        DBError,
    >)
        requires
            !db_name@.contains('\0'),
        ensures
            r matches Ok(w) ==> w.pending() == Seq::<(Seq<u8>, Seq<u8>)>::empty() && w.is_manual()
                == manual_mode && w.opened_as(path@, db_name@, map_size),
            r matches Err(e) ==> lmdb_error_about(e, db_name@, None),
    {
        let mut builder = environment_builder();
        builder_set_max_dbs(&mut builder, 1);
        builder_set_map_size(&mut builder, map_size);
        let env = match builder_open(&builder, path) {
            Ok(env) => env,
            Err(e) => {
                return Err(DBError::lmdb(e, Some(db_name), None));
            },
        };
        let db = match env_create_db(&env, db_name) {
            Ok(db) => db,
            Err(e) => {
                return Err(DBError::lmdb(e, Some(db_name), None));
            },
        };
        let w = DBWrapper { env, db, manual_mode, pending_writes: Vec::new() };
        assert(w.pending() =~= Seq::<(Seq<u8>, Seq<u8>)>::empty());
        Ok(w)
    }

    /// Store the pairs, each under its tagged key's stored key: in manual
    /// mode they are added to the pending writes, otherwise written at once
    /// in one transaction.
    pub fn put(&mut self, pairs: Vec<(TypedKey<Vec<u8>>, Vec<u8>)>) -> (r: Result<(), DBError>)
        ensures
            final(self).is_manual() == old(self).is_manual(),
            put_effect(old(self).is_manual(), old(self).pending(), final(self).pending(), pairs@, r),
            !old(self).is_manual() && r is Ok ==> old(self).wrote(entry_bytes(pairs@)),
    {
        let mut entries: Vec<(Vec<u8>, Vec<u8>)> = Vec::new();
        let mut i: usize = 0;
        while i < pairs.len()
            invariant
                i <= pairs@.len(),
                pair_views(entries@) == entry_bytes(pairs@).take(i as int),
            decreases pairs@.len() - i,
        {
            let k = key_bytes(pairs[i].0.prefix.as_str(), pairs[i].0.key.as_slice());
            let v = vstd::slice::slice_to_vec(pairs[i].1.as_slice());
            let ghost prev = entries@;
            entries.push((k, v));
            assert(pair_views(entries@) =~= pair_views(prev).push((k@, v@)));
            assert(entry_bytes(pairs@).take(i + 1) =~= entry_bytes(pairs@).take(i as int).push(
                (k@, v@),
            ));
            i = i + 1;
        }
        assert(entry_bytes(pairs@).take(pairs@.len() as int) =~= entry_bytes(pairs@));
        if self.manual_mode {
            let mut j: usize = 0;
            let ghost p0 = self.pending_writes@;
            while j < entries.len()
                invariant
                    j <= entries@.len(),
                    self.manual_mode == old(self).manual_mode,
                    pair_views(self.pending_writes@) == pair_views(p0) + pair_views(entries@).take(
                        j as int,
                    ),
                decreases entries@.len() - j,
            {
                let k = vstd::slice::slice_to_vec(entries[j].0.as_slice());
                let v = vstd::slice::slice_to_vec(entries[j].1.as_slice());
                let ghost prev = self.pending_writes@;
                self.pending_writes.push((k, v));
                assert(pair_views(self.pending_writes@) =~= pair_views(prev).push((k@, v@)));
                assert(pair_views(entries@).take(j + 1) =~= pair_views(entries@).take(j as int).push(
                    (k@, v@),
                ));
                j = j + 1;
            }
            assert(pair_views(entries@).take(entries@.len() as int) =~= pair_views(entries@));
            Ok(())
        } else {
            write_all(&self.env, self.db, &entries)
        }
    }

    /// The value stored under the tagged key made of `prefix` and `key`, if
    /// any.
    pub fn read(&self, prefix: &str, key: &[u8]) -> (r: Result<Option<Vec<u8>>, DBError>)
        ensures
            r matches Err(e) ==> lmdb_error_about(
                e,
                "db"@,
                Some(typed_key_bytes(prefix@, key@)),
            ),
            r is Ok ==> exists|l: Lookup|
                self.found(typed_key_bytes(prefix@, key@), l) && #[trigger] lookup_gives(
                    l,
                    typed_key_bytes(prefix@, key@),
                    r,
                ),
    {
        let db_name = "db";
        let k = key_bytes(prefix, key);
        let txn = match env_begin_ro_txn(&self.env) {
            Ok(t) => t,
            Err(e) => {
                return Err(DBError::lmdb(e, Some(db_name), Some(k.as_slice())));
            },
        };
        let l = ro_txn_get(&txn, self.db, k.as_slice());
        let ghost lg = l;
        let r = lookup_outcome(l, k.as_slice());
        proof {
            assert(ro_txn_in(txn, self.env) && looked_up(txn, self.db, k@, lg));
            assert(self.found(k@, lg));
        }
        r
    }

    /// The stored pairs whose key starts with the value-type prefix, in the
    /// database's order: a cursor over the store's database is walked to its
    /// end, and the items with the prefix are kept.
    pub fn iter(&self, prefix: &str) -> (r: Result<Vec<(Vec<u8>, Vec<u8>)>, DBError>)
        ensures
            r matches Ok(v) ==> self.walked(string_value_bytes(prefix@), pair_views(v@)),
            r matches Ok(v) ==> forall|i: int|
                0 <= i < v@.len() ==> (#[trigger] v@[i]).0@.len() >= string_value_bytes(prefix@).len()
                    && v@[i].0@.subrange(0, string_value_bytes(prefix@).len() as int)
                    == string_value_bytes(prefix@),
            r matches Err(e) ==> lmdb_error_about(e, "db"@, None),
    {
        let db_name = "db";
        let mut ps = DataStream::new_empty();
        ps.stream_in_bytes(prefix.as_bytes());
        let prefix_bytes = ps.data;
        let txn = match env_begin_ro_txn(&self.env) {
            Ok(t) => t,
            Err(e) => {
                return Err(DBError::lmdb(e, Some(db_name), None));
            },
        };
        let mut cursor = match ro_txn_open_cursor(&txn, self.db) {
            Ok(c) => c,
            Err(e) => {
                return Err(DBError::lmdb(e, Some(db_name), None));
            },
        };
        let mut items: Vec<(Vec<u8>, Vec<u8>)> = Vec::new();
        proof {
            assert(pair_views(items@) =~= cursor_yielded(cursor));
        }
        loop
            invariant
                prefix_bytes@ == string_value_bytes(prefix@),
                ro_txn_in(txn, self.env),
                cursor_in(cursor, txn, self.db),
                pair_views(items@) == cursor_yielded(cursor),
                items@.len() <= usize::MAX,
            ensures
                prefix_bytes@ == string_value_bytes(prefix@),
                ro_txn_in(txn, self.env),
                cursor_in(cursor, txn, self.db),
                pair_views(items@) == cursor_yielded(cursor),
                cursor_done(cursor),
            decreases usize::MAX - items@.len(),
        {
            let ghost prev = items@;
            match cursor_next(&mut cursor) {
                CursorStep::End => {
                    break;
                },
                CursorStep::Item(k, v) => {
                    let key = match k {
                        Some(k) => k,
                        None => Vec::new(),
                    };
                    let ghost kv = (key@, v@);
                    items.push((key, v));
                    assert(pair_views(items@) =~= pair_views(prev).push(kv));
                    assert(items.len() == items@.len());
                },
            }
        }
        let ghost all = pair_views(items@);
        let ghost c = cursor;
        let ghost t = txn;
        let kept = keep_prefixed(items, prefix_bytes.as_slice());
        proof {
            lemma_prefixed_items_have_prefix(all, prefix_bytes@);
            assert(prefixed_items(all, string_value_bytes(prefix@)) == pair_views(kept@));
            assert(ro_txn_in(t, self.env) && cursor_in(c, t, self.db) && cursor_done(c)
                && prefixed_items(cursor_yielded(c), string_value_bytes(prefix@)) == pair_views(
                kept@,
            ));
            assert forall|i: int| 0 <= i < kept@.len() implies has_prefix(
                (#[trigger] kept@[i]).0@,
                string_value_bytes(prefix@),
            ) by {
                assert(pair_views(kept@)[i] == (kept@[i].0@, kept@[i].1@));
            }
        }
        Ok(kept)
    }

    /// Write the pending writes in one transaction, in manual mode; the
    /// pending writes are dropped whatever comes of it.
    pub fn commit(&mut self) -> (r: Result<(), DBError>)
        ensures
            final(self).is_manual() == old(self).is_manual(),
            commit_effect(old(self).is_manual(), old(self).pending(), final(self).pending(), r),
            old(self).is_manual() && old(self).pending().len() > 0 && r is Ok ==> old(self).wrote(
                old(self).pending(),
            ),
    {
        if !self.manual_mode {
            return Ok(());
        }
        let mut writes: Vec<(Vec<u8>, Vec<u8>)> = Vec::new();
        core::mem::swap(&mut writes, &mut self.pending_writes);
        assert(self.pending() =~= Seq::<(Seq<u8>, Seq<u8>)>::empty());
        if writes.len() == 0 {
            return Ok(());
        }
        write_all(&self.env, self.db, &writes)
    }
}

/// Whether `b` starts with `prefix`.
pub fn starts_with(b: &[u8], prefix: &[u8]) -> (r: bool)
    ensures
        r == (b@.len() >= prefix@.len() && b@.subrange(0, prefix@.len() as int) == prefix@),
{
    if b.len() < prefix.len() {
        return false;
    }
    let mut i: usize = 0;
    while i < prefix.len()
        invariant
            i <= prefix@.len() <= b@.len(),
            forall|j: int| 0 <= j < i ==> b@[j] == prefix@[j],
        decreases prefix@.len() - i,
    {
        if b[i] != prefix[i] {
            assert(b@.subrange(0, prefix@.len() as int)[i as int] != prefix@[i as int]);
            return false;
        }
        i = i + 1;
    }
    assert(b@.subrange(0, prefix@.len() as int) =~= prefix@);
    true
}

/// The database of peer addresses.
#[derive(Debug)]
pub struct AddressDB {
    wrapper: DBWrapper,
}

impl AddressDB {
    /// The writes waiting for `commit`.
    pub closed spec fn pending(&self) -> Seq<(Seq<u8>, Seq<u8>)> {
        self.wrapper.pending()
    }

    /// Whether writes wait for `commit`.
    pub closed spec fn is_manual(&self) -> bool {
        self.wrapper.is_manual()
    }

    /// See `DBWrapper::wrote`.
    pub closed spec fn wrote(&self, w: Seq<(Seq<u8>, Seq<u8>)>) -> bool {
        self.wrapper.wrote(w)
    }

    /// See `DBWrapper::walked`.
    pub closed spec fn walked(&self, p: Seq<u8>, kept: Seq<(Seq<u8>, Seq<u8>)>) -> bool {
        self.wrapper.walked(p, kept)
    }

    /// See `DBWrapper::found`.
    pub closed spec fn found(&self, key: Seq<u8>, l: Lookup) -> bool {
        self.wrapper.found(key, l)
    }

    /// The store's environment was opened at `path` with room for one named
    /// database and a map of `map_size` bytes, and its database is the
    /// address database there.
    pub closed spec fn opened_at(&self, path: Seq<char>, map_size: usize) -> bool {
        self.wrapper.opened_as(path, "address_db"@, map_size)
    }

    /// Open the address database in the environment at `path`.
    pub fn new(path: &str, manual_mode: bool, map_size: usize) -> (r: Result<Self, DBError>)
        ensures
            r matches Ok(w) ==> w.pending() == Seq::<(Seq<u8>, Seq<u8>)>::empty() && w.is_manual()
                == manual_mode && w.opened_at(path@, map_size),
            r matches Err(e) ==> lmdb_error_about(e, "address_db"@, None),
    {
        let name = "address_db";
        proof {
            reveal_strlit("address_db");
        }
        match DBWrapper::new(path, name, manual_mode, map_size) {
            Ok(w) => Ok(AddressDB { wrapper: w }),
            Err(e) => Err(e),
        }
    }

    /// See `DBWrapper::put`.
    pub fn put(&mut self, pairs: Vec<(TypedKey<Vec<u8>>, Vec<u8>)>) -> (r: Result<(), DBError>)
        ensures
            final(self).is_manual() == old(self).is_manual(),
            put_effect(old(self).is_manual(), old(self).pending(), final(self).pending(), pairs@, r),
            !old(self).is_manual() && r is Ok ==> old(self).wrote(entry_bytes(pairs@)),
    {
        self.wrapper.put(pairs)
    }

    /// See `DBWrapper::read`.
    pub fn read(&self, prefix: &str, key: &[u8]) -> (r: Result<Option<Vec<u8>>, DBError>)
        ensures
            r matches Err(e) ==> lmdb_error_about(
                e,
                "db"@,
                Some(typed_key_bytes(prefix@, key@)),
            ),
            r is Ok ==> exists|l: Lookup|
                self.found(typed_key_bytes(prefix@, key@), l) && #[trigger] lookup_gives(
                    l,
                    typed_key_bytes(prefix@, key@),
                    r,
                ),
    {
        self.wrapper.read(prefix, key)
    }

    /// See `DBWrapper::iter`.
    pub fn iter(&self, prefix: &str) -> (r: Result<Vec<(Vec<u8>, Vec<u8>)>, DBError>)
        ensures
            r matches Ok(v) ==> self.walked(string_value_bytes(prefix@), pair_views(v@)),
            r matches Ok(v) ==> forall|i: int|
                0 <= i < v@.len() ==> (#[trigger] v@[i]).0@.len() >= string_value_bytes(prefix@).len()
                    && v@[i].0@.subrange(0, string_value_bytes(prefix@).len() as int)
                    == string_value_bytes(prefix@),
            r matches Err(e) ==> lmdb_error_about(e, "db"@, None),
    {
        self.wrapper.iter(prefix)
    }

    /// See `DBWrapper::commit`.
    pub fn commit(&mut self) -> (r: Result<(), DBError>)
        ensures
            final(self).is_manual() == old(self).is_manual(),
            commit_effect(old(self).is_manual(), old(self).pending(), final(self).pending(), r),
            old(self).is_manual() && old(self).pending().len() > 0 && r is Ok ==> old(self).wrote(
                old(self).pending(),
            ),
    {
        self.wrapper.commit()
    }
}


/// The decimal digit character of `d`.
pub open spec fn digit_char(d: int) -> char {
    (48 + d) as char
}

/// The decimal form of a byte.
pub open spec fn decimal_u8(n: u8) -> Seq<char> {
    if n < 10 {
        seq![digit_char(n as int)]
    } else if n < 100 {
        seq![digit_char((n / 10) as int), digit_char((n % 10) as int)]
    } else {
        seq![digit_char((n / 100) as int), digit_char(((n / 10) % 10) as int), digit_char((n % 10) as int)]
    }
}

/// The decimal forms of bytes, separated by a comma and a space.
pub open spec fn join_decimal(b: Seq<u8>) -> Seq<char>
    decreases b.len(),
{
    if b.len() == 0 {
        Seq::empty()
    } else if b.len() == 1 {
        decimal_u8(b[0])
    } else {
        join_decimal(b.drop_last()) + seq![',', ' '] + decimal_u8(b.last())
    }
}

/// The debug form of a byte vector: its bytes in decimal, in brackets.
pub open spec fn debug_bytes(b: Seq<u8>) -> Seq<char> {
    seq!['['] + join_decimal(b) + seq![']']
}

/// What an error message adds about the database and the key.
pub open spec fn where_text(database: Option<Seq<char>>, key: Option<Seq<u8>>) -> Seq<char> {
    (match database {
        Some(d) => " in database '"@ + d + "'"@,
        None => Seq::empty(),
    }) + (match key {
        Some(k) => " for key "@ + debug_bytes(k),
        None => Seq::empty(),
    })
}

/// The one-character string of a decimal digit.
fn digit_str(d: u8) -> (s: &'static str)
    requires
        d < 10,
    ensures
        s@ == seq![digit_char(d as int)],
{
    proof {
        reveal_strlit("0");
        reveal_strlit("1");
        reveal_strlit("2");
        reveal_strlit("3");
        reveal_strlit("4");
        reveal_strlit("5");
        reveal_strlit("6");
        reveal_strlit("7");
        reveal_strlit("8");
        reveal_strlit("9");
    }
    let s = match d {
        0 => "0",
        1 => "1",
        2 => "2",
        3 => "3",
        4 => "4",
        5 => "5",
        6 => "6",
        7 => "7",
        8 => "8",
        _ => "9",
    };
    assert(s@ =~= seq![digit_char(d as int)]);
    s
}

/// Append the decimal form of a byte.
fn push_decimal(out: &mut String, n: u8)
    ensures
        final(out)@ == old(out)@ + decimal_u8(n),
{
    if n >= 100 {
        out.append(digit_str(n / 100));
    }
    if n >= 10 {
        out.append(digit_str((n / 10) % 10));
    }
    out.append(digit_str(n % 10));
    assert(out@ =~= old(out)@ + decimal_u8(n));
}

/// The debug form of a byte slice, as `{:?}` prints a `Vec<u8>`.
pub fn debug_bytes_text(b: &[u8]) -> (s: String)
    ensures
        s@ == debug_bytes(b@),
{
    let mut s = String::from_str("[");
    proof {
        reveal_strlit("[");
        reveal_strlit(", ");
        reveal_strlit("]");
    }
    let mut i: usize = 0;
    while i < b.len()
        invariant
            i <= b@.len(),
            s@ == seq!['['] + join_decimal(b@.take(i as int)),
            ", "@ == seq![',', ' '],
        decreases b@.len() - i,
    {
        let ghost prev = s@;
        if i > 0 {
            s.append(", ");
        }
        push_decimal(&mut s, b[i]);
        proof {
            let t = b@.take(i + 1);
            assert(t.drop_last() =~= b@.take(i as int));
            if i == 0 {
                assert(s@ =~= seq!['['] + join_decimal(t));
            } else {
                assert(s@ =~= seq!['['] + join_decimal(t));
            }
        }
        i = i + 1;
    }
    s.append("]");
    assert(b@.take(b@.len() as int) =~= b@);
    assert(s@ =~= debug_bytes(b@));
    s
}

/// An error's message, given the text of the underlying error.
pub open spec fn error_message(e: DBError, text: Seq<char>) -> Seq<char> {
    match e {
        DBError::Lmdb { database, key, .. } => "LMDB error: "@ + text + where_text(
            name_view(database),
            key_view(key),
        ),
        DBError::Io { database, key, .. } => "I/O error: "@ + text + where_text(
            name_view(database),
            key_view(key),
        ),
    }
}

impl DBError {
    /// The error's message: its kind and the underlying error's text, then
    /// the database and the key it concerned, where known.
    pub fn describe(&self) -> (m: String)
        ensures
            exists|text: Seq<char>| m@ == #[trigger] error_message(*self, text),
    {
        let text = match self {
            DBError::Lmdb { error, .. } => lmdb_error_text(error),
            DBError::Io { error, .. } => io_error_text(error),
        };
        self.message_with(text.as_str())
    }

    /// The error's message, with `text` as the underlying error's text.
    pub fn message_with(&self, text: &str) -> (m: String)
        ensures
            m@ == error_message(*self, text@),
    {
        let (mut m, database, key) = match self {
            DBError::Lmdb { database, key, .. } => (String::from_str("LMDB error: "), database, key),
            DBError::Io { database, key, .. } => (String::from_str("I/O error: "), database, key),
        };
        m.append(text);
        let ghost head = m@;
        if let Some(db) = database {
            m.append(" in database '");
            m.append(db.as_str());
            m.append("'");
        }
        if let Some(k) = key {
            m.append(" for key ");
            let d = debug_bytes_text(k.as_slice());
            m.append(d.as_str());
        }
        proof {
            assert(m@ =~= head + where_text(name_view(*database), key_view(*key)));
            assert(m@ =~= error_message(*self, text@));
        }
        m
    }
}

} // verus!
