//! The record cache: schema registry, record store, primary-key map, ID
//! allocator, secondary indexes and checkpoint store, kept consistent by every
//! write.
//!
//! The sub-stores are held in memory, one value per sub-database; mapping them
//! onto files is left to the application that embeds the cache. Every write
//! call is atomic: it either succeeds whole or leaves the cache as it was.
use vstd::prelude::*;
use vstd::utf8::{encode_utf8, encode_utf8_decode_utf8};

use crate::field::{encoding, field_wf, Field};
use crate::full_text::{distinct, lemma_distinct_no_repeats, lower_all, lowercase, no_repeats, tokenize, words};
use crate::index::{bytes_eq, keys_view, pairs_with, scan_composite_spec, scan_spec, IndexDatabase};
use crate::query::{
    apply_paging, filter_values_wf, order_follows_index, order_is_supported, page, query_values_wf,
    FilterExpression, Operator, QueryExpression, SimpleFilter,
};
use crate::storage::{NodeHandle, OpIdentifier};
use crate::types::{
    composite_key, get_primary_key, positions_in,
    record_matches_schema, values_wf, FieldDefinition, IndexDefinition, Record, RecordView, RecordWithId, Schema,
    SchemaIdentifier,
};

verus! {

broadcast use vstd::seq::group_seq_axioms;

#[derive(Clone, Debug)]
pub struct CacheCommonOptions {
    /// Total number of readers allowed.
    pub max_readers: u32,
    /// Maximum number of sub-databases.
    pub max_db_size: u32,
    /// The chunk size when intersecting the results of several index scans.
    pub intersection_chunk_size: usize,
    /// Directory and file name of the store; a temporary location if absent.
    pub path: Option<(String, String)>,
}

impl Default for CacheCommonOptions {
    fn default() -> (r: Self)
        ensures
            r.max_readers == 1000,
            r.max_db_size == 1000,
            r.intersection_chunk_size == 100,
            r.path is None,
    {
        CacheCommonOptions { max_readers: 1000, max_db_size: 1000, intersection_chunk_size: 100, path: None }
    }
}

#[derive(Clone, Debug)]
pub struct CacheWriteOptions {
    /// Bytes reserved for the memory map.
    pub max_size: u64,
}

impl Default for CacheWriteOptions {
    fn default() -> (r: Self)
        ensures
            r.max_size == 1024 * 1024 * 1024 * 1024,
    {
        CacheWriteOptions { max_size: 1024 * 1024 * 1024 * 1024 }
    }
}

#[derive(Clone, Debug, PartialEq, Eq)]
pub enum CacheError {
    PrimaryKeyNotFound,
    PrimaryKeyExists,
    /// No schema has this name.
    SchemaNotFound(String),
    SchemaIdentifierNotFound(SchemaIdentifier),
    SchemaHasNoIdentifier,
    /// Two schemas were given the same identifier.
    DuplicateSchemaIdentifier(SchemaIdentifier),
    IndexNotFound,
    OrderByNotSupported,
    /// Every record ID has been handed out.
    RecordIdsExhausted,
    /// The record's version cannot be incremented any more.
    VersionExhausted,
}

/// A registered schema with its name and secondary index definitions.
#[derive(Debug)]
pub struct SchemaEntry {
    pub name: String,
    pub schema: Schema,
    pub indexes: Vec<IndexDefinition>,
}

/// The sorted-inverted index `index` of schema `schema_id`.
#[derive(Debug)]
struct IndexSlot {
    schema_id: SchemaIdentifier,
    index: usize,
    fields: Vec<usize>,
    full_text: bool,
    n_fields: usize,
    schema_pos: usize,
    db: IndexDatabase,
}

pub const INITIAL_RECORD_VERSION: u32 = 1;

/// A writable record cache.
#[derive(Debug)]
pub struct LmdbRwCache {
    name: String,
    options: CacheCommonOptions,
    schemas: Vec<SchemaEntry>,
    records: Vec<(u64, Record)>,
    primary_index: Vec<(Vec<u8>, u64)>,
    last_id: u64,
    secondary: Vec<IndexSlot>,
    checkpoint: Vec<(NodeHandle, OpIdentifier)>,
}

pub open spec fn record_pair_view(e: (u64, Record)) -> (u64, RecordView) {
    (e.0, e.1@)
}

pub open spec fn pk_pair_view(e: (Vec<u8>, u64)) -> (Seq<u8>, u64) {
    (e.0@, e.1)
}

pub open spec fn checkpoint_pair_view(e: (NodeHandle, OpIdentifier)) -> (Seq<u8>, OpIdentifier) {
    (e.0.bytes@, e.1)
}

pub open spec fn checkpoint_entries_view(s: Seq<(NodeHandle, OpIdentifier)>) -> Seq<(Seq<u8>, OpIdentifier)> {
    s.map_values(|e: (NodeHandle, OpIdentifier)| checkpoint_pair_view(e))
}

/// The position of the entry keyed `k`, in a sequence with unique keys.
pub open spec fn position_of<K, V>(s: Seq<(K, V)>, k: K) -> Option<int> {
    if exists|i: int| 0 <= i < s.len() && #[trigger] s[i].0 == k {
        Some(choose|i: int| 0 <= i < s.len() && #[trigger] s[i].0 == k)
    } else {
        None
    }
}

pub open spec fn keys_unique<K, V>(s: Seq<(K, V)>) -> bool {
    forall|i: int, j: int| 0 <= i < j < s.len() ==> #[trigger] s[i].0 != #[trigger] s[j].0
}

/// What the record store maps `id` to.
pub open spec fn lookup<K, V>(s: Seq<(K, V)>, k: K) -> Option<V> {
    match position_of(s, k) {
        Some(i) => Some(s[i].1),
        None => None,
    }
}

impl LmdbRwCache {
    /// The record store: record ID and record, in insertion order.
    pub closed spec fn records_view(&self) -> Seq<(u64, RecordView)> {
        self.records@.map_values(|e: (u64, Record)| record_pair_view(e))
    }

    /// The primary-key map: encoded primary key and the record ID bound to it.
    pub closed spec fn primary_view(&self) -> Seq<(Seq<u8>, u64)> {
        self.primary_index@.map_values(|e: (Vec<u8>, u64)| pk_pair_view(e))
    }

    /// The last record ID handed out (none yet when zero).
    pub closed spec fn last_id_view(&self) -> u64 {
        self.last_id
    }

    /// The number of secondary index sub-databases.
    pub closed spec fn index_count_view(&self) -> nat {
        self.secondary@.len()
    }

    /// Which schema and index definition the `k`-th secondary index serves.
    pub closed spec fn index_owner_view(&self, k: int) -> (SchemaIdentifier, usize) {
        (self.secondary@[k].schema_id, self.secondary@[k].index)
    }

    /// The field positions that make up the keys of the `k`-th secondary index.
    pub closed spec fn index_fields_view(&self, k: int) -> Seq<usize> {
        self.secondary@[k].fields@
    }

    /// Whether the `k`-th secondary index is a full-text index.
    pub closed spec fn index_full_text_view(&self, k: int) -> bool {
        self.secondary@[k].full_text
    }

    /// Owner, key fields and kind of every secondary index, in order.
    pub open spec fn layout(&self) -> Seq<(SchemaIdentifier, usize, Seq<usize>, bool)> {
        Seq::new(self.index_count_view(), |k: int| (self.index_owner_view(k).0, self.index_owner_view(k).1,
            self.index_fields_view(k), self.index_full_text_view(k)))
    }

    /// The entries of the `k`-th secondary index, in key order.
    pub closed spec fn index_view(&self, k: int) -> Seq<(Seq<u8>, u64)> {
        self.secondary@[k].db@
    }

    /// The checkpoint store.
    pub closed spec fn checkpoint_view(&self) -> Seq<(Seq<u8>, OpIdentifier)> {
        checkpoint_entries_view(self.checkpoint@)
    }

    /// The file name of the cache.
    pub closed spec fn name_view(&self) -> Seq<char> {
        self.name@
    }

    /// The registered schemas.
    pub closed spec fn schemas_view(&self) -> Seq<Schema> {
        self.schemas@.map_values(|e: SchemaEntry| e.schema)
    }

    /// The index definitions registered with each schema.
    pub closed spec fn schema_indexes_view(&self) -> Seq<Seq<IndexDefinition>> {
        self.schemas@.map_values(|e: SchemaEntry| e.indexes@)
    }

    pub closed spec fn schema_names_view(&self) -> Seq<Seq<char>> {
        self.schemas@.map_values(|e: SchemaEntry| e.name@)
    }

    proof fn lemma_new_slot_counts(&self, before: LmdbRwCache)
        requires
            self.records_view().len() == 0,
            self.secondary@.len() == before.secondary@.len() + 1,
            forall|j: int| 0 <= j < before.secondary@.len() ==> #[trigger] self.secondary@[j] == before.secondary@[j],
            self.secondary@.last().db@.len() == 0,
            before.records@ == self.records@,
            forall|k: int, p: (Seq<u8>, u64)| 0 <= k < before.index_count_view() ==> #[trigger] before.index_view(k).to_multiset().count(p)
                == expected_count(before.records_view(), before.index_owner_view(k).0, before.index_full_text_view(k), before.index_fields_view(k), p),
        ensures
            forall|k: int, p: (Seq<u8>, u64)| 0 <= k < self.index_count_view() ==> #[trigger] self.index_view(k).to_multiset().count(p)
                == expected_count(self.records_view(), self.index_owner_view(k).0, self.index_full_text_view(k), self.index_fields_view(k), p),
    {
        assert forall|k: int, p: (Seq<u8>, u64)| 0 <= k < self.index_count_view() implies #[trigger] self.index_view(k).to_multiset().count(p)
            == expected_count(self.records_view(), self.index_owner_view(k).0, self.index_full_text_view(k), self.index_fields_view(k), p) by {
            assert(expected_count(self.records_view(), self.index_owner_view(k).0, self.index_full_text_view(k), self.index_fields_view(k), p) == 0);
            if k < before.index_count_view() {
                assert(self.secondary@[k] == before.secondary@[k]);
                assert(before.records_view() =~= self.records_view());
                assert(before.index_view(k) == self.index_view(k));
                assert(before.index_view(k).to_multiset().count(p) == expected_count(before.records_view(),
                    before.index_owner_view(k).0, before.index_full_text_view(k), before.index_fields_view(k), p));
            } else {
                assert(self.index_view(k) == self.secondary@.last().db@);
                vstd::seq_lib::to_multiset_contains(self.index_view(k), p);
            }
        }
    }

    /// What the consistency of the cache gives its callers: record IDs,
    /// primary keys, checkpoint handles and schema identifiers are unique,
    /// no ID exceeds the last one handed out, every record has a version of at least one,
    /// the primary key of every record maps to the record's own ID, and each
    /// secondary index holds exactly the pairs of the live records of its
    /// schema, once each.
    pub proof fn lemma_wf_facts(&self)
        requires
            self.wf(),
        ensures
            keys_unique(self.records_view()),
            keys_unique(self.primary_view()),
            keys_unique(self.checkpoint_view()),
            forall|i: int| 0 <= i < self.records_view().len() ==>
                (#[trigger] self.records_view()[i]).0 <= self.last_id_view() && self.records_view()[i].1.version.unwrap_or(0) >= 1,
            forall|i: int| 0 <= i < self.primary_view().len() ==> (#[trigger] self.primary_view()[i]).1 <= self.last_id_view(),
            forall|i: int| 0 <= i < self.records_view().len() ==> record_key_bound(self, #[trigger] self.records_view()[i]),
            forall|k: int, p: (Seq<u8>, u64)| 0 <= k < self.index_count_view() ==> #[trigger] self.index_view(k).to_multiset().count(p)
                == expected_count(self.records_view(), self.index_owner_view(k).0, self.index_full_text_view(k), self.index_fields_view(k), p),
            forall|i: int| 0 <= i < self.schemas_view().len() ==> (#[trigger] self.schemas_view()[i]).identifier is Some,
            forall|i: int, j: int| 0 <= i < j < self.schemas_view().len() ==>
                (#[trigger] self.schemas_view()[i]).identifier != (#[trigger] self.schemas_view()[j]).identifier,
    {
        assert forall|i: int| 0 <= i < self.records_view().len() implies
            (#[trigger] self.records_view()[i]).0 <= self.last_id_view() && self.records_view()[i].1.version.unwrap_or(0) >= 1 by {
            assert(self.records_view()[i] == record_pair_view(self.records@[i]));
        }
        assert forall|i: int| 0 <= i < self.primary_view().len() implies (#[trigger] self.primary_view()[i]).1 <= self.last_id_view() by {
            assert(self.primary_view()[i] == pk_pair_view(self.primary_index@[i]));
        }
        assert forall|i: int| 0 <= i < self.schemas_view().len() implies (#[trigger] self.schemas_view()[i]).identifier is Some by {
            assert(self.schemas_view()[i] == self.schemas@[i].schema);
        }
        assert forall|i: int, j: int| 0 <= i < j < self.schemas_view().len() implies
            (#[trigger] self.schemas_view()[i]).identifier != (#[trigger] self.schemas_view()[j]).identifier by {
            assert(self.schemas_view()[i] == self.schemas@[i].schema);
            assert(self.schemas_view()[j] == self.schemas@[j].schema);
        }
    }

    /// The consistency of each secondary index on its own.
    closed spec fn slots_wf(&self) -> bool {
        forall|k: int| 0 <= k < self.secondary@.len() ==> {
            &&& (#[trigger] self.secondary@[k]).db.wf()
            &&& positions_in(self.secondary@[k].fields@, self.secondary@[k].n_fields as int)
            &&& (self.secondary@[k].full_text ==> self.secondary@[k].fields@.len() == 1)
        }
    }

    /// The consistency of the cache's sub-stores.
    pub closed spec fn wf(&self) -> bool {
        &&& forall|i: int| 0 <= i < self.schemas@.len() ==> (#[trigger] self.schemas@[i]).schema.identifier is Some
        &&& forall|i: int, j: int| 0 <= i < j < self.schemas@.len() ==>
            (#[trigger] self.schemas@[i]).schema.identifier != (#[trigger] self.schemas@[j]).schema.identifier
        &&& forall|i: int| 0 <= i < self.schemas@.len() ==> positions_in(
            (#[trigger] self.schemas@[i]).schema.primary_index@, self.schemas@[i].schema.fields@.len() as int)
        &&& forall|k: int| 0 <= k < self.secondary@.len() ==> {
            &&& (#[trigger] self.secondary@[k]).db.wf()
            &&& positions_in(self.secondary@[k].fields@, self.secondary@[k].n_fields as int)
            &&& (self.secondary@[k].full_text ==> self.secondary@[k].fields@.len() == 1)
            &&& self.secondary@[k].schema_pos < self.schemas@.len()
            &&& self.schemas@[self.secondary@[k].schema_pos as int].schema.identifier == Some(self.secondary@[k].schema_id)
            &&& forall|i: int| 0 <= i < self.schemas@.len()
                && (#[trigger] self.schemas@[i]).schema.identifier == Some(self.secondary@[k].schema_id)
                ==> self.schemas@[i].schema.fields@.len() == self.secondary@[k].n_fields
        }
        &&& keys_unique(self.records_view())
        &&& keys_unique(self.primary_view())
        &&& forall|i: int| 0 <= i < self.records@.len() ==> (#[trigger] self.records@[i]).0 <= self.last_id
        &&& forall|i: int| 0 <= i < self.primary_index@.len() ==> (#[trigger] self.primary_index@[i]).1 <= self.last_id
        &&& forall|i: int| 0 <= i < self.records@.len() ==> {
            &&& values_wf((#[trigger] self.records@[i]).1@.values)
            &&& self.records@[i].1.version.unwrap_or(0) >= 1
            &&& forall|k: int| 0 <= k < self.secondary@.len()
                && Some((#[trigger] self.secondary@[k]).schema_id) == self.records@[i].1.schema_id
                ==> self.secondary@[k].n_fields == self.records@[i].1.values@.len()
        }
        &&& keys_unique(self.checkpoint_view())
        &&& forall|i: int| 0 <= i < self.records_view().len() ==> record_key_bound(self, #[trigger] self.records_view()[i])
        &&& forall|k: int, p: (Seq<u8>, u64)| 0 <= k < self.index_count_view() ==> #[trigger] self.index_view(k).to_multiset().count(p)
            == expected_count(self.records_view(), self.index_owner_view(k).0, self.index_full_text_view(k), self.index_fields_view(k), p)
    }
}

proof fn lemma_position_of_unique<K, V>(s: Seq<(K, V)>, i: int)
    requires
        keys_unique(s),
        0 <= i < s.len(),
    ensures
        position_of(s, s[i].0) == Some(i),
{
    let j = choose|j: int| 0 <= j < s.len() && #[trigger] s[j].0 == s[i].0;
    if j != i {
        if j < i {
            assert(s[j].0 != s[i].0);
        } else {
            assert(s[i].0 != s[j].0);
        }
    }
}

fn key_eq(a: &Vec<u8>, b: &[u8]) -> (r: bool)
    ensures
        r == (a@ == b@),
{
    bytes_eq(a.as_slice(), b)
}

impl LmdbRwCache {
    fn find_schema_by_id(&self, sid: SchemaIdentifier) -> (r: Option<usize>)
        ensures
            match r {
                Some(i) => i < self.schemas@.len() && self.schemas@[i as int].schema.identifier == Some(sid),
                None => forall|i: int| 0 <= i < self.schemas@.len() ==>
                    (#[trigger] self.schemas@[i]).schema.identifier != Some(sid),
            },
    {
        let mut i: usize = 0;
        while i < self.schemas.len()
            invariant
                i <= self.schemas@.len(),
                forall|j: int| 0 <= j < i ==> (#[trigger] self.schemas@[j]).schema.identifier != Some(sid),
            decreases self.schemas@.len() - i,
        {
            if self.schemas[i].schema.identifier == Some(sid) {
                return Some(i);
            }
            i = i + 1;
        }
        None
    }

    /// The record ID bound to the primary key `key`, if any.
    fn primary_lookup(&self, key: &[u8]) -> (r: Option<u64>)
        requires
            self.wf(),
        ensures
            r == lookup(self.primary_view(), key@),
    {
        let ghost s = self.primary_view();
        let mut i: usize = 0;
        while i < self.primary_index.len()
            invariant
                self.wf(),
                s == self.primary_view(),
                i <= s.len(),
                self.primary_index@.len() == s.len(),
                forall|j: int| 0 <= j < i ==> (#[trigger] s[j]).0 != key@,
            decreases s.len() - i,
        {
            assert(s[i as int] == pk_pair_view(self.primary_index@[i as int]));
            if key_eq(&self.primary_index[i].0, key) {
                proof { lemma_position_of_unique(s, i as int); }
                return Some(self.primary_index[i].1);
            }
            i = i + 1;
        }
        None
    }

    /// Where the record with ID `id` stands in the record store, if it is there.
    fn record_position(&self, id: u64) -> (r: Option<usize>)
        requires
            self.wf(),
        ensures
            match r {
                Some(i) => position_of(self.records_view(), id) == Some(i as int),
                None => position_of(self.records_view(), id) is None,
            },
    {
        let ghost s = self.records_view();
        let mut i: usize = 0;
        while i < self.records.len()
            invariant
                self.wf(),
                s == self.records_view(),
                i <= s.len(),
                self.records@.len() == s.len(),
                forall|j: int| 0 <= j < i ==> (#[trigger] s[j]).0 != id,
            decreases s.len() - i,
        {
            assert(s[i as int] == record_pair_view(self.records@[i as int]));
            if self.records[i].0 == id {
                proof { lemma_position_of_unique(s, i as int); }
                return Some(i);
            }
            i = i + 1;
        }
        None
    }

    /// An empty cache.
    pub fn open(common_options: CacheCommonOptions, write_options: CacheWriteOptions) -> (r: Result<Self, CacheError>)
        ensures
            r matches Ok(c) && c.wf() && c.records_view().len() == 0 && c.primary_view().len() == 0
                && c.last_id_view() == 0 && c.index_count_view() == 0 && c.checkpoint_view().len() == 0
                && c.schemas_view().len() == 0
                && c.name_view() == match common_options.path { Some(p) => p.1@, None => Seq::<char>::empty() },
    {
        let name = match &common_options.path {
            Some(p) => p.1.clone(),
            None => String::new(),
        };
        let c = LmdbRwCache {
            name,
            options: common_options,
            schemas: Vec::new(),
            records: Vec::new(),
            primary_index: Vec::new(),
            last_id: 0,
            secondary: Vec::new(),
            checkpoint: Vec::new(),
        };
        assert(c.records_view() =~= Seq::<(u64, RecordView)>::empty());
        assert(c.primary_view() =~= Seq::<(Seq<u8>, u64)>::empty());
        assert(c.checkpoint_view() =~= Seq::<(Seq<u8>, OpIdentifier)>::empty());
        assert(c.schemas_view() =~= Seq::<Schema>::empty());
        Ok(c)
    }

    /// Registers a schema with its secondary indexes, before any record is
    /// inserted.
    fn insert_schema(&mut self, schema_name: String, schema: Schema, secondary_indexes: Vec<IndexDefinition>) -> (r: Result<(), CacheError>)
        requires
            old(self).wf(),
            old(self).records_view().len() == 0,
            schema_valid(schema, secondary_indexes@),
        ensures
            final(self).wf(),
            final(self).records_view().len() == 0,
            final(self).primary_view() == old(self).primary_view(),
            final(self).last_id_view() == old(self).last_id_view(),
            final(self).checkpoint_view() == old(self).checkpoint_view(),
            r is Err ==> *final(self) == *old(self),
            r is Ok ==> final(self).schema_names_view() == old(self).schema_names_view().push(schema_name@)
                && final(self).schema_indexes_view() == old(self).schema_indexes_view().push(secondary_indexes@)
                && final(self).layout() == old(self).layout() + slots_of(schema.identifier->0, secondary_indexes@)
                && (forall|k: int| 0 <= k < old(self).index_count_view() ==> #[trigger] final(self).index_view(k) == old(self).index_view(k))
                && (forall|k: int| old(self).index_count_view() <= k < final(self).index_count_view() ==> (#[trigger] final(self).index_view(k)).len() == 0),
            match r {
                Ok(()) => schema.identifier is Some
                    && (forall|i: int| 0 <= i < old(self).schemas_view().len()
                        ==> (#[trigger] old(self).schemas_view()[i]).identifier != schema.identifier)
                    && final(self).schemas_view() == old(self).schemas_view().push(schema),
                Err(CacheError::SchemaHasNoIdentifier) => schema.identifier is None
                    && final(self).schemas_view() == old(self).schemas_view(),
                Err(CacheError::DuplicateSchemaIdentifier(sid)) => schema.identifier == Some(sid)
                    && (exists|i: int| 0 <= i < old(self).schemas_view().len()
                        && (#[trigger] old(self).schemas_view()[i]).identifier == Some(sid))
                    && final(self).schemas_view() == old(self).schemas_view(),
                Err(_) => false,
            },
    {
        let sid = match schema.identifier {
            Some(sid) => sid,
            None => return Err(CacheError::SchemaHasNoIdentifier),
        };
        match self.find_schema_by_id(sid) {
            Some(i) => {
                assert(self.schemas_view()[i as int].identifier == Some(sid));
                return Err(CacheError::DuplicateSchemaIdentifier(sid));
            },
            None => {},
        }
        let n_fields = schema.fields.len();
        let pos = self.schemas.len();
        let ghost before = self.schemas_view();
        assert forall|j: int| 0 <= j < self.secondary@.len() implies (#[trigger] self.secondary@[j]).schema_id != sid by {
            assert(self.schemas@[self.secondary@[j].schema_pos as int].schema.identifier == Some(self.secondary@[j].schema_id));
        }
        self.schemas.push(SchemaEntry { name: schema_name, schema, indexes: secondary_indexes });
        assert(self.schemas_view() =~= before.push(schema));
        let ghost entries = self.schemas@;
        assert forall|k: int, p: (Seq<u8>, u64)| 0 <= k < self.index_count_view() implies
            #[trigger] self.index_view(k).to_multiset().count(p) == expected_count(self.records_view(),
                self.index_owner_view(k).0, self.index_full_text_view(k), self.index_fields_view(k), p) by {
            assert(self.index_view(k) == old(self).index_view(k));
            assert(self.records_view() =~= old(self).records_view());
        }
        assert(self.schema_indexes_view() =~= old(self).schema_indexes_view().push(entries[pos as int].indexes@));
        assert(self.schema_names_view() =~= old(self).schema_names_view().push(entries[pos as int].name@));
        let mut k: usize = 0;
        while k < self.schemas[pos].indexes.len()
            invariant
                self.wf(),
                self.records_view().len() == 0,
                self.schemas@ == entries,
                pos < entries.len(),
                entries[pos as int].schema == schema,
                self.primary_view() == old(self).primary_view(),
                self.last_id == old(self).last_id,
                self.checkpoint_view() == old(self).checkpoint_view(),
                k <= entries[pos as int].indexes@.len(),
                n_fields == schema.fields@.len(),
                schema.identifier == Some(sid),
                schema_valid(schema, entries[pos as int].indexes@),
                self.secondary@.len() == old(self).secondary@.len() + k,
                forall|j: int| 0 <= j < old(self).secondary@.len() ==> #[trigger] self.secondary@[j] == old(self).secondary@[j],
                forall|j: int| old(self).secondary@.len() <= j < self.secondary@.len() ==> {
                    &&& (#[trigger] self.secondary@[j]).schema_id == sid
                    &&& self.secondary@[j].index == j - old(self).secondary@.len()
                    &&& self.secondary@[j].fields@ == def_fields(entries[pos as int].indexes@[j - old(self).secondary@.len()])
                    &&& self.secondary@[j].full_text == (entries[pos as int].indexes@[j - old(self).secondary@.len()] is FullText)
                    &&& self.secondary@[j].db@.len() == 0
                },
            decreases entries[pos as int].indexes@.len() - k,
        {
            match &self.schemas[pos].indexes[k] {
                IndexDefinition::SortedInverted(fields) => {
                    assert(positions_in(fields@, n_fields as int));
                    let slot = IndexSlot {
                        schema_id: sid,
                        index: k,
                        fields: copy_positions(fields),
                        full_text: false,
                        n_fields,
                        schema_pos: pos,
                        db: IndexDatabase::new(),
                    };
                    let ghost before = *self;
                    self.secondary.push(slot);
                    proof { self.lemma_new_slot_counts(before); }
                },
                IndexDefinition::FullText(f) => {
                    let slot = IndexSlot {
                        schema_id: sid,
                        index: k,
                        fields: vec![*f],
                        full_text: true,
                        n_fields,
                        schema_pos: pos,
                        db: IndexDatabase::new(),
                    };
                    assert(positions_in(slot.fields@, n_fields as int));
                    let ghost before = *self;
                    self.secondary.push(slot);
                    proof { self.lemma_new_slot_counts(before); }
                },
            }
            k = k + 1;
        }
        assert(self.records_view() =~= Seq::<(u64, RecordView)>::empty());
        Ok(())
    }

    /// A cache holding the given schemas and no records.
    pub fn create(
        schemas: Vec<(String, Schema, Vec<IndexDefinition>)>,
        common_options: CacheCommonOptions,
        write_options: CacheWriteOptions,
    ) -> (r: Result<Self, CacheError>)
        requires
            forall|i: int| 0 <= i < schemas@.len() ==> schema_valid((#[trigger] schemas@[i]).1, schemas@[i].2@),
        ensures
            r matches Ok(c) ==> c.wf() && c.records_view().len() == 0 && c.primary_view().len() == 0
                && c.last_id_view() == 0 && c.checkpoint_view().len() == 0
                && c.schemas_view() == schemas@.map_values(|e: (String, Schema, Vec<IndexDefinition>)| e.1)
                && c.schema_names_view() == entry_names(schemas@)
                && c.schema_indexes_view() == schemas@.map_values(|e: (String, Schema, Vec<IndexDefinition>)| e.2@)
                && c.layout() == all_slots(schemas@)
                && (forall|k: int| 0 <= k < c.index_count_view() ==> (#[trigger] c.index_view(k)).len() == 0),
            r is Ok <==> forall|j: int| 0 <= j < schemas@.len() ==> registrable(schemas@, j),
            r matches Err(e) ==> exists|n: int| 0 <= n < schemas@.len()
                && (forall|j: int| 0 <= j < n ==> registrable(schemas@, j))
                && !registrable(schemas@, n)
                && e == registration_error(#[trigger] schemas@[n].1.identifier),
    {
        let mut cache = match Self::open(common_options, write_options) {
            Ok(c) => c,
            Err(e) => return Err(e),
        };
        let mut remaining = schemas;
        let ghost all = remaining@;
        let total = remaining.len();
        let ghost all_schemas = all.map_values(|e: (String, Schema, Vec<IndexDefinition>)| e.1);
        let mut n: usize = 0;
        while remaining.len() > 0
            invariant
                cache.wf(),
                cache.records_view().len() == 0,
                cache.primary_view().len() == 0,
                cache.last_id_view() == 0,
                cache.checkpoint_view().len() == 0,
                n + remaining@.len() == all.len(),
                all == schemas@,
                forall|j: int| 0 <= j < n ==> registrable(all, j),
                total == all.len(),
                remaining@ == all.subrange(n as int, all.len() as int),
                cache.schemas_view() == all_schemas.subrange(0, n as int),
                all_schemas == all.map_values(|e: (String, Schema, Vec<IndexDefinition>)| e.1),
                cache.schema_names_view() == entry_names(all.subrange(0, n as int)),
                cache.schema_indexes_view() == all.subrange(0, n as int).map_values(|e: (String, Schema, Vec<IndexDefinition>)| e.2@),
                cache.layout() == all_slots(all.subrange(0, n as int)),
                forall|k: int| 0 <= k < cache.index_count_view() ==> (#[trigger] cache.index_view(k)).len() == 0,
                forall|i: int| 0 <= i < all.len() ==> schema_valid((#[trigger] all[i]).1, all[i].2@),
            decreases remaining@.len(),
        {
            let (name, schema, indexes) = remaining.remove(0);
            assert(all[n as int].1 == schema);
            let ghost old_view = cache.schemas_view();
            match cache.insert_schema(name, schema, indexes) {
                Ok(()) => {},
                Err(e) => {
                    proof {
                        if schema.identifier is Some {
                            let j = choose|j: int| 0 <= j < cache.schemas_view().len()
                                && (#[trigger] cache.schemas_view()[j]).identifier == schema.identifier;
                            assert(cache.schemas_view()[j] == all_schemas[j]);
                            assert(all_schemas[j] == all[j].1);
                            assert(all[j].1.identifier == all[n as int].1.identifier);
                            assert(exists|j2: int| 0 <= j2 < n && (#[trigger] all[j2]).1.identifier == all[n as int].1.identifier);
                        }
                        assert(all[n as int].1.identifier is None || exists|j2: int| 0 <= j2 < n
                            && (#[trigger] all[j2]).1.identifier == all[n as int].1.identifier);
                        assert(!registrable(all, n as int));
                        assert(e == registration_error(all[n as int].1.identifier));
                    }
                    return Err(e);
                },
            }
            proof {
                assert forall|i: int| 0 <= i < n implies (#[trigger] all[i]).1.identifier != all[n as int].1.identifier by {
                    assert(old_view[i] == all_schemas[i]);
                }
                assert(registrable(all, n as int));
            }
            assert(cache.schemas_view() =~= all_schemas.subrange(0, n + 1));
            assert(all.subrange(0, n + 1).drop_last() =~= all.subrange(0, n as int));
            assert(entry_names(all.subrange(0, n + 1)) =~= entry_names(all.subrange(0, n as int)).push(all[n as int].0@));
            assert(all.subrange(0, n + 1).map_values(|e: (String, Schema, Vec<IndexDefinition>)| e.2@)
                =~= all.subrange(0, n as int).map_values(|e: (String, Schema, Vec<IndexDefinition>)| e.2@).push(all[n as int].2@));
            n = n + 1;
        }
        assert(all_schemas.subrange(0, n as int) =~= all_schemas);
        assert(all.subrange(0, n as int) =~= all);
        Ok(cache)
    }

    /// The file name of the cache.
    pub fn name(&self) -> (r: &str)
        ensures
            r@ == self.name_view(),
    {
        self.name.as_str()
    }

    /// The record stored under the primary key `key`.
    pub fn get(&self, key: &[u8]) -> (r: Result<RecordWithId, CacheError>)
        requires
            self.wf(),
        ensures
            match lookup(self.primary_view(), key@) {
                Some(id) => match lookup(self.records_view(), id) {
                    Some(rec) => r matches Ok(rw) && rw.id == id && rw.record@ == rec,
                    None => r == Err::<RecordWithId, CacheError>(CacheError::PrimaryKeyNotFound),
                },
                None => r == Err::<RecordWithId, CacheError>(CacheError::PrimaryKeyNotFound),
            },
    {
        let id = match self.primary_lookup(key) {
            Some(id) => id,
            None => return Err(CacheError::PrimaryKeyNotFound),
        };
        match self.record_position(id) {
            Some(i) => {
                let record = self.records[i].1.duplicate();
                assert(self.records_view()[i as int] == record_pair_view(self.records@[i as int]));
                Ok(RecordWithId { id, record })
            },
            None => Err(CacheError::PrimaryKeyNotFound),
        }
    }

    /// The schema registered under `schema_identifier`.
    pub fn get_schema(&self, schema_identifier: SchemaIdentifier) -> (r: Result<&Schema, CacheError>)
        requires
            self.wf(),
        ensures
            match schema_for(self, schema_identifier) {
                Some(schema) => r matches Ok(s) && *s == schema,
                None => r matches Err(e) && e == CacheError::SchemaIdentifierNotFound(schema_identifier),
            },
    {
        match self.find_schema_by_id(schema_identifier) {
            Some(i) => {
                proof { self.lemma_schema_for(i as int); }
                assert(self.schemas_view()[i as int] == self.schemas@[i as int].schema);
                Ok(&self.schemas[i].schema)
            },
            None => {
                proof { self.lemma_schema_for_none(schema_identifier); }
                Err(CacheError::SchemaIdentifierNotFound(schema_identifier))
            },
        }
    }

    /// The first schema registered under `name`, with its secondary indexes.
    pub fn get_schema_and_indexes_by_name(&self, name: &str) -> (r: Result<(&Schema, &Vec<IndexDefinition>), CacheError>)
        ensures
            match name_position_from(self.schema_names_view(), name@, 0) {
                Some(i) => r matches Ok((s, ix)) && *s == self.schemas_view()[i] && ix@ == self.schema_indexes_view()[i],
                None => r matches Err(CacheError::SchemaNotFound(n)) && n@ == name@,
            },
    {
        match self.find_schema_position(name) {
            Some(i) => {
                assert(self.schemas_view()[i as int] == self.schemas@[i as int].schema);
                assert(self.schema_indexes_view()[i as int] == self.schemas@[i as int].indexes@);
                Ok((&self.schemas[i].schema, &self.schemas[i].indexes))
            },
            None => Err(CacheError::SchemaNotFound(name.to_owned())),
        }
    }
}

/// The key fields of an index definition.
pub open spec fn def_fields(d: IndexDefinition) -> Seq<usize> {
    match d {
        IndexDefinition::SortedInverted(f) => f@,
        IndexDefinition::FullText(f) => seq![f],
    }
}

/// The index sub-stores that registering schema `sid` with `defs` adds: owner
/// schema, position of the definition, key fields and whether it is full-text.
pub open spec fn slots_of(sid: SchemaIdentifier, defs: Seq<IndexDefinition>) -> Seq<(SchemaIdentifier, usize, Seq<usize>, bool)> {
    Seq::new(defs.len(), |j: int| (sid, j as usize, def_fields(defs[j]), defs[j] is FullText))
}

/// The index sub-stores that registering `entries` in order creates.
pub open spec fn all_slots(entries: Seq<(String, Schema, Vec<IndexDefinition>)>) -> Seq<(SchemaIdentifier, usize, Seq<usize>, bool)>
    decreases entries.len(),
{
    if entries.len() == 0 {
        seq![]
    } else {
        all_slots(entries.drop_last()) + slots_of(entries.last().1.identifier->0, entries.last().2@)
    }
}

pub open spec fn entry_names(entries: Seq<(String, Schema, Vec<IndexDefinition>)>) -> Seq<Seq<char>> {
    entries.map_values(|e: (String, Schema, Vec<IndexDefinition>)| e.0@)
}

/// Whether the `j`-th schema of `entries` has an identifier that no earlier
/// one has.
pub open spec fn registrable(entries: Seq<(String, Schema, Vec<IndexDefinition>)>, j: int) -> bool {
    entries[j].1.identifier is Some
        && forall|i: int| 0 <= i < j ==> (#[trigger] entries[i]).1.identifier != entries[j].1.identifier
}

/// The error for a schema that cannot be registered.
pub open spec fn registration_error(id: Option<SchemaIdentifier>) -> CacheError {
    match id {
        None => CacheError::SchemaHasNoIdentifier,
        Some(sid) => CacheError::DuplicateSchemaIdentifier(sid),
    }
}

/// Whether every field position that the schema and its indexes name exists.
pub open spec fn schema_valid(schema: Schema, indexes: Seq<IndexDefinition>) -> bool {
    &&& positions_in(schema.primary_index@, schema.fields@.len() as int)
    &&& forall|k: int| 0 <= k < indexes.len() ==> match #[trigger] indexes[k] {
        IndexDefinition::SortedInverted(fields) => positions_in(fields@, schema.fields@.len() as int),
        IndexDefinition::FullText(f) => f < schema.fields@.len(),
    }
}

fn copy_positions(v: &Vec<usize>) -> (r: Vec<usize>)
    ensures
        r@ == v@,
{
    let mut out: Vec<usize> = Vec::new();
    let mut i: usize = 0;
    while i < v.len()
        invariant
            i <= v@.len(),
            out@ == v@.subrange(0, i as int),
        decreases v@.len() - i,
    {
        out.push(v[i]);
        i = i + 1;
    }
    out
}

/// The index keys of a record with values `values` in a full-text index over
/// the field holding `v`: the distinct lowercased words of a text, else none.
pub open spec fn full_text_keys(v: crate::field::FieldView) -> Seq<Seq<u8>> {
    match v {
        crate::field::FieldView::String(s) => distinct(tokenize(encode_utf8(s))),
        crate::field::FieldView::Text(s) => distinct(tokenize(encode_utf8(s))),
        _ => seq![],
    }
}

/// The keys under which an index over `fields` lists a record with `values`.
pub open spec fn slot_keys(full_text: bool, fields: Seq<usize>, values: Seq<crate::field::FieldView>) -> Seq<Seq<u8>> {
    if full_text {
        full_text_keys(values[fields[0] as int])
    } else {
        seq![composite_key(fields, values)]
    }
}

spec fn slot_same_shape(a: IndexSlot, b: IndexSlot) -> bool {
    &&& b.schema_id == a.schema_id
    &&& b.index == a.index
    &&& b.fields@ == a.fields@
    &&& b.full_text == a.full_text
    &&& b.n_fields == a.n_fields
    &&& b.schema_pos == a.schema_pos
    &&& b.db.wf()
}

spec fn slot_inserted(a: IndexSlot, b: IndexSlot, values: Seq<crate::field::FieldView>, id: u64) -> bool {
    let ks = slot_keys(a.full_text, a.fields@, values);
    &&& slot_same_shape(a, b)
    &&& forall|p: (Seq<u8>, u64)| #[trigger] b.db@.to_multiset().count(p)
        == a.db@.to_multiset().count(p) + if pairs_with(ks, id).contains(p) { 1int } else { 0int }
    &&& b.db@.len() == a.db@.len() + ks.len()
    &&& forall|i: int| 0 <= i < ks.len() ==> b.db@.contains((#[trigger] ks[i], id))
}

spec fn slot_removed(a: IndexSlot, b: IndexSlot, values: Seq<crate::field::FieldView>, id: u64) -> bool {
    let ks = slot_keys(a.full_text, a.fields@, values);
    &&& slot_same_shape(a, b)
    &&& forall|p: (Seq<u8>, u64)| #[trigger] b.db@.to_multiset().count(p)
        == if pairs_with(ks, id).contains(p) && a.db@.to_multiset().count(p) > 0 {
            (a.db@.to_multiset().count(p) - 1) as nat
        } else {
            a.db@.to_multiset().count(p)
        }
    &&& (forall|i: int| 0 <= i < ks.len() ==> a.db@.contains((#[trigger] ks[i], id)))
        ==> b.db@.len() == a.db@.len() - ks.len()
}

/// The keys under which `slot` lists a record with `values`.
fn slot_key_list(slot: &IndexSlot, values: &Vec<Field>) -> (r: Vec<Vec<u8>>)
    requires
        positions_in(slot.fields@, values@.len() as int),
        slot.full_text ==> slot.fields@.len() == 1,
        values_wf(values@.map_values(|f: Field| f@)),
    ensures
        keys_view(r@) == slot_keys(slot.full_text, slot.fields@, values@.map_values(|f: Field| f@)),
        no_repeats(keys_view(r@)),
{
    let ghost vs = values@.map_values(|f: Field| f@);
    if slot.full_text {
        let p = slot.fields[0];
        let r = match &values[p] {
            Field::String(s) => words(s.as_str().as_bytes()),
            Field::Text(s) => words(s.as_str().as_bytes()),
            _ => Vec::new(),
        };
        proof {
            assert(vs[p as int] == values@[p as int]@);
            match vs[p as int] {
                crate::field::FieldView::String(t) => lemma_distinct_no_repeats(tokenize(encode_utf8(t))),
                crate::field::FieldView::Text(t) => lemma_distinct_no_repeats(tokenize(encode_utf8(t))),
                _ => assert(keys_view(r@) =~= Seq::<Seq<u8>>::empty()),
            }
        }
        r
    } else {
        let key = get_primary_key(&slot.fields, values);
        let r = vec![key];
        assert(keys_view(r@) =~= seq![composite_key(slot.fields@, vs)]);
        r
    }
}

/// The primary key of a record with values `values` under `schema`; empty when
/// the schema has no primary index.
pub open spec fn primary_key_of(schema: Schema, values: Seq<crate::field::FieldView>) -> Seq<u8> {
    composite_key(schema.primary_index@, values)
}

impl LmdbRwCache {
    /// Everything but the record store, the primary-key map, the ID counter and
    /// the secondary index entries is as in `old`.
    pub open spec fn same_layout(old: &LmdbRwCache, new: &LmdbRwCache) -> bool {
        &&& new.schemas_view() == old.schemas_view()
        &&& new.schema_names_view() == old.schema_names_view()
        &&& new.checkpoint_view() == old.checkpoint_view()
        &&& new.name_view() == old.name_view()
        &&& new.index_count_view() == old.index_count_view()
        &&& forall|k: int| 0 <= k < old.index_count_view() ==> #[trigger] new.index_owner_view(k) == old.index_owner_view(k)
            && new.index_fields_view(k) == old.index_fields_view(k)
            && new.index_full_text_view(k) == old.index_full_text_view(k)
    }

    /// The record ID that inserting a record with primary key `pk` under
    /// `schema` chooses: the one bound to the key, else the next fresh one.
    pub open spec fn chosen_id(&self, schema: Schema, pk: Seq<u8>) -> Option<u64> {
        if schema.primary_index@.len() > 0 && lookup(self.primary_view(), pk) is Some {
            lookup(self.primary_view(), pk)
        } else if self.last_id_view() < u64::MAX {
            Some((self.last_id_view() + 1) as u64)
        } else {
            None
        }
    }

    /// The effect of a successful insertion of `record`, under `schema`, with ID `id`.
    pub open spec fn insert_effect(old: &LmdbRwCache, new: &LmdbRwCache, schema: Schema, record: RecordView, id: u64) -> bool {
        let pk = primary_key_of(schema, record.values);
        &&& LmdbRwCache::same_layout(old, new)
        &&& old.chosen_id(schema, pk) == Some(id)
        &&& lookup(old.records_view(), id) is None
        &&& new.records_view() == old.records_view().push((id, record))
        &&& lookup(new.records_view(), id) == Some(record)
        &&& schema.primary_index@.len() > 0 ==> lookup(new.primary_view(), pk) == Some(id)
        &&& new.last_id_view() == if id > old.last_id_view() { id } else { old.last_id_view() }
        &&& if schema.primary_index@.len() == 0 || lookup(old.primary_view(), pk) is Some {
            new.primary_view() == old.primary_view()
        } else {
            new.primary_view() == old.primary_view().push((pk, id))
        }
        &&& forall|k: int| 0 <= k < old.index_count_view() ==> if Some(#[trigger] old.index_owner_view(k).0) == record.schema_id {
            let ks = slot_keys(old.index_full_text_view(k), old.index_fields_view(k), record.values);
            &&& forall|p: (Seq<u8>, u64)| #[trigger] new.index_view(k).to_multiset().count(p)
                == old.index_view(k).to_multiset().count(p) + if pairs_with(ks, id).contains(p) { 1int } else { 0int }
            &&& new.index_view(k).len() == old.index_view(k).len() + ks.len()
            &&& forall|i: int| 0 <= i < ks.len() ==> new.index_view(k).contains((#[trigger] ks[i], id))
        } else {
            new.index_view(k) == old.index_view(k)
        }
    }

    fn build_indexes(&mut self, record: &Record, sid: SchemaIdentifier, id: u64)
        requires
            old(self).slots_wf(),
            record.schema_id == Some(sid),
            values_wf(record@.values),
            forall|k: int| 0 <= k < old(self).secondary@.len() && (#[trigger] old(self).secondary@[k]).schema_id == sid
                ==> old(self).secondary@[k].n_fields == record.values@.len(),
        ensures
            final(self).schemas@ == old(self).schemas@,
            final(self).records@ == old(self).records@,
            final(self).primary_index@ == old(self).primary_index@,
            final(self).last_id == old(self).last_id,
            final(self).checkpoint@ == old(self).checkpoint@,
            final(self).name == old(self).name,
            final(self).secondary@.len() == old(self).secondary@.len(),
            forall|k: int| 0 <= k < old(self).secondary@.len() ==> if old(self).secondary@[k].schema_id == sid {
                slot_inserted(old(self).secondary@[k], #[trigger] final(self).secondary@[k], record@.values, id)
            } else {
                final(self).secondary@[k] == old(self).secondary@[k]
            },
    {
        let mut k: usize = 0;
        while k < self.secondary.len()
            invariant
                old(self).slots_wf(),
                record.schema_id == Some(sid),
                values_wf(record@.values),
                forall|k2: int| 0 <= k2 < old(self).secondary@.len() && (#[trigger] old(self).secondary@[k2]).schema_id == sid
                    ==> old(self).secondary@[k2].n_fields == record.values@.len(),
                self.schemas@ == old(self).schemas@,
                self.records@ == old(self).records@,
                self.primary_index@ == old(self).primary_index@,
                self.last_id == old(self).last_id,
                self.checkpoint@ == old(self).checkpoint@,
                self.name == old(self).name,
                self.secondary@.len() == old(self).secondary@.len(),
                k <= self.secondary@.len(),
                forall|j: int| k <= j < old(self).secondary@.len() ==> #[trigger] self.secondary@[j] == old(self).secondary@[j],
                forall|j: int| 0 <= j < k ==> if old(self).secondary@[j].schema_id == sid {
                    slot_inserted(old(self).secondary@[j], #[trigger] self.secondary@[j], record@.values, id)
                } else {
                    self.secondary@[j] == old(self).secondary@[j]
                },
            decreases self.secondary@.len() - k,
        {
            if self.secondary[k].schema_id == sid {
                let ghost before = self.secondary@;
                let mut slot = self.secondary.remove(k);
                assert(slot == old(self).secondary@[k as int]);
                let keys = slot_key_list(&slot, &record.values);
                slot.db.insert_keys(keys, id);
                self.secondary.insert(k, slot);
                assert forall|j: int| 0 <= j < self.secondary@.len() && j != k implies #[trigger] self.secondary@[j] == before[j] by {
                    assert(self.secondary@[j] == before[j]);
                }
            }
            k = k + 1;
        }
    }

    /// Stores `record` (whose schema is the `schema_pos`-th) and its index
    /// entries, under the ID bound to its primary key or a fresh one.
    fn insert_impl(&mut self, record: &Record, schema_pos: usize) -> (r: Result<u64, CacheError>)
        requires
            old(self).wf(),
            schema_pos < old(self).schemas_view().len(),
            record_matches_schema(old(self).schemas_view()[schema_pos as int], record@),
            values_wf(record@.values),
            record.version.unwrap_or(0) >= 1,
        ensures
            final(self).wf(),
            match r {
                Ok(id) => LmdbRwCache::insert_effect(&*old(self), &*final(self), old(self).schemas_view()[schema_pos as int], record@, id),
                Err(e) => *final(self) == *old(self) && insert_error(&*old(self), old(self).schemas_view()[schema_pos as int], record@, e),
            },
    {
        let ghost schema = self.schemas_view()[schema_pos as int];
        assert(schema == self.schemas@[schema_pos as int].schema);
        let sid = match self.schemas[schema_pos].schema.identifier {
            Some(sid) => sid,
            None => {
                assert(false);
                return Err(CacheError::SchemaHasNoIdentifier);
            },
        };
        let ghost pk_spec = primary_key_of(schema, record@.values);
        let ghost vals = record@.values;
        assert(vals =~= record.values@.map_values(|f: Field| f@));
        let pk_opt: Option<Vec<u8>> = if self.schemas[schema_pos].schema.primary_index.len() == 0 {
            None
        } else {
            Some(get_primary_key(&self.schemas[schema_pos].schema.primary_index, &record.values))
        };
        let bound: Option<u64> = match &pk_opt {
            Some(pk) => self.primary_lookup(pk.as_slice()),
            None => None,
        };
        let id: u64 = match bound {
            Some(id) => {
                if self.record_position(id).is_some() {
                    return Err(CacheError::PrimaryKeyExists);
                }
                id
            },
            None => {
                if self.last_id == u64::MAX {
                    return Err(CacheError::RecordIdsExhausted);
                }
                self.last_id + 1
            },
        };
        let ghost old_records = self.records_view();
        let ghost old_primary = self.primary_view();
        if bound.is_none() {
            self.last_id = id;
            match pk_opt {
                Some(pk) => {
                    self.primary_index.push((pk, id));
                    assert(self.primary_view() =~= old_primary.push((pk_spec, id)));
                },
                None => {},
            }
        }
        let stored = record.duplicate();
        self.records.push((id, stored));
        assert(self.records_view() =~= old_records.push((id, record@)));
        proof {
            assert forall|k: int| 0 <= k < self.secondary@.len() && (#[trigger] self.secondary@[k]).schema_id == sid
                implies self.secondary@[k].n_fields == record.values@.len() by {
                assert(self.schemas@[schema_pos as int].schema.identifier == Some(self.secondary@[k].schema_id));
            }
            assert forall|i: int, j: int| 0 <= i < j < self.primary_view().len()
                implies #[trigger] self.primary_view()[i].0 != #[trigger] self.primary_view()[j].0 by {
                if j == old_primary.len() && i < j {
                    assert(self.primary_view()[i] == old_primary[i]);
                    if old_primary[i].0 == pk_spec {
                        lemma_position_of_unique(old_primary, i);
                    }
                }
            }
            if bound.is_none() && pk_opt.is_some() {
                lemma_position_of_unique(self.primary_view(), old_primary.len() as int);
            }
            let n = self.records@.len() - 1;
            assert(self.records_view()[n] == (id, record@));
            old(self).lemma_schema_for(schema_pos as int);
            assert forall|i: int| 0 <= i < self.records_view().len() implies record_key_bound(self, #[trigger] self.records_view()[i]) by {
                if i < n {
                    assert(self.records_view()[i] == old_records[i]);
                    assert(record_key_bound(&*old(self), old_records[i]));
                    if bound.is_none() && pk_opt.is_some() {
                        let e = old_records[i];
                        match e.1.schema_id {
                            Some(s2) => match schema_for(&*old(self), s2) {
                                Some(sch2) => if sch2.primary_index@.len() > 0 {
                                    lemma_lookup_push(old_primary, (pk_spec, id), primary_key_of(sch2, e.1.values));
                                },
                                None => {},
                            },
                            None => {},
                        }
                    }
                }
            }
        }
        assert(self.slots_wf());
        self.build_indexes(record, sid, id);
        proof {
            let n = self.records@.len() - 1;
            assert(self.records@[n].0 == id);
            assert forall|i: int, j: int| 0 <= i < j < self.records_view().len()
                implies #[trigger] self.records_view()[i].0 != #[trigger] self.records_view()[j].0 by {
                if j == n && i < n {
                    assert(self.records_view()[i] == old_records[i]);
                    if bound.is_some() {
                        if old_records[i].0 == id {
                            lemma_position_of_unique(old_records, i);
                        }
                    }
                }
            }
            assert forall|i: int, j: int| 0 <= i < j < self.primary_view().len()
                implies #[trigger] self.primary_view()[i].0 != #[trigger] self.primary_view()[j].0 by {
                if j == old_primary.len() && i < j {
                    assert(self.primary_view()[i] == old_primary[i]);
                    if old_primary[i].0 == pk_spec {
                        lemma_position_of_unique(old_primary, i);
                    }
                }
            }
            assert forall|i: int| 0 <= i < self.records@.len() implies {
                &&& values_wf((#[trigger] self.records@[i]).1@.values)
                &&& self.records@[i].1.version.unwrap_or(0) >= 1
                &&& forall|k: int| 0 <= k < self.secondary@.len()
                    && Some((#[trigger] self.secondary@[k]).schema_id) == self.records@[i].1.schema_id
                    ==> self.secondary@[k].n_fields == self.records@[i].1.values@.len()
            } by {
                if i == n {
                    assert(self.records_view()[i] == record_pair_view(self.records@[i]));
                    assert(self.records@[i].1@ == record@);
                    assert(self.records@[i].1@.values.len() == self.records@[i].1.values@.len());
                } else {
                    assert(self.records@[i] == old(self).records@[i]);
                }
            }
            assert forall|k: int| 0 <= k < old(self).index_count_view() implies
                #[trigger] self.index_owner_view(k) == old(self).index_owner_view(k)
                && self.index_fields_view(k) == old(self).index_fields_view(k)
                && self.index_full_text_view(k) == old(self).index_full_text_view(k) by {}
            lemma_position_of_unique(self.records_view(), n);
            if bound.is_none() && pk_opt.is_some() {
                lemma_position_of_unique(self.primary_view(), old_primary.len() as int);
            }
            old(self).lemma_schema_for(schema_pos as int);
            assert forall|i: int| 0 <= i < self.records_view().len() implies record_key_bound(self, #[trigger] self.records_view()[i]) by {
                if i < n {
                    assert(self.records_view()[i] == old_records[i]);
                    assert(record_key_bound(&*old(self), old_records[i]));
                    if bound.is_none() && pk_opt.is_some() {
                        let e = old_records[i];
                        match e.1.schema_id {
                            Some(s2) => match schema_for(&*old(self), s2) {
                                Some(sch2) => if sch2.primary_index@.len() > 0 {
                                    lemma_lookup_push(old_primary, (pk_spec, id), primary_key_of(sch2, e.1.values));
                                },
                                None => {},
                            },
                            None => {},
                        }
                    }
                }
            }
        }
        proof {
            let n = self.records_view().len() - 1;
            assert(self.records_view().drop_last() =~= old(self).records_view());
            assert(self.records_view().last() == (id, record@));
            assert forall|k: int, p: (Seq<u8>, u64)| 0 <= k < self.index_count_view() implies
                #[trigger] self.index_view(k).to_multiset().count(p) == expected_count(self.records_view(),
                    self.index_owner_view(k).0, self.index_full_text_view(k), self.index_fields_view(k), p) by {
                assert(old(self).index_view(k).to_multiset().count(p) == expected_count(old(self).records_view(),
                    old(self).index_owner_view(k).0, old(self).index_full_text_view(k), old(self).index_fields_view(k), p));
                assert(self.secondary@[k].schema_id == old(self).secondary@[k].schema_id);
            }
        }
        Ok(id)
    }
}

/// How many times the records of schema `sid` in `records` list the pair `p`
/// in an index over `fields` (full-text or not).
pub open spec fn expected_count(records: Seq<(u64, RecordView)>, sid: SchemaIdentifier, full_text: bool, fields: Seq<usize>, p: (Seq<u8>, u64)) -> nat
    decreases records.len(),
{
    if records.len() == 0 {
        0
    } else {
        expected_count(records.drop_last(), sid, full_text, fields, p) + if records.last().1.schema_id == Some(sid)
            && pairs_with(slot_keys(full_text, fields, records.last().1.values), records.last().0).contains(p) { 1nat } else { 0nat }
    }
}

pub open spec fn contributes(e: (u64, RecordView), sid: SchemaIdentifier, full_text: bool, fields: Seq<usize>, p: (Seq<u8>, u64)) -> bool {
    e.1.schema_id == Some(sid) && pairs_with(slot_keys(full_text, fields, e.1.values), e.0).contains(p)
}

proof fn lemma_expected_count_remove(records: Seq<(u64, RecordView)>, i: int, sid: SchemaIdentifier, full_text: bool, fields: Seq<usize>, p: (Seq<u8>, u64))
    requires
        0 <= i < records.len(),
    ensures
        expected_count(records, sid, full_text, fields, p) == expected_count(records.remove(i), sid, full_text, fields, p)
            + if contributes(records[i], sid, full_text, fields, p) { 1nat } else { 0nat },
    decreases records.len(),
{
    if i == records.len() - 1 {
        assert(records.remove(i) =~= records.drop_last());
    } else {
        lemma_expected_count_remove(records.drop_last(), i, sid, full_text, fields, p);
        assert(records.remove(i).drop_last() =~= records.drop_last().remove(i));
        assert(records.remove(i).last() == records.last());
    }
}

proof fn lemma_expected_count_absent(records: Seq<(u64, RecordView)>, sid: SchemaIdentifier, full_text: bool, fields: Seq<usize>, key: Seq<u8>, id: u64)
    requires
        forall|i: int| 0 <= i < records.len() ==> (#[trigger] records[i]).0 != id,
    ensures
        expected_count(records, sid, full_text, fields, (key, id)) == 0,
    decreases records.len(),
{
    if records.len() > 0 {
        lemma_expected_count_absent(records.drop_last(), sid, full_text, fields, key, id);
        let e = records.last();
        assert(records[records.len() - 1] == e);
        let ps = pairs_with(slot_keys(full_text, fields, e.1.values), e.0);
        if ps.contains((key, id)) {
            let j = choose|j: int| 0 <= j < ps.len() && ps[j] == (key, id);
            assert(ps[j].1 == e.0);
        }
    }
}

/// Whether the primary key of the stored record `e` maps to its ID (always so
/// when its schema has no primary key).
pub open spec fn record_key_bound(c: &LmdbRwCache, e: (u64, RecordView)) -> bool {
    match e.1.schema_id {
        None => true,
        Some(sid) => match schema_for(c, sid) {
            None => true,
            Some(schema) => schema.primary_index@.len() > 0
                ==> lookup(c.primary_view(), primary_key_of(schema, e.1.values)) == Some(e.0),
        },
    }
}

proof fn lemma_lookup_push<K, V>(s: Seq<(K, V)>, x: (K, V), k: K)
    requires
        keys_unique(s.push(x)),
        k != x.0,
    ensures
        lookup(s.push(x), k) == lookup(s, k),
{
    let t = s.push(x);
    assert forall|a: int, b: int| 0 <= a < b < s.len() implies #[trigger] s[a].0 != #[trigger] s[b].0 by {
        assert(t[a] == s[a] && t[b] == s[b]);
    }
    if exists|i: int| 0 <= i < s.len() && #[trigger] s[i].0 == k {
        let i = choose|i: int| 0 <= i < s.len() && #[trigger] s[i].0 == k;
        lemma_position_of_unique(s, i);
        assert(t[i] == s[i]);
        lemma_position_of_unique(t, i);
    } else {
        assert forall|i: int| 0 <= i < t.len() implies #[trigger] t[i].0 != k by {
            if i < s.len() {
                assert(t[i] == s[i]);
            }
        }
    }
}

proof fn lemma_lookup_remove<K, V>(s: Seq<(K, V)>, p: int, k: K)
    requires
        keys_unique(s),
        0 <= p < s.len(),
    ensures
        lookup(s.remove(p), k) is Some ==> lookup(s, k) is Some && k != s[p].0,
{
    let t = s.remove(p);
    assert(t =~= s.subrange(0, p) + s.subrange(p + 1, s.len() as int));
    if exists|j: int| 0 <= j < t.len() && #[trigger] t[j].0 == k {
        let j = choose|j: int| 0 <= j < t.len() && #[trigger] t[j].0 == k;
        let j2 = if j < p { j } else { j + 1 };
        assert(t[j] == s[j2]);
        assert(s[j2].0 == k);
        if j2 < p {
            assert(s[j2].0 != s[p].0);
        } else {
            assert(s[p].0 != s[j2].0);
        }
    }
}

/// The version of the record stored under primary key `key`.
pub open spec fn stored_version(c: &LmdbRwCache, key: Seq<u8>) -> u32 {
    lookup(c.records_view(), lookup(c.primary_view(), key)->0)->0.version->0
}

/// The error that updating the record under `key` with `record` gives, if it
/// fails: the checks run in this order and the first that fails decides.
pub open spec fn update_error(c: &LmdbRwCache, key: Seq<u8>, record: RecordView, e: CacheError) -> bool {
    match lookup(c.primary_view(), key) {
        None => e == CacheError::PrimaryKeyNotFound,
        Some(id) => match lookup(c.records_view(), id) {
            None => e == CacheError::PrimaryKeyNotFound,
            Some(old_rec) => match record.schema_id {
                None => e == CacheError::SchemaHasNoIdentifier,
                Some(sid) => match schema_for(c, sid) {
                    None => e == CacheError::SchemaIdentifierNotFound(sid),
                    Some(schema) => if old_rec.version == Some(u32::MAX) {
                        e == CacheError::VersionExhausted
                    } else {
                        let pk = primary_key_of(schema, record.values);
                        if schema.primary_index@.len() > 0 && (lookup(c.primary_view(), pk) matches Some(other)
                            && other != id && lookup(c.records_view(), other) is Some) {
                            e == CacheError::PrimaryKeyExists
                        } else if c.chosen_id(schema, pk) is None {
                            e == CacheError::RecordIdsExhausted
                        } else {
                            false
                        }
                    },
                },
            },
        },
    }
}

/// The error that inserting `record` under `schema` gives, when it fails.
pub open spec fn insert_error(c: &LmdbRwCache, schema: Schema, record: RecordView, e: CacheError) -> bool {
    let pk = primary_key_of(schema, record.values);
    match e {
        CacheError::PrimaryKeyExists => schema.primary_index@.len() > 0
            && (lookup(c.primary_view(), pk) matches Some(id) && lookup(c.records_view(), id) is Some),
        CacheError::RecordIdsExhausted => c.chosen_id(schema, pk) is None,
        _ => false,
    }
}

/// What deleting the record under primary key `key` leaves, with the version it had.
pub open spec fn delete_effect(old: &LmdbRwCache, new: &LmdbRwCache, key: Seq<u8>, version: u32) -> bool {
    lookup(old.primary_view(), key) matches Some(id) && (lookup(old.records_view(), id) matches Some(rec) && {
        &&& LmdbRwCache::same_layout(old, new)
        &&& new.primary_view() == old.primary_view()
        &&& new.last_id_view() == old.last_id_view()
        &&& new.records_view() == old.records_view().remove(position_of(old.records_view(), id)->0)
        &&& lookup(new.records_view(), id) is None
        &&& forall|k: int, key: Seq<u8>| 0 <= k < new.index_count_view() ==> !(#[trigger] new.index_view(k).contains((key, id)))
        &&& rec.version == Some(version)
        &&& forall|k: int| 0 <= k < old.index_count_view() ==> if Some((#[trigger] old.index_owner_view(k)).0) == rec.schema_id {
            let ks = slot_keys(old.index_full_text_view(k), old.index_fields_view(k), rec.values);
            &&& forall|p: (Seq<u8>, u64)| #[trigger] new.index_view(k).to_multiset().count(p)
                == if pairs_with(ks, id).contains(p) && old.index_view(k).to_multiset().count(p) > 0 {
                    (old.index_view(k).to_multiset().count(p) - 1) as nat
                } else {
                    old.index_view(k).to_multiset().count(p)
                }
            &&& (forall|i: int| 0 <= i < ks.len() ==> old.index_view(k).contains((#[trigger] ks[i], id)))
                ==> new.index_view(k).len() == old.index_view(k).len() - ks.len()
        } else {
            new.index_view(k) == old.index_view(k)
        }
    })
}

/// The registered schema with identifier `sid`, if any.
pub open spec fn schema_for(c: &LmdbRwCache, sid: SchemaIdentifier) -> Option<Schema> {
    lookup(c.schemas_view().map_values(|s: Schema| (s.identifier, s)), Some(sid))
}

impl LmdbRwCache {
    proof fn lemma_schema_for(&self, i: int)
        requires
            self.wf(),
            0 <= i < self.schemas_view().len(),
        ensures
            self.schemas_view()[i].identifier matches Some(sid) && schema_for(self, sid) == Some(self.schemas_view()[i]),
    {
        let p = self.schemas_view().map_values(|s: Schema| (s.identifier, s));
        assert forall|a: int, b: int| 0 <= a < b < p.len() implies #[trigger] p[a].0 != #[trigger] p[b].0 by {
            assert(p[a].0 == self.schemas@[a].schema.identifier);
            assert(p[b].0 == self.schemas@[b].schema.identifier);
        }
        assert(self.schemas_view()[i] == self.schemas@[i].schema);
        lemma_position_of_unique(p, i);
    }

    proof fn lemma_schema_for_none(&self, sid: SchemaIdentifier)
        requires
            forall|i: int| 0 <= i < self.schemas@.len() ==> (#[trigger] self.schemas@[i]).schema.identifier != Some(sid),
        ensures
            schema_for(self, sid) is None,
    {
        let p = self.schemas_view().map_values(|s: Schema| (s.identifier, s));
        assert forall|i: int| 0 <= i < p.len() implies #[trigger] p[i].0 != Some(sid) by {
            assert(p[i].0 == self.schemas@[i].schema.identifier);
        }
    }

    fn delete_indexes(&mut self, record: &Record, id: u64)
        requires
            old(self).slots_wf(),
            values_wf(record@.values),
            forall|k: int| 0 <= k < old(self).secondary@.len() && Some((#[trigger] old(self).secondary@[k]).schema_id) == record.schema_id
                ==> old(self).secondary@[k].n_fields == record.values@.len(),
        ensures
            final(self).schemas@ == old(self).schemas@,
            final(self).records@ == old(self).records@,
            final(self).primary_index@ == old(self).primary_index@,
            final(self).last_id == old(self).last_id,
            final(self).checkpoint@ == old(self).checkpoint@,
            final(self).name == old(self).name,
            final(self).secondary@.len() == old(self).secondary@.len(),
            forall|k: int| 0 <= k < old(self).secondary@.len() ==> if Some(old(self).secondary@[k].schema_id) == record.schema_id {
                slot_removed(old(self).secondary@[k], #[trigger] final(self).secondary@[k], record@.values, id)
            } else {
                final(self).secondary@[k] == old(self).secondary@[k]
            },
    {
        let mut k: usize = 0;
        while k < self.secondary.len()
            invariant
                old(self).slots_wf(),
                values_wf(record@.values),
                forall|k2: int| 0 <= k2 < old(self).secondary@.len() && Some((#[trigger] old(self).secondary@[k2]).schema_id) == record.schema_id
                    ==> old(self).secondary@[k2].n_fields == record.values@.len(),
                self.schemas@ == old(self).schemas@,
                self.records@ == old(self).records@,
                self.primary_index@ == old(self).primary_index@,
                self.last_id == old(self).last_id,
                self.checkpoint@ == old(self).checkpoint@,
                self.name == old(self).name,
                self.secondary@.len() == old(self).secondary@.len(),
                k <= self.secondary@.len(),
                forall|j: int| k <= j < old(self).secondary@.len() ==> #[trigger] self.secondary@[j] == old(self).secondary@[j],
                forall|j: int| 0 <= j < k ==> if Some(old(self).secondary@[j].schema_id) == record.schema_id {
                    slot_removed(old(self).secondary@[j], #[trigger] self.secondary@[j], record@.values, id)
                } else {
                    self.secondary@[j] == old(self).secondary@[j]
                },
            decreases self.secondary@.len() - k,
        {
            if record.schema_id == Some(self.secondary[k].schema_id) {
                let ghost before = self.secondary@;
                let mut slot = self.secondary.remove(k);
                assert(slot == old(self).secondary@[k as int]);
                let keys = slot_key_list(&slot, &record.values);
                slot.db.remove_keys(&keys, id);
                self.secondary.insert(k, slot);
                assert forall|j: int| 0 <= j < self.secondary@.len() && j != k implies #[trigger] self.secondary@[j] == before[j] by {
                    assert(self.secondary@[j] == before[j]);
                }
            }
            k = k + 1;
        }
    }

    /// Removes the record under primary key `key` and its index entries; the
    /// key stays bound to the record's ID. Returns the record's version.
    fn delete_impl(&mut self, key: &[u8]) -> (r: Result<u32, CacheError>)
        requires
            old(self).wf(),
        ensures
            final(self).wf(),
            match r {
                Ok(v) => delete_effect(&*old(self), &*final(self), key@, v),
                Err(e) => e == CacheError::PrimaryKeyNotFound && *final(self) == *old(self)
                    && !(lookup(old(self).primary_view(), key@) matches Some(id) && lookup(old(self).records_view(), id) is Some),
            },
    {
        let id = match self.primary_lookup(key) {
            Some(id) => id,
            None => return Err(CacheError::PrimaryKeyNotFound),
        };
        let i = match self.record_position(id) {
            Some(i) => i,
            None => return Err(CacheError::PrimaryKeyNotFound),
        };
        let ghost old_records = self.records_view();
        assert(old_records[i as int] == record_pair_view(self.records@[i as int]));
        let (_, record) = self.records.remove(i);
        assert(self.records_view() =~= old_records.remove(i as int));
        let version = match record.version {
            Some(v) => v,
            None => {
                assert(false);
                return Err(CacheError::PrimaryKeyNotFound);
            },
        };
        proof {
            assert(old(self).records@[i as int].1 == record);
        }
        assert(self.slots_wf());
        self.delete_indexes(&record, id);
        proof {
            let t = old_records.remove(i as int);
            assert forall|a: int, b: int| 0 <= a < b < t.len() implies #[trigger] t[a].0 != #[trigger] t[b].0 by {
                let a2 = if a < i { a } else { a + 1 };
                let b2 = if b < i { b } else { b + 1 };
                assert(t[a] == old_records[a2] && t[b] == old_records[b2]);
            }
            assert forall|j: int| 0 <= j < self.records@.len() implies {
                &&& values_wf((#[trigger] self.records@[j]).1@.values)
                &&& self.records@[j].1.version.unwrap_or(0) >= 1
                &&& forall|k: int| 0 <= k < self.secondary@.len()
                    && Some((#[trigger] self.secondary@[k]).schema_id) == self.records@[j].1.schema_id
                    ==> self.secondary@[k].n_fields == self.records@[j].1.values@.len()
            } by {
                let j2 = if j < i { j } else { j + 1 };
                assert(self.records@[j] == old(self).records@[j2]);
            }
            assert forall|j: int| 0 <= j < self.records@.len() implies (#[trigger] self.records@[j]).0 <= self.last_id by {
                let j2 = if j < i { j } else { j + 1 };
                assert(self.records@[j] == old(self).records@[j2]);
            }
            assert forall|k: int| 0 <= k < old(self).index_count_view() implies
                #[trigger] self.index_owner_view(k) == old(self).index_owner_view(k)
                && self.index_fields_view(k) == old(self).index_fields_view(k)
                && self.index_full_text_view(k) == old(self).index_full_text_view(k) by {}
        }
        proof {
            assert forall|k: int, p: (Seq<u8>, u64)| 0 <= k < self.index_count_view() implies
                #[trigger] self.index_view(k).to_multiset().count(p) == expected_count(self.records_view(),
                    self.index_owner_view(k).0, self.index_full_text_view(k), self.index_fields_view(k), p) by {
                assert(old(self).index_view(k).to_multiset().count(p) == expected_count(old(self).records_view(),
                    old(self).index_owner_view(k).0, old(self).index_full_text_view(k), old(self).index_fields_view(k), p));
                assert(self.secondary@[k].schema_id == old(self).secondary@[k].schema_id);
                lemma_expected_count_remove(old_records, i as int, self.index_owner_view(k).0, self.index_full_text_view(k),
                    self.index_fields_view(k), p);
                assert(old_records[i as int] == (id, record@));
            }
            assert forall|j: int| 0 <= j < self.records_view().len() implies (#[trigger] self.records_view()[j]).0 != id by {
                let j2 = if j < i { j } else { j + 1 };
                assert(self.records_view()[j] == old_records[j2]);
                if j2 < i {
                    assert(old_records[j2].0 != old_records[i as int].0);
                } else {
                    assert(old_records[i as int].0 != old_records[j2].0);
                }
            }
            assert forall|k: int, key: Seq<u8>| 0 <= k < self.index_count_view() implies !(#[trigger] self.index_view(k).contains((key, id))) by {
                lemma_expected_count_absent(self.records_view(), self.index_owner_view(k).0, self.index_full_text_view(k),
                    self.index_fields_view(k), key, id);
                vstd::seq_lib::to_multiset_contains(self.index_view(k), (key, id));
            }
        }
        Ok(version)
    }

    /// Inserts `record` with version one; returns its record ID.
    pub fn insert(&mut self, record: &mut Record) -> (r: Result<u64, CacheError>)
        requires
            old(self).wf(),
            values_wf(old(record)@.values),
            forall|i: int| 0 <= i < old(self).schemas_view().len()
                && (#[trigger] old(self).schemas_view()[i]).identifier == old(record).schema_id
                ==> record_matches_schema(old(self).schemas_view()[i], old(record)@),
        ensures
            final(self).wf(),
            final(record).values@ == old(record).values@,
            final(record).schema_id == old(record).schema_id,
            (old(record).schema_id matches Some(sid) && schema_for(&*old(self), sid) is Some)
                ==> final(record).version == Some(INITIAL_RECORD_VERSION),
            !(old(record).schema_id matches Some(sid) && schema_for(&*old(self), sid) is Some)
                ==> final(record)@ == old(record)@,
            match r {
                Ok(id) => old(record).schema_id matches Some(sid) && (schema_for(&*old(self), sid) matches Some(schema)
                    && final(record).version == Some(INITIAL_RECORD_VERSION)
                    && LmdbRwCache::insert_effect(&*old(self), &*final(self), schema, final(record)@, id)),
                Err(CacheError::SchemaHasNoIdentifier) => old(record).schema_id is None && *final(self) == *old(self),
                Err(CacheError::SchemaIdentifierNotFound(sid)) => old(record).schema_id == Some(sid)
                    && schema_for(&*old(self), sid) is None && *final(self) == *old(self),
                Err(e) => *final(self) == *old(self) && (old(record).schema_id matches Some(sid)
                    && (schema_for(&*old(self), sid) matches Some(schema)
                    && insert_error(&*old(self), schema, final(record)@, e))),
            },
    {
        let sid = match record.schema_id {
            Some(sid) => sid,
            None => return Err(CacheError::SchemaHasNoIdentifier),
        };
        let pos = match self.find_schema_by_id(sid) {
            Some(pos) => pos,
            None => {
                proof { self.lemma_schema_for_none(sid); }
                return Err(CacheError::SchemaIdentifierNotFound(sid));
            },
        };
        proof {
            self.lemma_schema_for(pos as int);
            assert(self.schemas_view()[pos as int] == self.schemas@[pos as int].schema);
        }
        record.version = Some(INITIAL_RECORD_VERSION);
        assert(record@.values == old(record)@.values);
        self.insert_impl(record, pos)
    }

    /// Deletes the record under primary key `key`; returns the version it had.
    pub fn delete(&mut self, key: &[u8]) -> (r: Result<u32, CacheError>)
        requires
            old(self).wf(),
        ensures
            final(self).wf(),
            match r {
                Ok(v) => delete_effect(&*old(self), &*final(self), key@, v),
                Err(e) => e == CacheError::PrimaryKeyNotFound && *final(self) == *old(self)
                    && !(lookup(old(self).primary_view(), key@) matches Some(id) && lookup(old(self).records_view(), id) is Some),
            },
    {
        self.delete_impl(key)
    }

    /// Replaces the record under primary key `key` by `record`, whose version
    /// becomes one more than the old record's; returns the old version. On any
    /// error nothing changes, neither the cache nor `record`.
    pub fn update(&mut self, key: &[u8], record: &mut Record) -> (r: Result<u32, CacheError>)
        requires
            old(self).wf(),
            values_wf(old(record)@.values),
            forall|i: int| 0 <= i < old(self).schemas_view().len()
                && (#[trigger] old(self).schemas_view()[i]).identifier == old(record).schema_id
                ==> record_matches_schema(old(self).schemas_view()[i], old(record)@),
        ensures
            final(self).wf(),
            final(record).values@ == old(record).values@,
            final(record).schema_id == old(record).schema_id,
            match r {
                Ok(v) => final(record).version == Some((v + 1) as u32) && v < u32::MAX
                    && (old(record).schema_id matches Some(sid) && schema_for(&*old(self), sid) matches Some(schema)
                    && exists|mid: LmdbRwCache| delete_effect(&*old(self), &mid, key@, v)
                        && #[trigger] mid.wf()
                        && LmdbRwCache::insert_effect(&mid, &*final(self), schema, final(record)@, mid.chosen_id(schema, primary_key_of(schema, final(record)@.values))->0)),
                Err(e) => *final(self) == *old(self)
                    && final(record).version == if e is PrimaryKeyExists || e is RecordIdsExhausted {
                        Some((stored_version(&*old(self), key@) + 1) as u32)
                    } else {
                        old(record).version
                    }
                    && update_error(&*old(self), key@, old(record)@, e),
            },
    {
        let id_old = match self.primary_lookup(key) {
            Some(id) => id,
            None => return Err(CacheError::PrimaryKeyNotFound),
        };
        let pos_old = match self.record_position(id_old) {
            Some(p) => p,
            None => return Err(CacheError::PrimaryKeyNotFound),
        };
        assert(self.records_view()[pos_old as int] == record_pair_view(self.records@[pos_old as int]));
        let sid = match record.schema_id {
            Some(sid) => sid,
            None => return Err(CacheError::SchemaHasNoIdentifier),
        };
        let pos = match self.find_schema_by_id(sid) {
            Some(pos) => pos,
            None => {
                proof { self.lemma_schema_for_none(sid); }
                return Err(CacheError::SchemaIdentifierNotFound(sid));
            },
        };
        proof {
            self.lemma_schema_for(pos as int);
            assert(self.schemas_view()[pos as int] == self.schemas@[pos as int].schema);
        }
        let stored = match self.records[pos_old].1.version {
            Some(v) => v,
            None => {
                assert(false);
                return Err(CacheError::PrimaryKeyNotFound);
            },
        };
        if stored == u32::MAX {
            return Err(CacheError::VersionExhausted);
        }
        let ghost schema = self.schemas_view()[pos as int];
        let ghost pk_spec = primary_key_of(schema, record@.values);
        assert(record@.values =~= record.values@.map_values(|f: Field| f@));
        let bound: Option<u64> = if self.schemas[pos].schema.primary_index.len() == 0 {
            None
        } else {
            let pk = get_primary_key(&self.schemas[pos].schema.primary_index, &record.values);
            self.primary_lookup(pk.as_slice())
        };
        match bound {
            Some(other) => {
                if other != id_old && self.record_position(other).is_some() {
                    record.version = Some(stored + 1);
                    return Err(CacheError::PrimaryKeyExists);
                }
            },
            None => {
                if self.last_id == u64::MAX {
                    record.version = Some(stored + 1);
                    return Err(CacheError::RecordIdsExhausted);
                }
            },
        }
        let ghost before = *self;
        let old_version = match self.delete_impl(key) {
            Ok(v) => v,
            Err(e) => return Err(e),
        };
        let ghost mid = *self;
        proof {
            lemma_lookup_remove(before.records_view(), pos_old as int, id_old);
            match bound {
                Some(other) => lemma_lookup_remove(before.records_view(), pos_old as int, other),
                None => {},
            }
        }
        record.version = Some(old_version + 1);
        assert(record@.values == old(record)@.values);
        match self.insert_impl(record, pos) {
            Ok(_) => Ok(old_version),
            Err(e) => {
                assert(false);
                Err(e)
            },
        }
    }
}

/// The entries of `s` whose key does not occur earlier in `s`.
pub open spec fn first_of_each_key<K, V>(s: Seq<(K, V)>) -> Seq<(K, V)>
    decreases s.len(),
{
    if s.len() == 0 {
        seq![]
    } else {
        let r = first_of_each_key(s.drop_last());
        if exists|i: int| 0 <= i < r.len() && #[trigger] r[i].0 == s.last().0 {
            r
        } else {
            r.push(s.last())
        }
    }
}

proof fn lemma_first_of_each_key_unique<K, V>(s: Seq<(K, V)>)
    ensures
        keys_unique(first_of_each_key(s)),
    decreases s.len(),
{
    if s.len() > 0 {
        lemma_first_of_each_key_unique(s.drop_last());
    }
}

fn copy_handle(h: &NodeHandle) -> (r: NodeHandle)
    ensures
        r.bytes@ == h.bytes@,
{
    NodeHandle { bytes: vstd::slice::slice_to_vec(h.bytes.as_slice()) }
}

/// What the checkpoint store holds after committing `checkpoint`.
pub open spec fn committed(checkpoint: Seq<(NodeHandle, OpIdentifier)>) -> Seq<(Seq<u8>, OpIdentifier)> {
    first_of_each_key(checkpoint_entries_view(checkpoint))
}

impl LmdbRwCache {
    /// Replaces the checkpoint store by `checkpoint`: the store is cleared, then
    /// each pair is added unless its handle is already there.
    pub fn commit(&mut self, checkpoint: &Vec<(NodeHandle, OpIdentifier)>) -> (r: Result<(), CacheError>)
        requires
            old(self).wf(),
        ensures
            final(self).wf(),
            r is Ok,
            final(self).checkpoint_view() == committed(checkpoint@),
            LmdbRwCache::same_layout_but_checkpoint(&*old(self), &*final(self)),
    {
        let ghost src = checkpoint_entries_view(checkpoint@);
        self.checkpoint = Vec::new();
        let mut i: usize = 0;
        while i < checkpoint.len()
            invariant
                i <= checkpoint@.len(),
                src == checkpoint_entries_view(checkpoint@),
                self.checkpoint_view() == first_of_each_key(src.subrange(0, i as int)),
                self.schemas@ == old(self).schemas@,
                self.records@ == old(self).records@,
                self.primary_index@ == old(self).primary_index@,
                self.last_id == old(self).last_id,
                self.secondary@ == old(self).secondary@,
                self.name == old(self).name,
            decreases checkpoint@.len() - i,
        {
            let ghost cur = self.checkpoint_view();
            assert(src.subrange(0, i + 1).drop_last() =~= src.subrange(0, i as int));
            assert(src.subrange(0, i + 1).last() == src[i as int]);
            let mut present = false;
            let mut j: usize = 0;
            while j < self.checkpoint.len()
                invariant
                    j <= cur.len(),
                    self.checkpoint_view() == cur,
                    self.checkpoint@.len() == cur.len(),
                    i < checkpoint@.len(),
                    src == checkpoint_entries_view(checkpoint@),
                    present == exists|m: int| 0 <= m < j && #[trigger] cur[m].0 == src[i as int].0,
                decreases cur.len() - j,
            {
                assert(cur[j as int] == checkpoint_pair_view(self.checkpoint@[j as int]));
                assert(src[i as int] == checkpoint_pair_view(checkpoint@[i as int]));
                if bytes_eq(self.checkpoint[j].0.bytes.as_slice(), checkpoint[i].0.bytes.as_slice()) {
                    assert(cur[j as int].0 == src[i as int].0);
                    present = true;
                } else {
                    assert(cur[j as int].0 != src[i as int].0);
                }
                j = j + 1;
            }
            if !present {
                let h = copy_handle(&checkpoint[i].0);
                self.checkpoint.push((h, checkpoint[i].1));
                assert(self.checkpoint_view() =~= cur.push(src[i as int]));
            }
            i = i + 1;
        }
        assert(src.subrange(0, checkpoint@.len() as int) =~= src);
        proof {
            assert forall|k: int, p: (Seq<u8>, u64)| 0 <= k < self.index_count_view() implies
                #[trigger] self.index_view(k).to_multiset().count(p) == expected_count(self.records_view(),
                    self.index_owner_view(k).0, self.index_full_text_view(k), self.index_fields_view(k), p) by {
                assert(self.index_view(k) == old(self).index_view(k));
                assert(self.records_view() == old(self).records_view());
            }
            lemma_first_of_each_key_unique(src);
            assert forall|k: int| 0 <= k < old(self).index_count_view() implies
                #[trigger] self.index_owner_view(k) == old(self).index_owner_view(k)
                && self.index_fields_view(k) == old(self).index_fields_view(k)
                && self.index_full_text_view(k) == old(self).index_full_text_view(k) by {}
        }
        Ok(())
    }

    /// The pairs of the checkpoint store.
    pub fn get_checkpoint(&self) -> (r: Vec<(NodeHandle, OpIdentifier)>)
        ensures
            checkpoint_entries_view(r@) == self.checkpoint_view(),
    {
        let mut out: Vec<(NodeHandle, OpIdentifier)> = Vec::new();
        let mut i: usize = 0;
        while i < self.checkpoint.len()
            invariant
                i <= self.checkpoint@.len(),
                out@.len() == i,
                checkpoint_entries_view(out@)
                    == self.checkpoint_view().subrange(0, i as int),
            decreases self.checkpoint@.len() - i,
        {
            let h = copy_handle(&self.checkpoint[i].0);
            let ghost before = out@;
            assert(self.checkpoint_view()[i as int] == checkpoint_pair_view(self.checkpoint@[i as int]));
            out.push((h, self.checkpoint[i].1));
            assert(checkpoint_entries_view(out@)[i as int] == self.checkpoint_view()[i as int]);
            assert forall|j: int| 0 <= j < i implies #[trigger] checkpoint_entries_view(out@)[j] == checkpoint_entries_view(before)[j] by {
                assert(out@[j] == before[j]);
            }
            assert(checkpoint_entries_view(out@)
                =~= self.checkpoint_view().subrange(0, i + 1));
            i = i + 1;
        }
        assert(self.checkpoint_view().subrange(0, i as int) =~= self.checkpoint_view());
        out
    }

    /// Everything but the checkpoint store is as in `old`.
    pub open spec fn same_layout_but_checkpoint(old: &LmdbRwCache, new: &LmdbRwCache) -> bool {
        &&& new.schemas_view() == old.schemas_view()
        &&& new.schema_names_view() == old.schema_names_view()
        &&& new.name_view() == old.name_view()
        &&& new.records_view() == old.records_view()
        &&& new.primary_view() == old.primary_view()
        &&& new.last_id_view() == old.last_id_view()
        &&& new.index_count_view() == old.index_count_view()
        &&& forall|k: int| 0 <= k < old.index_count_view() ==> #[trigger] new.index_owner_view(k) == old.index_owner_view(k)
            && new.index_fields_view(k) == old.index_fields_view(k) && new.index_view(k) == old.index_view(k)
            && new.index_full_text_view(k) == old.index_full_text_view(k)
    }
}

proof fn lemma_first_of_each_key_subset<K, V>(s: Seq<(K, V)>, x: (K, V))
    requires
        first_of_each_key(s).contains(x),
    ensures
        s.contains(x),
    decreases s.len(),
{
    if s.len() > 0 {
        let r = first_of_each_key(s.drop_last());
        if r.contains(x) {
            lemma_first_of_each_key_subset(s.drop_last(), x);
            let j = choose|j: int| 0 <= j < s.drop_last().len() && s.drop_last()[j] == x;
            assert(s[j] == x);
        } else {
            assert(s[s.len() - 1] == x);
        }
    }
}

proof fn lemma_first_of_each_key_covers<K, V>(s: Seq<(K, V)>, i: int)
    requires
        0 <= i < s.len(),
    ensures
        exists|j: int| 0 <= j < first_of_each_key(s).len() && #[trigger] first_of_each_key(s)[j].0 == s[i].0,
    decreases s.len(),
{
    let r = first_of_each_key(s.drop_last());
    let f = first_of_each_key(s);
    let found = exists|j: int| 0 <= j < r.len() && #[trigger] r[j].0 == s.last().0;
    if found {
        assert(f == r);
    } else {
        assert(f == r.push(s.last()));
    }
    if i < s.len() - 1 {
        lemma_first_of_each_key_covers(s.drop_last(), i);
        assert(s.drop_last()[i] == s[i]);
        let j = choose|j: int| 0 <= j < r.len() && #[trigger] r[j].0 == s.drop_last()[i].0;
        assert(f[j] == r[j]);
        assert(0 <= j < f.len() && f[j].0 == s[i].0);
    } else if found {
        let j = choose|j: int| 0 <= j < r.len() && #[trigger] r[j].0 == s.last().0;
        assert(0 <= j < f.len() && f[j].0 == s[i].0);
    } else {
        let j = r.len() as int;
        assert(0 <= j < f.len() && f[j].0 == s[i].0);
    }
}

proof fn lemma_first_of_each_key_distinct<K, V>(s: Seq<(K, V)>)
    requires
        keys_unique(s),
    ensures
        first_of_each_key(s) == s,
    decreases s.len(),
{
    if s.len() > 0 {
        let d = s.drop_last();
        assert forall|i: int, j: int| 0 <= i < j < d.len() implies #[trigger] d[i].0 != #[trigger] d[j].0 by {
            assert(d[i] == s[i] && d[j] == s[j]);
        }
        lemma_first_of_each_key_distinct(d);
        assert forall|j: int| 0 <= j < d.len() implies #[trigger] d[j].0 != s.last().0 by {
            assert(d[j] == s[j]);
            assert(s[j].0 != s[s.len() - 1].0);
        }
        assert(d.push(s.last()) =~= s);
    }
}

/// Committing `c1` and then `c2` overwrites the checkpoint store: every pair
/// left is a pair of `c2`, every handle of `c2` is there, nothing of `c1`
/// survives otherwise, and when the handles of `c2` are distinct the store
/// holds exactly `c2`.
pub proof fn lemma_commit_overwrites(
    c0: LmdbRwCache,
    c1: LmdbRwCache,
    c2: LmdbRwCache,
    cp1: Seq<(NodeHandle, OpIdentifier)>,
    cp2: Seq<(NodeHandle, OpIdentifier)>,
)
    requires
        c1.checkpoint_view() == committed(cp1),
        LmdbRwCache::same_layout_but_checkpoint(&c0, &c1),
        c2.checkpoint_view() == committed(cp2),
        LmdbRwCache::same_layout_but_checkpoint(&c1, &c2),
    ensures
        forall|x: (Seq<u8>, OpIdentifier)| #[trigger] c2.checkpoint_view().contains(x) ==> checkpoint_entries_view(cp2).contains(x),
        forall|i: int| 0 <= i < cp2.len() ==> exists|j: int| 0 <= j < c2.checkpoint_view().len()
            && #[trigger] c2.checkpoint_view()[j].0 == (#[trigger] cp2[i]).0.bytes@,
        keys_unique(checkpoint_entries_view(cp2)) ==> c2.checkpoint_view() == checkpoint_entries_view(cp2),
        c2.records_view() == c0.records_view(),
        c2.primary_view() == c0.primary_view(),
{
    let v = checkpoint_entries_view(cp2);
    assert forall|x: (Seq<u8>, OpIdentifier)| #[trigger] c2.checkpoint_view().contains(x) implies v.contains(x) by {
        lemma_first_of_each_key_subset(v, x);
    }
    assert forall|i: int| 0 <= i < cp2.len() implies exists|j: int| 0 <= j < c2.checkpoint_view().len()
        && #[trigger] c2.checkpoint_view()[j].0 == (#[trigger] cp2[i]).0.bytes@ by {
        lemma_first_of_each_key_covers(v, i);
        assert(v[i].0 == cp2[i].0.bytes@);
    }
    if keys_unique(v) {
        lemma_first_of_each_key_distinct(v);
    }
}

/// Inserting a record under a schema with a primary key and then deleting it by
/// that key leaves the record store and every secondary index with as many
/// entries as before; the primary-key map keeps one more entry only when the
/// key was new, since the key stays bound to its record ID.
pub proof fn lemma_insert_then_delete_counts(
    c0: LmdbRwCache,
    c1: LmdbRwCache,
    c2: LmdbRwCache,
    schema: Schema,
    record: RecordView,
    id: u64,
    version: u32,
)
    requires
        c0.wf(),
        c1.wf(),
        schema.primary_index@.len() > 0,
        LmdbRwCache::insert_effect(&c0, &c1, schema, record, id),
        delete_effect(&c1, &c2, primary_key_of(schema, record.values), version),
    ensures
        c2.records_view().len() == c0.records_view().len(),
        c2.index_count_view() == c0.index_count_view(),
        forall|k: int| 0 <= k < c0.index_count_view() ==> (#[trigger] c2.index_view(k)).len() == c0.index_view(k).len(),
        lookup(c0.primary_view(), primary_key_of(schema, record.values)) is Some
            ==> c2.primary_view().len() == c0.primary_view().len(),
        c2.primary_view().len() <= c0.primary_view().len() + 1,
        version == record.version->0,
{
    let pk = primary_key_of(schema, record.values);
    let n = c0.records_view().len() as int;
    assert(c1.records_view()[n] == (id, record));
    lemma_position_of_unique(c1.records_view(), n);
    if lookup(c0.primary_view(), pk) is None {
        let m = c0.primary_view().len() as int;
        assert(c1.primary_view()[m] == (pk, id));
        lemma_position_of_unique(c1.primary_view(), m);
    }
    assert forall|k: int| 0 <= k < c0.index_count_view() implies (#[trigger] c2.index_view(k)).len() == c0.index_view(k).len() by {
        assert(c1.index_owner_view(k) == c0.index_owner_view(k));
        assert(c1.index_fields_view(k) == c0.index_fields_view(k));
    }
}

/// What a comparison is about: field name, operator and value.
pub open spec fn leaf_view(f: SimpleFilter) -> (Seq<char>, Operator, crate::field::FieldView) {
    (f.field_name@, f.operator, f.value@)
}

pub open spec fn leaves_view(fs: Seq<SimpleFilter>) -> Seq<(Seq<char>, Operator, crate::field::FieldView)> {
    fs.map_values(|f: SimpleFilter| leaf_view(f))
}

/// The concatenated encodings of the compared values.
pub open spec fn concat_encodings(fs: Seq<(Seq<char>, Operator, crate::field::FieldView)>) -> Seq<u8>
    decreases fs.len(),
{
    if fs.len() == 0 {
        seq![]
    } else {
        concat_encodings(fs.drop_last()) + encoding(fs.last().2)
    }
}

/// Whether the comparisons `fs`, in order, ask for equality on the leading
/// fields of a multi-field index over `idx`, the last one possibly a range on
/// the field after them.
pub open spec fn composite_fits(schema: Schema, fs: Seq<(Seq<char>, Operator, crate::field::FieldView)>, idx: Seq<usize>) -> bool {
    &&& 2 <= idx.len()
    &&& 1 <= fs.len() <= idx.len()
    &&& forall|i: int| 0 <= i < fs.len() ==> field_position_from(schema.fields@, (#[trigger] fs[i]).0, 0) == Some(idx[i] as int)
    &&& forall|i: int| 0 <= i < fs.len() - 1 ==> (#[trigger] fs[i]).1 == Operator::EQ
    &&& fs.last().1 != Operator::Contains
}

/// Whether `actual` is the error `expected` describes, for a query of the
/// schema named `name` (whose name a missing-schema error carries).
pub open spec fn same_error(actual: CacheError, expected: CacheError, name: Seq<char>) -> bool {
    match expected {
        CacheError::SchemaNotFound(_) => actual matches CacheError::SchemaNotFound(n) && n@ == name,
        _ => actual == expected,
    }
}

/// The first position, from `i` on, of a field named `name`.
pub open spec fn field_position_from(fields: Seq<FieldDefinition>, name: Seq<char>, i: int) -> Option<int>
    decreases fields.len() - i,
{
    if i < 0 || i >= fields.len() {
        None
    } else if fields[i].name@ == name {
        Some(i)
    } else {
        field_position_from(fields, name, i + 1)
    }
}

/// The first position, from `i` on, of a schema named `name`.
pub open spec fn name_position_from(names: Seq<Seq<char>>, name: Seq<char>, i: int) -> Option<int>
    decreases names.len() - i,
{
    if i < 0 || i >= names.len() {
        None
    } else if names[i] == name {
        Some(i)
    } else {
        name_position_from(names, name, i + 1)
    }
}

/// The IDs of the records of schema `sid`, in the order of the record store.
pub open spec fn schema_ids(records: Seq<(u64, RecordView)>, sid: SchemaIdentifier) -> Seq<u64>
    decreases records.len(),
{
    if records.len() == 0 {
        seq![]
    } else if records.last().1.schema_id == Some(sid) {
        schema_ids(records.drop_last(), sid).push(records.last().0)
    } else {
        schema_ids(records.drop_last(), sid)
    }
}

/// The IDs of `a` that every sequence of `others` contains, in the order of `a`.
pub open spec fn keep_common(a: Seq<u64>, others: Seq<Seq<u64>>) -> Seq<u64>
    decreases a.len(),
{
    if a.len() == 0 {
        seq![]
    } else if forall|j: int| 0 <= j < others.len() ==> (#[trigger] others[j]).contains(a.last()) {
        keep_common(a.drop_last(), others).push(a.last())
    } else {
        keep_common(a.drop_last(), others)
    }
}

/// The stored records for `ids`, skipping IDs that the store does not hold.
pub open spec fn hydrate(records: Seq<(u64, RecordView)>, ids: Seq<u64>) -> Seq<(u64, RecordView)>
    decreases ids.len(),
{
    if ids.len() == 0 {
        seq![]
    } else {
        match lookup(records, ids.last()) {
            Some(r) => hydrate(records, ids.drop_last()).push((ids.last(), r)),
            None => hydrate(records, ids.drop_last()),
        }
    }
}

pub open spec fn results_view(s: Seq<RecordWithId>) -> Seq<(u64, RecordView)> {
    s.map_values(|e: RecordWithId| (e.id, e.record@))
}

impl LmdbRwCache {
    /// The first sorted index, from `k` on, of `schema` that the comparisons
    /// `fs` fit as a whole.
    pub open spec fn composite_slot_from(&self, schema: Schema, fs: Seq<(Seq<char>, Operator, crate::field::FieldView)>, k: int) -> Option<int>
        decreases self.index_count_view() - k,
    {
        if k < 0 || k >= self.index_count_view() {
            None
        } else if self.index_owner_view(k).0 == schema.identifier->0 && !self.index_full_text_view(k)
            && composite_fits(schema, fs, self.index_fields_view(k)) {
            Some(k)
        } else {
            self.composite_slot_from(schema, fs, k + 1)
        }
    }

    /// The IDs that one multi-field index gives for all of `fs` at once: keys
    /// that start with the encodings of the equality values, then satisfy the
    /// last comparison; `None` when no such index fits.
    pub open spec fn composite_ids(&self, schema: Schema, fs: Seq<(Seq<char>, Operator, crate::field::FieldView)>) -> Option<Seq<u64>> {
        match self.composite_slot_from(schema, fs, 0) {
            Some(k) => Some(scan_composite_spec(self.index_view(k), concat_encodings(fs.drop_last()), fs.last().1,
                encoding(fs.last().2), fs.len() == self.index_fields_view(k).len())),
            None => None,
        }
    }

    /// The first secondary index, from `k` on, of schema `sid` over the single
    /// field at position `p`, full-text or sorted as `full_text` says.
    pub open spec fn slot_from(&self, sid: SchemaIdentifier, p: int, full_text: bool, k: int) -> Option<int>
        decreases self.index_count_view() - k,
    {
        if k < 0 || k >= self.index_count_view() {
            None
        } else if self.index_owner_view(k).0 == sid && self.index_fields_view(k) == seq![p as usize]
            && self.index_full_text_view(k) == full_text {
            Some(k)
        } else {
            self.slot_from(sid, p, full_text, k + 1)
        }
    }

    /// The key that a comparison looks for: the lowercased text of the value
    /// for `Contains`, else the value's encoding.
    pub open spec fn search_key(f: SimpleFilter) -> Option<Seq<u8>> {
        if f.operator == Operator::Contains {
            match f.value@ {
                crate::field::FieldView::String(s) => Some(lower_all(encode_utf8(s))),
                crate::field::FieldView::Text(s) => Some(lower_all(encode_utf8(s))),
                _ => None,
            }
        } else {
            Some(encoding(f.value@))
        }
    }

    /// The IDs a single comparison selects from the records of `schema`, by
    /// scanning an index on that field alone (a full-text one for `Contains`);
    /// `None` when there is no such index.
    pub open spec fn leaf_ids(&self, schema: Schema, f: SimpleFilter) -> Option<Seq<u64>> {
        match (field_position_from(schema.fields@, f.field_name@, 0), LmdbRwCache::search_key(f)) {
            (Some(p), Some(bound)) => match self.slot_from(schema.identifier->0, p, f.operator == Operator::Contains, 0) {
                None => None,
                Some(k) => Some(scan_spec(self.index_view(k), f.operator, bound)),
            },
            _ => None,
        }
    }

    /// The results of each comparison of `fs`, or `None` if one has no index.
    pub open spec fn leaves_ids(&self, schema: Schema, fs: Seq<SimpleFilter>) -> Option<Seq<Seq<u64>>>
        decreases fs.len(),
    {
        if fs.len() == 0 {
            Some(seq![])
        } else {
            match (self.leaves_ids(schema, fs.drop_last()), self.leaf_ids(schema, fs.last())) {
                (Some(rs), Some(r)) => Some(rs.push(r)),
                _ => None,
            }
        }
    }

    /// The IDs, in result order and before paging, that a filter selects from
    /// the records of `schema`; `None` when some comparison has no index.
    pub open spec fn filter_ids(&self, schema: Schema, filter: Option<FilterExpression>) -> Option<Seq<u64>> {
        match filter {
            None => Some(schema_ids(self.records_view(), schema.identifier->0)),
            Some(FilterExpression::Simple(f)) => match self.leaf_ids(schema, f) {
                Some(ids) => Some(ids),
                None => self.composite_ids(schema, seq![leaf_view(f)]),
            },
            Some(FilterExpression::And(fs)) => if fs@.len() == 0 {
                Some(schema_ids(self.records_view(), schema.identifier->0))
            } else {
                match self.composite_ids(schema, leaves_view(fs@)) {
                    Some(ids) => Some(ids),
                    None => match self.leaves_ids(schema, fs@) {
                        None => None,
                        Some(rs) => Some(keep_common(rs[0], rs.drop_first())),
                    },
                }
            },
        }
    }

    /// What querying schema `name` with `q` gives.
    pub open spec fn query_spec(&self, name: Seq<char>, q: QueryExpression) -> Result<Seq<u64>, CacheError> {
        match name_position_from(self.schema_names_view(), name, 0) {
            None => Err(CacheError::SchemaNotFound(vstd::pervasive::arbitrary())),
            Some(i) => if !order_follows_index(q) {
                Err(CacheError::OrderByNotSupported)
            } else {
                match self.filter_ids(self.schemas_view()[i], q.filter) {
                    None => Err(CacheError::IndexNotFound),
                    Some(ids) => Ok(page(ids, q.skip, q.limit)),
                }
            },
        }
    }

    fn find_field(fields: &Vec<FieldDefinition>, name: &String) -> (r: Option<usize>)
        ensures
            match r {
                Some(p) => field_position_from(fields@, name@, 0) == Some(p as int),
                None => field_position_from(fields@, name@, 0) is None,
            },
    {
        let mut i: usize = fields.len();
        let mut found: Option<usize> = None;
        while i > 0
            invariant
                i <= fields@.len(),
                match found {
                    Some(p) => field_position_from(fields@, name@, i as int) == Some(p as int),
                    None => field_position_from(fields@, name@, i as int) is None,
                },
            decreases i,
        {
            i = i - 1;
            if bytes_eq(fields[i].name.as_str().as_bytes(), name.as_str().as_bytes()) {
                proof {
                    encode_utf8_decode_utf8(fields@[i as int].name@);
                    encode_utf8_decode_utf8(name@);
                }
                found = Some(i);
            } else {
                proof {
                    if fields@[i as int].name@ == name@ {
                        assert(encode_utf8(fields@[i as int].name@) == encode_utf8(name@));
                    }
                }
            }
        }
        found
    }

    fn find_schema_position(&self, name: &str) -> (r: Option<usize>)
        ensures
            match r {
                Some(p) => name_position_from(self.schema_names_view(), name@, 0) == Some(p as int)
                    && p < self.schemas@.len(),
                None => name_position_from(self.schema_names_view(), name@, 0) is None,
            },
    {
        let ghost names = self.schema_names_view();
        let mut i: usize = self.schemas.len();
        let mut found: Option<usize> = None;
        while i > 0
            invariant
                names == self.schema_names_view(),
                names.len() == self.schemas@.len(),
                i <= names.len(),
                match found {
                    Some(p) => name_position_from(names, name@, i as int) == Some(p as int) && p < names.len(),
                    None => name_position_from(names, name@, i as int) is None,
                },
            decreases i,
        {
            i = i - 1;
            assert(names[i as int] == self.schemas@[i as int].name@);
            if bytes_eq(self.schemas[i].name.as_str().as_bytes(), name.as_bytes()) {
                proof {
                    encode_utf8_decode_utf8(self.schemas@[i as int].name@);
                    encode_utf8_decode_utf8(name@);
                }
                found = Some(i);
            } else {
                proof {
                    if names[i as int] == name@ {
                        assert(encode_utf8(self.schemas@[i as int].name@) == encode_utf8(name@));
                    }
                }
            }
        }
        found
    }

    fn find_slot(&self, sid: SchemaIdentifier, p: usize, full_text: bool) -> (r: Option<usize>)
        ensures
            match r {
                Some(k) => self.slot_from(sid, p as int, full_text, 0) == Some(k as int) && k < self.secondary@.len(),
                None => self.slot_from(sid, p as int, full_text, 0) is None,
            },
    {
        let mut k: usize = self.secondary.len();
        let mut found: Option<usize> = None;
        while k > 0
            invariant
                k <= self.secondary@.len(),
                match found {
                    Some(j) => self.slot_from(sid, p as int, full_text, k as int) == Some(j as int) && j < self.secondary@.len(),
                    None => self.slot_from(sid, p as int, full_text, k as int) is None,
                },
            decreases k,
        {
            k = k - 1;
            let fields = &self.secondary[k].fields;
            if self.secondary[k].schema_id == sid && fields.len() == 1 && fields[0] == p
                && self.secondary[k].full_text == full_text {
                assert(self.index_fields_view(k as int) =~= seq![p]);
                found = Some(k);
            } else {
                proof {
                    if self.index_fields_view(k as int) == seq![p] {
                        assert(self.secondary@[k as int].fields@[0] == p);
                    }
                }
            }
        }
        found
    }

    fn leaf(&self, schema: &Schema, f: &SimpleFilter) -> (r: Option<Vec<u64>>)
        requires
            field_wf(f.value@),
            schema.identifier is Some,
        ensures
            match r {
                Some(v) => self.leaf_ids(*schema, *f) == Some(v@),
                None => self.leaf_ids(*schema, *f) is None,
            },
    {
        let p = match Self::find_field(&schema.fields, &f.field_name) {
            Some(p) => p,
            None => return None,
        };
        let sid = match schema.identifier {
            Some(sid) => sid,
            None => return None,
        };
        let contains = f.operator == Operator::Contains;
        let bound = if contains {
            match &f.value {
                Field::String(s) => lowercase(s.as_str().as_bytes()),
                Field::Text(s) => lowercase(s.as_str().as_bytes()),
                _ => return None,
            }
        } else {
            f.value.encode()
        };
        let k = match self.find_slot(sid, p, contains) {
            Some(k) => k,
            None => return None,
        };
        Some(self.secondary[k].db.scan(f.operator, bound.as_slice()))
    }

    fn fits(schema: &Schema, fs: &Vec<SimpleFilter>, idx: &Vec<usize>) -> (r: bool)
        ensures
            r == composite_fits(*schema, leaves_view(fs@), idx@),
    {
        let ghost lv = leaves_view(fs@);
        if idx.len() < 2 || fs.len() < 1 || fs.len() > idx.len() {
            return false;
        }
        if fs[fs.len() - 1].operator == Operator::Contains {
            return false;
        }
        let mut i: usize = 0;
        while i < fs.len()
            invariant
                lv == leaves_view(fs@),
                1 <= fs@.len() <= idx@.len(),
                i <= fs@.len(),
                forall|j: int| 0 <= j < i ==> field_position_from(schema.fields@, (#[trigger] lv[j]).0, 0) == Some(idx@[j] as int),
                forall|j: int| 0 <= j < i && j < fs@.len() - 1 ==> (#[trigger] lv[j]).1 == Operator::EQ,
            decreases fs@.len() - i,
        {
            assert(lv[i as int] == leaf_view(fs@[i as int]));
            match Self::find_field(&schema.fields, &fs[i].field_name) {
                Some(p) => {
                    if p != idx[i] {
                        return false;
                    }
                },
                None => return false,
            }
            if i + 1 < fs.len() && fs[i].operator != Operator::EQ {
                return false;
            }
            i = i + 1;
        }
        assert(lv.last() == leaf_view(fs@[fs@.len() - 1]));
        true
    }

    fn find_composite(&self, schema: &Schema, fs: &Vec<SimpleFilter>) -> (r: Option<usize>)
        requires
            schema.identifier is Some,
        ensures
            match r {
                Some(k) => self.composite_slot_from(*schema, leaves_view(fs@), 0) == Some(k as int) && k < self.secondary@.len(),
                None => self.composite_slot_from(*schema, leaves_view(fs@), 0) is None,
            },
    {
        let sid = match schema.identifier {
            Some(sid) => sid,
            None => return None,
        };
        let mut k: usize = self.secondary.len();
        let mut found: Option<usize> = None;
        while k > 0
            invariant
                schema.identifier == Some(sid),
                k <= self.secondary@.len(),
                match found {
                    Some(j) => self.composite_slot_from(*schema, leaves_view(fs@), k as int) == Some(j as int) && j < self.secondary@.len(),
                    None => self.composite_slot_from(*schema, leaves_view(fs@), k as int) is None,
                },
            decreases k,
        {
            k = k - 1;
            if self.secondary[k].schema_id == sid && !self.secondary[k].full_text && Self::fits(schema, fs, &self.secondary[k].fields) {
                found = Some(k);
            }
        }
        found
    }

    fn composite(&self, schema: &Schema, fs: &Vec<SimpleFilter>) -> (r: Option<Vec<u64>>)
        requires
            schema.identifier is Some,
            forall|i: int| 0 <= i < fs@.len() ==> field_wf((#[trigger] fs@[i]).value@),
        ensures
            match r {
                Some(v) => self.composite_ids(*schema, leaves_view(fs@)) == Some(v@),
                None => self.composite_ids(*schema, leaves_view(fs@)) is None,
            },
    {
        let k = match self.find_composite(schema, fs) {
            Some(k) => k,
            None => return None,
        };
        let ghost lv = leaves_view(fs@);
        proof { self.lemma_composite_slot_fits(*schema, lv, 0); }
        let n = fs.len();
        let mut prefix: Vec<u8> = Vec::new();
        let mut i: usize = 0;
        assert(prefix@ =~= concat_encodings(lv.subrange(0, 0)));
        while i + 1 < n
            invariant
                lv == leaves_view(fs@),
                n == fs@.len(),
                n >= 1,
                i < n,
                forall|j: int| 0 <= j < fs@.len() ==> field_wf((#[trigger] fs@[j]).value@),
                prefix@ == concat_encodings(lv.subrange(0, i as int)),
            decreases n - i,
        {
            assert(lv.subrange(0, i + 1).drop_last() =~= lv.subrange(0, i as int));
            assert(lv[i as int] == leaf_view(fs@[i as int]));
            fs[i].value.encode_into(&mut prefix);
            i = i + 1;
        }
        assert(lv.subrange(0, n - 1) =~= lv.drop_last());
        assert(lv.last() == leaf_view(fs@[n - 1]));
        let last = &fs[n - 1];
        let bound = last.value.encode();
        let whole = n == self.secondary[k].fields.len();
        Some(self.secondary[k].db.scan_composite(prefix.as_slice(), last.operator, bound.as_slice(), whole))
    }

    proof fn lemma_composite_slot_fits(&self, schema: Schema, fs: Seq<(Seq<char>, Operator, crate::field::FieldView)>, k: int)
        ensures
            self.composite_slot_from(schema, fs, k) matches Some(j) ==> k <= j < self.index_count_view()
                && composite_fits(schema, fs, self.index_fields_view(j)),
        decreases self.index_count_view() - k,
    {
        if 0 <= k < self.index_count_view() {
            self.lemma_composite_slot_fits(schema, fs, k + 1);
        }
    }

    fn copy_filter(f: &SimpleFilter) -> (r: SimpleFilter)
        ensures
            leaf_view(r) == leaf_view(*f),
    {
        SimpleFilter { field_name: f.field_name.clone(), operator: f.operator, value: f.value.duplicate() }
    }

    fn ids_of_schema(&self, sid: SchemaIdentifier) -> (r: Vec<u64>)
        ensures
            r@ == schema_ids(self.records_view(), sid),
    {
        let ghost recs = self.records_view();
        let mut out: Vec<u64> = Vec::new();
        let mut i: usize = 0;
        while i < self.records.len()
            invariant
                recs == self.records_view(),
                i <= recs.len(),
                self.records@.len() == recs.len(),
                out@ == schema_ids(recs.subrange(0, i as int), sid),
            decreases recs.len() - i,
        {
            assert(recs[i as int] == record_pair_view(self.records@[i as int]));
            assert(recs.subrange(0, i + 1).drop_last() =~= recs.subrange(0, i as int));
            if self.records[i].1.schema_id == Some(sid) {
                out.push(self.records[i].0);
            }
            i = i + 1;
        }
        assert(recs.subrange(0, recs.len() as int) =~= recs);
        out
    }

    /// The IDs that a filter selects, before paging.
    #[verifier::rlimit(60)]
    fn select(&self, schema: &Schema, filter: &Option<FilterExpression>) -> (r: Option<Vec<u64>>)
        requires
            schema.identifier is Some,
            filter_values_wf(*filter),
        ensures
            match r {
                Some(v) => self.filter_ids(*schema, *filter) == Some(v@),
                None => self.filter_ids(*schema, *filter) is None,
            },
    {
        let sid = match schema.identifier {
            Some(sid) => sid,
            None => return None,
        };
        match filter {
            None => Some(self.ids_of_schema(sid)),
            Some(FilterExpression::Simple(f)) => match self.leaf(schema, f) {
                Some(ids) => Some(ids),
                None => {
                    let one = vec![Self::copy_filter(f)];
                    assert(leaves_view(one@) =~= seq![leaf_view(*f)]);
                    self.composite(schema, &one)
                },
            },
            Some(FilterExpression::And(fs)) => {
                if fs.len() == 0 {
                    return Some(self.ids_of_schema(sid));
                }
                match self.composite(schema, fs) {
                    Some(ids) => return Some(ids),
                    None => {},
                }
                let mut scans: Vec<Vec<u64>> = Vec::new();
                let mut j: usize = 0;
                while j < fs.len()
                    invariant
                        j <= fs@.len(),
                        *filter == Some(FilterExpression::And(*fs)),
                        fs@.len() > 0,
                        self.composite_ids(*schema, leaves_view(fs@)) is None,
                        schema.identifier is Some,
                        forall|i: int| 0 <= i < fs@.len() ==> field_wf((#[trigger] fs@[i]).value@),
                        scans@.len() == j,
                        self.leaves_ids(*schema, fs@.subrange(0, j as int)) == Some(scans@.map_values(|v: Vec<u64>| v@)),
                    decreases fs@.len() - j,
                {
                    assert(fs@.subrange(0, j + 1).drop_last() =~= fs@.subrange(0, j as int));
                    match self.leaf(schema, &fs[j]) {
                        Some(v) => {
                            let ghost before = scans@;
                            scans.push(v);
                            assert(scans@.map_values(|v: Vec<u64>| v@) =~= before.map_values(|v: Vec<u64>| v@).push(v@));
                        },
                        None => {
                            assert(self.leaves_ids(*schema, fs@.subrange(0, j + 1)) is None);
                            proof { self.lemma_leaves_none(*schema, fs@, j as int + 1); }
                            assert(self.leaves_ids(*schema, fs@) is None);
                            assert(fs@.len() > 0);
                            assert(self.filter_ids(*schema, Some(FilterExpression::And(*fs))) is None);
                            return None;
                        },
                    }
                    j = j + 1;
                }
                assert(fs@.subrange(0, fs@.len() as int) =~= fs@);
                let ghost rs = scans@.map_values(|v: Vec<u64>| v@);
                let mut out: Vec<u64> = Vec::new();
                let mut i: usize = 0;
                while i < scans[0].len()
                    invariant
                        scans@.len() > 0,
                        *filter == Some(FilterExpression::And(*fs)),
                        fs@.len() > 0,
                        self.composite_ids(*schema, leaves_view(fs@)) is None,
                        self.leaves_ids(*schema, fs@) == Some(rs),
                        rs == scans@.map_values(|v: Vec<u64>| v@),
                        i <= scans@[0]@.len(),
                        out@ == keep_common(rs[0].subrange(0, i as int), rs.drop_first()),
                    decreases scans@[0]@.len() - i,
                {
                    let x = scans[0][i];
                    assert(rs[0].subrange(0, i + 1).drop_last() =~= rs[0].subrange(0, i as int));
                    assert(rs[0].subrange(0, i + 1).last() == x);
                    let mut all = true;
                    let mut m: usize = 1;
                    while m < scans.len()
                        invariant
                            1 <= m <= scans@.len(),
                            rs == scans@.map_values(|v: Vec<u64>| v@),
                            all == forall|j: int| 0 <= j < m - 1 ==> (#[trigger] rs.drop_first()[j]).contains(x),
                        decreases scans@.len() - m,
                    {
                        let c = contains_id(&scans[m], x);
                        assert(rs.drop_first()[m - 1] == scans@[m as int]@);
                        if !c {
                            all = false;
                        }
                        m = m + 1;
                    }
                    if all {
                        out.push(x);
                    }
                    i = i + 1;
                }
                assert(rs[0].subrange(0, rs[0].len() as int) =~= rs[0]);
                Some(out)
            },
        }
    }

    proof fn lemma_leaves_none(&self, schema: Schema, fs: Seq<SimpleFilter>, j: int)
        requires
            0 <= j <= fs.len(),
            self.leaves_ids(schema, fs.subrange(0, j)) is None,
        ensures
            self.leaves_ids(schema, fs) is None,
        decreases fs.len() - j,
    {
        if j < fs.len() {
            assert(fs.subrange(0, j + 1).drop_last() =~= fs.subrange(0, j));
            self.lemma_leaves_none(schema, fs, j + 1);
        } else {
            assert(fs.subrange(0, j) =~= fs);
        }
    }

    fn hydrate_ids(&self, ids: &Vec<u64>) -> (r: Vec<RecordWithId>)
        requires
            self.wf(),
        ensures
            results_view(r@) == hydrate(self.records_view(), ids@),
    {
        let mut out: Vec<RecordWithId> = Vec::new();
        let mut i: usize = 0;
        while i < ids.len()
            invariant
                self.wf(),
                i <= ids@.len(),
                results_view(out@) == hydrate(self.records_view(), ids@.subrange(0, i as int)),
            decreases ids@.len() - i,
        {
            assert(ids@.subrange(0, i + 1).drop_last() =~= ids@.subrange(0, i as int));
            let id = ids[i];
            match self.record_position(id) {
                Some(p) => {
                    assert(self.records_view()[p as int] == record_pair_view(self.records@[p as int]));
                    let record = self.records[p].1.duplicate();
                    let ghost before = out@;
                    out.push(RecordWithId { id, record });
                    assert(results_view(out@) =~= results_view(before).push((id, self.records_view()[p as int].1)));
                },
                None => {},
            }
            i = i + 1;
        }
        assert(ids@.subrange(0, ids@.len() as int) =~= ids@);
        out
    }

    /// The records of schema `schema_name` that `query` selects, with their IDs.
    pub fn query(&self, schema_name: &str, query: &QueryExpression) -> (r: Result<Vec<RecordWithId>, CacheError>)
        requires
            self.wf(),
            query_values_wf(*query),
        ensures
            match self.query_spec(schema_name@, *query) {
                Ok(ids) => r matches Ok(v) && results_view(v@) == hydrate(self.records_view(), ids),
                Err(e) => r matches Err(e2) && same_error(e2, e, schema_name@),
            },
    {
        let ids = match self.query_ids(schema_name, query) {
            Ok(ids) => ids,
            Err(e) => return Err(e),
        };
        Ok(self.hydrate_ids(&ids))
    }

    /// How many records `query` selects from schema `schema_name`.
    pub fn count(&self, schema_name: &str, query: &QueryExpression) -> (r: Result<usize, CacheError>)
        requires
            self.wf(),
            query_values_wf(*query),
        ensures
            match self.query_spec(schema_name@, *query) {
                Ok(ids) => r == Ok::<usize, CacheError>(hydrate(self.records_view(), ids).len() as usize),
                Err(e) => r matches Err(e2) && same_error(e2, e, schema_name@),
            },
    {
        match self.query_ids(schema_name, query) {
            Ok(ids) => Ok(self.hydrate_ids(&ids).len()),
            Err(e) => Err(e),
        }
    }

    fn query_ids(&self, schema_name: &str, query: &QueryExpression) -> (r: Result<Vec<u64>, CacheError>)
        requires
            self.wf(),
            query_values_wf(*query),
        ensures
            match self.query_spec(schema_name@, *query) {
                Ok(ids) => r matches Ok(v) && v@ == ids,
                Err(e) => r matches Err(e2) && same_error(e2, e, schema_name@),
            },
    {
        let pos = match self.find_schema_position(schema_name) {
            Some(p) => p,
            None => return Err(CacheError::SchemaNotFound(schema_name.to_owned())),
        };
        if !order_is_supported(query) {
            return Err(CacheError::OrderByNotSupported);
        }
        let schema = &self.schemas[pos].schema;
        assert(self.schemas_view()[pos as int] == *schema);
        let ids = match self.select(schema, &query.filter) {
            Some(ids) => ids,
            None => return Err(CacheError::IndexNotFound),
        };
        Ok(apply_paging(ids, query.skip, query.limit))
    }
}

fn contains_id(v: &Vec<u64>, x: u64) -> (r: bool)
    ensures
        r == v@.contains(x),
{
    let mut i: usize = 0;
    while i < v.len()
        invariant
            i <= v@.len(),
            forall|j: int| 0 <= j < i ==> v@[j] != x,
        decreases v@.len() - i,
    {
        if v[i] == x {
            return true;
        }
        i = i + 1;
    }
    false
}

impl LmdbRwCache {
    /// A query of schema `name` by `field LTE bound`, answered by a sorted index
    /// on that field alone, returns the ID of an entry with a smaller key
    /// before the ID of an entry whose key is within the bound.
    pub proof fn lemma_query_in_key_order(&self, name: Seq<char>, q: QueryExpression, f: SimpleFilter, k: int, a: int, b: int)
        requires
            self.wf(),
            q.filter == Some(FilterExpression::Simple(f)),
            f.operator == Operator::LTE,
            q.order_by@.len() == 0,
            q.skip == 0,
            q.limit is None,
            name_position_from(self.schema_names_view(), name, 0) matches Some(i)
                && field_position_from(self.schemas_view()[i].fields@, f.field_name@, 0) matches Some(p)
                && self.slot_from(self.schemas_view()[i].identifier->0, p, false, 0) == Some(k),
            0 <= a < self.index_view(k).len(),
            0 <= b < self.index_view(k).len(),
            crate::index::lex_lt(self.index_view(k)[a].0, self.index_view(k)[b].0),
            crate::index::key_accepted(Operator::LTE, encoding(f.value@), self.index_view(k)[b].0),
        ensures
            self.query_spec(name, q) is Ok,
            exists|x: int, y: int| 0 <= x < y < self.query_spec(name, q)->Ok_0.len()
                && #[trigger] self.query_spec(name, q)->Ok_0[x] == self.index_view(k)[a].1
                && #[trigger] self.query_spec(name, q)->Ok_0[y] == self.index_view(k)[b].1,
    {
        let i = name_position_from(self.schema_names_view(), name, 0)->0;
        let schema = self.schemas_view()[i];
        let p = field_position_from(schema.fields@, f.field_name@, 0)->0;
        self.lemma_slot_from_in_range(schema.identifier->0, p, false, 0);
        assert(self.secondary@[k].db.wf());
        let ids = scan_spec(self.index_view(k), Operator::LTE, encoding(f.value@));
        assert(self.leaf_ids(schema, f) == Some(ids));
        assert(page(ids, 0, None) =~= ids);
        crate::index::lemma_scan_in_key_order(self.index_view(k), a, b, encoding(f.value@));
        assert(order_follows_index(q));
        assert(self.filter_ids(schema, q.filter) == Some(ids));
        assert(self.query_spec(name, q) == Ok::<Seq<u64>, CacheError>(ids));
        let (x, y) = choose|x: int, y: int| 0 <= x < y < ids.len()
            && #[trigger] ids[x] == self.index_view(k)[a].1 && #[trigger] ids[y] == self.index_view(k)[b].1;
        assert(0 <= x < y < ids.len() && ids[x] == self.index_view(k)[a].1 && ids[y] == self.index_view(k)[b].1);
        let r = self.query_spec(name, q)->Ok_0;
        assert(r == ids);
        assert(0 <= x < y < r.len() && r[x] == self.index_view(k)[a].1 && r[y] == self.index_view(k)[b].1);
    }

    proof fn lemma_slot_from_in_range(&self, sid: SchemaIdentifier, p: int, full_text: bool, k: int)
        ensures
            self.slot_from(sid, p, full_text, k) matches Some(j) ==> 0 <= j < self.index_count_view(),
        decreases self.index_count_view() - k,
    {
        if 0 <= k < self.index_count_view() {
            self.lemma_slot_from_in_range(sid, p, full_text, k + 1);
        }
    }
}

} // verus!
