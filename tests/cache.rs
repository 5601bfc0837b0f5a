use dozer_cache::cache::{CacheCommonOptions, CacheError, CacheWriteOptions, LmdbRwCache};
use dozer_cache::field::{Field, FieldType};
use dozer_cache::query::{FilterExpression, Operator, QueryExpression, SimpleFilter, SortDirection, SortOption};
use dozer_cache::storage::{NodeHandle, OpIdentifier};
use dozer_cache::types::{
    debug_check_schema_record_consistency, get_primary_key, FieldDefinition, IndexDefinition, Record, Schema,
    SchemaIdentifier,
};

fn sid(id: u16) -> SchemaIdentifier {
    SchemaIdentifier { id, version: 1 }
}

fn field(name: &str, typ: FieldType) -> FieldDefinition {
    FieldDefinition { name: name.to_string(), typ, nullable: false }
}

fn schema(id: u16, fields: Vec<FieldDefinition>, primary_index: Vec<usize>) -> Schema {
    Schema { identifier: Some(sid(id)), fields, primary_index }
}

fn record(id: u16, values: Vec<Field>) -> Record {
    Record { schema_id: Some(sid(id)), values, version: None }
}

fn cache_with(schemas: Vec<(String, Schema, Vec<IndexDefinition>)>) -> LmdbRwCache {
    LmdbRwCache::create(schemas, CacheCommonOptions::default(), CacheWriteOptions::default()).unwrap()
}

fn all() -> QueryExpression {
    QueryExpression { filter: None, order_by: vec![], skip: 0, limit: None }
}

fn filtered(filter: FilterExpression) -> QueryExpression {
    QueryExpression { filter: Some(filter), order_by: vec![], skip: 0, limit: None }
}

fn leaf(name: &str, operator: Operator, value: Field) -> SimpleFilter {
    SimpleFilter { field_name: name.to_string(), operator, value }
}

fn ids(cache: &LmdbRwCache, name: &str, q: &QueryExpression) -> Vec<u64> {
    cache.query(name, q).unwrap().iter().map(|r| r.id).collect()
}

fn cities() -> LmdbRwCache {
    let s = schema(3, vec![field("city", FieldType::String)], vec![]);
    let mut cache = cache_with(vec![("C".to_string(), s, vec![IndexDefinition::SortedInverted(vec![0])])]);
    for city in ["NYC", "SF", "NYC"] {
        cache.insert(&mut record(3, vec![Field::String(city.to_string())])).unwrap();
    }
    cache
}

fn people() -> LmdbRwCache {
    let s = schema(4, vec![field("age", FieldType::UInt), field("city", FieldType::String)], vec![]);
    let indexes = vec![IndexDefinition::SortedInverted(vec![0]), IndexDefinition::SortedInverted(vec![1])];
    let mut cache = cache_with(vec![("D".to_string(), s, indexes)]);
    for (age, city) in [(20, "NYC"), (30, "NYC"), (30, "SF"), (40, "SF")] {
        cache.insert(&mut record(4, vec![Field::UInt(age), Field::String(city.to_string())])).unwrap();
    }
    cache
}

#[test]
fn autokey_insert() {
    let s = schema(1, vec![field("n", FieldType::UInt)], vec![]);
    let mut cache = cache_with(vec![("A".to_string(), s, vec![])]);
    let mut r = record(1, vec![Field::UInt(7)]);
    assert_eq!(cache.insert(&mut r).unwrap(), 1);
    assert_eq!(r.version, Some(1));
    assert_eq!(cache.count("A", &all()).unwrap(), 1);
    assert_eq!(cache.get(&[]).unwrap_err(), CacheError::PrimaryKeyNotFound);
    assert_eq!(cache.insert(&mut record(1, vec![Field::UInt(7)])).unwrap(), 2);
    assert_eq!(cache.count("A", &all()).unwrap(), 2);
}

fn keyed() -> LmdbRwCache {
    let s = schema(2, vec![field("n", FieldType::UInt)], vec![0]);
    cache_with(vec![("B".to_string(), s, vec![])])
}

#[test]
fn primary_key_insert_collision() {
    let mut cache = keyed();
    assert_eq!(cache.insert(&mut record(2, vec![Field::UInt(42)])).unwrap(), 1);
    assert_eq!(cache.insert(&mut record(2, vec![Field::UInt(42)])).unwrap_err(), CacheError::PrimaryKeyExists);
    assert_eq!(cache.count("B", &all()).unwrap(), 1);
}

#[test]
fn update_path() {
    let mut cache = keyed();
    cache.insert(&mut record(2, vec![Field::UInt(42)])).unwrap();
    let pk42 = Field::UInt(42).encode();
    let pk99 = Field::UInt(99).encode();
    let mut new = record(2, vec![Field::UInt(99)]);
    assert_eq!(cache.update(&pk42, &mut new).unwrap(), 1);
    assert_eq!(new.version, Some(2));
    let got = cache.get(&pk99).unwrap();
    assert_eq!(got.record.version, Some(2));
    assert!(matches!(got.record.values[0], Field::UInt(99)));
    assert_eq!(cache.get(&pk42).unwrap_err(), CacheError::PrimaryKeyNotFound);
}

#[test]
fn update_increments_version_each_time() {
    let mut cache = keyed();
    cache.insert(&mut record(2, vec![Field::UInt(5)])).unwrap();
    let pk = Field::UInt(5).encode();
    for expected_old in 1..4u32 {
        let mut r = record(2, vec![Field::UInt(5)]);
        assert_eq!(cache.update(&pk, &mut r).unwrap(), expected_old);
        assert_eq!(cache.get(&pk).unwrap().record.version, Some(expected_old + 1));
    }
    assert_eq!(cache.get(&pk).unwrap().id, 1);
    assert_eq!(cache.update(&[1, 2], &mut record(2, vec![Field::UInt(1)])).unwrap_err(), CacheError::PrimaryKeyNotFound);
}

#[test]
fn delete_returns_version_and_reuses_id() {
    let mut cache = keyed();
    cache.insert(&mut record(2, vec![Field::UInt(8)])).unwrap();
    cache.insert(&mut record(2, vec![Field::UInt(9)])).unwrap();
    let pk = Field::UInt(8).encode();
    assert_eq!(cache.delete(&pk).unwrap(), 1);
    assert_eq!(cache.delete(&pk).unwrap_err(), CacheError::PrimaryKeyNotFound);
    assert_eq!(cache.count("B", &all()).unwrap(), 1);
    assert_eq!(cache.insert(&mut record(2, vec![Field::UInt(8)])).unwrap(), 1);
    assert_eq!(cache.insert(&mut record(2, vec![Field::UInt(10)])).unwrap(), 3);
}

#[test]
fn insert_then_delete_keeps_counts() {
    let mut cache = cities();
    let q = filtered(FilterExpression::Simple(leaf("city", Operator::GTE, Field::String(String::new()))));
    assert_eq!(cache.count("C", &q).unwrap(), 3);
    let s = schema(5, vec![field("k", FieldType::String)], vec![0]);
    let mut keyed = cache_with(vec![("K".to_string(), s, vec![IndexDefinition::SortedInverted(vec![0])])]);
    keyed.insert(&mut record(5, vec![Field::String("a".to_string())])).unwrap();
    let before = keyed.count("K", &all()).unwrap();
    keyed.insert(&mut record(5, vec![Field::String("b".to_string())])).unwrap();
    keyed.delete(&Field::String("b".to_string()).encode()).unwrap();
    assert_eq!(keyed.count("K", &all()).unwrap(), before);
    let idx = filtered(FilterExpression::Simple(leaf("k", Operator::GTE, Field::String(String::new()))));
    assert_eq!(keyed.count("K", &idx).unwrap(), 1);
    cache.insert(&mut record(3, vec![Field::String("LA".to_string())])).unwrap();
    assert_eq!(cache.count("C", &q).unwrap(), 4);
}

#[test]
fn secondary_equality() {
    let cache = cities();
    let q = filtered(FilterExpression::Simple(leaf("city", Operator::EQ, Field::String("NYC".to_string()))));
    let rs = cache.query("C", &q).unwrap();
    assert_eq!(rs.iter().map(|r| r.id).collect::<Vec<_>>(), vec![1, 3]);
    for r in &rs {
        assert!(matches!(&r.record.values[0], Field::String(s) if s == "NYC"));
    }
    assert_eq!(cache.count("C", &q).unwrap(), 2);
}

#[test]
fn range_and_intersection() {
    let cache = people();
    let q = filtered(FilterExpression::And(vec![
        leaf("age", Operator::GTE, Field::UInt(30)),
        leaf("city", Operator::EQ, Field::String("SF".to_string())),
    ]));
    let rs = cache.query("D", &q).unwrap();
    let got: Vec<(u64, String)> = rs
        .iter()
        .map(|r| match (&r.record.values[0], &r.record.values[1]) {
            (Field::UInt(a), Field::String(c)) => (*a, c.clone()),
            _ => panic!("unexpected record"),
        })
        .collect();
    assert_eq!(got, vec![(30, "SF".to_string()), (40, "SF".to_string())]);
}

#[test]
fn range_scans_follow_key_order() {
    let cache = people();
    let lt = filtered(FilterExpression::Simple(leaf("age", Operator::LT, Field::UInt(30))));
    assert_eq!(ids(&cache, "D", &lt), vec![1]);
    let lte = filtered(FilterExpression::Simple(leaf("age", Operator::LTE, Field::UInt(30))));
    assert_eq!(ids(&cache, "D", &lte), vec![1, 2, 3]);
    let gt = filtered(FilterExpression::Simple(leaf("age", Operator::GT, Field::UInt(30))));
    assert_eq!(ids(&cache, "D", &gt), vec![4]);
    let city = filtered(FilterExpression::Simple(leaf("city", Operator::LTE, Field::String("SF".to_string()))));
    assert_eq!(ids(&cache, "D", &city), vec![1, 2, 3, 4]);
}

#[test]
fn paging_applies_to_query_and_count() {
    let cache = people();
    let q = QueryExpression { filter: None, order_by: vec![], skip: 1, limit: Some(2) };
    assert_eq!(ids(&cache, "D", &q), vec![2, 3]);
    assert_eq!(cache.count("D", &q).unwrap(), 2);
    let q = QueryExpression { filter: None, order_by: vec![], skip: 10, limit: None };
    assert_eq!(cache.count("D", &q).unwrap(), 0);
}

#[test]
fn query_errors() {
    let cache = people();
    assert_eq!(cache.count("nope", &all()).unwrap_err(), CacheError::SchemaNotFound("nope".to_string()));
    let no_field = filtered(FilterExpression::Simple(leaf("zip", Operator::EQ, Field::UInt(1))));
    assert_eq!(cache.count("D", &no_field).unwrap_err(), CacheError::IndexNotFound);
    let contains = filtered(FilterExpression::Simple(leaf("city", Operator::Contains, Field::String("SF".to_string()))));
    assert_eq!(cache.query("D", &contains).unwrap_err(), CacheError::IndexNotFound);
    let ordered = QueryExpression {
        filter: None,
        order_by: vec![SortOption { field_name: "age".to_string(), direction: SortDirection::Ascending }],
        skip: 0,
        limit: None,
    };
    assert_eq!(cache.query("D", &ordered).unwrap_err(), CacheError::OrderByNotSupported);
}

#[test]
fn schema_errors() {
    let mut cache = keyed();
    let mut no_id = Record { schema_id: None, values: vec![Field::UInt(1)], version: None };
    assert_eq!(cache.insert(&mut no_id).unwrap_err(), CacheError::SchemaHasNoIdentifier);
    assert_eq!(cache.insert(&mut record(9, vec![Field::UInt(1)])).unwrap_err(), CacheError::SchemaIdentifierNotFound(sid(9)));
    assert_eq!(cache.get_schema(sid(9)).unwrap_err(), CacheError::SchemaIdentifierNotFound(sid(9)));
    assert_eq!(cache.get_schema(sid(2)).unwrap().primary_index, vec![0]);
    assert_eq!(cache.get_schema_and_indexes_by_name("B").unwrap().0.identifier, Some(sid(2)));
    assert_eq!(cache.get_schema_and_indexes_by_name("Z").unwrap_err(), CacheError::SchemaNotFound("Z".to_string()));

    let s = schema(1, vec![field("n", FieldType::UInt)], vec![]);
    let dup = LmdbRwCache::create(
        vec![("A".to_string(), s.clone(), vec![]), ("A2".to_string(), s, vec![])],
        CacheCommonOptions::default(),
        CacheWriteOptions::default(),
    );
    assert_eq!(dup.unwrap_err(), CacheError::DuplicateSchemaIdentifier(sid(1)));
    let unnamed = Schema { identifier: None, fields: vec![], primary_index: vec![] };
    let none = LmdbRwCache::create(vec![("X".to_string(), unnamed, vec![])], CacheCommonOptions::default(), CacheWriteOptions::default());
    assert_eq!(none.unwrap_err(), CacheError::SchemaHasNoIdentifier);
}

#[test]
fn checkpoint_overwrite() {
    let mut cache = keyed();
    let na = NodeHandle { bytes: vec![1] };
    let nb = NodeHandle { bytes: vec![2] };
    let op1 = OpIdentifier { txid: 1, seq_in_tx: 0 };
    let op2 = OpIdentifier { txid: 2, seq_in_tx: 0 };
    let op3 = OpIdentifier { txid: 3, seq_in_tx: 7 };
    cache.commit(&vec![(na.clone(), op1), (nb.clone(), op2)]).unwrap();
    assert_eq!(cache.get_checkpoint().len(), 2);
    cache.commit(&vec![(na.clone(), op3)]).unwrap();
    assert_eq!(cache.get_checkpoint(), vec![(na.clone(), op3)]);
    cache.commit(&vec![(nb.clone(), op1), (nb.clone(), op2)]).unwrap();
    assert_eq!(cache.get_checkpoint(), vec![(nb, op1)]);
}

#[test]
fn defaults_and_helpers() {
    let o = CacheCommonOptions::default();
    assert_eq!((o.max_readers, o.max_db_size, o.intersection_chunk_size), (1000, 1000, 100));
    assert!(o.path.is_none());
    assert_eq!(CacheWriteOptions::default().max_size, 1024 * 1024 * 1024 * 1024);
    let key = get_primary_key(&vec![1, 0], &vec![Field::UInt(1), Field::Boolean(true)]);
    assert_eq!(key, vec![3, 1, 1, 0, 0, 0, 0, 0, 0, 0, 1]);
    let s = schema(1, vec![field("n", FieldType::UInt), FieldDefinition { name: "m".to_string(), typ: FieldType::String, nullable: true }], vec![]);
    assert!(debug_check_schema_record_consistency(&s, &record(1, vec![Field::UInt(1), Field::Null])));
    assert!(!debug_check_schema_record_consistency(&s, &record(1, vec![Field::Null, Field::Null])));
    assert!(!debug_check_schema_record_consistency(&s, &record(2, vec![Field::UInt(1), Field::Null])));
    assert!(!debug_check_schema_record_consistency(&s, &record(1, vec![Field::UInt(1)])));
    let named = LmdbRwCache::open(
        CacheCommonOptions { path: Some(("/tmp".to_string(), "cache".to_string())), ..CacheCommonOptions::default() },
        CacheWriteOptions::default(),
    )
    .unwrap();
    assert_eq!(named.name(), "cache");
}

fn notes() -> LmdbRwCache {
    let s = schema(6, vec![field("id", FieldType::UInt), field("body", FieldType::Text)], vec![0]);
    let mut cache = cache_with(vec![("E".to_string(), s, vec![IndexDefinition::FullText(1)])]);
    for (id, body) in [(1, "Hello world"), (2, "hello  THERE\tworld hello"), (3, "bye")] {
        cache.insert(&mut record(6, vec![Field::UInt(id), Field::Text(body.to_string())])).unwrap();
    }
    cache
}

fn contains(word: &str) -> QueryExpression {
    filtered(FilterExpression::Simple(leaf("body", Operator::Contains, Field::String(word.to_string()))))
}

#[test]
fn full_text_contains() {
    let mut cache = notes();
    assert_eq!(ids(&cache, "E", &contains("world")), vec![1, 2]);
    assert_eq!(ids(&cache, "E", &contains("HELLO")), vec![1, 2]);
    assert_eq!(ids(&cache, "E", &contains("there")), vec![2]);
    assert_eq!(ids(&cache, "E", &contains("bye")), vec![3]);
    assert_eq!(cache.count("E", &contains("missing")).unwrap(), 0);
    cache.delete(&Field::UInt(2).encode()).unwrap();
    assert_eq!(ids(&cache, "E", &contains("world")), vec![1]);
    assert_eq!(cache.count("E", &contains("there")).unwrap(), 0);
    let not_text = filtered(FilterExpression::Simple(leaf("body", Operator::Contains, Field::UInt(1))));
    assert_eq!(cache.count("E", &not_text).unwrap_err(), CacheError::IndexNotFound);
    let eq = filtered(FilterExpression::Simple(leaf("body", Operator::EQ, Field::Text("bye".to_string()))));
    assert_eq!(cache.count("E", &eq).unwrap_err(), CacheError::IndexNotFound);
}

#[test]
fn full_text_and_intersection() {
    let cache = notes();
    let q = filtered(FilterExpression::And(vec![
        leaf("body", Operator::Contains, Field::String("world".to_string())),
        leaf("body", Operator::Contains, Field::String("there".to_string())),
    ]));
    assert_eq!(ids(&cache, "E", &q), vec![2]);
}

#[test]
fn order_by_the_scanned_field() {
    let cache = people();
    let order = |direction| vec![SortOption { field_name: "age".to_string(), direction }];
    let asc = QueryExpression {
        filter: Some(FilterExpression::Simple(leaf("age", Operator::GTE, Field::UInt(30)))),
        order_by: order(SortDirection::Ascending),
        skip: 0,
        limit: None,
    };
    assert_eq!(ids(&cache, "D", &asc), vec![2, 3, 4]);
    let desc = QueryExpression { order_by: order(SortDirection::Descending), ..asc.clone() };
    assert_eq!(cache.count("D", &desc).unwrap_err(), CacheError::OrderByNotSupported);
    let other = QueryExpression {
        order_by: vec![SortOption { field_name: "city".to_string(), direction: SortDirection::Ascending }],
        ..asc
    };
    assert_eq!(cache.count("D", &other).unwrap_err(), CacheError::OrderByNotSupported);
}

fn pairs() -> LmdbRwCache {
    let s = schema(7, vec![field("city", FieldType::String), field("age", FieldType::UInt)], vec![]);
    let mut cache = cache_with(vec![("F".to_string(), s, vec![IndexDefinition::SortedInverted(vec![0, 1])])]);
    for (city, age) in [("NYC", 30), ("SF", 20), ("NYC", 20), ("SF", 40)] {
        cache.insert(&mut record(7, vec![Field::String(city.to_string()), Field::UInt(age)])).unwrap();
    }
    cache
}

#[test]
fn composite_index_answers_leading_fields() {
    let cache = pairs();
    let nyc = filtered(FilterExpression::Simple(leaf("city", Operator::EQ, Field::String("NYC".to_string()))));
    assert_eq!(ids(&cache, "F", &nyc), vec![3, 1]);
    let range = filtered(FilterExpression::And(vec![
        leaf("city", Operator::EQ, Field::String("NYC".to_string())),
        leaf("age", Operator::GTE, Field::UInt(25)),
    ]));
    assert_eq!(ids(&cache, "F", &range), vec![1]);
    let exact = filtered(FilterExpression::And(vec![
        leaf("city", Operator::EQ, Field::String("SF".to_string())),
        leaf("age", Operator::EQ, Field::UInt(40)),
    ]));
    assert_eq!(ids(&cache, "F", &exact), vec![4]);
    let below = filtered(FilterExpression::And(vec![
        leaf("city", Operator::EQ, Field::String("SF".to_string())),
        leaf("age", Operator::LT, Field::UInt(40)),
    ]));
    assert_eq!(ids(&cache, "F", &below), vec![2]);
    let not_leading = filtered(FilterExpression::Simple(leaf("age", Operator::EQ, Field::UInt(20))));
    assert_eq!(cache.count("F", &not_leading).unwrap_err(), CacheError::IndexNotFound);
    let wrong_order = filtered(FilterExpression::And(vec![
        leaf("age", Operator::GTE, Field::UInt(25)),
        leaf("city", Operator::EQ, Field::String("NYC".to_string())),
    ]));
    assert_eq!(cache.count("F", &wrong_order).unwrap_err(), CacheError::IndexNotFound);
}

#[test]
fn failed_update_changes_nothing() {
    let mut cache = keyed();
    cache.insert(&mut record(2, vec![Field::UInt(42)])).unwrap();
    cache.insert(&mut record(2, vec![Field::UInt(99)])).unwrap();
    let pk42 = Field::UInt(42).encode();
    let mut clash = record(2, vec![Field::UInt(99)]);
    assert_eq!(cache.update(&pk42, &mut clash).unwrap_err(), CacheError::PrimaryKeyExists);
    assert_eq!(clash.version, Some(2));
    let kept = cache.get(&pk42).unwrap();
    assert_eq!((kept.id, kept.record.version), (1, Some(1)));
    assert_eq!(cache.count("B", &all()).unwrap(), 2);
    let mut missing = record(2, vec![Field::UInt(5)]);
    assert_eq!(cache.update(&[7], &mut missing).unwrap_err(), CacheError::PrimaryKeyNotFound);
    assert_eq!(missing.version, None);
    let mut no_schema = Record { schema_id: None, values: vec![Field::UInt(5)], version: None };
    assert_eq!(cache.update(&[7], &mut no_schema).unwrap_err(), CacheError::PrimaryKeyNotFound);
    assert_eq!(cache.update(&pk42, &mut no_schema).unwrap_err(), CacheError::SchemaHasNoIdentifier);
}

#[test]
fn failed_insert_still_sets_version_one() {
    let mut cache = keyed();
    cache.insert(&mut record(2, vec![Field::UInt(1)])).unwrap();
    let mut again = Record { schema_id: Some(sid(2)), values: vec![Field::UInt(1)], version: Some(9) };
    assert_eq!(cache.insert(&mut again).unwrap_err(), CacheError::PrimaryKeyExists);
    assert_eq!(again.version, Some(1));
    let mut unknown = Record { schema_id: Some(sid(8)), values: vec![Field::UInt(1)], version: Some(9) };
    assert_eq!(cache.insert(&mut unknown).unwrap_err(), CacheError::SchemaIdentifierNotFound(sid(8)));
    assert_eq!(unknown.version, Some(9));
}
