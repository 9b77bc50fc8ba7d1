use std::collections::hash_map::DefaultHasher;
use std::hash::{Hash, Hasher};

use kv_graph::kv::{flush_batch, get_bucket_from_key, get_shard_from_value, group_mutations, KvMeta};
use kv_graph::wal::Mutation;

fn std_hash<T: Hash + ?Sized>(x: &T) -> u64 {
    let mut h = DefaultHasher::new();
    x.hash(&mut h);
    h.finish()
}

fn mutation(bucket: u32, key: &[u8], value: &[u8]) -> Mutation {
    Mutation {
        bucket,
        key_len: key.len() as u32,
        val_len: value.len() as u32,
        key: key.to_vec(),
        value: value.to_vec(),
    }
}

#[test]
fn bucket_is_the_key_hash_modulo_128() {
    for key in ["user123:watched", "user:130:watched", "", "ключ"] {
        let b = get_bucket_from_key(key.to_string());
        assert!((0..128).contains(&b));
        assert_eq!(b as u64, std_hash(&key.to_string()) % 128);
    }
}

#[test]
fn shard_is_the_value_hash_modulo_8() {
    for v in [vec![], vec![1u8, 2, 3], b"movie:10".to_vec()] {
        let s = get_shard_from_value(v.clone());
        assert!((0..8).contains(&s));
        assert_eq!(s as u64, std_hash(&v) % 8);
    }
}

#[test]
fn append_logs_key_bytes_value_and_bucket() {
    let m = Mutation::for_entry("user123:watched".to_string(), b"movie:10".to_vec());
    assert_eq!(m.bucket as i32, get_bucket_from_key("user123:watched".to_string()));
    assert_eq!(m.key, b"user123:watched".to_vec());
    assert_eq!(m.key_len, 15);
    assert_eq!(m.value, b"movie:10".to_vec());
    assert_eq!(m.val_len, 8);
    let m = Mutation::for_entry("ключ".to_string(), vec![]);
    assert_eq!(m.key, "ключ".as_bytes().to_vec());
    assert_eq!(m.key_len, 8);
    assert_eq!(String::from_utf8(m.key).unwrap(), "ключ");
}

#[test]
fn grouping_collects_values_per_bucket_and_key_in_order() {
    let ms = vec![
        mutation(1, b"a", b"1"),
        mutation(2, b"b", b"2"),
        mutation(1, b"a", b"3"),
        mutation(2, b"a", b"4"),
        mutation(2, b"b", b"5"),
    ];
    let groups = group_mutations(&ms);
    assert_eq!(groups.len(), 3);
    assert_eq!((groups[0].bucket, groups[0].key.clone()), (1, b"a".to_vec()));
    assert_eq!(groups[0].values, vec![b"1".to_vec(), b"3".to_vec()]);
    assert_eq!((groups[1].bucket, groups[1].key.clone()), (2, b"b".to_vec()));
    assert_eq!(groups[1].values, vec![b"2".to_vec(), b"5".to_vec()]);
    assert_eq!((groups[2].bucket, groups[2].key.clone()), (2, b"a".to_vec()));
    assert_eq!(groups[2].values, vec![b"4".to_vec()]);
}

#[test]
fn grouping_nothing_gives_no_groups() {
    assert!(group_mutations(&vec![]).is_empty());
    assert!(flush_batch(&vec![]).is_none());
}

#[test]
fn flush_batch_is_the_group_of_the_first_mutation() {
    let ms = vec![mutation(5, b"k", b"x"), mutation(6, b"j", b"y"), mutation(5, b"k", b"z")];
    let g = flush_batch(&ms).unwrap();
    assert_eq!(g.bucket, 5);
    assert_eq!(g.key, b"k".to_vec());
    assert_eq!(g.values, vec![b"x".to_vec(), b"z".to_vec()]);
}

#[test]
fn statements_name_the_keyspace_and_table() {
    let meta = KvMeta { keyspace: "graph".to_string(), table: "edges".to_string() };
    let ks = format!(
        "
            CREATE KEYSPACE IF NOT EXISTS {}
            WITH REPLICATION = {{
                'class': 'SimpleStrategy',
                'replication_factor': 2
            }};
            ",
        meta.keyspace
    );
    assert_eq!(meta.create_keyspace_query(), ks);
    let table = format!(
        "
            CREATE TABLE IF NOT EXISTS {}.{} (
                bucket int,
                key text,
                value blob,
                PRIMARY KEY((bucket, key), value)
            );
            ",
        meta.keyspace, meta.table
    );
    assert_eq!(meta.create_table_query(), table);
    assert_eq!(
        meta.insert_statement(),
        "INSERT INTO graph.edges (bucket, key, value) values(?,?,?)"
    );
    assert_eq!(
        meta.select_statement(),
        "SELECT value FROM graph.edges WHERE bucket = ? AND key = ?"
    );
}
