use custom_redis::aof::{del_line, expire_line, read_record, set_line, AofEntry};
use custom_redis::commands::InfoCommand;
use custom_redis::hnsw::HnswIndex;
use custom_redis::routing::{shard_index, NUM_SHARDS, VECTOR_DIM};
use custom_redis::shard::Shard;
use custom_redis::value::DbValue;
use custom_redis::worker::{ShardCommand, ShardReply};

fn vector(x: u32) -> Vec<u32> {
    vec![x; VECTOR_DIM]
}

fn text(v: &DbValue) -> Option<String> {
    match v {
        DbValue::String(s) => Some(s.clone()),
        _ => None,
    }
}

#[test]
fn read_after_write() {
    let mut s = Shard::new();
    s.insert_data("k".to_string(), DbValue::String("v".to_string()), Some(100), vector(7));
    let (v, e) = s.get("k").unwrap();
    assert_eq!(text(&v), Some("v".to_string()));
    assert_eq!(e, Some(100));
    assert_eq!(s.get_vector("k", 0), Some(vector(7)));
    assert!(s.get("other").is_none());
    assert!(s.check_wf());
}

#[test]
fn storing_a_key_again_reuses_its_slot() {
    let mut s = Shard::new();
    s.insert_data("k".to_string(), DbValue::String("a".to_string()), None, vector(1));
    s.insert_data("k".to_string(), DbValue::String("b".to_string()), None, vector(2));
    assert_eq!(s.values.len(), 1);
    assert!(s.free_slots.is_empty());
    assert_eq!(text(&s.get("k").unwrap().0), Some("b".to_string()));
    assert_eq!(s.live_entries().len(), 1);
    let st = s.slot_stats(0);
    assert_eq!(st.strings, 1);
    assert_eq!(st.active, 1);
    assert!(s.check_wf());
}

#[test]
fn a_key_stored_twice_then_removed_is_not_found() {
    let mut s = Shard::new();
    s.insert_data("k".to_string(), DbValue::String("v1".to_string()), None, vector(0));
    s.insert_data("k".to_string(), DbValue::String("v2".to_string()), None, vector(0));
    s.remove_data("k");
    let n = s.hnsw.nodes.len();
    assert!(s.search(&vec![Some(0); n], 1).is_empty());
    assert!(s.check_wf());
}

#[test]
fn remove_frees_the_slot_for_reuse() {
    let mut s = Shard::new();
    s.insert_data("a".to_string(), DbValue::String("1".to_string()), None, vector(1));
    s.insert_data("b".to_string(), DbValue::String("2".to_string()), None, vector(2));
    s.remove_data("a");
    assert!(s.get("a").is_none());
    assert_eq!(s.free_slots, vec![0]);
    assert!(matches!(s.values[0], DbValue::Empty));
    assert_eq!(s.keys[0], "");
    s.insert_data("c".to_string(), DbValue::String("3".to_string()), None, vector(3));
    assert_eq!(s.values.len(), 2);
    assert!(s.free_slots.is_empty());
    assert_eq!(s.keys[0], "c");
    assert_eq!(text(&s.get("b").unwrap().0), Some("2".to_string()));
    s.remove_data("missing");
    assert!(s.check_wf());
}

#[test]
fn expire_sets_the_time_of_a_live_key_only() {
    let mut s = Shard::new();
    s.insert_data("k".to_string(), DbValue::String("v".to_string()), None, vector(0));
    assert!(s.expire("k", 50));
    assert_eq!(s.get("k").unwrap().1, Some(50));
    assert!(!s.expire("nope", 50));
    assert_eq!(s.expired_keys(49), Vec::<String>::new());
    assert_eq!(s.expired_keys(50), vec!["k".to_string()]);
}

#[test]
fn zero_expiry_never_expires() {
    let mut s = Shard::new();
    s.insert_data("k".to_string(), DbValue::String("v".to_string()), Some(0), vector(0));
    assert!(s.expired_keys(1000).is_empty());
}

#[test]
fn hset_then_hget() {
    let mut s = Shard::new();
    let r = s.hset("h".to_string(), "f".to_string(), "1".to_string(), vector(1)).unwrap();
    assert!(r.0);
    let r = s.hset("h".to_string(), "f".to_string(), "2".to_string(), vector(2)).unwrap();
    assert!(!r.0);
    let r = s.hset("h".to_string(), "g".to_string(), "3".to_string(), vector(3)).unwrap();
    assert!(r.0);
    assert_eq!(s.hget("h", "f", 0), Ok(Some("2".to_string())));
    assert_eq!(s.hget("h", "g", 0), Ok(Some("3".to_string())));
    assert_eq!(s.hget("h", "x", 0), Ok(None));
    assert_eq!(s.hget("nokey", "f", 0), Ok(None));
    assert_eq!(s.get_vector("h", 0), Some(vector(3)));
    assert!(s.check_wf());
}

#[test]
fn hget_after_expiry_finds_nothing() {
    let mut s = Shard::new();
    s.hset("h".to_string(), "f".to_string(), "1".to_string(), vector(1)).unwrap();
    s.expire("h", 10);
    assert_eq!(s.hget("h", "f", 9), Ok(Some("1".to_string())));
    assert_eq!(s.hget("h", "f", 10), Ok(None));
}

#[test]
fn wrong_kind_is_refused() {
    let mut s = Shard::new();
    s.insert_data("k".to_string(), DbValue::String("v".to_string()), None, vector(0));
    let msg = "WRONGTYPE Operation against a key holding the wrong kind of value".to_string();
    assert_eq!(s.hget("k", "f", 0), Err(msg.clone()));
    assert_eq!(s.hset("k".to_string(), "f".to_string(), "v".to_string(), vector(1)).err(), Some(msg.clone()));
    assert_eq!(s.lpush("k".to_string(), "x".to_string(), vector(1)).err(), Some(msg));
    assert_eq!(text(&s.get("k").unwrap().0), Some("v".to_string()));
    assert_eq!(s.get_vector("k", 0), Some(vector(0)));
}

#[test]
fn lpush_puts_values_in_front() {
    let mut s = Shard::new();
    assert_eq!(s.lpush("l".to_string(), "a".to_string(), vector(1)).unwrap().0, 1);
    let (n, v) = s.lpush("l".to_string(), "b".to_string(), vector(2)).unwrap();
    assert_eq!(n, 2);
    match v {
        DbValue::List(l) => assert_eq!(l, vec!["b".to_string(), "a".to_string()]),
        _ => panic!("not a list"),
    }
}

#[test]
fn search_walks_to_the_best_neighbour() {
    let mut s = Shard::new();
    for (i, k) in ["a", "b", "c"].iter().enumerate() {
        s.insert_data(k.to_string(), DbValue::String(k.to_string()), None, vector(i as u32));
    }
    let found = s.search(&vec![Some(1), Some(5), Some(3)], 1);
    assert_eq!(found, vec![(1, "b".to_string())]);
    let found = s.search(&vec![Some(9), Some(5), Some(3)], 1);
    assert_eq!(found, vec![(0, "a".to_string())]);
    let found = s.search(&vec![None, Some(5), Some(3)], 1);
    assert_eq!(found, vec![(0, "a".to_string())]);
    s.remove_data("b");
    assert!(s.search(&vec![Some(1), Some(5), Some(3)], 1).is_empty());
    assert!(Shard::new().search(&vec![], 1).is_empty());
    s.insert_data("d".to_string(), DbValue::String("d".to_string()), None, vector(3));
    assert!(s.search(&vec![Some(1), Some(5), Some(3)], 0).is_empty());
}

#[test]
fn graph_links_each_node_to_the_entry_point() {
    let mut h = HnswIndex::new();
    assert_eq!((h.config.m, h.config.ef_construction, h.config.max_layers), (16, 128, 5));
    h.insert(0);
    h.insert(2);
    assert_eq!(h.entry_point, Some(0));
    assert_eq!(h.nodes.len(), 3);
    assert_eq!(h.nodes[0].neighbors[0], vec![2]);
    assert_eq!(h.nodes[2].neighbors[0], vec![0]);
    assert!(h.nodes[1].neighbors[0].is_empty());
    assert_eq!(h.nodes[1].neighbors.len(), 5);
    h.insert(2);
    assert_eq!(h.nodes[0].neighbors[0], vec![2]);
    for i in 3..30 {
        h.insert(i);
    }
    assert_eq!(h.nodes[0].neighbors[0].len(), 16);
    // once the entry point is full, a new node links to the first linked node with room
    assert_eq!(h.nodes[29].neighbors[0], vec![2]);
    assert_eq!(h.nodes[2].neighbors[0], (std::iter::once(0).chain(18..30)).collect::<Vec<usize>>());
}

#[test]
fn every_inserted_node_can_be_reached_from_the_entry_point() {
    let mut h = HnswIndex::new();
    for i in 0..60 {
        h.insert(i);
    }
    let mut seen = vec![false; h.nodes.len()];
    let mut todo = vec![h.entry_point.unwrap()];
    while let Some(i) = todo.pop() {
        if seen[i] {
            continue;
        }
        seen[i] = true;
        for &j in &h.nodes[i].neighbors[0] {
            todo.push(j);
        }
    }
    assert!(seen.iter().all(|s| *s));
    for i in 0..60 {
        assert!(!h.nodes[i].neighbors[0].contains(&i));
        assert!(h.nodes[i].neighbors[0].len() <= 16);
    }
}

#[test]
fn handle_serves_requests() {
    let mut s = Shard::new();
    let r = s.handle(
        ShardCommand::Store { key: "k".to_string(), value: DbValue::String("v".to_string()), exp: None, vector: vector(1) },
        0,
    );
    assert!(matches!(r, ShardReply::Done));
    match s.handle(ShardCommand::Get { key: "k".to_string() }, 0) {
        ShardReply::Value(Some((DbValue::String(v), None))) => assert_eq!(v, "v"),
        _ => panic!("unexpected reply"),
    }
    assert!(matches!(s.handle(ShardCommand::Expire { key: "k".to_string(), expire_at: 5 }, 0), ShardReply::Expired(true)));
    assert!(matches!(s.handle(ShardCommand::Remove { key: "k".to_string() }, 0), ShardReply::Done));
    assert!(matches!(s.handle(ShardCommand::GetVector { key: "k".to_string() }, 0), ShardReply::Vector(None)));
}

#[test]
fn corrupted_shards_are_detected() {
    let mut s = Shard::new();
    s.insert_data("k".to_string(), DbValue::String("v".to_string()), None, vector(1));
    assert!(s.check_wf());
    let mut bad = s.clone();
    bad.vectors.pop();
    assert!(!bad.check_wf());
    let mut bad = s.clone();
    bad.key_to_idx[0].1 = 3;
    assert!(!bad.check_wf());
    let mut bad = s.clone();
    bad.free_slots.push(0);
    assert!(!bad.check_wf());
    let mut bad = s.clone();
    bad.values[0] = DbValue::SetOf(vec!["x".to_string(), "x".to_string()]);
    assert!(!bad.check_wf());
    let mut bad = s.clone();
    bad.key_to_idx.clear();
    assert!(!bad.check_wf());
}

#[test]
fn keys_route_to_one_of_sixteen_shards() {
    for k in ["", "a", "user:1", "κλειδί"] {
        let i = shard_index(k);
        assert!(i < NUM_SHARDS);
        assert_eq!(i, shard_index(k));
    }
}

#[test]
fn remove_after_store_reads_nothing_and_keeps_other_keys() {
    let mut s = Shard::new();
    s.insert_data("keep".to_string(), DbValue::String("1".to_string()), Some(5), vector(1));
    s.insert_data("gone".to_string(), DbValue::String("2".to_string()), None, vector(2));
    s.remove_data("gone");
    assert!(s.get("gone").is_none());
    let (v, e) = s.get("keep").unwrap();
    assert_eq!(text(&v), Some("1".to_string()));
    assert_eq!(e, Some(5));
    assert_eq!(s.live_entries().len(), 1);
}

#[test]
fn refused_hset_leaves_the_value() {
    let mut s = Shard::new();
    s.insert_data("l".to_string(), DbValue::List(vec!["x".to_string()]), None, vector(1));
    assert!(s.hset("l".to_string(), "f".to_string(), "v".to_string(), vector(2)).is_err());
    assert!(matches!(s.get("l").unwrap().0, DbValue::List(ref l) if l == &vec!["x".to_string()]));
    assert_eq!(s.get_vector("l", 0), Some(vector(1)));
}

#[test]
fn lpush_answers_one_more_than_before() {
    let mut s = Shard::new();
    s.insert_data("l".to_string(), DbValue::List(vec!["b".to_string(), "c".to_string()]), None, vector(1));
    let (n, v) = s.lpush("l".to_string(), "a".to_string(), vector(9)).unwrap();
    assert_eq!(n, 3);
    assert!(matches!(v, DbValue::List(ref l) if l == &vec!["a".to_string(), "b".to_string(), "c".to_string()]));
    assert_eq!(s.get_vector("l", 0), Some(vector(9)));
}

#[test]
fn vectors_of_expired_keys_are_not_served() {
    let mut s = Shard::new();
    s.insert_data("k".to_string(), DbValue::String("v".to_string()), Some(10), vector(4));
    assert_eq!(s.get_vector("k", 9), Some(vector(4)));
    assert_eq!(s.get_vector("k", 10), None);
    s.insert_data("z".to_string(), DbValue::String("v".to_string()), Some(0), vector(5));
    assert_eq!(s.get_vector("z", 1000), Some(vector(5)));
}

#[test]
fn the_entry_point_keeps_at_most_m_neighbours() {
    let mut h = HnswIndex::new();
    h.config.m = 1;
    h.insert(0);
    h.insert(1);
    h.insert(2);
    assert_eq!(h.nodes[0].neighbors[0], vec![1]);
    assert_eq!(h.nodes[1].neighbors[0], vec![0, 2]);
    assert_eq!(h.nodes[2].neighbors[0], vec![1]);
    // re-inserting the entry point adds no link
    h.insert(0);
    assert_eq!(h.nodes[0].neighbors[0], vec![1]);
}

#[test]
fn info_adds_up_the_shards_that_answered() {
    let mut a = Shard::new();
    a.insert_data("x".to_string(), DbValue::String("1".to_string()), None, vector(1));
    a.insert_data("y".to_string(), DbValue::String("2".to_string()), None, vector(2));
    a.remove_data("y");
    let mut b = Shard::new();
    b.insert_data("z".to_string(), DbValue::String("3".to_string()), None, vector(3));
    let t = InfoCommand::totals(&vec![Some(a), None, Some(b)]);
    assert_eq!((t.keys, t.slots, t.free, t.vector_bytes), (2, 3, 1, 3 * 384 * 4));
    assert_eq!(t.lines, "shard_0:keys=1,slots=2,free=1\r\nshard_2:keys=1,slots=1,free=0\r\n");
}

fn replay_into(s: &mut Shard, lines: &[String]) {
    for l in lines {
        match read_record(l) {
            AofEntry::Store { key, value_text, expiry, .. } => {
                s.insert_data(key, DbValue::String(value_text), expiry, vector(0))
            }
            AofEntry::Delete { key } => s.remove_data(&key),
            AofEntry::ExpireAt { key, at } => {
                s.expire(&key, at);
            }
            _ => {}
        }
    }
}

fn answers(s: &Shard, keys: &[&str]) -> Vec<Option<(Option<String>, Option<u64>)>> {
    keys.iter().map(|k| s.get(k).map(|(v, e)| (text(&v), e))).collect()
}

#[test]
fn replaying_a_log_twice_changes_nothing() {
    let lines = vec![
        set_line("a", "1", None, "0"),
        expire_line("c", 7),
        set_line("b", "2", Some(9), "0"),
        del_line("a"),
        expire_line("b", 50),
        set_line("c", "3", None, "0"),
    ];
    let mut s = Shard::new();
    s.insert_data("c".to_string(), DbValue::String("old".to_string()), None, vector(0));
    s.insert_data("d".to_string(), DbValue::String("kept".to_string()), None, vector(0));
    replay_into(&mut s, &lines);
    let once = answers(&s, &["a", "b", "c", "d"]);
    assert_eq!(once[0], None);
    assert_eq!(once[1], Some((Some("2".to_string()), Some(50))));
    assert_eq!(once[2], Some((Some("3".to_string()), None)));
    assert_eq!(once[3], Some((Some("kept".to_string()), None)));
    replay_into(&mut s, &lines);
    assert_eq!(answers(&s, &["a", "b", "c", "d"]), once);
    assert!(s.check_wf());
}

#[test]
fn a_rewritten_log_replays_to_the_same_contents() {
    let mut s = Shard::new();
    s.insert_data("x".to_string(), DbValue::String("1".to_string()), Some(20), vector(0));
    s.insert_data("y".to_string(), DbValue::String("2".to_string()), None, vector(0));
    s.insert_data("z".to_string(), DbValue::String("3".to_string()), None, vector(0));
    s.remove_data("z");
    let lines: Vec<String> = s
        .live_entries()
        .into_iter()
        .map(|(k, idx)| match &s.values[idx] {
            DbValue::String(v) => set_line(&k, v, s.expiries[idx], "0"),
            _ => unreachable!(),
        })
        .collect();
    let mut fresh = Shard::new();
    replay_into(&mut fresh, &lines);
    assert_eq!(answers(&fresh, &["x", "y", "z"]), answers(&s, &["x", "y", "z"]));
}
