use custom_redis::aof::{aof_fields, del_line, expire_line, read_record, set_line, AofEntry};
use custom_redis::commands::{
    dispatch, CommandKind, DelCommand, ExpireCommand, ExportCommand, GetCommand, HgetCommand, HsetCommand,
    InfoCommand, LpushCommand, PingCommand, SearchCommand, SetCommand, StatsCommand,
};
use custom_redis::resp::{bulk, error, header_count, integer, null_bulk, starts_request};
use custom_redis::value::DbValue;

fn strings(v: &[&str]) -> Vec<String> {
    v.iter().map(|s| s.to_string()).collect()
}

#[test]
fn log_records_have_tab_separated_fields() {
    assert_eq!(set_line("k", "{\"String\":\"v\"}", Some(12), "0.5,1"), "SET\tk\t{\"String\":\"v\"}\t12\t0.5,1\n");
    assert_eq!(set_line("k", "\"Empty\"", None, "0"), "SET\tk\t\"Empty\"\t0\t0\n");
    assert_eq!(del_line("k"), "DEL\tk\n");
    assert_eq!(expire_line("k", 99), "EXPIRE\tk\t99\n");
}

#[test]
fn a_logged_set_reads_back() {
    let line = set_line("key", "{\"String\":\"v\"}", Some(77), "1,2,3");
    match read_record(&line) {
        AofEntry::Store { key, value_text, expiry, vector_text } => {
            assert_eq!(key, "key");
            assert_eq!(value_text, "{\"String\":\"v\"}");
            assert_eq!(expiry, Some(77));
            assert_eq!(vector_text, "1,2,3");
        }
        _ => panic!("not a store"),
    }
    match read_record(&set_line("key", "x", None, "0")) {
        AofEntry::Store { expiry, .. } => assert_eq!(expiry, None),
        _ => panic!("not a store"),
    }
}

#[test]
fn replay_reads_each_kind_of_line() {
    assert!(matches!(read_record(&del_line("k")), AofEntry::Delete { key } if key == "k"));
    assert!(matches!(read_record("del\tk"), AofEntry::Delete { key } if key == "k"));
    match read_record("SET name hello big world") {
        AofEntry::LegacyStore { key, text } => {
            assert_eq!(key, "name");
            assert_eq!(text, "hello big world");
        }
        _ => panic!("not a legacy record"),
    }
    match read_record("SET greeting hello big wide world") {
        AofEntry::LegacyStore { key, text } => {
            assert_eq!(key, "greeting");
            assert_eq!(text, "hello big wide world");
        }
        _ => panic!("not a legacy record"),
    }
    match read_record("SET name hello world") {
        AofEntry::LegacyStore { key, text } => {
            assert_eq!(key, "name");
            assert_eq!(text, "hello world");
        }
        _ => panic!("not a legacy record"),
    }
    assert!(matches!(read_record(&expire_line("k", 5)), AofEntry::ExpireAt { key, at: 5 } if key == "k"));
    assert!(matches!(read_record("EXPIRE\tk\tsoon"), AofEntry::Skip));
    assert!(matches!(read_record("EXPIRE k"), AofEntry::Skip));
    assert!(matches!(read_record("   "), AofEntry::Skip));
    assert!(matches!(read_record("GET a b"), AofEntry::Skip));
    assert_eq!(aof_fields("ONLYONE").len(), 1);
    assert_eq!(aof_fields("SET\tk\tv\tnot-a-number\tvec")[3], "not-a-number");
    assert!(matches!(read_record("SET\tk\tv\tnot-a-number\tvec"), AofEntry::Store { expiry: None, .. }));
}

#[test]
fn read_record_replays_each_logged_write() {
    match read_record(&set_line("user:1", "{\"List\":[\"a\"]}", Some(1_700_000_000), "0.25,-1,3")) {
        AofEntry::Store { key, value_text, expiry, vector_text } => {
            assert_eq!(key, "user:1");
            assert_eq!(value_text, "{\"List\":[\"a\"]}");
            assert_eq!(expiry, Some(1_700_000_000));
            assert_eq!(vector_text, "0.25,-1,3");
        }
        _ => panic!("not a store"),
    }
    // a zero expiry time is written as 0 and reads back as none
    assert!(matches!(read_record(&set_line("k", "v", Some(0), "1")), AofEntry::Store { expiry: None, .. }));
    assert!(matches!(read_record(&del_line("user:1")), AofEntry::Delete { key } if key == "user:1"));
    assert!(matches!(read_record(&expire_line("user:1", 42)), AofEntry::ExpireAt { key, at: 42 } if key == "user:1"));
    assert!(matches!(read_record(""), AofEntry::Skip));
    assert!(matches!(read_record("  Set\tk\tv  "), AofEntry::LegacyStore { key, text } if key == "k" && text == "v"));
    // an expiry stamp too large for u64 reads as none
    assert!(matches!(
        read_record("SET\tk\tv\t18446744073709551616\t1"),
        AofEntry::Store { expiry: None, .. }
    ));
    assert!(matches!(
        read_record("SET\tk\tv\t18446744073709551615\t1"),
        AofEntry::Store { expiry: Some(18446744073709551615), .. }
    ));
}

#[test]
fn resp_replies() {
    assert_eq!(bulk("hello"), "$5\r\nhello\r\n");
    assert_eq!(bulk("héllo"), "$6\r\nhéllo\r\n");
    assert_eq!(bulk(""), "$0\r\n\r\n");
    assert_eq!(null_bulk(), "$-1\r\n");
    assert_eq!(integer(42), ":42\r\n");
    assert_eq!(error("boom"), "-ERR boom\r\n");
}

#[test]
fn request_headers() {
    assert!(starts_request("*2\r\n"));
    assert!(!starts_request("PING\r\n"));
    assert!(!starts_request(""));
    assert_eq!(header_count("*3\r\n"), 3);
    assert_eq!(header_count("$11\r\n"), 11);
    assert_eq!(header_count("*x\r\n"), 0);
    assert_eq!(header_count("  *12  "), 12);
}

#[test]
fn commands_are_found_by_upper_cased_name() {
    assert!(matches!(dispatch("get"), Some(CommandKind::GetCommand)));
    assert!(matches!(dispatch("Similarity"), Some(CommandKind::SimilarityCommand)));
    assert!(matches!(CommandKind::from_name("SHUTDOWN"), Some(CommandKind::ShutdownCommand)));
    assert!(CommandKind::from_name("get").is_none());
    assert!(dispatch("FLUSHALL").is_none());
}

#[test]
fn get_replies() {
    assert_eq!(GetCommand::reply(&None, 10), "$-1\r\n");
    assert_eq!(GetCommand::reply(&Some((DbValue::String("v".into()), None)), 10), "$1\r\nv\r\n");
    assert_eq!(GetCommand::reply(&Some((DbValue::String("v".into()), Some(10))), 10), "$-1\r\n");
    assert_eq!(GetCommand::reply(&Some((DbValue::String("v".into()), Some(11))), 10), "$1\r\nv\r\n");
    assert_eq!(GetCommand::reply(&Some((DbValue::String("v".into()), Some(0))), 10), "$1\r\nv\r\n");
    assert_eq!(GetCommand::reply(&Some((DbValue::Empty, None)), 10), "$-1\r\n");
    assert_eq!(
        GetCommand::reply(&Some((DbValue::List(vec![]), None)), 10),
        "-WRONGTYPE Operation against a key holding the wrong kind of value\r\n"
    );
    assert_eq!(GetCommand::arity_error(1), Some("-ERR missing key for 'get' command\r\n".to_string()));
    assert_eq!(GetCommand::arity_error(2), None);
}

#[test]
fn set_options() {
    assert_eq!(SetCommand::ex_seconds(&strings(&["SET", "k", "v", "ex", "30"])), Some(30));
    assert_eq!(SetCommand::ex_seconds(&strings(&["SET", "k", "v", "PX", "30"])), None);
    assert_eq!(SetCommand::ex_seconds(&strings(&["SET", "k", "v", "EX", "soon"])), None);
    assert_eq!(SetCommand::ex_seconds(&strings(&["SET", "k", "v", "EX"])), None);
    assert_eq!(SetCommand::expiry_at(100, 30), 130);
    assert_eq!(SetCommand::reply(), "+OK\r\n");
    assert!(SetCommand::arity_error(2).is_some());
}

#[test]
fn other_replies() {
    assert_eq!(DelCommand::reply(2), ":2\r\n");
    assert_eq!(ExpireCommand::seconds("10"), Ok(10));
    assert_eq!(ExpireCommand::seconds("ten"), Err("-ERR value is not an integer or out of range\r\n".to_string()));
    assert_eq!(ExpireCommand::expire_at(5, 10), 15);
    assert_eq!(ExpireCommand::expire_at(10, u64::MAX), 9);
    assert_eq!(ExpireCommand::expire_at(1, u64::MAX - 1), u64::MAX);
    assert_eq!(ExpireCommand::reply(true), ":1\r\n");
    assert_eq!(ExpireCommand::reply(false), ":0\r\n");
    assert_eq!(HgetCommand::reply(&Ok(Some("x".into()))), "$1\r\nx\r\n");
    assert_eq!(HgetCommand::reply(&Ok(None)), "$-1\r\n");
    assert_eq!(HgetCommand::reply(&Err("WRONGTYPE x".into())), "-ERR WRONGTYPE x\r\n");
    assert_eq!(HsetCommand::reply(&Ok((true, DbValue::Empty))), ":1\r\n");
    assert_eq!(HsetCommand::reply(&Ok((false, DbValue::Empty))), ":0\r\n");
    assert_eq!(LpushCommand::reply(&Ok((3, DbValue::Empty))), ":3\r\n");
    assert_eq!(LpushCommand::reply(&Err("e".into())), "-ERR e\r\n");
    assert_eq!(PingCommand::reply(), "+PONG\r\n");
    assert_eq!(SearchCommand::k(&strings(&["SEARCH", "q"])), 5);
    assert_eq!(SearchCommand::k(&strings(&["SEARCH", "q", "3"])), 3);
    assert_eq!(SearchCommand::k(&strings(&["SEARCH", "q", "x"])), 5);
    assert_eq!(SearchCommand::header(2), "*2\r\n");
    assert_eq!(InfoCommand::shard_line(3, 10, 12, 2), "shard_3:keys=10,slots=12,free=2\r\n");
    assert_eq!(ExportCommand::complete_line(7), "# EXPORT_COMPLETE: 7\n");
}

#[test]
fn info_and_stats_reports() {
    let info = InfoCommand::report(42, 3, 4, 1, 6144, "75.00", true, "shard_0:keys=3,slots=4,free=1\r\n");
    assert_eq!(
        info,
        "# System (Shared-Nothing/Async)\r\nprocess_id:42\r\n\r\n# Memory & Buffers\r\ntotal_keys:3\r\n\
         total_allocated_slots:4\r\ntotal_free_reusable_slots:1\r\nvector_buffer_memory_bytes:6144\r\n\
         memory_density_percent:75.00%\r\n\r\n# Engine Status\r\nsemantic_engine_status:online\r\n\r\n\
         # Shard Distribution\r\nshard_0:keys=3,slots=4,free=1\r\n"
    );
    assert!(InfoCommand::report(1, 0, 0, 0, 0, "100.00", false, "").contains("semantic_engine_status:booting/offline\r\n"));
    let stats = StatsCommand::report(5, 1, 0, 2, 3, 8, "0.1000,-0.2000");
    assert_eq!(
        stats,
        "# Data Structure Distribution (Shared-Nothing)\r\ntype_string:5\r\ntype_list:1\r\ntype_set:0\r\n\
         type_hash:2\r\n\r\n# Lifecycle Forecast\r\nexpiring_within_1h:3\r\n\r\n# Global Semantic Centroid\r\n\
         total_active_vectors:8\r\nsemantic_centroid_sample:[0.1000,-0.2000]\r\n"
    );
}
