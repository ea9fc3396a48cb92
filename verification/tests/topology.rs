use cluster_stall_repro::keys::{candidate_key, choose_keys, derive_keys, KeysError, LAST_CANDIDATE};
use cluster_stall_repro::report::{fmt_node, fmt_shard_line, topology_text};
use cluster_stall_repro::text::{align_left, align_right, decimal_text, join_texts, split_list};
use cluster_stall_repro::topology::{
    parse_node, parse_shard, parse_slot_table, Reply, ShardInfo, SlotTableError,
};

fn shard(start: u16, end: u16) -> ShardInfo {
    ShardInfo { start, end, primary: ("h".to_string(), 1), replicas: vec![] }
}

fn bulk(s: &str) -> Reply {
    Reply::BulkString(s.as_bytes().to_vec())
}

fn node(host: &str, port: i64) -> Reply {
    Reply::Array(vec![bulk(host), Reply::Int(port), bulk("id")])
}

fn entry(start: i64, end: i64, nodes: Vec<Reply>) -> Reply {
    let mut items = vec![Reply::Int(start), Reply::Int(end)];
    items.extend(nodes);
    Reply::Array(items)
}

fn strings(list: &[&str]) -> Vec<String> {
    list.iter().map(|s| s.to_string()).collect()
}

#[test]
fn numbers_in_decimal() {
    assert_eq!(decimal_text(0), "0");
    assert_eq!(decimal_text(9), "9");
    assert_eq!(decimal_text(10), "10");
    assert_eq!(decimal_text(1_234_567_890), "1234567890");
    assert_eq!(decimal_text(u64::MAX), u64::MAX.to_string());
}

#[test]
fn columns_are_aligned() {
    assert_eq!(align_right("ab", 4), format!("{:>4}", "ab"));
    assert_eq!(align_left("ab", 4), format!("{:<4}", "ab"));
    assert_eq!(align_right("abcde", 4), "abcde");
    assert_eq!(align_left("abcde", 4), "abcde");
    assert_eq!(align_right("äö", 4), format!("{:>4}", "äö"));
    assert_eq!(align_left("", 2), "  ");
}

#[test]
fn lists_are_split_at_commas() {
    for s in ["", ",", "a", "a,b", "a,,b,", ",a", "ä,ö,ü"] {
        let expected: Vec<String> = s.split(',').map(str::to_owned).collect();
        assert_eq!(split_list(s), expected);
        assert_eq!(join_texts(&split_list(s), ","), s);
    }
}

#[test]
fn node_is_host_and_port() {
    assert_eq!(parse_node(&node("10.0.0.1", 6379)), Some(("10.0.0.1".to_string(), 6379)));
    let simple = Reply::Array(vec![Reply::SimpleString("host".to_string()), Reply::Int(7)]);
    assert_eq!(parse_node(&simple), Some(("host".to_string(), 7)));
}

#[test]
fn port_keeps_its_low_bits() {
    assert_eq!(parse_node(&node("h", 65536 + 80)), Some(("h".to_string(), 80)));
    assert_eq!(parse_node(&node("h", -1)), Some(("h".to_string(), 65535)));
    assert_eq!(parse_node(&node("h", i64::MIN + 5)), Some(("h".to_string(), 5)));
}

#[test]
fn host_bytes_that_are_not_text_are_replaced() {
    let odd = Reply::Array(vec![Reply::BulkString(vec![b'a', 0xff, b'b']), Reply::Int(1)]);
    assert_eq!(parse_node(&odd), Some(("a\u{fffd}b".to_string(), 1)));
    let umlaut = Reply::Array(vec![Reply::BulkString("hä".as_bytes().to_vec()), Reply::Int(1)]);
    assert_eq!(parse_node(&umlaut), Some(("hä".to_string(), 1)));
}

#[test]
fn what_describes_no_node_is_none() {
    assert_eq!(parse_node(&Reply::Int(3)), None);
    assert_eq!(parse_node(&Reply::Other), None);
    assert_eq!(parse_node(&Reply::Array(vec![])), None);
    assert_eq!(parse_node(&Reply::Array(vec![bulk("h")])), None);
    assert_eq!(parse_node(&Reply::Array(vec![Reply::Int(1), Reply::Int(1)])), None);
    assert_eq!(parse_node(&Reply::Array(vec![bulk("h"), bulk("1")])), None);
}

#[test]
fn entry_is_range_primary_and_replicas() {
    let e = entry(0, 5460, vec![node("p", 1), node("r1", 2), Reply::Other, node("r2", 3)]);
    let expected = ShardInfo {
        start: 0,
        end: 5460,
        primary: ("p".to_string(), 1),
        replicas: vec![("r1".to_string(), 2), ("r2".to_string(), 3)],
    };
    assert_eq!(parse_shard(&e), Some(expected));
}

#[test]
fn entries_that_describe_no_shard_are_left_out() {
    let table = Reply::Array(vec![
        Reply::Int(1),
        Reply::Array(vec![]),
        Reply::Array(vec![Reply::Int(1)]),
        Reply::Array(vec![Reply::Int(1), Reply::Int(2)]),
        Reply::Array(vec![bulk("1"), Reply::Int(2), node("p", 1)]),
        Reply::Array(vec![Reply::Int(1), bulk("2"), node("p", 1)]),
        entry(1, 2, vec![Reply::Other, node("r", 1)]),
        entry(7, 8, vec![node("p", 1)]),
    ]);
    let shards = parse_slot_table(&table).unwrap();
    assert_eq!(shards.len(), 1);
    assert_eq!((shards[0].start, shards[0].end), (7, 8));
}

#[test]
fn table_is_sorted_by_first_slot_and_stable() {
    let table = Reply::Array(vec![
        entry(100, 1, vec![node("a", 1)]),
        entry(5, 2, vec![node("b", 1)]),
        entry(100, 3, vec![node("c", 1)]),
        entry(5, 4, vec![node("d", 1)]),
        entry(0, 5, vec![node("e", 1)]),
    ]);
    let shards = parse_slot_table(&table).unwrap();
    let hosts: Vec<&str> = shards.iter().map(|s| s.primary.0.as_str()).collect();
    assert_eq!(hosts, ["e", "b", "d", "a", "c"]);
}

#[test]
fn table_that_is_no_list_is_refused() {
    for reply in [Reply::Int(1), Reply::Other, bulk("x"), Reply::SimpleString("OK".to_string())] {
        assert_eq!(parse_slot_table(&reply), Err(SlotTableError::UnexpectedShape));
    }
    assert_eq!(
        SlotTableError::UnexpectedShape.message("nil"),
        "unexpected CLUSTER SLOTS shape: nil"
    );
    assert_eq!(parse_slot_table(&Reply::Array(vec![])), Ok(vec![]));
}

#[test]
fn candidates_are_numbered() {
    assert_eq!(candidate_key(0), "repro:0");
    assert_eq!(candidate_key(LAST_CANDIDATE), "repro:1000000");
}

#[test]
fn one_key_per_shard() {
    let shards = [shard(0, 5460), shard(5461, 10922), shard(10923, 16383)];
    assert_eq!(derive_keys(&shards), Ok(strings(&["repro:2", "repro:0", "repro:1"])));
    assert_eq!(derive_keys(&[shard(0, 16383)]), Ok(strings(&["repro:0"])));
    let narrow = [shard(77, 77), shard(0, 16383)];
    assert_eq!(derive_keys(&narrow), Ok(strings(&["repro:18410", "repro:0"])));
}

#[test]
fn shard_behind_another_gets_no_key() {
    let shards = [shard(0, 16383), shard(0, 16383)];
    assert_eq!(derive_keys(&shards), Err(KeysError::CandidatesExhausted));
}

#[test]
fn no_shards_no_keys() {
    assert_eq!(derive_keys(&[]), Err(KeysError::CandidatesExhausted));
    assert_eq!(
        KeysError::CandidatesExhausted.message(),
        "could not derive a key for every shard within 1M candidates"
    );
}

#[test]
fn given_keys_come_first() {
    let shards = [shard(0, 16383)];
    assert_eq!(choose_keys(Some("a,b"), Some(&shards)), Ok(strings(&["a", "b"])));
    assert_eq!(choose_keys(Some("a"), None), Ok(strings(&["a"])));
    assert_eq!(choose_keys(None, Some(&shards)), Ok(strings(&["repro:0"])));
    assert_eq!(choose_keys(None, None), Err(KeysError::NoTopology));
    assert_eq!(
        KeysError::NoTopology.message(),
        "cannot auto-derive keys without topology; pass --keys"
    );
}

#[test]
fn local_nodes_show_their_container() {
    assert_eq!(fmt_node(&("127.0.0.1".to_string(), 7001)), "cluster-stall-valkey-1 (127.0.0.1:7001)");
    assert_eq!(fmt_node(&("127.0.0.1".to_string(), 7006)), "cluster-stall-valkey-6 (127.0.0.1:7006)");
    assert_eq!(fmt_node(&("127.0.0.1".to_string(), 7000)), "127.0.0.1:7000");
    assert_eq!(fmt_node(&("127.0.0.1".to_string(), 7007)), "127.0.0.1:7007");
}

#[test]
fn shard_line_has_its_columns() {
    let s = ShardInfo {
        start: 0,
        end: 5460,
        primary: ("127.0.0.1".to_string(), 7001),
        replicas: vec![("127.0.0.1".to_string(), 7004), ("10.0.0.9".to_string(), 6379)],
    };
    let expected = format!(
        "  {:>3}  {:>5}-{:<6}  {:<40}  {:<40}  {}",
        0,
        0,
        5460,
        "cluster-stall-valkey-1 (127.0.0.1:7001)",
        "cluster-stall-valkey-4 (127.0.0.1:7004), 10.0.0.9:6379",
        "repro:2 (slot 277)"
    );
    assert_eq!(fmt_shard_line(0, &s, &strings(&["foo", "repro:2", "repro:2"])), expected);
}

#[test]
fn table_shows_every_shard() {
    let shards = [shard(0, 5460), shard(10923, 16383)];
    let keys = strings(&["foo", "repro:1"]);
    let mut expected = String::from("\ncluster topology (sorted by slot range):\n");
    expected += &format!(
        "  {:>3}  {:<12}  {:<40}  {:<40}  test key (slot)\n",
        "sh", "slots", "primary", "replica(s)"
    );
    for (idx, s) in shards.iter().enumerate() {
        let key = ["(no test key in this range)", "foo (slot 12182)"][idx];
        expected += &format!(
            "  {:>3}  {:>5}-{:<6}  {:<40}  {:<40}  {}\n",
            idx, s.start, s.end, "h:1", "(none)", key
        );
    }
    expected += "\n";
    assert_eq!(topology_text(&shards, &keys), expected);
}

#[test]
fn derived_keys_are_shown_with_their_shards() {
    let shards = [shard(0, 5460), shard(5461, 10922), shard(10923, 16383)];
    let keys = derive_keys(&shards).unwrap();
    let table = topology_text(&shards, &keys);
    for (line, key) in table.lines().skip(3).zip(["repro:2 (slot 277)", "repro:0 (slot 8535)", "repro:1 (slot 12662)"]) {
        assert!(line.ends_with(key), "{}", line);
    }
}
