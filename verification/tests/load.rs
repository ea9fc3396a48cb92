use cluster_stall_repro::seeds::{no_seeds_message, SeedError, SeedSearch, SeedStep};
use cluster_stall_repro::stats::{report_titles, row_text, OpStats};
use cluster_stall_repro::worker::{plan_workers, report_order, OpKind, Worker};
use redis::{ConnectionAddr, ErrorKind, RedisError};

fn strings(list: &[&str]) -> Vec<String> {
    list.iter().map(|s| s.to_string()).collect()
}

fn address(step: SeedStep) -> (String, u16) {
    match step {
        SeedStep::Connect(client) => match client.get_connection_info().addr() {
            ConnectionAddr::Tcp(host, port) => (host.clone(), *port),
            other => panic!("{:?}", other),
        },
        SeedStep::GiveUp(e) => panic!("{:?}", e),
    }
}

#[test]
fn seeds_are_tried_in_order() {
    let seeds = strings(&["redis://127.0.0.1:7001", "nonsense", "redis://127.0.0.2:7002"]);
    let mut search = SeedSearch::new();
    assert_eq!(address(search.advance(&seeds)), ("127.0.0.1".to_string(), 7001));
    search.failed(RedisError::from((ErrorKind::Io, "down")));
    assert_eq!(address(search.advance(&seeds)), ("127.0.0.2".to_string(), 7002));
    assert_eq!(search.tried, 3);
    search.failed(RedisError::from((ErrorKind::Io, "also down")));
    match search.advance(&seeds) {
        SeedStep::GiveUp(SeedError::Failed(e)) => assert!(e.to_string().contains("also down")),
        other => panic!("{:?}", other),
    }
}

#[test]
fn refused_url_is_the_last_error() {
    let seeds = strings(&["redis://127.0.0.1:7001", "http://127.0.0.1"]);
    let mut search = SeedSearch::new();
    address(search.advance(&seeds));
    search.failed(RedisError::from((ErrorKind::Io, "down")));
    match search.advance(&seeds) {
        SeedStep::GiveUp(SeedError::Failed(e)) => assert_eq!(e.kind(), ErrorKind::InvalidClientConfig),
        other => panic!("{:?}", other),
    }
}

#[test]
fn opened_clients_and_errors_are_noted() {
    let mut search = SeedSearch::new();
    assert!(search.opened(Err(RedisError::from((ErrorKind::Io, "bad url")))).is_none());
    assert!(search.last_err.is_some());
    assert!(search.opened(redis::Client::open("redis://127.0.0.1:7001")).is_some());
    assert_eq!(search.tried, 2);
    assert!(search.last_err.unwrap().to_string().contains("bad url"));
}

#[test]
fn search_without_seeds_gives_up() {
    match SeedSearch::new().advance(&[]) {
        SeedStep::GiveUp(SeedError::NoSeeds) => {}
        other => panic!("{:?}", other),
    }
    assert_eq!(no_seeds_message(), "no seeds configured");
}

#[test]
fn operations_are_counted() {
    let mut stats = OpStats::new();
    stats.record(10, true);
    stats.record(10, true);
    stats.record(2047, false);
    stats.record(0, true);
    assert_eq!((stats.success(), stats.errors()), (3, 1));
    let row = stats.snap_row(0, 0);
    assert_eq!((row.success, row.errors, row.ok, row.err), (3, 1, 3, 1));
    assert_eq!((row.count, row.max_us), (4, 2047));
    assert_eq!(row.latencies, [(0, 1), (10, 2), (2047, 1)]);
}

#[test]
fn latencies_beyond_the_histogram_are_clamped() {
    let mut stats = OpStats::new();
    stats.record(2048, true);
    stats.record(u64::MAX, true);
    stats.record(1, true);
    let row = stats.snap_row(0, 0);
    assert_eq!(row.latencies, [(1, 1), (2, 2)]);
    assert_eq!((row.count, row.max_us), (3, 2));
}

#[test]
fn snapshot_begins_a_new_period() {
    let mut stats = OpStats::new();
    let empty = stats.snap_row(0, 0);
    assert_eq!((empty.count, empty.max_us, empty.latencies.len()), (0, 0, 0));
    stats.record(700, true);
    let first = stats.snap_row(empty.success, empty.errors);
    stats.record(20, false);
    stats.record(30, true);
    let second = stats.snap_row(first.success, first.errors);
    assert_eq!((first.ok, first.err, first.count, first.max_us), (1, 0, 1, 700));
    assert_eq!((second.ok, second.err, second.count, second.max_us), (1, 1, 2, 30));
    assert_eq!((second.success, second.errors), (2, 1));
    assert_eq!(second.ok + second.err, second.count);
}

#[test]
fn report_has_its_columns() {
    assert_eq!(
        report_titles(),
        format!(
            "{:>4} {:>3} {:>6} {:>8} {:>8} {:>8} {:>9} {:>9} {:>9} {:>10}",
            "op", "sh", "t_s", "ok", "err", "count", "p50_us", "p99_us", "p999_us", "max_us"
        )
    );
    let mut stats = OpStats::new();
    stats.record(5, true);
    stats.record(9, false);
    let row = stats.snap_row(0, 0);
    assert_eq!(
        row_text("SET", 2, "12.3", &row, 5, 9, 9),
        format!(
            "{:>4} {:>3} {:>6.1} {:>8} {:>8} {:>8} {:>9} {:>9} {:>9} {:>10}",
            "SET", 2, 12.34f64, 1, 1, 2, 5, 9, 9, 9
        )
    );
}

#[test]
fn workers_come_in_pairs() {
    let workers = plan_workers(&strings(&["a", "b"]));
    let shape: Vec<(usize, OpKind, &str, u64)> =
        workers.iter().map(|w| (w.shard, w.op, w.key.as_str(), w.round)).collect();
    assert_eq!(
        shape,
        [
            (0, OpKind::Write, "a", 0),
            (0, OpKind::Read, "a", 0),
            (1, OpKind::Write, "b", 0),
            (1, OpKind::Read, "b", 0),
        ]
    );
    assert_eq!(report_order(2), [0, 2, 1, 3]);
    assert_eq!(report_order(0), []);
}

#[test]
fn writer_writes_the_round() {
    let mut stats = OpStats::new();
    let mut worker = Worker::new(0, OpKind::Write, "k");
    assert_eq!(worker.command(), strings(&["SET", "k", "0"]));
    assert_eq!(worker.complete(&mut stats, 7, None), None);
    assert_eq!(worker.command(), strings(&["SET", "k", "1"]));
    assert_eq!((stats.success(), stats.errors()), (1, 0));
}

#[test]
fn reader_reads() {
    assert_eq!(Worker::new(3, OpKind::Read, "k").command(), strings(&["GET", "k"]));
}

#[test]
fn few_errors_are_printed() {
    let mut stats = OpStats::new();
    let mut worker = Worker::new(4, OpKind::Read, "k");
    let mut printed: Vec<String> = Vec::new();
    for _ in 0..4001 {
        if let Some(line) = worker.complete(&mut stats, 1, Some("timed out")) {
            printed.push(line);
        }
    }
    assert_eq!(
        printed,
        strings(&[
            "shard=4 op=GET i=0 err=timed out",
            "shard=4 op=GET i=2000 err=timed out",
            "shard=4 op=GET i=4000 err=timed out",
        ])
    );
    assert_eq!((stats.success(), stats.errors()), (0, 4001));
    assert_eq!(worker.round, 4001);
}
