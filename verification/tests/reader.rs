use redis_slowlog::{
    Config, OutputFormat, RemoteError, RespValue, SlowlogReader, UptimeError, recoverable,
};

fn info(uptime: u64) -> Vec<u8> {
    format!("# Server\r\nuptime_in_seconds:{}\r\n", uptime).into_bytes()
}

fn wire_row(id: i64) -> RespValue {
    RespValue::Bulk(vec![
        RespValue::Int(id),
        RespValue::Int(1000 + id),
        RespValue::Int(10),
        RespValue::Bulk(vec![RespValue::Data("GET".to_owned())]),
        RespValue::Data("127.0.0.1:4242".to_owned()),
        RespValue::Data("".to_owned()),
    ])
}

fn batch(ids: &[i64]) -> Vec<RespValue> {
    ids.iter().map(|id| wire_row(*id)).collect()
}

#[test]
fn first_poll_returns_full_backlog_oldest_first() {
    let mut reader = SlowlogReader::new();
    assert_eq!(reader.last_id, -1);
    let out = reader.get(&info(100), &batch(&[5, 4, 3, 2, 1])).unwrap();
    let ids: Vec<u64> = out.records.iter().map(|r| r.id).collect();
    assert_eq!(ids, vec![1, 2, 3, 4, 5]);
    assert!(!out.restart);
    assert_eq!(out.skipped, 0);
    assert_eq!(reader.last_id, 5);
    assert_eq!(reader.uptime, 100);
}

#[test]
fn second_poll_emits_nothing_new() {
    let mut reader = SlowlogReader::new();
    reader.get(&info(100), &batch(&[5, 4, 3, 2, 1])).unwrap();
    let out = reader.get(&info(150), &batch(&[5, 4, 3, 2, 1])).unwrap();
    assert!(out.records.is_empty());
    assert_eq!(reader.last_id, 5);
    assert_eq!(reader.uptime, 150);
}

#[test]
fn only_records_above_watermark_are_returned() {
    let mut reader = SlowlogReader::new();
    reader.get(&info(100), &batch(&[3, 2, 1])).unwrap();
    let out = reader.get(&info(110), &batch(&[6, 5, 4, 3, 2])).unwrap();
    let ids: Vec<u64> = out.records.iter().map(|r| r.id).collect();
    assert_eq!(ids, vec![4, 5, 6]);
    assert_eq!(reader.last_id, 6);
}

#[test]
fn watermark_never_drops_without_restart() {
    let mut reader = SlowlogReader::new();
    let mut last = reader.last_id;
    for ids in [&[2i64, 1][..], &[2, 1][..], &[7, 2][..], &[][..]] {
        let out = reader.get(&info(50), &batch(ids)).unwrap();
        assert!(!out.restart);
        assert!(reader.last_id >= last);
        last = reader.last_id;
    }
}

#[test]
fn returned_ids_strictly_increase() {
    let mut reader = SlowlogReader::new();
    let out = reader.get(&info(10), &batch(&[9, 7, 4, 2])).unwrap();
    let ids: Vec<u64> = out.records.iter().map(|r| r.id).collect();
    for w in ids.windows(2) {
        assert!(w[0] < w[1]);
    }
}

#[test]
fn restart_resets_watermark_and_reemits() {
    let mut reader = SlowlogReader { last_id: 100, length: 128, uptime: 500 };
    let out = reader.get(&info(3), &batch(&[5, 4])).unwrap();
    assert!(out.restart);
    let ids: Vec<u64> = out.records.iter().map(|r| r.id).collect();
    assert_eq!(ids, vec![4, 5]);
    assert_eq!(reader.last_id, 5);
    assert_eq!(reader.uptime, 3);
}

#[test]
fn equal_uptime_is_no_restart() {
    let mut reader = SlowlogReader { last_id: 100, length: 128, uptime: 500 };
    let out = reader.get(&info(500), &batch(&[])).unwrap();
    assert!(!out.restart);
    assert_eq!(reader.last_id, 100);
}

#[test]
fn gap_between_polls_is_reported() {
    let mut reader = SlowlogReader { last_id: 10, length: 128, uptime: 100 };
    let out = reader.get(&info(200), &batch(&[20, 15])).unwrap();
    assert_eq!(out.skipped, 4);
    let ids: Vec<u64> = out.records.iter().map(|r| r.id).collect();
    assert_eq!(ids, vec![15, 20]);
}

#[test]
fn no_gap_is_reported_on_first_poll() {
    let mut reader = SlowlogReader::new();
    let out = reader.get(&info(200), &batch(&[20, 15])).unwrap();
    assert_eq!(out.skipped, 0);
}

#[test]
fn contiguous_batch_reports_no_gap() {
    let mut reader = SlowlogReader { last_id: 14, length: 128, uptime: 100 };
    let out = reader.get(&info(200), &batch(&[20, 15])).unwrap();
    assert_eq!(out.skipped, 0);
}

#[test]
fn empty_batch_leaves_watermark_alone() {
    let mut reader = SlowlogReader { last_id: 42, length: 128, uptime: 7 };
    let out = reader.get(&info(9), &batch(&[])).unwrap();
    assert!(out.records.is_empty());
    assert_eq!(out.skipped, 0);
    assert_eq!(reader.last_id, 42);
    assert_eq!(reader.uptime, 9);
}

#[test]
fn unreadable_uptime_leaves_state_untouched() {
    let mut reader = SlowlogReader { last_id: 42, length: 128, uptime: 7 };
    let err = reader.get(&b"# Server\r\n".to_vec(), &batch(&[50, 49])).unwrap_err();
    assert_eq!(err, RemoteError::Uptime(UptimeError::NoUptimeLine));
    assert_eq!(reader.last_id, 42);
    assert_eq!(reader.uptime, 7);
}

#[test]
fn malformed_row_leaves_state_untouched() {
    let mut reader = SlowlogReader { last_id: 42, length: 128, uptime: 7 };
    let rows = vec![wire_row(50), RespValue::Int(3)];
    let err = reader.get(&info(9), &rows).unwrap_err();
    assert!(matches!(err, RemoteError::Decode(_)));
    assert_eq!(reader.last_id, 42);
    assert_eq!(reader.uptime, 7);
}

#[test]
fn only_io_failures_are_recoverable() {
    assert!(recoverable(&RemoteError::Io));
    assert!(!recoverable(&RemoteError::Uptime(UptimeError::NoUptimeLine)));
    assert!(!recoverable(&RemoteError::Decode(
        redis_slowlog::DecodeError::MissingField
    )));
}

#[test]
fn config_carries_plain_values() {
    let config = Config {
        hostname: "127.0.0.1".to_owned(),
        port: 6379,
        follow: true,
        interval: 5,
        verbosity: 0,
        quiet: false,
        timeout: 30,
        output_format: OutputFormat::Text,
    };
    assert_eq!(config.port, 6379);
    assert!(matches!(config.output_format, OutputFormat::Text));
}

#[test]
fn constructors_start_before_any_record() {
    let r = SlowlogReader::new();
    assert_eq!((r.last_id, r.length, r.uptime), (-1, 128, 0));
    let r = SlowlogReader::with_length(16);
    assert_eq!((r.last_id, r.length, r.uptime), (-1, 16, 0));
}
