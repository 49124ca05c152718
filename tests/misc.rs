use subpar::csv::{CsvError, CsvIter};
use subpar::datetime::Timestamp;
use subpar::listener::Listener;
use subpar::msg::Batch;
use subpar::reference::{parse_ada, parse_flag, parse_flag_code, AdaStatus};
use subpar::snapshot::{content_hash, hash_from_halves, Feed, Response, FEED_BASE_URL};

#[test]
fn same_bytes_same_hash() {
    let a = b"\x0a\x03\x1a\x01\x05".to_vec();
    let b = a.clone();
    assert_eq!(content_hash(&a), content_hash(&b));
    assert_ne!(content_hash(&a), content_hash(b"\x0a\x03\x1a\x01\x06"));
    assert_ne!(content_hash(b""), content_hash(b"a"));
}

#[test]
fn hash_halves_join_high_first() {
    assert_eq!(hash_from_halves(1, 2), (1u128 << 64) | 2);
    assert_eq!(hash_from_halves(u64::MAX, u64::MAX), u128::MAX);
}

#[test]
fn snapshot_records_length_and_hash() {
    let payload = vec![0x0a, 0x02, 0x18, 0x05];
    let r = Response::from_payload(Feed::from_static("ace"), &payload, Timestamp { secs: 1 }, Timestamp { secs: 2 }).unwrap();
    assert_eq!(r.length, 4);
    assert_eq!(r.hash, content_hash(&payload));
    assert_eq!(r.data.time.secs, 5);
    assert_eq!(r.feed.name(), "ace");
    assert!(Response::from_payload(Feed::from_static("g"), &[0xff], Timestamp { secs: 1 }, Timestamp { secs: 2 }).is_err());
    let r2 = Response::new(Batch { time: Timestamp { secs: 5 }, msgs: vec![] }, Feed::from_static("g"), &payload, Timestamp { secs: 1 }, Timestamp { secs: 2 });
    assert_eq!(r2.hash, r.hash);
}

#[test]
fn feed_registry() {
    assert_eq!(Feed::from_static("1234567").url(), FEED_BASE_URL);
    assert_eq!(Feed::from_static("ace").url(), format!("{FEED_BASE_URL}-ace"));
    assert_eq!(Feed::from_static("si").name(), "si");
    assert!(Feed::is_known("nqrw"));
    assert!(!Feed::is_known("xyz"));
    assert_eq!(Feed::new("x", "http://a").url(), "http://a");
}

#[test]
fn listener_skips_feeds_in_flight() {
    let mut l = Listener::new(vec![Feed::from_static("ace"), Feed::from_static("g"), Feed::from_static("l")], 30);
    assert_eq!(l.queue_capacity(), 7);
    assert_eq!(l.on_tick(), vec![0, 1, 2]);
    assert_eq!(l.on_tick(), Vec::<usize>::new());
    l.on_done(1);
    assert_eq!(l.on_tick(), vec![1]);
    assert_eq!(l.feed(2).name(), "l");
    assert_eq!(l.interval_secs(), 30);
}

#[test]
fn csv_cells() {
    let mut row = CsvIter::new(3, "a,b,,12:34:56");
    assert_eq!(row.try_next().unwrap(), b"a".to_vec());
    assert_eq!(row.next_n(2), vec![b"b".to_vec(), b"".to_vec()]);
    assert_eq!(row.try_next_time(), Ok((12, 34, 56)));
    assert_eq!(row.try_next(), Err(CsvError::InsufficientCells { line: 3, data: b"a,b,,12:34:56".to_vec() }));
    row.finish();
    let mut row = CsvIter::new(1, "1:2,x:y:z,1:2:3:4,a");
    assert_eq!(row.try_next_time(), Err(CsvError::MalformedTime));
    assert_eq!(row.try_next_time(), Err(CsvError::UnknownTime));
    assert_eq!(row.try_next_time(), Err(CsvError::MalformedTime));
    assert_eq!(row.try_next_n(2), Err(CsvError::InsufficientCells { line: 1, data: b"1:2,x:y:z,1:2:3:4,a".to_vec() }));
    assert_eq!(row.try_finish(), Ok(()));
    let row = CsvIter::new(1, "a,b");
    assert_eq!(row.try_finish(), Err(CsvError::UnexpectedFields { count: 2, data: b"a,b".to_vec() }));
}

#[test]
fn coded_values() {
    assert_eq!(parse_flag("Y"), Some(true));
    assert_eq!(parse_flag("TRUE"), Some(true));
    assert_eq!(parse_flag("NO"), Some(false));
    assert_eq!(parse_flag("maybe"), None);
    assert_eq!(parse_flag_code(1), Some(true));
    assert_eq!(parse_flag_code(2), None);
    assert_eq!(parse_ada("2"), Some(AdaStatus::Partial));
    assert_eq!(parse_ada("3"), None);
}
