use mrecordlog::mem::{MemError, MemQueues};
use mrecordlog::multi_record_log::{
    AppendError, CreateQueueError, DeleteQueueError, MultiRecordLog, TruncateError,
};
use mrecordlog::rolling::RollingFiles;

fn fresh_log(frames_per_file: usize) -> MultiRecordLog {
    MultiRecordLog::open(RollingFiles::new(frames_per_file)).expect("empty log opens")
}

fn all_items(log: &MultiRecordLog, queue: &str) -> Vec<(u64, Vec<u8>)> {
    log.range(queue, 0, u64::MAX)
        .expect("queue exists")
        .into_iter()
        .map(|(p, payload)| (p, payload.to_vec()))
        .collect()
}

fn scenario_one() -> MultiRecordLog {
    let mut log = fresh_log(4);
    log.create_queue("q").unwrap();
    assert_eq!(log.append_record("q", None, b"hello"), Ok(Some(0)));
    assert_eq!(log.append_record("q", None, b"world"), Ok(Some(1)));
    log
}

#[test]
fn append_then_range() {
    let log = scenario_one();
    assert_eq!(
        all_items(&log, "q"),
        vec![(0, b"hello".to_vec()), (1, b"world".to_vec())]
    );
}

#[test]
fn reopen_gives_same_state() {
    let log = scenario_one();
    let mut log = MultiRecordLog::open(log.into_files()).expect("reopen");
    assert!(log.queue_exists("q"));
    assert_eq!(log.next_position("q"), Some(2));
    assert_eq!(
        all_items(&log, "q"),
        vec![(0, b"hello".to_vec()), (1, b"world".to_vec())]
    );
    assert_eq!(log.append_record("q", None, b"!"), Ok(Some(2)));
}

#[test]
fn truncate_first_record() {
    let mut log = scenario_one();
    assert_eq!(log.truncate("q", 0), Ok(()));
    assert_eq!(all_items(&log, "q"), vec![(1, b"world".to_vec())]);
    assert_eq!(log.next_position("q"), Some(2));
    let log = MultiRecordLog::open(log.into_files()).expect("reopen");
    assert_eq!(all_items(&log, "q"), vec![(1, b"world".to_vec())]);
    assert_eq!(log.next_position("q"), Some(2));
}

#[test]
fn idempotent_append() {
    let mut log = fresh_log(4);
    log.create_queue("q").unwrap();
    assert_eq!(log.append_record("q", Some(0), b"a"), Ok(Some(0)));
    assert_eq!(log.append_record("q", Some(0), b"a"), Ok(None));
    assert_eq!(log.append_record("q", Some(2), b"a"), Err(AppendError::Future));
    assert_eq!(all_items(&log, "q"), vec![(0, b"a".to_vec())]);
    for p in 1..10u64 {
        assert_eq!(log.append_record("q", Some(p), b"b"), Ok(Some(p)));
    }
    assert_eq!(log.next_position("q"), Some(10));
    assert_eq!(log.append_record("q", Some(5), b"c"), Err(AppendError::Past));
    assert_eq!(log.append_record("q", Some(9), b"c"), Ok(None));
}

#[test]
fn truncate_all_releases_files() {
    let mut log = fresh_log(1);
    log.create_queue("q").unwrap();
    for payload in [b"a", b"b", b"c"] {
        log.append_record("q", None, payload).unwrap();
    }
    assert_eq!(log.list_file_numbers(), vec![0, 1, 2, 3]);
    assert_eq!(log.truncate("q", 2), Ok(()));
    assert!(all_items(&log, "q").is_empty());
    assert_eq!(log.next_position("q"), Some(3));
    // frames: truncate in file 4, touch in file 5
    assert_eq!(log.list_file_numbers(), vec![5]);
    let mut log = MultiRecordLog::open(log.into_files()).expect("reopen");
    assert_eq!(log.next_position("q"), Some(3));
    assert_eq!(log.append_record("q", None, b"d"), Ok(Some(3)));
}

#[test]
fn torn_tail_is_dropped_on_open() {
    for cut in 1..=40usize {
        let log = scenario_one();
        let mut files = log.into_files();
        files.tear_tail(cut);
        let mut log = MultiRecordLog::open(files).expect("torn tail is no corruption");
        assert_eq!(all_items(&log, "q"), vec![(0, b"hello".to_vec())]);
        assert_eq!(log.next_position("q"), Some(1));
        assert_eq!(log.append_record("q", None, b"again"), Ok(Some(1)));
        let log = MultiRecordLog::open(log.into_files()).expect("reopen");
        assert_eq!(
            all_items(&log, "q"),
            vec![(0, b"hello".to_vec()), (1, b"again".to_vec())]
        );
    }
}

#[test]
fn range_is_clipped_to_live_positions() {
    let mut log = fresh_log(2);
    log.create_queue("q").unwrap();
    for payload in [b"0", b"1", b"2", b"3", b"4"] {
        log.append_record("q", None, payload).unwrap();
    }
    log.truncate("q", 1).unwrap();
    let items: Vec<u64> = log.range("q", 0, 4).unwrap().iter().map(|(p, _)| *p).collect();
    assert_eq!(items, vec![2, 3]);
    assert!(log.range("q", 4, 2).unwrap().is_empty());
    assert!(log.range("missing", 0, 4).is_none());
}

#[test]
fn queue_errors() {
    let mut log = fresh_log(3);
    assert_eq!(log.create_queue("a"), Ok(()));
    assert_eq!(log.create_queue("a"), Err(CreateQueueError::AlreadyExists));
    assert_eq!(log.delete_queue("b"), Err(DeleteQueueError::MissingQueue));
    assert_eq!(log.append_record("b", None, b"x"), Err(AppendError::MissingQueue));
    assert_eq!(log.truncate("b", 0), Err(TruncateError::MissingQueue));
    assert_eq!(log.truncate("a", 0), Err(TruncateError::Future));
    log.append_record("a", None, b"x").unwrap();
    assert_eq!(log.truncate("a", 1), Err(TruncateError::Future));
    assert_eq!(log.next_position("b"), None);
}

#[test]
fn delete_queue_survives_reopen() {
    let mut log = fresh_log(3);
    log.create_queue("a").unwrap();
    log.create_queue("b").unwrap();
    log.append_record("a", None, b"x").unwrap();
    assert_eq!(log.delete_queue("a"), Ok(()));
    assert!(!log.queue_exists("a"));
    let mut names = log.list_queues();
    names.sort();
    assert_eq!(names, vec!["b"]);
    let mut log = MultiRecordLog::open(log.into_files()).expect("reopen");
    assert!(!log.queue_exists("a"));
    assert!(log.queue_exists("b"));
    log.create_queue("a").unwrap();
    assert_eq!(log.append_record("a", None, b"y"), Ok(Some(0)));
}

#[test]
fn positions_strictly_increase() {
    let mut log = fresh_log(2);
    log.create_queue("q").unwrap();
    let mut last = None;
    for _ in 0..6 {
        let p = log.append_record("q", None, b"p").unwrap().unwrap();
        if let Some(prev) = last {
            assert!(p > prev);
        }
        last = Some(p);
    }
}

#[test]
fn gc_keeps_files_of_live_records() {
    let mut log = fresh_log(1);
    log.create_queue("a").unwrap();
    log.create_queue("b").unwrap();
    log.append_record("a", None, b"1").unwrap();
    log.append_record("b", None, b"2").unwrap();
    log.append_record("b", None, b"3").unwrap();
    log.truncate("b", 0).unwrap();
    // "a" still holds its record from file 2
    assert_eq!(log.list_file_numbers()[0], 2);
    log.truncate("a", 0).unwrap();
    // "b" still holds its record from file 4
    assert_eq!(log.list_file_numbers()[0], 4);
    let log = MultiRecordLog::open(log.into_files()).expect("reopen");
    assert_eq!(all_items(&log, "b"), vec![(1, b"3".to_vec())]);
    assert!(all_items(&log, "a").is_empty());
}

#[test]
fn mem_touch_and_append_rules() {
    let mut mem = MemQueues::new();
    assert_eq!(mem.touch("q", 5, 1), Ok(()));
    assert_eq!(mem.next_position("q"), Ok(5));
    assert_eq!(mem.append_record("q", 1, 4, b"x"), Err(MemError::Corruption));
    assert_eq!(mem.append_record("q", 1, 5, b"x"), Ok(()));
    assert_eq!(mem.append_record("q", 0, 6, b"y"), Err(MemError::Corruption));
    assert_eq!(mem.touch("q", 3, 2), Err(MemError::Corruption));
    assert_eq!(mem.touch("q", 6, 2), Ok(()));
    assert_eq!(mem.append_record("r", 1, 0, b"x"), Err(MemError::MissingQueue));
    assert_eq!(mem.create_queue("q", 0), Err(MemError::AlreadyExists));
    mem.truncate("q", 9);
    assert_eq!(mem.next_position("q"), Ok(6));
    assert_eq!(mem.range("q", 0, 10).unwrap().len(), 0);
    mem.truncate("absent", 3);
    assert_eq!(mem.min_first_file(), Some(1));
    assert_eq!(mem.delete_queue("q"), Ok(()));
    assert_eq!(mem.delete_queue("q"), Err(MemError::MissingQueue));
    assert_eq!(mem.min_first_file(), None);
}

#[test]
fn open_existing_files() {
    let log = scenario_one();
    let mut frames: Vec<Vec<Vec<u8>>> = Vec::new();
    let files = log.into_files();
    for i in 0..files.num_files() {
        let mut file = Vec::new();
        for j in 0..files.frame_count(i) {
            file.push(files.frame_at(i, j).to_vec());
        }
        frames.push(file);
    }
    let rebuilt = RollingFiles::from_files(0, frames, 4);
    let log = MultiRecordLog::open(rebuilt).expect("reopen");
    assert_eq!(
        all_items(&log, "q"),
        vec![(0, b"hello".to_vec()), (1, b"world".to_vec())]
    );
    let empty = RollingFiles::from_files(7, vec![vec![], vec![]], 1);
    let log = MultiRecordLog::open(empty).expect("empty files open");
    assert!(log.list_queues().is_empty());
    assert_eq!(log.list_file_numbers(), vec![7, 8]);
}
