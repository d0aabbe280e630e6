use poem_harvest::batch::{batch_ids, BatchCursor, BATCH_COUNT, BATCH_SPAN};
use poem_harvest::line_log::{frame_line, split_lines};
use poem_harvest::request::request_url;

/// Runs one batch against a collaborator that answers each ID with a body or
/// an error, appending framed lines to `log`; returns the IDs attempted.
fn run_batch(batch: u32, span: u32, fetch: &dyn Fn(u32) -> Result<Vec<u8>, String>, log: &mut Vec<u8>) -> Vec<u32> {
    let mut cursor = BatchCursor::new(batch, span);
    let mut attempted = Vec::new();
    while let Some(id) = cursor.next_id() {
        attempted.push(id);
        if let Ok(body) = fetch(id) {
            if let Some(line) = frame_line(&body) {
                log.extend_from_slice(&line);
            }
        }
    }
    attempted
}

fn record(id: u32) -> Result<Vec<u8>, String> {
    Ok(format!("{{\"ShiData\":[{{\"Id\":{}}}]}}", id).into_bytes())
}

#[test]
fn first_batch_skips_id_zero() {
    assert_eq!(batch_ids(0, 3), vec![1, 2]);
    assert_eq!(batch_ids(0, 1), Vec::<u32>::new());
}

#[test]
fn later_batch_covers_its_range() {
    assert_eq!(batch_ids(2, 3), vec![6, 7, 8]);
}

#[test]
fn full_run_plan_bounds() {
    let last = batch_ids(BATCH_COUNT - 1, BATCH_SPAN);
    assert_eq!(last.len(), 10000);
    assert_eq!(last[0], 1_090_000);
    assert_eq!(*last.last().unwrap(), 1_099_999);
    assert_eq!(batch_ids(0, BATCH_SPAN).len(), 9999);
}

#[test]
fn batches_partition_id_space() {
    let mut all = Vec::new();
    for b in 0..3u32 {
        all.extend(batch_ids(b, 4));
    }
    let expected: Vec<u32> = (1..12).collect();
    assert_eq!(all, expected);
}

#[test]
fn cursor_ends_and_stays_ended() {
    let mut c = BatchCursor::new(1, 2);
    assert_eq!(c.next_id(), Some(2));
    assert_eq!(c.next_id(), Some(3));
    assert_eq!(c.next_id(), None);
    assert_eq!(c.next_id(), None);
}

#[test]
fn two_successes_give_two_lines() {
    let mut log = Vec::new();
    let attempted = run_batch(0, 3, &record, &mut log);
    assert_eq!(attempted, vec![1, 2]);
    let lines = split_lines(&log);
    assert_eq!(lines.len(), 2);
    assert_eq!(lines[0], record(1).unwrap());
    assert_eq!(lines[1], record(2).unwrap());
}

#[test]
fn malformed_body_is_skipped_and_loop_continues() {
    let mut log = Vec::new();
    let fetch = |id: u32| if id == 5 { Err("malformed body".to_string()) } else { record(id) };
    let attempted = run_batch(0, 8, &fetch, &mut log);
    assert_eq!(attempted, vec![1, 2, 3, 4, 5, 6, 7]);
    let lines = split_lines(&log);
    assert_eq!(lines.len(), 6);
    assert!(!lines.contains(&record(5).unwrap()));
    assert_eq!(lines[4], record(6).unwrap());
}

#[test]
fn only_successful_ids_are_written() {
    let mut log = Vec::new();
    let fetch = |id: u32| if id % 3 == 0 { record(id) } else { Err("not found".to_string()) };
    run_batch(1, 10, &fetch, &mut log);
    let lines = split_lines(&log);
    let expected: Vec<Vec<u8>> = [12, 15, 18].iter().map(|i| record(*i).unwrap()).collect();
    assert_eq!(lines, expected);
}

#[test]
fn frame_adds_terminator() {
    assert_eq!(frame_line(&b"abc".to_vec()), Some(b"abc\n".to_vec()));
    assert_eq!(frame_line(&Vec::new()), Some(b"\n".to_vec()));
}

#[test]
fn frame_refuses_embedded_terminator() {
    assert_eq!(frame_line(&b"a\nb".to_vec()), None);
}

#[test]
fn split_drops_unfinished_tail() {
    let lines = split_lines(&b"one\ntwo\nthr".to_vec());
    assert_eq!(lines, vec![b"one".to_vec(), b"two".to_vec()]);
    assert_eq!(split_lines(&Vec::new()), Vec::<Vec<u8>>::new());
    assert_eq!(split_lines(&b"\n\n".to_vec()), vec![Vec::new(), Vec::new()]);
}

#[test]
fn rerun_grows_log_with_duplicates() {
    let mut log = Vec::new();
    run_batch(0, 3, &record, &mut log);
    let after_first = log.clone();
    run_batch(0, 3, &record, &mut log);
    assert!(log.len() > after_first.len());
    assert_eq!(&log[..after_first.len()], &after_first[..]);
    let lines = split_lines(&log);
    assert_eq!(lines.len(), 4);
    assert_eq!(lines[0], lines[2]);
}

#[test]
fn request_url_carries_key() {
    assert_eq!(
        String::from_utf8(request_url(42)).unwrap(),
        "https://api.sou-yun.cn/open/poem?dynasty=Tang&key=42&type=poem&jsontype=true"
    );
    assert_eq!(
        String::from_utf8(request_url(0)).unwrap(),
        "https://api.sou-yun.cn/open/poem?dynasty=Tang&key=0&type=poem&jsontype=true"
    );
    assert_eq!(
        String::from_utf8(request_url(u32::MAX)).unwrap(),
        "https://api.sou-yun.cn/open/poem?dynasty=Tang&key=4294967295&type=poem&jsontype=true"
    );
    assert_eq!(
        String::from_utf8(request_url(1_090_000)).unwrap(),
        "https://api.sou-yun.cn/open/poem?dynasty=Tang&key=1090000&type=poem&jsontype=true"
    );
}
