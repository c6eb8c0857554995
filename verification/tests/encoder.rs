use py_spy_core::chrometrace::Chrometrace;
use py_spy_core::stack_trace::Frame;
use py_spy_core::stack_trace::StackTrace;

use std::io::Read;
use std::io::Write;

fn frame(name: &str, file: &str, line: u32) -> Frame {
    Frame { name: String::from(name), filename: String::from(file), line }
}

fn trace(tid: u64, frames: Vec<Frame>) -> StackTrace {
    StackTrace { thread_id: tid, pid: 42, frames }
}

fn parse(bytes: &[u8]) -> Vec<serde_json::Value> {
    let v: serde_json::Value = serde_json::from_slice(bytes).unwrap();
    v.as_array().unwrap().clone()
}

fn field<'a>(e: &'a serde_json::Value, k: &str) -> &'a serde_json::Value {
    e.as_object().unwrap().get(k).unwrap()
}

#[test]
fn single_event_exact_bytes() {
    let mut enc = Chrometrace::new(true);
    let mut out = enc.increment_at(vec![trace(2, vec![frame("f", "file.py", 7)])], 5);
    out.extend_from_slice(&enc.flush_at(9));
    let head = "[{\"args\":{\"filename\":\"file.py\",\"line\":7},\"cat\":\"py-spy\",\"name\":\"f\",\"ph\":\"B\",\"pid\":42,\"tid\":2,\"ts\":5}";
    let tail = ",{\"args\":{\"filename\":\"file.py\",\"line\":7},\"cat\":\"py-spy\",\"name\":\"f\",\"ph\":\"E\",\"pid\":42,\"tid\":2,\"ts\":9}]\n";
    let expected = format!("{}{}", head, tail);
    assert_eq!(String::from_utf8(out).unwrap(), expected);
}

#[test]
fn line_field_absent_without_line_numbers() {
    let mut enc = Chrometrace::new(false);
    let mut out = enc.increment_at(vec![trace(1, vec![frame("f", "m.py", 3)])], 0);
    out.extend_from_slice(&enc.flush_at(1));
    let events = parse(&out);
    assert_eq!(events.len(), 2);
    assert!(events[0].as_object().unwrap().get("args").unwrap().as_object().unwrap().get("line").is_none());
}

#[test]
fn persisting_frame_gets_no_events() {
    let mut enc = Chrometrace::new(true);
    let first = enc.increment_at(vec![trace(1, vec![frame("f_main", "m.py", 1)])], 0);
    assert!(!first.is_empty());
    let second = enc.increment_at(vec![trace(1, vec![frame("f_main", "m.py", 1)])], 10);
    assert!(second.is_empty());
}

#[test]
fn growth_emits_begin_for_new_leaf_only() {
    // Frames are stored leaf first: the second sample pushes f_helper onto
    // the leaf end of the same stack.
    let mut enc = Chrometrace::new(true);
    let mut out = enc.increment_at(vec![trace(1, vec![frame("f_main", "m.py", 1)])], 0);
    out.extend_from_slice(
        &enc.increment_at(
            vec![trace(1, vec![frame("f_helper", "m.py", 2), frame("f_main", "m.py", 1)])],
            1,
        ),
    );
    out.extend_from_slice(&enc.flush_at(2));
    let events = parse(&out);
    assert_eq!(field(&events[0], "name"), "f_main");
    assert_eq!(field(&events[0], "ph"), "B");
    assert_eq!(field(&events[0], "ts"), 0);
    assert_eq!(field(&events[1], "name"), "f_helper");
    assert_eq!(field(&events[1], "ph"), "B");
    assert_eq!(field(&events[1], "ts"), 1);
    // No end of f_main before f_helper begins.
    assert_eq!(field(&events[2], "ph"), "E");
    assert_eq!(field(&events[2], "name"), "f_helper");
}

#[test]
fn shrink_emits_ends_innermost_first() {
    // Depth five to depth two: exactly three end events, innermost first,
    // before any later begin events of the same thread.
    let deep = vec![
        frame("a", "m.py", 1),
        frame("b", "m.py", 2),
        frame("c", "m.py", 3),
        frame("d", "m.py", 4),
        frame("e", "m.py", 5),
    ];
    let shallow = vec![frame("d", "m.py", 4), frame("e", "m.py", 5)];
    let regrown = vec![frame("x", "m.py", 9), frame("d", "m.py", 4), frame("e", "m.py", 5)];
    let mut enc = Chrometrace::new(true);
    let mut out = enc.increment_at(vec![trace(1, deep)], 0);
    let shrink = enc.increment_at(vec![trace(1, shallow)], 1);
    let shrink_events = {
        // The fragment continues the array with a leading comma; rewrite it
        // as a standalone array to inspect it.
        let mut whole = shrink.clone();
        assert_eq!(whole[0], b',');
        whole[0] = b'[';
        whole.extend_from_slice(b"]");
        parse(&whole)
    };
    assert_eq!(shrink_events.len(), 3);
    assert_eq!(field(&shrink_events[0], "name"), "a");
    assert_eq!(field(&shrink_events[1], "name"), "b");
    assert_eq!(field(&shrink_events[2], "name"), "c");
    for e in &shrink_events {
        assert_eq!(field(e, "ph"), "E");
        assert_eq!(field(e, "ts"), 1);
    }
    out.extend_from_slice(&shrink);
    let grow = enc.increment_at(vec![trace(1, regrown)], 2);
    out.extend_from_slice(&grow);
    out.extend_from_slice(&enc.flush_at(3));
    let events = parse(&out);
    // Begins a..e (root first: e,d,c,b,a), then ends a,b,c, then begin x.
    assert_eq!(field(&events[5], "ph"), "E");
    assert_eq!(field(&events[8], "ph"), "B");
    assert_eq!(field(&events[8], "name"), "x");
}

#[test]
fn vanished_thread_gets_all_ends_at_that_tick() {
    let mut enc = Chrometrace::new(true);
    let mut out = enc.increment_at(
        vec![trace(7, vec![frame("inner", "m.py", 2), frame("outer", "m.py", 1)])],
        0,
    );
    out.extend_from_slice(&enc.increment_at(vec![], 11));
    out.extend_from_slice(&enc.flush_at(12));
    let events = parse(&out);
    assert_eq!(events.len(), 4);
    assert_eq!(field(&events[2], "ph"), "E");
    assert_eq!(field(&events[2], "name"), "inner");
    assert_eq!(field(&events[2], "ts"), 11);
    assert_eq!(field(&events[3], "ph"), "E");
    assert_eq!(field(&events[3], "name"), "outer");
    assert_eq!(field(&events[3], "ts"), 11);
}

#[test]
fn two_threads_tracked_independently() {
    let mut enc = Chrometrace::new(false);
    let mut out = enc.increment_at(
        vec![
            trace(1, vec![frame("f1", "a.py", 1)]),
            trace(2, vec![frame("f2", "b.py", 1)]),
        ],
        0,
    );
    out.extend_from_slice(&enc.increment_at(vec![trace(2, vec![frame("f2", "b.py", 1)])], 5));
    out.extend_from_slice(&enc.flush_at(9));
    let events = parse(&out);
    assert_eq!(events.len(), 4);
    assert_eq!(field(&events[0], "tid"), 1);
    assert_eq!(field(&events[1], "tid"), 2);
    // Thread 1 vanished at the second tick.
    assert_eq!(field(&events[2], "tid"), 1);
    assert_eq!(field(&events[2], "ph"), "E");
    assert_eq!(field(&events[2], "ts"), 5);
    assert_eq!(field(&events[3], "tid"), 2);
    assert_eq!(field(&events[3], "ph"), "E");
}

#[test]
fn string_escaping_round_trips() {
    let odd = "we\"ird\\na\nme\t";
    let mut enc = Chrometrace::new(false);
    let mut out = enc.increment_at(vec![trace(1, vec![frame(odd, "a\"b.py", 0)])], 0);
    out.extend_from_slice(&enc.flush_at(1));
    let events = parse(&out);
    assert_eq!(field(&events[0], "name"), odd);
    assert_eq!(
        field(&events[0], "args").as_object().unwrap().get("filename").unwrap(),
        "a\"b.py"
    );
}

#[test]
fn empty_session_artifact_is_empty_array() {
    let mut enc = Chrometrace::new(true);
    let out = enc.flush_at(0);
    assert_eq!(String::from_utf8(out).unwrap(), "[]\n");
}

#[test]
fn artifact_survives_recompression_and_balances() {
    // The surrounding tool spills fragments through one compressor and
    // re-encodes the artifact with another; the decompressed bytes must
    // parse as one JSON array in which every begin of a frame has a later
    // matching end by the time the session is flushed.
    let mut enc = Chrometrace::new(true);
    let mut raw = enc.increment_at(
        vec![
            trace(1, vec![frame("a", "m.py", 1)]),
            trace(2, vec![frame("b", "n.py", 2), frame("c", "n.py", 3)]),
        ],
        0,
    );
    raw.extend_from_slice(&enc.increment_at(
        vec![trace(1, vec![frame("z", "m.py", 4), frame("a", "m.py", 1)])],
        3,
    ));
    raw.extend_from_slice(&enc.flush_at(8));

    let zstd_bytes = zstd::stream::encode_all(&raw[..], 0).unwrap();
    let unzstd = zstd::stream::decode_all(&zstd_bytes[..]).unwrap();
    let mut gz = flate2::write::GzEncoder::new(Vec::new(), flate2::Compression::default());
    gz.write_all(&unzstd).unwrap();
    let gz_bytes = gz.finish().unwrap();
    let mut ungz = Vec::new();
    flate2::read::GzDecoder::new(&gz_bytes[..]).read_to_end(&mut ungz).unwrap();
    assert_eq!(ungz, raw);

    let events = parse(&ungz);
    // Every begin has a later end with the same (tid, name, filename, line).
    for (i, e) in events.iter().enumerate() {
        if field(e, "ph") == "B" {
            let found = events.iter().skip(i + 1).any(|f| {
                field(f, "ph") == "E"
                    && field(f, "tid") == field(e, "tid")
                    && field(f, "name") == field(e, "name")
                    && field(f, "args") == field(e, "args")
            });
            assert!(found);
        }
    }
    let begins = events.iter().filter(|e| field(e, "ph") == "B").count();
    let ends = events.iter().filter(|e| field(e, "ph") == "E").count();
    assert_eq!(begins, ends);
}

#[test]
fn flush_resets_session_state() {
    let mut enc = Chrometrace::new(true);
    let _ = enc.increment_at(vec![trace(1, vec![frame("a", "m.py", 1)])], 0);
    let _ = enc.flush_at(1);
    // After the reset the same thread is new again: a fresh artifact opens
    // with its begin event.
    let mut out = enc.increment_at(vec![trace(1, vec![frame("a", "m.py", 1)])], 0);
    out.extend_from_slice(&enc.flush_at(2));
    let events = parse(&out);
    assert_eq!(events.len(), 2);
    assert_eq!(field(&events[0], "ph"), "B");
}

#[test]
fn clocked_interface_runs() {
    let mut enc = Chrometrace::new(true);
    let first = enc.increment(vec![trace(1, vec![frame("a", "m.py", 1)])]);
    assert!(!first.is_empty());
    let tail = enc.flush();
    assert!(tail.ends_with(b"]\n"));
}
