use std::sync::{Arc, Mutex};

use rclrs::{encode_name, Executable, GuardCondition, RclrsError, WaitSetStream};

struct Record {
    label: u32,
    log: Arc<Mutex<Vec<u32>>>,
}

impl Executable for Record {
    fn execute(&self) {
        self.log.lock().unwrap().push(self.label);
    }
}

#[test]
fn sent_work_is_flushed_in_order_and_wakes_the_poller() {
    let guard = Arc::new(GuardCondition::new());
    let mut stream: WaitSetStream<u32> = WaitSetStream::new(Arc::clone(&guard));
    assert!(stream.flush().is_empty());
    stream.send(1);
    stream.send(2);
    stream.send(3);
    assert!(guard.take_trigger());
    assert_eq!(stream.flush(), vec![1, 2, 3]);
    assert!(stream.flush().is_empty());
    stream.send(4);
    assert_eq!(stream.flush(), vec![4]);
}

#[test]
fn executing_the_stream_runs_work_in_order() {
    let log = Arc::new(Mutex::new(Vec::new()));
    let guard = Arc::new(GuardCondition::new());
    let mut stream = WaitSetStream::new(guard);
    for label in [5, 1, 3] {
        stream.send(Record { label, log: Arc::clone(&log) });
    }
    for work in stream.flush() {
        work.execute();
    }
    assert_eq!(*log.lock().unwrap(), vec![5, 1, 3]);
    assert!(stream.flush().is_empty());
}

#[test]
fn names_with_a_nul_are_refused() {
    let encoded = encode_name("graph_test_topic_4").unwrap();
    assert_eq!(encoded.as_bytes(), b"graph_test_topic_4");
    assert!(encode_name("").is_ok());
    assert_eq!(
        encode_name("to\0pic").unwrap_err(),
        RclrsError::StringContainsNul { position: 2, name: "to\0pic".to_string() }
    );
    assert_eq!(
        encode_name("\0a\0").unwrap_err(),
        RclrsError::StringContainsNul { position: 0, name: "\0a\0".to_string() }
    );
    // The position counts bytes: 'é' takes two.
    assert_eq!(
        encode_name("é\0").unwrap_err(),
        RclrsError::StringContainsNul { position: 2, name: "é\0".to_string() }
    );
}
