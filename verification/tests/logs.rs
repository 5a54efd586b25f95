//! The latest lines of a server's log.

use orchestrator_core::logs::{LogBuffers, LogLine, LOG_BUFFER_LINES};

#[test]
fn the_log_buffer_keeps_the_most_recent_lines_and_drops_the_oldest() {
    let mut logs = LogBuffers::new();
    for i in 0..(LOG_BUFFER_LINES + 250) {
        logs.record_log_line(LogLine {
            server_id: 1,
            at: i as i128,
            stream: "stdout".to_string(),
            line: format!("line {i}"),
        });
    }
    let kept = logs.recent_logs(1, LOG_BUFFER_LINES * 2);
    assert_eq!(kept.len(), LOG_BUFFER_LINES, "the buffer must stay bounded");
    assert_eq!(kept.first().unwrap().line, format!("line {}", 250));
    assert_eq!(kept.last().unwrap().line, format!("line {}", LOG_BUFFER_LINES + 249));

    let tail = logs.recent_logs(1, 10);
    assert_eq!(tail.len(), 10);
    assert_eq!(tail.last().unwrap().line, format!("line {}", LOG_BUFFER_LINES + 249));
}

#[test]
fn servers_do_not_share_their_lines() {
    let mut logs = LogBuffers::new();
    logs.record_log_line(LogLine {
        server_id: 1,
        at: 0,
        stream: "stderr".to_string(),
        line: "one".to_string(),
    });
    assert!(logs.recent_logs(2, 10).is_empty());
    assert_eq!(logs.recent_logs(1, 10)[0].stream, "stderr");
}
