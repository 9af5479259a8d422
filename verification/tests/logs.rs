use alarm_clock::logs::{read_finish, read_start, trim, LogBuffer, MAX_BYTES};

#[test]
fn trim_retains_newest_output() {
    let mut log = format!("old{}", "n".repeat(MAX_BYTES));

    trim(&mut log);

    assert_eq!(log.len(), MAX_BYTES);
    assert!(!log.starts_with("old"));
}

#[test]
fn trim_preserves_utf8_boundaries() {
    let mut log = format!("😀{}", "n".repeat(MAX_BYTES.saturating_sub(1)));

    trim(&mut log);

    assert!(log.len() <= MAX_BYTES);
    assert!(log.chars().all(|character| character == 'n'));
}

#[test]
fn trim_leaves_short_logs_alone() {
    let mut log = String::from("short");
    trim(&mut log);
    assert_eq!(log, "short");
    let mut full = "n".repeat(MAX_BYTES);
    trim(&mut full);
    assert_eq!(full.len(), MAX_BYTES);
}

fn log_with(text: &str) -> LogBuffer {
    let mut log = LogBuffer::new();
    log.put_output(text);
    log
}

#[test]
fn carriage_return_moves_back_without_deleting() {
    let mut log = LogBuffer::new();
    log.put_output("line1\r\nline2\r\n");
    assert_eq!(log.text(), "line1\nline2\n");
    assert_eq!(log.cursor(), 12);

    let mut log = log_with("abc");
    log.put_output("\rxy");
    assert_eq!(log.text(), "xyc");
    assert_eq!(log.cursor(), 2);

    let mut log = log_with("a");
    log.put_output("\r\r");
    assert_eq!(log.text(), "a");
    assert_eq!(log.cursor(), 0);
}

#[test]
fn progress_bar_redraws_in_place() {
    let mut log = log_with("line one\nprogress 10%");
    log.put_output("\rprogress 50%\rprogress 100%\ndone");
    assert_eq!(log.text(), "line one\nprogress 100%\ndone");
    let mut log = log_with("keep\nabcdef");
    // The cursor stays where the overwrite ended, across chunks.
    log.put_output("\rXY");
    log.put_output("Z");
    assert_eq!(log.text(), "keep\nXYZdef");
    log.put_output("\n");
    assert_eq!(log.text(), "keep\nXYZdef\n");
    log.put_output("é\rü");
    assert_eq!(log.text(), "keep\nXYZdef\nü");
}

#[test]
fn plain_output_is_appended() {
    let mut log = log_with("boot\n");
    log.put_output("ok 😀\nnext");
    assert_eq!(log.text(), "boot\nok 😀\nnext");
    assert_eq!(log.cursor(), log.text().chars().count());
}

#[test]
fn append_trims_and_moves_cursor() {
    let mut log = LogBuffer::new();
    log.set("n".repeat(MAX_BYTES));
    assert_eq!(log.cursor(), MAX_BYTES);
    log.append("xyz");
    assert_eq!(log.text().len(), MAX_BYTES);
    assert!(log.text().ends_with("nxyz"));
    assert_eq!(log.cursor(), MAX_BYTES);
    log.append("\rAB");
    assert!(log.text().starts_with("ABn"));
    assert_eq!(log.cursor(), 2);
}

#[test]
fn set_and_clear() {
    let mut log = LogBuffer::new();
    log.set(format!("old{}", "n".repeat(MAX_BYTES)));
    assert_eq!(log.text().len(), MAX_BYTES);
    assert_eq!(log.cursor(), MAX_BYTES);
    log.clear();
    assert_eq!(log.text(), "");
    assert_eq!(log.cursor(), 0);
}

#[test]
fn read_flow() {
    let mut reading = false;
    let mut log = log_with("previous run");
    assert!(read_start(&mut reading, &mut log));
    assert!(reading);
    assert_eq!(log.text(), "");
    log.append("reading...");
    assert!(!read_start(&mut reading, &mut log));
    assert_eq!(log.text(), "reading...");
    read_finish(&mut reading, &mut log, Some("espflash exited with 1"));
    assert!(!reading);
    assert_eq!(log.text(), "reading...\nespflash exited with 1\n");
    assert!(read_start(&mut reading, &mut log));
    read_finish(&mut reading, &mut log, None);
    assert_eq!(log.text(), "");
    assert!(!reading);
}
