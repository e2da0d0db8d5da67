use server_core::logging::{
    enabled, format_line, level_tag, process_commands, rotation_file_name, worker_step, Level,
    LoggingCommands, LoggingConfig, MessageBody, WorkerState, WritePlan,
};
use server_core::logging::log;

// 2020-08-01 00:00:00 UTC
const AUG_1_2020: u64 = 1596240000;

fn ends_with(v: &[u8], suffix: &[u8]) -> bool {
    v.len() >= suffix.len() && &v[v.len() - suffix.len()..] == suffix
}

fn msg(level: Level, text: &str) -> LoggingCommands {
    LoggingCommands::Message(MessageBody { level, content: text.as_bytes().to_vec() })
}

#[test]
fn test_level_tags() {
    assert_eq!(b" ERROR ".to_vec(), level_tag(Level::Error));
    assert_eq!(b" DEBUG ".to_vec(), level_tag(Level::Debug));
    assert_eq!(b" INFO  ".to_vec(), level_tag(Level::Info));
    assert_eq!(b" TRACE ".to_vec(), level_tag(Level::Trace));
    assert_eq!(b" WARN  ".to_vec(), level_tag(Level::Warn));
}

#[test]
fn test_enabled_threshold() {
    assert!(enabled(Level::Error));
    assert!(enabled(Level::Warn));
    assert!(enabled(Level::Info));
    assert!(!enabled(Level::Debug));
    assert!(!enabled(Level::Trace));
}

#[test]
fn test_format_line_exact() {
    let body = MessageBody { level: Level::Info, content: b"service started".to_vec() };
    let line = format_line(AUG_1_2020, &body);
    assert_eq!(b"[2020-08-01 00:00:00] INFO  service started\n".to_vec(), line);
}

#[test]
fn test_format_line_time_of_day() {
    let body = MessageBody { level: Level::Error, content: b"x".to_vec() };
    let line = format_line(AUG_1_2020 + 3661, &body);
    assert_eq!(b"[2020-08-01 01:01:01] ERROR x\n".to_vec(), line);
}

#[test]
fn test_rotation_file_name() {
    assert_eq!(b"2020_08_01.log".to_vec(), rotation_file_name(AUG_1_2020));
    assert_eq!(b"1970_01_01.log".to_vec(), rotation_file_name(0));
}

// The fixed ordering and tag scenario: five messages submitted in order end
// up as five lines in that order, each with its exact tag, and no sixth.
#[test]
fn test_log() {
    let commands = vec![
        msg(Level::Debug, "test debug"),
        msg(Level::Error, "test error"),
        msg(Level::Info, "test info"),
        msg(Level::Trace, "test trace"),
        msg(Level::Warn, "test warning"),
    ];
    let msgs = process_commands(commands);
    assert_eq!(5, msgs.len());
    let lines: Vec<Vec<u8>> = msgs.iter().map(|m| {
        let mut line = format_line(AUG_1_2020, m);
        assert_eq!(Some(&b'\n'), line.last());
        line.pop();
        line
    }).collect();
    assert!(ends_with(&lines[0], b"] DEBUG test debug"));
    assert!(ends_with(&lines[1], b"] ERROR test error"));
    assert!(ends_with(&lines[2], b"] INFO  test info"));
    assert!(ends_with(&lines[3], b"] TRACE test trace"));
    assert!(ends_with(&lines[4], b"] WARN  test warning"));
}

// The worker drains: everything before the kill command is written, in
// order, and nothing after it.
#[test]
fn test_drain_on_shutdown() {
    let commands = vec![
        msg(Level::Info, "first"),
        msg(Level::Warn, "second"),
        msg(Level::Error, "third"),
        LoggingCommands::Kill,
        msg(Level::Info, "late"),
    ];
    let msgs = process_commands(commands);
    assert_eq!(3, msgs.len());
    assert_eq!(b"first".to_vec(), msgs[0].content);
    assert_eq!(b"second".to_vec(), msgs[1].content);
    assert_eq!(b"third".to_vec(), msgs[2].content);
}

#[test]
fn test_worker_step() {
    let (s, out) = worker_step(WorkerState::Running, msg(Level::Info, "a"));
    assert_eq!(WorkerState::Running, s);
    assert_eq!(b"a".to_vec(), out.unwrap().content);

    let (s, out) = worker_step(WorkerState::Running, LoggingCommands::Kill);
    assert_eq!(WorkerState::Terminated, s);
    assert!(out.is_none());

    let (s, out) = worker_step(WorkerState::Terminated, msg(Level::Info, "b"));
    assert_eq!(WorkerState::Terminated, s);
    assert!(out.is_none());
}

#[test]
fn test_write_plan_first_write_creates_directory() {
    let body = MessageBody { level: Level::Info, content: b"hello".to_vec() };
    let options = LoggingConfig { logging_directory: String::from("./logs/"), max_dir_size: 1000 };
    let plan: WritePlan = log(&body, &options, AUG_1_2020, &None);
    assert!(plan.create_directory);
    assert_eq!(0, plan.files.len());
    assert_eq!(0, plan.cutoff);
    assert_eq!(b"2020_08_01.log".to_vec(), plan.target);
    assert_eq!(b"[2020-08-01 00:00:00] INFO  hello\n".to_vec(), plan.line);
}

#[test]
fn test_write_plan_evicts_oldest() {
    let body = MessageBody { level: Level::Warn, content: b"w".to_vec() };
    let options = LoggingConfig { logging_directory: String::from("./logs/"), max_dir_size: 1000 };
    let listing = Some(vec![
        (b"2020_07_30.log".to_vec(), 600u64),
        (b"2020_07_31.log".to_vec(), 600u64),
        (b"notes.txt".to_vec(), 5000u64),
    ]);
    let plan = log(&body, &options, AUG_1_2020, &listing);
    assert!(!plan.create_directory);
    assert_eq!(2, plan.files.len());
    assert_eq!(1, plan.cutoff);
    assert_eq!(b"2020_07_30.log".to_vec(), plan.files[0].name);
    assert_eq!(b"2020_07_31.log".to_vec(), plan.files[1].name);
}
