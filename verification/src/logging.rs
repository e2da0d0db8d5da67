//! The logging core: message and command types, the line format, the worker
//! state machine that drains the command queue, and the write pipeline's
//! decisions.
//!
//! All filesystem work — listing the directory, deleting files, appending
//! the line — is the caller's part; the functions here decide, exactly,
//! what that work must be.
use vstd::prelude::*;
use crate::bytes::clone_bytes;
use crate::datetime::{
    date_of_days, datestamp_bytes, timestamp_bytes, datestamp_for, timestamp_for,
    SECS_BEFORE_YEAR_10000, SECS_PER_DAY,
};
use crate::quota::{
    check_size, entry_views, is_rotation_entry, log_suffix, record_views, record_wf,
    sizes_of, sorted_by_day, suffix_sum, LogFileRecord,
};

verus! {

/// A log message's severity.
#[derive(Clone, Copy, Debug, PartialEq, Eq, Structural)]
pub enum Level {
    Trace,
    Debug,
    Info,
    Warn,
    Error,
}

/// The conventional severity order: the smaller the rank, the more severe
/// the level.
pub open spec fn level_rank(l: Level) -> int {
    match l {
        Level::Error => 1,
        Level::Warn => 2,
        Level::Info => 3,
        Level::Debug => 4,
        Level::Trace => 5,
    }
}

/// The fixed seven-byte tag a level puts into a log line.
pub open spec fn tag_of(l: Level) -> Seq<u8> {
    match l {
        Level::Error => seq![32u8, 69u8, 82u8, 82u8, 79u8, 82u8, 32u8],
        Level::Debug => seq![32u8, 68u8, 69u8, 66u8, 85u8, 71u8, 32u8],
        Level::Info => seq![32u8, 73u8, 78u8, 70u8, 79u8, 32u8, 32u8],
        Level::Trace => seq![32u8, 84u8, 82u8, 65u8, 67u8, 69u8, 32u8],
        Level::Warn => seq![32u8, 87u8, 65u8, 82u8, 78u8, 32u8, 32u8],
    }
}

/// The seven-byte tag of a level: `" ERROR "`, `" DEBUG "`, `" INFO  "`,
/// `" TRACE "` or `" WARN  "`.
pub fn level_tag(l: Level) -> (t: Vec<u8>)
    ensures
        t@ == tag_of(l),
{
    let t: Vec<u8> = match l {
        Level::Error => vec![32, 69, 82, 82, 79, 82, 32],
        Level::Debug => vec![32, 68, 69, 66, 85, 71, 32],
        Level::Info => vec![32, 73, 78, 70, 79, 32, 32],
        Level::Trace => vec![32, 84, 82, 65, 67, 69, 32],
        Level::Warn => vec![32, 87, 65, 82, 78, 32, 32],
    };
    proof {
        assert(t@ =~= tag_of(l));
    }
    t
}

/// The fixed inbound filter: levels no less severe than `Info` pass. The
/// threshold is a constant of the service, independent of the maximum level
/// a registration may set.
pub fn enabled(level: Level) -> (r: bool)
    ensures
        r == (level_rank(level) <= level_rank(Level::Info)),
{
    match level {
        Level::Error => true,
        Level::Warn => true,
        Level::Info => true,
        Level::Debug => false,
        Level::Trace => false,
    }
}

/// The body of one message to log.
pub struct MessageBody {
    pub level: Level,
    pub content: Vec<u8>,
}

/// A command the logging service's worker takes from its queue.
pub enum LoggingCommands {
    Kill,
    Message(MessageBody),
}

/// Construction-time configuration of the logging service.
pub struct LoggingConfig {
    /// Path from the working directory to the directory for log files.
    pub logging_directory: String,
    /// The maximum size of the logging directory in bytes.
    pub max_dir_size: usize,
}

/// The worker's two states: consuming commands, or done for good.
#[derive(Clone, Copy, Debug, PartialEq, Eq, Structural)]
pub enum WorkerState {
    Running,
    Terminated,
}

/// One step of the worker: a message is handed on to the write pipeline and
/// the worker keeps running; the kill command stops it; a stopped worker
/// takes nothing more.
pub fn worker_step(state: WorkerState, command: LoggingCommands) -> (res: (
    WorkerState,
    Option<MessageBody>,
))
    ensures
        match state {
            WorkerState::Terminated => res.0 == WorkerState::Terminated && res.1 is None,
            WorkerState::Running => match command {
                LoggingCommands::Kill => res.0 == WorkerState::Terminated && res.1 is None,
                LoggingCommands::Message(m) => res.0 == WorkerState::Running && res.1
                    == Some(m),
            },
        },
{
    match state {
        WorkerState::Terminated => (WorkerState::Terminated, None),
        WorkerState::Running => match command {
            LoggingCommands::Kill => (WorkerState::Terminated, None),
            LoggingCommands::Message(m) => (WorkerState::Running, Some(m)),
        },
    }
}

/// The messages a worker that starts running writes, in order, when it
/// takes the given commands from its queue: everything up to the first kill
/// command, and nothing after it.
pub open spec fn worker_run(cmds: Seq<LoggingCommands>) -> Seq<MessageBody>
    decreases cmds.len(),
{
    if cmds.len() == 0 {
        Seq::empty()
    } else {
        match cmds.first() {
            LoggingCommands::Kill => Seq::empty(),
            LoggingCommands::Message(m) => seq![m] + worker_run(cmds.drop_first()),
        }
    }
}

/// Drains a command queue as the worker does and returns the messages it
/// would hand to the write pipeline, in order.
pub fn process_commands(commands: Vec<LoggingCommands>) -> (msgs: Vec<MessageBody>)
    ensures
        msgs@ == worker_run(commands@),
{
    let ghost orig = commands@;
    let mut queue = commands;
    let mut state = WorkerState::Running;
    let mut msgs: Vec<MessageBody> = Vec::new();
    loop
        invariant
            state == WorkerState::Running ==> worker_run(orig) == msgs@ + worker_run(queue@),
            state == WorkerState::Terminated ==> worker_run(orig) == msgs@,
        ensures
            worker_run(orig) == msgs@,
        decreases queue@.len(),
    {
        if queue.len() == 0 {
            proof {
                if state == WorkerState::Running {
                    assert(worker_run(queue@) =~= Seq::<MessageBody>::empty());
                    assert(msgs@ + worker_run(queue@) =~= msgs@);
                }
            }
            break ;
        }
        if matches!(state, WorkerState::Terminated) {
            break ;
        }
        let ghost before = queue@;
        let cmd = queue.remove(0);
        proof {
            assert(cmd == before.first());
            assert(queue@ =~= before.drop_first());
        }
        let (next, out) = worker_step(state, cmd);
        state = next;
        match out {
            Some(m) => {
                let ghost prev = msgs@;
                msgs.push(m);
                proof {
                    assert(worker_run(before) =~= seq![m] + worker_run(queue@));
                    assert(prev + worker_run(before) =~= msgs@ + worker_run(queue@));
                }
            },
            None => {
                proof {
                    assert(worker_run(before) =~= Seq::<MessageBody>::empty());
                    assert(msgs@ + worker_run(before) =~= msgs@);
                }
            },
        }
    }
    msgs
}

/// Messages are written first in, first out: a worker given one message per
/// submission, in submission order, writes exactly those messages in that
/// order.
pub proof fn lemma_worker_fifo(msgs: Seq<MessageBody>)
    ensures
        worker_run(msgs.map(|i: int, m: MessageBody| LoggingCommands::Message(m))) == msgs,
    decreases msgs.len(),
{
    let cmds = msgs.map(|i: int, m: MessageBody| LoggingCommands::Message(m));
    if msgs.len() == 0 {
        assert(worker_run(cmds) =~= msgs);
    } else {
        lemma_worker_fifo(msgs.drop_first());
        assert(cmds.drop_first() =~= msgs.drop_first().map(
            |i: int, m: MessageBody| LoggingCommands::Message(m),
        ));
        assert(cmds.first() == LoggingCommands::Message(msgs.first()));
        assert(seq![msgs.first()] + msgs.drop_first() =~= msgs);
    }
}

/// Shutdown drains: every message submitted before the kill command is
/// written before the worker stops, and nothing queued after the kill
/// command is.
pub proof fn lemma_worker_drain(msgs: Seq<MessageBody>, rest: Seq<LoggingCommands>)
    ensures
        worker_run(
            msgs.map(|i: int, m: MessageBody| LoggingCommands::Message(m)) + seq![
                LoggingCommands::Kill,
            ] + rest,
        ) == msgs,
    decreases msgs.len(),
{
    let cmds = msgs.map(|i: int, m: MessageBody| LoggingCommands::Message(m)) + seq![
        LoggingCommands::Kill,
    ] + rest;
    if msgs.len() == 0 {
        assert(cmds.first() == LoggingCommands::Kill);
        assert(worker_run(cmds) =~= msgs);
    } else {
        lemma_worker_drain(msgs.drop_first(), rest);
        assert(cmds.first() == LoggingCommands::Message(msgs.first()));
        assert(cmds.drop_first() =~= msgs.drop_first().map(
            |i: int, m: MessageBody| LoggingCommands::Message(m),
        ) + seq![LoggingCommands::Kill] + rest);
        assert(seq![msgs.first()] + msgs.drop_first() =~= msgs);
    }
}

/// The bytes of one formatted log line:
/// `[YYYY-MM-DD HH:MM:SS]<LEVEL-TAG><text>` and a newline.
pub open spec fn line_bytes(secs: int, level: Level, content: Seq<u8>) -> Seq<u8> {
    let t = date_of_days(secs / SECS_PER_DAY as int);
    let sod = secs % SECS_PER_DAY as int;
    timestamp_bytes(t.0, t.1, t.2, sod / 3600, sod / 60 % 60, sod % 60) + tag_of(level) + content
        + seq![10u8]
}

/// The name of the rotation file for the day a timestamp falls in:
/// its `YYYY_MM_DD` datestamp followed by `.log`.
pub open spec fn rotation_name_bytes(secs: int) -> Seq<u8> {
    let t = date_of_days(secs / SECS_PER_DAY as int);
    datestamp_bytes(t.0, t.1, t.2) + log_suffix()
}

/// Formats the line the write pipeline appends for a message received at
/// the given wall-clock time.
pub fn format_line(now_secs: u64, message_body: &MessageBody) -> (line: Vec<u8>)
    requires
        now_secs < SECS_BEFORE_YEAR_10000,
    ensures
        line@ == line_bytes(now_secs as int, message_body.level, message_body.content@),
{
    let mut line = timestamp_for(now_secs);
    let mut tag = level_tag(message_body.level);
    line.append(&mut tag);
    let mut content = clone_bytes(&message_body.content);
    line.append(&mut content);
    line.push(10);
    line
}

/// The rotation file a message received at the given wall-clock time is
/// appended to.
pub fn rotation_file_name(now_secs: u64) -> (name: Vec<u8>)
    requires
        now_secs < SECS_BEFORE_YEAR_10000,
    ensures
        name@ == rotation_name_bytes(now_secs as int),
        crate::quota::is_rotation_name(name@),
{
    let mut name = datestamp_for(now_secs);
    name.push(46);
    name.push(108);
    name.push(111);
    name.push(103);
    proof {
        let t = date_of_days(now_secs as int / SECS_PER_DAY as int);
        assert(name@ =~= datestamp_bytes(t.0, t.1, t.2) + log_suffix());
        crate::datetime::lemma_datestamp_roundtrip(t.0, t.1, t.2);
        assert(name@.subrange(0, 10) =~= datestamp_bytes(t.0, t.1, t.2));
        assert(name@.subrange(10, 14) =~= log_suffix());
    }
    name
}

/// Everything one write must do to the filesystem, decided up front.
pub struct WritePlan {
    /// The logging directory must first be created; nothing is deleted on
    /// this very first write.
    pub create_directory: bool,
    /// The rotation files found, ordered old to new.
    pub files: Vec<LogFileRecord>,
    /// The files before this position are deleted, oldest first.
    pub cutoff: usize,
    /// The rotation file the line is appended to.
    pub target: Vec<u8>,
    /// The bytes appended, newline included.
    pub line: Vec<u8>,
}

/// The write pipeline's decisions for one message: create the directory if
/// it is missing, otherwise evict the oldest rotation files until the rest
/// fit the budget; then append the formatted line to the day's rotation
/// file.
///
/// `listing` holds the directory's (name, size) entries, or nothing when
/// the directory does not exist yet. The caller performs the plan in
/// order: create or delete, then append, then flush durably.
pub fn log(
    message_body: &MessageBody,
    options: &LoggingConfig,
    now_secs: u64,
    listing: &Option<Vec<(Vec<u8>, u64)>>,
) -> (plan: WritePlan)
    requires
        now_secs < SECS_BEFORE_YEAR_10000,
    ensures
        plan.create_directory == listing is None,
        plan.target@ == rotation_name_bytes(now_secs as int),
        plan.line@ == line_bytes(now_secs as int, message_body.level, message_body.content@),
        plan.cutoff <= plan.files@.len(),
        match listing {
            Option::None => plan.files@ == Seq::<LogFileRecord>::empty(),
            Option::Some(entries) => {
                &&& forall|i: int|
                    0 <= i < plan.files@.len() ==> record_wf(#[trigger] plan.files@[i])
                &&& sorted_by_day(plan.files@)
                &&& record_views(plan.files@).to_multiset() == entry_views(entries@).filter(
                    |e: (Seq<u8>, u64)| is_rotation_entry(e),
                ).to_multiset()
                &&& suffix_sum(sizes_of(plan.files@), plan.cutoff as int)
                    <= options.max_dir_size as u64
                &&& forall|j: int|
                    0 <= j < plan.cutoff ==> suffix_sum(sizes_of(plan.files@), j)
                        > options.max_dir_size as u64
            },
        },
{
    let (files, cutoff) = match listing {
        Option::None => (Vec::new(), 0),
        Option::Some(entries) => check_size(entries, options.max_dir_size as u64),
    };
    let target = rotation_file_name(now_secs);
    let line = format_line(now_secs, message_body);
    proof {
        if listing is None {
            assert(files@ =~= Seq::<LogFileRecord>::empty());
        }
    }
    WritePlan { create_directory: listing.is_none(), files, cutoff, target, line }
}

} // verus!
