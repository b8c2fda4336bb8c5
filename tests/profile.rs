use py_crude_resource_monitor::main_thread::{main_thread_id, MAIN_THREAD_NAME};
use py_crude_resource_monitor::process::build_process;
use py_crude_resource_monitor::process_tree::ProcessSet;
use py_crude_resource_monitor::profile::{
    export_firefox, generate_profile, session_record_times, ProfileBuilder,
};
use py_crude_resource_monitor::report::{
    file_stem, parse_pid, split_lines, read_report, report_identifier, ExportError, Report, ReportIdentifier,
};
use py_crude_resource_monitor::text::same_text;
use py_crude_resource_monitor::timeline::FrameCategory;
use py_crude_resource_monitor::types::{
    Frame, JsonLine, ProcessResources, StackTrace, ThreadResources,
};

fn frame(name: &str, filename: &str, line: i32, native: bool) -> Frame {
    Frame {
        name: name.to_string(),
        filename: filename.to_string(),
        module: None,
        short_filename: Some(format!("short_{}", filename)),
        line,
        locals: None,
        is_entry: native,
    }
}

fn trace(tid: u64, name: Option<&str>, os_tid: Option<u64>, frames: Vec<Frame>) -> StackTrace {
    StackTrace {
        pid: 1,
        thread_id: tid,
        thread_name: name.map(|n| n.to_string()),
        os_thread_id: os_tid,
        active: true,
        owns_gil: false,
        frames,
        process_info: None,
    }
}

fn resources(memory: u64, cpu: u64) -> ProcessResources {
    ProcessResources {
        memory,
        cpu,
        disk_read_bytes: 0,
        disk_write_bytes: 0,
        thread_resources: vec![],
    }
}

fn line(time: u128, index: usize, res: ProcessResources, traces: Vec<StackTrace>) -> JsonLine {
    JsonLine { stacktraces: traces, resources: res, index, time }
}

fn main_trace() -> StackTrace {
    trace(1, Some("MainThread"), None, vec![frame("f", "a.py", 1, false)])
}

#[test]
fn parses_decimal_pids() {
    assert_eq!(parse_pid("1234"), Some(1234));
    assert_eq!(parse_pid("+7"), Some(7));
    assert_eq!(parse_pid("0"), Some(0));
    assert_eq!(parse_pid("4294967295"), Some(u32::MAX));
    assert_eq!(parse_pid("4294967296"), None);
    assert_eq!(parse_pid(""), None);
    assert_eq!(parse_pid("+"), None);
    assert_eq!(parse_pid("12a"), None);
    assert_eq!(parse_pid("-3"), None);
}

#[test]
fn identifies_logs_by_file_name() {
    assert_eq!(report_identifier("global").unwrap(), ReportIdentifier::Global);
    assert_eq!(report_identifier("42").unwrap(), ReportIdentifier::Pid(42));
    match report_identifier("notes") {
        Err(ExportError::UnrecognizedFileName { name }) => assert_eq!(name, "notes"),
        other => panic!("unexpected {:?}", other),
    }
}

#[test]
fn compares_text() {
    assert!(same_text("MainThread", MAIN_THREAD_NAME));
    assert!(!same_text("MainThreads", MAIN_THREAD_NAME));
    assert!(!same_text("Mainthread", MAIN_THREAD_NAME));
    assert!(same_text("", ""));
}

#[test]
fn later_log_of_same_identity_replaces_earlier() {
    let files = vec![
        ("5".to_string(), vec![line(1, 0, resources(1, 0), vec![])]),
        ("global".to_string(), vec![]),
        ("+5".to_string(), vec![line(2, 0, resources(2, 0), vec![]), line(3, 1, resources(3, 0), vec![])]),
        ("3".to_string(), vec![]),
    ];
    let report = read_report(files).unwrap();
    assert_eq!(report.processes.len(), 2);
    assert_eq!(report.processes[0].0, 3);
    assert_eq!(report.processes[1].0, 5);
    assert_eq!(report.processes[1].1.len(), 2);
    assert!(report.global.is_some());
}

#[test]
fn unrecognized_file_name_fails_the_whole_read() {
    let files = vec![
        ("5".to_string(), vec![]),
        ("profile".to_string(), vec![]),
    ];
    match read_report(files) {
        Err(ExportError::UnrecognizedFileName { name }) => assert_eq!(name, "profile"),
        other => panic!("unexpected {:?}", other.map(|r| r.processes.len())),
    }
}

#[test]
fn report_insert_keeps_pids_ordered() {
    let mut report = Report::new();
    report.insert(ReportIdentifier::Pid(9), vec![]);
    report.insert(ReportIdentifier::Pid(2), vec![]);
    report.insert(ReportIdentifier::Pid(5), vec![]);
    report.insert(ReportIdentifier::Global, vec![]);
    let pids: Vec<u32> = report.processes.iter().map(|p| p.0).collect();
    assert_eq!(pids, vec![2, 5, 9]);
}

#[test]
fn start_time_is_earliest() {
    assert_eq!(ProfileBuilder::start_time(&vec![30, 10, 20]).unwrap(), 10);
    assert!(matches!(ProfileBuilder::start_time(&vec![]), Err(ExportError::NoSamples)));
}

#[test]
fn median_interval_ignores_outlier() {
    let times: Vec<u128> = vec![0, 10, 20, 1000, 1010];
    assert_eq!(ProfileBuilder::sampling_interval(&times).unwrap(), 10);
}

#[test]
fn interval_needs_two_records() {
    assert!(matches!(ProfileBuilder::sampling_interval(&vec![5]), Err(ExportError::NoSamples)));
    assert!(matches!(ProfileBuilder::sampling_interval(&vec![]), Err(ExportError::NoSamples)));
}

#[test]
fn backward_step_counts_as_zero_gap() {
    // gaps: 0 (step back), 5, 5 -> sorted [0, 5, 5] -> median 5
    assert_eq!(ProfileBuilder::sampling_interval(&vec![100, 50, 55, 60]).unwrap(), 5);
    // gaps: 0, 0, 7 -> median 0
    assert_eq!(ProfileBuilder::sampling_interval(&vec![9, 3, 3, 10]).unwrap(), 0);
}

#[test]
fn main_thread_falls_back_to_lowest_id() {
    let lines = vec![line(
        0,
        0,
        resources(0, 0),
        vec![trace(7, Some("Worker"), None, vec![]), trace(3, Some("Loader"), None, vec![])],
    )];
    assert_eq!(main_thread_id(&lines), Some(3));
}

#[test]
fn main_thread_found_by_name() {
    let lines = vec![
        line(0, 0, resources(0, 0), vec![trace(2, Some("Worker"), None, vec![])]),
        line(1, 1, resources(0, 0), vec![trace(9, Some("MainThread"), None, vec![]), trace(4, None, None, vec![])]),
    ];
    assert_eq!(main_thread_id(&lines), Some(9));
    assert_eq!(main_thread_id(&vec![line(0, 0, resources(0, 0), vec![])]), None);
}

#[test]
fn equal_call_sites_share_one_frame() {
    let lines = vec![
        line(100, 0, resources(0, 0), vec![
            trace(1, Some("MainThread"), None, vec![frame("inner", "b.py", 2, false), frame("outer", "a.py", 1, false)]),
            trace(2, Some("Worker"), None, vec![frame("outer", "a.py", 1, false)]),
        ]),
        line(110, 1, resources(0, 0), vec![
            trace(2, None, None, vec![frame("other", "a.py", 3, true), frame("renamed", "b.py", 2, false)]),
        ]),
    ];
    let p = build_process(1, &lines, 100, 10).unwrap();
    assert_eq!(p.frames.len(), 3);
    let s0 = &p.ticks[0].samples[0].stack;
    let s1 = &p.ticks[0].samples[1].stack;
    let s2 = &p.ticks[1].samples[0].stack;
    // stacks are outermost first
    assert_eq!(s0.len(), 2);
    assert_eq!(s0[0], s1[0]);
    assert_eq!(s0[1], s2[0]);
    assert_ne!(s2[1], s0[0]);
    assert_ne!(s2[1], s0[1]);
    let native = &p.frames[s2[1]];
    assert_eq!(native.category, FrameCategory::Native);
    assert_eq!(native.location, "short_a.py");
    assert_eq!(native.line, 3);
    // the first sighting of a call site names its frame
    assert_eq!(p.frames[s2[0]].name, "inner");
    assert_eq!(p.frames[s0[0]].category, FrameCategory::Interpreted);
}

#[test]
fn main_thread_registered_first_and_threads_named() {
    let lines = vec![
        line(100, 0, resources(0, 0), vec![trace(5, Some("Worker"), None, vec![]), trace(2, Some("MainThread"), None, vec![])]),
        line(110, 1, resources(0, 0), vec![trace(5, Some("Renamed"), None, vec![]), trace(8, None, None, vec![])]),
    ];
    let p = build_process(4, &lines, 90, 10).unwrap();
    assert_eq!(p.pid, 4);
    assert_eq!(p.start_time, 10);
    let tids: Vec<u64> = p.threads.iter().map(|t| t.tid).collect();
    assert_eq!(tids, vec![2, 5, 8]);
    assert!(p.threads[0].is_main);
    assert!(!p.threads[1].is_main);
    assert_eq!(p.threads[0].name.as_deref(), Some("MainThread"));
    assert_eq!(p.threads[1].name.as_deref(), Some("Renamed"));
    assert_eq!(p.threads[2].name, None);
    assert_eq!(p.threads[1].start_time, 10);
    assert_eq!(p.threads[2].start_time, 20);
    assert_eq!(p.ticks[1].time, 20);
}

#[test]
fn cpu_attributed_to_main_thread_and_os_threads() {
    let mut res = resources(0, 5000);
    res.thread_resources = vec![(70, ThreadResources { cpu: 2500, memory: 0, disk_read_bytes: 0, disk_write_bytes: 0 })];
    let lines = vec![line(0, 0, res, vec![
        trace(1, Some("MainThread"), Some(60), vec![]),
        trace(2, None, Some(70), vec![]),
        trace(3, None, Some(80), vec![]),
        trace(4, None, None, vec![]),
    ])];
    let p = build_process(1, &lines, 0, 20).unwrap();
    let cpu: Vec<u128> = p.ticks[0].samples.iter().map(|s| s.cpu_micros).collect();
    // 50% of 20 ms = 10 ms; 25% of 20 ms = 5 ms
    assert_eq!(cpu, vec![10_000, 5_000, 0, 0]);
}

#[test]
fn counters_start_from_zero_baseline() {
    let mut first = resources(1000, 0);
    first.disk_read_bytes = 10;
    first.disk_write_bytes = 5;
    let mut second = resources(1300, 0);
    second.disk_read_bytes = 40;
    second.disk_write_bytes = 5;
    let lines = vec![line(0, 0, first, vec![main_trace()]), line(10, 1, second, vec![main_trace()])];
    let p = build_process(1, &lines, 0, 10).unwrap();
    assert_eq!(p.ticks[0].memory_delta, 0);
    assert_eq!(p.ticks[1].memory_delta, 300);
    assert_eq!(p.ticks[0].io_delta, 0);
    assert_eq!(p.ticks[1].io_delta, 30);
}

#[test]
fn process_without_threads_is_an_error() {
    let lines = vec![line(0, 0, resources(0, 0), vec![])];
    assert!(matches!(build_process(3, &lines, 0, 10), Err(ExportError::NoThreads { pid: 3 })));
}

#[test]
fn builder_skips_processes_without_records() {
    let mut builder = ProfileBuilder::new(0, 10);
    builder.add_process(1, &vec![]).unwrap();
    assert_eq!(builder.processes.len(), 0);
    builder.add_process(2, &vec![line(0, 0, resources(0, 0), vec![main_trace()])]).unwrap();
    let profile = builder.finish();
    assert_eq!(profile.processes.len(), 1);
    assert_eq!(profile.processes[0].pid, 2);
}

fn three_tick_session() -> Vec<(String, Vec<JsonLine>)> {
    let memory = [100u64, 150, 130];
    let lines: Vec<JsonLine> = (0..3)
        .map(|k| line(1_000 + 10 * k as u128, k, resources(memory[k], 0), vec![main_trace()]))
        .collect();
    let global: Vec<JsonLine> = (0..3)
        .map(|k| line(1_000 + 10 * k as u128, k, resources(0, 0), vec![]))
        .collect();
    vec![("global".to_string(), global), ("17".to_string(), lines)]
}

#[test]
fn end_to_end_memory_deltas() {
    let profile = export_firefox(three_tick_session()).unwrap();
    assert_eq!(profile.start_time_millis, 1_000);
    assert_eq!(profile.interval_millis, 10);
    assert_eq!(profile.processes.len(), 1);
    let deltas: Vec<i128> = profile.processes[0].ticks.iter().map(|t| t.memory_delta).collect();
    assert_eq!(deltas, vec![0, 50, -20]);
}

#[test]
fn export_is_deterministic() {
    let a = export_firefox(three_tick_session()).unwrap();
    let b = export_firefox(three_tick_session()).unwrap();
    assert_eq!(format!("{:?}", a), format!("{:?}", b));
}

#[test]
fn empty_session_is_an_error() {
    assert!(matches!(export_firefox(vec![]), Err(ExportError::NoSamples)));
    let report = Report::new();
    assert!(session_record_times(&report).is_empty());
    assert!(matches!(generate_profile(&report), Err(ExportError::NoSamples)));
}

#[test]
fn processes_ordered_by_pid() {
    let files = vec![
        ("9".to_string(), vec![line(5, 0, resources(0, 0), vec![main_trace()])]),
        ("4".to_string(), vec![line(0, 0, resources(0, 0), vec![main_trace()])]),
    ];
    let profile = export_firefox(files).unwrap();
    let pids: Vec<u32> = profile.processes.iter().map(|p| p.pid).collect();
    assert_eq!(pids, vec![4, 9]);
    assert_eq!(profile.processes[1].start_time, 5);
}

#[test]
fn process_set_tracks_children_and_drops_exited() {
    let mut set = ProcessSet::new(1);
    assert!(set.any_live());
    let plan = set.plan_refresh(&vec![vec![2, 3, 2]], &vec![true]);
    assert_eq!(plan.to_remove, Vec::<u32>::new());
    assert_eq!(plan.to_attach, vec![2, 3]);
    set.apply(&plan.to_remove, &vec![2]);
    assert_eq!(set.pids(), &vec![1, 2]);
    let plan = set.plan_refresh(&vec![vec![2], vec![]], &vec![false, true]);
    assert_eq!(plan.to_remove, vec![1]);
    assert!(plan.to_attach.is_empty());
    set.apply(&plan.to_remove, &plan.to_attach);
    assert_eq!(set.pids(), &vec![2]);
    set.apply(&vec![2], &vec![]);
    assert!(!set.any_live());
}

#[test]
fn file_stems_read_back_as_their_identity() {
    assert_eq!(file_stem(ReportIdentifier::Global), "global");
    assert_eq!(file_stem(ReportIdentifier::Pid(0)), "0");
    assert_eq!(file_stem(ReportIdentifier::Pid(4021)), "4021");
    assert_eq!(file_stem(ReportIdentifier::Pid(u32::MAX)), "4294967295");
    for id in [ReportIdentifier::Global, ReportIdentifier::Pid(7), ReportIdentifier::Pid(1_000_000)] {
        assert_eq!(report_identifier(&file_stem(id)).unwrap(), id);
    }
}

#[test]
fn logs_split_into_lines() {
    assert_eq!(split_lines(&b"{\"a\":1}\n{\"a\":2}\n".to_vec()), vec![b"{\"a\":1}".to_vec(), b"{\"a\":2}".to_vec()]);
    assert_eq!(split_lines(&b"x\ny".to_vec()), vec![b"x".to_vec(), b"y".to_vec()]);
    assert_eq!(split_lines(&b"x\n\ny\n".to_vec()), vec![b"x".to_vec(), vec![], b"y".to_vec()]);
    assert!(split_lines(&vec![]).is_empty());
    assert_eq!(split_lines(&b"\n".to_vec()), vec![Vec::<u8>::new()]);
}

#[test]
fn empty_thread_name_keeps_earlier_name() {
    let lines = vec![
        line(0, 0, resources(0, 0), vec![main_trace(), trace(5, Some("Worker"), None, vec![])]),
        line(10, 1, resources(0, 0), vec![main_trace(), trace(5, Some(""), None, vec![])]),
        line(20, 2, resources(0, 0), vec![trace(1, Some(""), None, vec![]), trace(6, Some(""), None, vec![])]),
    ];
    let p = build_process(1, &lines, 0, 10).unwrap();
    let names: Vec<Option<&str>> = p.threads.iter().map(|t| t.name.as_deref()).collect();
    assert_eq!(names, vec![Some("MainThread"), Some("Worker"), None]);
}
