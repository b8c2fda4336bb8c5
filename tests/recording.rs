use py_crude_resource_monitor::report::ReportIdentifier;
use py_crude_resource_monitor::resources::global_resources;
use py_crude_resource_monitor::tracker::{plan_tick, AttachRetry, AttachStep, ATTACH_ATTEMPTS};
use py_crude_resource_monitor::types::{ProcessResources, StackTrace};
use py_crude_resource_monitor::writer::{SampleWriter, WriteRequest};

fn resources(memory: u64) -> ProcessResources {
    ProcessResources { memory, cpu: 0, disk_read_bytes: 0, disk_write_bytes: 0, thread_resources: vec![] }
}

fn request(identity: ReportIdentifier, time: u128) -> WriteRequest {
    WriteRequest { identity, resources: resources(0), stacktraces: vec![], time }
}

fn trace(tid: u64) -> StackTrace {
    StackTrace {
        pid: 1,
        thread_id: tid,
        thread_name: None,
        os_thread_id: None,
        active: true,
        owns_gil: false,
        frames: vec![],
        process_info: None,
    }
}

#[test]
fn indices_are_consecutive_per_identity() {
    let mut writer = SampleWriter::new();
    let order = [
        ReportIdentifier::Pid(1),
        ReportIdentifier::Global,
        ReportIdentifier::Pid(2),
        ReportIdentifier::Pid(1),
        ReportIdentifier::Global,
        ReportIdentifier::Pid(1),
    ];
    let indices: Vec<usize> = order.iter().map(|id| writer.record(request(*id, 0)).index).collect();
    assert_eq!(indices, vec![0, 0, 0, 1, 1, 2]);
    assert_eq!(writer.written(ReportIdentifier::Pid(1)), 3);
    assert_eq!(writer.written(ReportIdentifier::Pid(9)), 0);
}

#[test]
fn record_carries_request_contents() {
    let mut writer = SampleWriter::new();
    let req = WriteRequest {
        identity: ReportIdentifier::Pid(3),
        resources: resources(77),
        stacktraces: vec![trace(5)],
        time: 1234,
    };
    let line = writer.record(req);
    assert_eq!(line.index, 0);
    assert_eq!(line.time, 1234);
    assert_eq!(line.resources.memory, 77);
    assert_eq!(line.stacktraces[0].thread_id, 5);
}

#[test]
fn vanished_process_is_skipped_and_index_continues() {
    let mut writer = SampleWriter::new();
    let tick = |found: bool| {
        plan_tick(
            vec![(10, vec![trace(1)]), (20, vec![trace(2)])],
            vec![if found { Some(resources(1)) } else { None }, Some(resources(2))],
            resources(0),
            0,
        )
    };
    let first = tick(true);
    let ids: Vec<ReportIdentifier> = first.iter().map(|r| r.identity).collect();
    assert_eq!(ids, vec![ReportIdentifier::Pid(10), ReportIdentifier::Pid(20), ReportIdentifier::Global]);
    for req in first {
        writer.record(req);
    }
    let second = tick(false);
    let ids: Vec<ReportIdentifier> = second.iter().map(|r| r.identity).collect();
    assert_eq!(ids, vec![ReportIdentifier::Pid(20), ReportIdentifier::Global]);
    for req in second {
        writer.record(req);
    }
    let third = tick(true);
    let lines: Vec<(ReportIdentifier, usize)> =
        third.into_iter().map(|r| (r.identity, writer.record(r).index)).collect();
    assert_eq!(
        lines,
        vec![(ReportIdentifier::Pid(10), 1), (ReportIdentifier::Pid(20), 2), (ReportIdentifier::Global, 2)]
    );
}

#[test]
fn global_record_always_last_and_without_stacks() {
    let reqs = plan_tick(vec![], vec![], resources(9), 42);
    assert_eq!(reqs.len(), 1);
    assert_eq!(reqs[0].identity, ReportIdentifier::Global);
    assert!(reqs[0].stacktraces.is_empty());
    assert_eq!(reqs[0].resources.memory, 9);
    assert_eq!(reqs[0].time, 42);
}

#[test]
fn global_resources_sum_disks() {
    let r = global_resources(100, 20, 350, &vec![(1, 2), (10, 20)]);
    assert_eq!(r.memory, 120);
    assert_eq!(r.cpu, 350);
    assert_eq!(r.disk_read_bytes, 11);
    assert_eq!(r.disk_write_bytes, 22);
    assert!(r.thread_resources.is_empty());
    let capped = global_resources(u64::MAX, 1, 0, &vec![(u64::MAX, 0), (5, 0)]);
    assert_eq!(capped.memory, u64::MAX);
    assert_eq!(capped.disk_read_bytes, u64::MAX);
}

#[test]
fn attach_retried_then_given_up() {
    let mut retry = AttachRetry::new();
    let mut steps = Vec::new();
    for _ in 0..ATTACH_ATTEMPTS {
        steps.push(retry.on_failure());
    }
    assert_eq!(steps.len(), 5);
    assert!(steps[..4].iter().all(|s| *s == AttachStep::RetryAfterPause));
    assert_eq!(steps[4], AttachStep::GiveUp);
}
