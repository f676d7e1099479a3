use profiler::cli::{parse_seconds, OutputFormat, RecordArgs};
use profiler::drain::{
    build_stack, distinct_pids, kernel_stack, near_capacity, recorded_stack, target_filter_flag,
};
use profiler::kallsyms::Kallsyms;
use profiler::symbolize::Frame;

fn user(n: &str) -> Frame {
    Frame::User(n.to_string())
}

#[test]
fn stacks_run_outermost_first_user_then_kernel() {
    let s = build_stack(
        Some(vec![user("leaf"), user("mid"), user("main")]),
        Some(vec![Frame::Kernel("k_leaf".into()), Frame::Kernel("k_entry".into())]),
    );
    assert_eq!(
        s,
        vec![user("main"), user("mid"), user("leaf"), Frame::Kernel("k_entry".into()), Frame::Kernel("k_leaf".into())]
    );
}

#[test]
fn a_sample_without_stacks_is_one_unknown_frame() {
    assert_eq!(build_stack(None, None), vec![Frame::Unknown]);
    assert_eq!(build_stack(Some(vec![]), None), vec![Frame::Unknown]);
    assert_eq!(build_stack(None, Some(vec![user("x")])), vec![user("x")]);
}

#[test]
fn pids_are_refreshed_once_each_in_order_of_appearance() {
    assert_eq!(distinct_pids(&[5, 3, 5, 9, 3]), vec![5, 3, 9]);
    assert!(distinct_pids(&[]).is_empty());
}

#[test]
fn capacity_warning_starts_at_95_percent() {
    assert!(!near_capacity(9727));
    assert!(near_capacity(9728));
    assert!(near_capacity(10240));
}

#[test]
fn pid_filter_is_enabled_only_for_targets() {
    assert_eq!(target_filter_flag(&[]), 0);
    assert_eq!(target_filter_flag(&[1, 2]), 1);
}

#[test]
fn kernel_stacks_resolve_each_address() {
    let k = Kallsyms::parse("ffffffff81000000 T a\n");
    assert_eq!(
        kernel_stack(&k, &[0xffffffff81000001, 0x1]),
        vec![Frame::Kernel("a+0x1".into()), Frame::Unknown]
    );
}

#[test]
fn durations_are_whole_seconds() {
    assert_eq!(parse_seconds("30"), Ok(30));
    assert_eq!(parse_seconds("+7"), Ok(7));
    assert_eq!(
        parse_seconds("3s"),
        Err("invalid duration '3s': invalid digit found in string".to_string())
    );
    assert_eq!(
        parse_seconds(""),
        Err("invalid duration '': cannot parse integer from empty string".to_string())
    );
    assert_eq!(
        parse_seconds("18446744073709551616"),
        Err("invalid duration '18446744073709551616': number too large to fit in target type".to_string())
    );
    assert_eq!(parse_seconds("18446744073709551615"), Ok(u64::MAX));
    assert_eq!(
        parse_seconds("-1"),
        Err("invalid duration '-1': invalid digit found in string".to_string())
    );
}

#[test]
fn drain_interval_is_in_milliseconds() {
    let args = RecordArgs {
        pids: vec![],
        duration_secs: 30,
        frequency: 99,
        drain_interval_ms: 1000,
        output: None,
        format: OutputFormat::Svg,
    };
    assert_eq!(args.drain_interval(), 1000);
}

#[test]
fn negative_stack_ids_mark_unrecorded_stacks() {
    assert_eq!(recorded_stack(-1), None);
    assert_eq!(recorded_stack(-14), None);
    assert_eq!(recorded_stack(0), Some(0));
    assert_eq!(recorded_stack(i32::MAX), Some(2147483647));
}
