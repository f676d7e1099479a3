use profiler::folded::Aggregator;
use profiler::symbolize::Frame;

fn frames(names: &[&str]) -> Vec<Frame> {
    names.iter().map(|n| Frame::User(n.to_string())).collect()
}

fn folded(agg: &Aggregator) -> String {
    let mut out = Vec::new();
    agg.write_folded(&mut out);
    String::from_utf8(out).unwrap()
}

#[test]
fn aggregates_repeated_stacks() {
    let mut agg = Aggregator::new();
    agg.add(frames(&["main", "work"]), 3);
    agg.add(frames(&["main", "work"]), 2);
    agg.add(frames(&["main", "idle"]), 1);

    assert_eq!(agg.total(), 6);
    let mut out = Vec::new();
    agg.write_folded(&mut out);
    let text = String::from_utf8(out).unwrap();
    assert_eq!(text, "main;idle 1\nmain;work 5\n");
}

#[test]
fn empty_aggregator_produces_no_output() {
    let agg = Aggregator::new();
    assert!(agg.is_empty());
    let mut out = Vec::new();
    agg.write_folded(&mut out);
    assert!(out.is_empty());
}

#[test]
fn add_keeps_one_entry_per_stack_in_first_appearance_order() {
    let mut agg = Aggregator::default();
    agg.add(frames(&["b"]), 1);
    agg.add(frames(&["a"]), 2);
    agg.add(frames(&["b"]), 4);
    let entries = agg.iter();
    assert_eq!(entries.len(), 2);
    assert_eq!(entries[0], (frames(&["b"]), 5));
    assert_eq!(entries[1], (frames(&["a"]), 2));
    assert!(!agg.is_empty());
    assert_eq!(agg.total(), 7);
}

#[test]
fn kernel_and_user_frames_with_one_label_stay_distinct_stacks() {
    let mut agg = Aggregator::new();
    agg.add(vec![Frame::Kernel("x".into())], 2);
    agg.add(vec![Frame::User("x".into())], 1);
    assert_eq!(agg.iter().len(), 2);
    // equal chains are ordered by count
    assert_eq!(folded(&agg), "x 1\nx 2\n");
}

#[test]
fn folded_lines_are_sorted_by_chain_then_count() {
    let mut agg = Aggregator::new();
    agg.add(frames(&["zeta"]), 1);
    agg.add(vec![Frame::Unknown], 7);
    agg.add(frames(&["alpha", "beta"]), 10);
    agg.add(frames(&["alpha"]), 2);
    assert_eq!(folded(&agg), "[unknown] 7\nalpha 2\nalpha;beta 10\nzeta 1\n");
}

#[test]
fn folded_output_is_appended_as_utf8() {
    let mut agg = Aggregator::new();
    agg.add(frames(&["é", "ü"]), 12345);
    let mut out = b"> ".to_vec();
    agg.write_folded(&mut out);
    assert_eq!(String::from_utf8(out).unwrap(), "> é;ü 12345\n");
}

#[test]
fn folded_output_does_not_depend_on_the_order_stacks_were_added() {
    let mut a = Aggregator::new();
    a.add(frames(&["main", "work"]), 3);
    a.add(frames(&["main"]), 1);
    a.add(vec![Frame::Kernel("main".into())], 1);
    let mut b = Aggregator::new();
    b.add(vec![Frame::Kernel("main".into())], 1);
    b.add(frames(&["main"]), 1);
    b.add(frames(&["main", "work"]), 3);
    assert_eq!(folded(&a), folded(&b));
    assert_eq!(folded(&a), "main 1\nmain 1\nmain;work 3\n");
}

#[test]
fn counts_and_checked_totals() {
    let mut agg = Aggregator::new();
    agg.add(frames(&["a"]), 4);
    agg.add(frames(&["b"]), 6);
    agg.add(frames(&["a"]), 1);
    assert_eq!(agg.count_of_stack(&frames(&["a"])), 5);
    assert_eq!(agg.count_of_stack(&frames(&["c"])), 0);
    assert_eq!(agg.checked_total(), Some(11));
    agg.add(frames(&["c"]), u64::MAX - 5);
    assert_eq!(agg.checked_total(), None);
}
