use profiler::folded::Aggregator;
use profiler::svg::{build_tree, checked_max_depth, color_for, escape_xml, max_depth, render_plan, FlameNode};
use profiler::symbolize::{Frame, FrameKind};

fn sample_agg() -> Aggregator {
    let mut agg = Aggregator::new();
    agg.add(
        vec![Frame::User("main".into()), Frame::User("compute".into())],
        10,
    );
    agg.add(
        vec![Frame::User("main".into()), Frame::Kernel("do_idle".into())],
        5,
    );
    agg
}

#[test]
fn tree_aggregates_shared_prefix() {
    let agg = sample_agg();
    let tree = build_tree(&agg);
    assert_eq!(tree.value, 15);
    assert_eq!(tree.children.len(), 1);
    let main = &tree.children[0];
    assert_eq!(main.name, "main");
    assert_eq!(main.value, 15);
    assert_eq!(main.children.len(), 2);
}

#[test]
fn tree_children_are_per_label_and_kind() {
    let mut agg = sample_agg();
    agg.add(vec![Frame::Kernel("main".into())], 3);
    let tree = build_tree(&agg);
    assert_eq!(tree.name, "all");
    assert_eq!(tree.kind, FrameKind::Unknown);
    assert_eq!(tree.value, 18);
    assert_eq!(tree.children.len(), 2);
    assert_eq!(tree.children[1].kind, FrameKind::Kernel);
    assert_eq!(tree.children[1].value, 3);
    let main = &tree.children[0];
    assert_eq!(main.children[0].name, "compute");
    assert_eq!(main.children[0].value, 10);
    assert_eq!(main.children[1].name, "do_idle");
    assert_eq!(main.children[1].kind, FrameKind::Kernel);
    assert_eq!(main.children[1].value, 5);
    assert_eq!(max_depth(&tree), 2);
}

#[test]
fn empty_aggregator_builds_a_bare_root() {
    let tree = build_tree(&Aggregator::new());
    assert_eq!(tree.value, 0);
    assert!(tree.children.is_empty());
    assert_eq!(max_depth(&tree), 0);
}

#[test]
fn escapes_markup_characters() {
    assert_eq!(escape_xml("A<B>&\"C\"'"), "A&lt;B&gt;&amp;&quot;C&quot;&apos;");
    assert_eq!(escape_xml("plain"), "plain");
}

#[test]
fn colors_follow_the_layer() {
    assert_eq!(color_for(FrameKind::Kernel), "#e08030");
    assert_eq!(color_for(FrameKind::User), "#3b82c4");
    assert_eq!(color_for(FrameKind::Unknown), "#b0b0b0");
}

fn plan(tree: &FlameNode) -> Vec<(u32, String, FrameKind, u64)> {
    render_plan(tree)
        .into_iter()
        .map(|i| (i.depth, i.label, i.kind, i.value))
        .collect()
}

#[test]
fn render_plan_lists_frames_parents_first_with_escaped_labels() {
    let mut agg = sample_agg();
    agg.add(vec![Frame::User("a<b".into())], 2);
    let tree = build_tree(&agg);
    assert_eq!(
        plan(&tree),
        vec![
            (0, "all".to_string(), FrameKind::Unknown, 17),
            (1, "main".to_string(), FrameKind::User, 15),
            (2, "compute".to_string(), FrameKind::User, 10),
            (2, "do_idle".to_string(), FrameKind::Kernel, 5),
            (1, "a&lt;b".to_string(), FrameKind::User, 2),
        ]
    );
}

#[test]
fn render_plan_skips_subtrees_without_samples() {
    let leaf = FlameNode { name: "leaf".into(), kind: FrameKind::User, value: 4, children: vec![] };
    let empty = FlameNode { name: "empty".into(), kind: FrameKind::User, value: 0, children: vec![leaf] };
    let kept = FlameNode { name: "kept".into(), kind: FrameKind::Kernel, value: 1, children: vec![] };
    let root = FlameNode { name: "all".into(), kind: FrameKind::Unknown, value: 5, children: vec![empty, kept] };
    assert_eq!(
        plan(&root),
        vec![
            (0, "all".to_string(), FrameKind::Unknown, 5),
            (1, "kept".to_string(), FrameKind::Kernel, 1),
        ]
    );
    assert!(plan(&build_tree(&Aggregator::new())).is_empty());
}

#[test]
fn checked_max_depth_agrees_with_max_depth() {
    let tree = build_tree(&sample_agg());
    assert_eq!(checked_max_depth(&tree), Some(2));
    assert_eq!(checked_max_depth(&build_tree(&Aggregator::new())), Some(0));
}

#[test]
fn children_are_sorted_by_value_largest_first() {
    let mut agg = Aggregator::new();
    agg.add(vec![Frame::User("rare".into())], 1);
    agg.add(vec![Frame::User("hot".into())], 5);
    agg.add(vec![Frame::User("tie_a".into())], 3);
    agg.add(vec![Frame::User("tie_b".into())], 3);
    let tree = build_tree(&agg);
    let names: Vec<&str> = tree.children.iter().map(|c| c.name.as_str()).collect();
    assert_eq!(names, vec!["hot", "tie_a", "tie_b", "rare"]);
    let values: Vec<u64> = tree.children.iter().map(|c| c.value).collect();
    assert_eq!(values, vec![5, 3, 3, 1]);
}

fn unescape(t: &str) -> String {
    let mut out = String::new();
    let mut rest = t;
    while !rest.is_empty() {
        let mut matched = false;
        for (entity, c) in [("&amp;", '&'), ("&lt;", '<'), ("&gt;", '>'), ("&quot;", '"'), ("&apos;", '\'')] {
            if rest.starts_with(entity) {
                out.push(c);
                rest = &rest[entity.len()..];
                matched = true;
                break;
            }
        }
        if !matched {
            let c = rest.chars().next().unwrap();
            out.push(c);
            rest = &rest[c.len_utf8()..];
        }
    }
    out
}

#[test]
fn escaping_round_trips_and_keeps_plain_text() {
    for s in ["A<B>&\"C\"'", "&amp; already", "a&&b", "plain text é", ""] {
        assert_eq!(unescape(&escape_xml(s)), s);
    }
    assert_eq!(escape_xml("plain text é"), "plain text é");
    assert_eq!(escape_xml("&amp;"), "&amp;amp;");
}
