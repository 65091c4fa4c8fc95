use proctree::index::ProcList;
use proctree::record::ProcInfo;
use proctree::render::ROOT_PID;

fn rec(pid: i32, name: &str, parent: Option<i32>) -> ProcInfo {
    ProcInfo::new(pid, Some(name.to_string()), None, parent)
}

#[test]
fn scenario_small_tree() {
    let entries = vec![
        rec(1, "init", None),
        rec(2, "a", Some(1)),
        rec(3, "b", Some(1)),
        rec(4, "c", Some(2)),
    ];
    let list = ProcList::build(entries);
    let expected = "Process: PID: 1, Name: init\n\
                    |   └── PID: 2, Name: a\n\
                    |   |   └── PID: 4, Name: c\n\
                    |   └── PID: 3, Name: b\n";
    assert_eq!(list.render(), expected);
}

#[test]
fn ordering_independent_of_enumeration_order() {
    let shuffled = vec![
        rec(4, "c", Some(2)),
        rec(2, "a", Some(1)),
        rec(1, "init", None),
        rec(3, "b", Some(1)),
    ];
    let list = ProcList::build(shuffled);
    let expected = "Process: PID: 1, Name: init\n\
                    |   └── PID: 2, Name: a\n\
                    |   |   └── PID: 4, Name: c\n\
                    |   └── PID: 3, Name: b\n";
    assert_eq!(list.render(), expected);
}

#[test]
fn render_is_deterministic() {
    let list = ProcList::build(vec![
        rec(1, "init", None),
        rec(2, "worker", Some(1)),
        rec(3, "helper", Some(2)),
    ]);
    let first = list.render();
    let second = list.render();
    assert_eq!(first, second);
}

#[test]
fn rootless_index_renders_fixed_line() {
    let list = ProcList::build(vec![rec(7, "stray", Some(9)), rec(9, "other", None)]);
    assert_eq!(list.render(), "No root process found\n");
}

#[test]
fn empty_index_renders_fixed_line() {
    let list = ProcList::new();
    assert_eq!(list.render(), "No root process found\n");
}

#[test]
fn failing_name_lookup_falls_back_to_sentinel() {
    let mut list = ProcList::new();
    list.add_proc(ProcInfo::new(1, None, None, None));
    assert_eq!(list.render(), "Process: PID: 1, Name: Unknown\n");
}

#[test]
fn present_path_is_rendered() {
    let mut list = ProcList::new();
    list.add_proc(ProcInfo::new(1, Some("init".to_string()), Some("/".to_string()), None));
    assert_eq!(list.render(), "Process: PID: 1, Name: init, Path: /\n");
}

#[test]
fn empty_path_is_omitted() {
    let mut list = ProcList::new();
    list.add_proc(ProcInfo::new(1, Some("init".to_string()), Some(String::new()), None));
    let out = list.render();
    assert_eq!(out, "Process: PID: 1, Name: init\n");
    assert!(!out.contains("Path:"));
}

#[test]
fn absent_path_is_omitted() {
    let mut list = ProcList::new();
    list.add_proc(ProcInfo::new(1, Some("init".to_string()), None, None));
    assert!(!list.render().contains("Path:"));
}

#[test]
fn duplicate_parent_edge_renders_node_once() {
    let mut list = ProcList::new();
    list.add_proc(rec(1, "init", None));
    list.add_proc(rec(2, "a", Some(1)));
    list.add_proc(rec(2, "a", Some(1)));
    let expected = "Process: PID: 1, Name: init\n\
                    |   └── PID: 2, Name: a\n";
    assert_eq!(list.render(), expected);
}

#[test]
fn spurious_cycle_does_not_hang_or_repeat() {
    let mut list = ProcList::new();
    list.add_proc(rec(1, "init", None));
    list.add_proc(rec(2, "a", Some(1)));
    list.add_proc(rec(3, "b", Some(2)));
    // A spurious extra edge making 2 a child of its own descendant.
    list.add_relation(3, 2);
    let expected = "Process: PID: 1, Name: init\n\
                    |   └── PID: 2, Name: a\n\
                    |   |   └── PID: 3, Name: b\n";
    assert_eq!(list.render(), expected);
}

#[test]
fn vanished_parent_leaves_branch_unreachable() {
    // 5's parent 4 was never captured: 5 is unreachable from the root
    // and must not appear, nor crash the walk.
    let list = ProcList::build(vec![rec(1, "init", None), rec(5, "orphan", Some(4))]);
    assert_eq!(list.render(), "Process: PID: 1, Name: init\n");
}

#[test]
fn indentation_grows_one_unit_per_edge() {
    let list = ProcList::build(vec![
        rec(1, "d0", None),
        rec(2, "d1", Some(1)),
        rec(3, "d2", Some(2)),
        rec(4, "d3", Some(3)),
    ]);
    let expected = "Process: PID: 1, Name: d0\n\
                    |   └── PID: 2, Name: d1\n\
                    |   |   └── PID: 3, Name: d2\n\
                    |   |   |   └── PID: 4, Name: d3\n";
    assert_eq!(list.render(), expected);
}

#[test]
fn render_from_other_root() {
    let list = ProcList::build(vec![
        rec(1, "init", None),
        rec(2, "a", Some(1)),
        rec(4, "c", Some(2)),
    ]);
    let expected = "Process: PID: 2, Name: a\n\
                    |   └── PID: 4, Name: c\n";
    assert_eq!(list.render_from(2), expected);
}

#[test]
fn canonical_root_identifier_is_one() {
    assert_eq!(ROOT_PID, 1);
}

#[test]
fn identifiers_render_in_decimal() {
    let mut list = ProcList::new();
    list.add_proc(rec(2147483647, "max", None));
    assert_eq!(list.render_from(2147483647), "Process: PID: 2147483647, Name: max\n");

    let mut small = ProcList::new();
    small.add_proc(rec(0, "zero", None));
    assert_eq!(small.render_from(0), "Process: PID: 0, Name: zero\n");

    let mut neg = ProcList::new();
    neg.add_proc(rec(-12, "odd", None));
    assert_eq!(neg.render_from(-12), "Process: PID: -12, Name: odd\n");

    let mut min = ProcList::new();
    min.add_proc(rec(-2147483648, "min", None));
    assert_eq!(min.render_from(-2147483648), "Process: PID: -2147483648, Name: min\n");
}

#[test]
fn later_record_with_same_identifier_wins() {
    let mut list = ProcList::new();
    list.add_proc(rec(1, "first", None));
    list.add_proc(ProcInfo::new(1, Some("second".to_string()), None, None));
    assert_eq!(list.render(), "Process: PID: 1, Name: second\n");
}
