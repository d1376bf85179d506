use instrument::profiler::{GlobalProfilerWrapper, ProfilerEntry, ProfilerEntryData, ProfilerMetricEntry};

fn open(profiler: &mut GlobalProfilerWrapper, label: &str, at: u64) -> ProfilerEntry {
    let mut entry = ProfilerEntry::Function(ProfilerEntryData::init(profiler, label, at));
    profiler.push(&mut entry);
    entry
}

fn line<'a>(report: &'a [ProfilerMetricEntry], label: &str) -> &'a ProfilerMetricEntry {
    report.iter().find(|m| m.identifier == label).unwrap()
}

#[test]
fn caller_with_two_calls_of_callee() {
    let mut profiler = GlobalProfilerWrapper::start(0);
    let a = open(&mut profiler, "A", 0);
    let b = open(&mut profiler, "B", 100);
    b.end(&mut profiler, 300);
    let b = open(&mut profiler, "B", 400);
    b.end(&mut profiler, 600);
    a.end(&mut profiler, 1000);
    profiler.end(1000);

    let report = profiler.results();
    assert_eq!(report.len(), 2);
    let a = line(&report, "A");
    assert_eq!(a.hit_count, 1);
    assert_eq!(a.elapsed_inclusive, 1000);
    assert_eq!(a.elapsed_exclusive, 600);
    assert_eq!(a.ancestors_count, 0);
    assert_eq!(a.insert_index, 0);
    let b = line(&report, "B");
    assert_eq!(b.hit_count, 2);
    assert_eq!(b.elapsed_inclusive, 400);
    assert_eq!(b.elapsed_exclusive, 400);
    assert_eq!(b.ancestors_count, 1);
    assert_eq!(b.insert_index, 1);
}

#[test]
fn report_keeps_first_seen_order_and_counts_pushes() {
    let mut profiler = GlobalProfilerWrapper::start(10);
    let x = open(&mut profiler, "parse", 10);
    x.end(&mut profiler, 20);
    let y = open(&mut profiler, "lookup", 20);
    let z = open(&mut profiler, "parse", 25);
    let w = open(&mut profiler, "sum", 26);
    w.end(&mut profiler, 27);
    z.end(&mut profiler, 30);
    y.end(&mut profiler, 40);
    let x = open(&mut profiler, "sum", 45);
    x.end(&mut profiler, 50);
    profiler.end(60);

    let report = profiler.results();
    let labels: Vec<&str> = report.iter().map(|m| m.identifier.as_str()).collect();
    assert_eq!(labels, vec!["parse", "lookup", "sum"]);
    let counts: Vec<u64> = report.iter().map(|m| m.hit_count).collect();
    assert_eq!(counts, vec![2, 1, 2]);
    let parse = line(&report, "parse");
    assert_eq!(parse.elapsed_inclusive, 15);
    assert_eq!(parse.elapsed_exclusive, 14);
    assert_eq!(parse.ancestors_count, 0);
    let lookup = line(&report, "lookup");
    assert_eq!(lookup.elapsed_inclusive, 20);
    assert_eq!(lookup.elapsed_exclusive, 15);
    let sum = line(&report, "sum");
    assert_eq!(sum.ancestors_count, 2);
    assert_eq!(sum.elapsed_inclusive, 6);
    for m in &report {
        assert!(m.elapsed_exclusive <= m.elapsed_inclusive);
    }
}

#[test]
fn root_labels_fit_in_the_run() {
    let mut profiler = GlobalProfilerWrapper::start(100);
    let a = open(&mut profiler, "a", 110);
    a.end(&mut profiler, 150);
    let b = open(&mut profiler, "b", 160);
    let c = open(&mut profiler, "c", 170);
    c.end(&mut profiler, 180);
    b.end(&mut profiler, 190);
    profiler.end(200);
    let report = profiler.results();
    let roots: u128 = report
        .iter()
        .filter(|m| m.ancestors_count == 0)
        .map(|m| m.elapsed_inclusive)
        .sum();
    assert_eq!(roots, 70);
    assert!(roots <= 100);
}

#[test]
fn empty_run_has_empty_report() {
    let mut profiler = GlobalProfilerWrapper::start(5);
    profiler.end(9);
    assert!(profiler.results().is_empty());
}

#[test]
fn push_fills_in_place_parent_and_depth() {
    let mut profiler = GlobalProfilerWrapper::start(0);
    let outer = open(&mut profiler, "outer", 1);
    let inner = open(&mut profiler, "inner", 2);
    assert_eq!(outer.index(), 0);
    assert_eq!(outer.parent(), None);
    assert_eq!(inner.index(), 1);
    assert_eq!(inner.parent(), Some(0));
    assert_eq!(inner.inner().ancestors, 1);
    assert_eq!(inner.identifier(), "inner");
    assert_eq!(profiler.innermost(), Some(1));
    assert_eq!(profiler.entry_count(), 2);
    assert_eq!(profiler.clock(), 2);
    inner.end(&mut profiler, 7);
    assert_eq!(profiler.innermost(), Some(0));
    outer.end(&mut profiler, 9);
    assert_eq!(profiler.innermost(), None);
}

#[test]
fn entry_accessors() {
    let profiler = GlobalProfilerWrapper::start(0);
    let mut entry = ProfilerEntry::CodeBlock(ProfilerEntryData::init(&profiler, "block", 10));
    assert_eq!(entry.get_child_elapsed(), 0);
    entry.add_child_elapsed(4);
    entry.add_child_elapsed(3);
    assert_eq!(entry.get_child_elapsed(), 7);
    entry.inner_mut().end = Some(25);
    assert_eq!(entry.compute_runtime(), 15);
    assert!(matches!(entry, ProfilerEntry::CodeBlock(_)));
}

#[test]
fn init_records_parent_and_depth_of_open_spans() {
    let mut profiler = GlobalProfilerWrapper::start(0);
    let root = ProfilerEntryData::init(&profiler, "root", 1);
    assert_eq!(root.parent_index, None);
    assert_eq!(root.ancestors, 0);
    assert_eq!(root.index, 0);
    let outer = open(&mut profiler, "outer", 1);
    let _inner = open(&mut profiler, "inner", 2);
    let nested = ProfilerEntryData::init(&profiler, "nested", 3);
    assert_eq!(nested.parent_index, Some(1));
    assert_eq!(nested.ancestors, 2);
    assert_eq!(nested.index, 2);
    assert_eq!(nested.identifier, "nested");
    assert_eq!(nested.start, 3);
    assert_eq!(nested.end, None);
    assert_eq!(outer.index(), 0);
}
