use rayon_ingest::framework::{
    close_all, rate, route, run_fork, run_unit, Branch, Chain, CloseableIter, Completion,
    FailureFlags, FlowFile, Stats, Transform,
};
use rayon_ingest::junctions::SplitByExt;
use rayon_ingest::transformers::{
    Contains, Csv, FileImage, Identity, Lines, Nullify, Row, Unpack,
};

fn image(path: &str, bytes: &[u8]) -> FlowFile<FileImage> {
    FlowFile::new(FileImage { path: path.to_string(), bytes: bytes.to_vec() })
}

fn summary(list: &[FlowFile<String>]) -> Vec<(String, String, Option<usize>)> {
    list.iter().map(|f| (f.data.clone(), f.meta.source().to_string(), f.meta.failed())).collect()
}

#[test]
fn new_record_has_no_lineage() {
    let f = FlowFile::new(7u8);
    assert_eq!(f.data, 7);
    assert_eq!(f.meta.source(), "");
    assert_eq!(f.meta.failed(), None);
}

#[test]
fn provenance_only_grows() {
    let mut f = FlowFile::new(());
    f.meta.add_source("a.txt");
    f.meta.add_source(":3");
    assert_eq!(f.meta.source(), "a.txt:3");
    f.meta.add_source("");
    assert_eq!(f.meta.source(), "a.txt:3");
}

#[test]
fn marking_is_idempotent_and_never_clears() {
    let mut flags = FailureFlags::new();
    let a = flags.open_unit();
    let b = flags.open_unit();
    assert_eq!((a, b, flags.len()), (0, 1, 2));
    let mut f = FlowFile::new(());
    f.meta.mark_failed(&mut flags);
    assert!(!flags.has_failed(a) && !flags.has_failed(b));
    f.meta.attach(b);
    f.meta.attach(a);
    assert_eq!(f.meta.failed(), Some(b));
    f.meta.mark_failed(&mut flags);
    f.meta.mark_failed(&mut flags);
    assert!(!flags.has_failed(a));
    assert!(flags.has_failed(b));
    flags.mark(7);
    assert_eq!(flags.len(), 2);
    assert!(!flags.has_failed(7));
}

#[test]
fn stats_count_and_rate() {
    let mut stats = Stats::new(1_000);
    assert_eq!(stats.total(), 0);
    for _ in 0..5 {
        stats.increment();
    }
    assert_eq!(stats.total(), 5);
    assert_eq!(stats.elapsed(1_002), 2);
    assert_eq!(stats.elapsed(999), 0);
    assert_eq!(stats.report(1_002), (5, 2_500));
    assert_eq!(stats.report(1_000), (5, 0));
    assert_eq!(rate(7, 0), 0);
    assert_eq!(rate(3, 2_000), 1);
    assert_eq!(rate(u64::MAX, 1), 18_446_744_073_709_551_615_000);
}

#[test]
fn tracker_ties_records_to_its_unit() {
    let mut flags = FailureFlags::new();
    flags.open_unit();
    let mut other = FlowFile::new(2u8);
    other.meta.attach(0);
    let mut tracker = CloseableIter::new(vec![FlowFile::new(1u8), other], &mut flags);
    assert_eq!(flags.len(), 2);
    let first = tracker.next().unwrap();
    assert_eq!((first.data, first.meta.failed()), (1, Some(1)));
    let second = tracker.next().unwrap();
    assert_eq!((second.data, second.meta.failed()), (2, Some(0)));
    assert!(tracker.next().is_none());
    second.meta.mark_failed(&mut flags);
    assert_eq!(tracker.finish(&flags), Completion::Success);
}

#[test]
fn tracker_reports_success_without_records() {
    let mut flags = FailureFlags::new();
    let tracker: CloseableIter<u8> = CloseableIter::new(Vec::new(), &mut flags);
    assert_eq!(tracker.finish(&flags), Completion::Success);
}

#[test]
fn tracker_reports_failure_once_a_record_marked() {
    let mut flags = FailureFlags::new();
    let mut tracker = CloseableIter::new(vec![FlowFile::new(1u8), FlowFile::new(2u8)], &mut flags);
    let first = tracker.next().unwrap();
    first.meta.mark_failed(&mut flags);
    assert_eq!(tracker.finish(&flags), Completion::Failure);
}

#[test]
fn chain_feeds_first_into_next() {
    let chain = Chain { first: Unpack {}, next: Lines {} };
    let mut flags = FailureFlags::new();
    let out = chain.transform(image("a.txt", b"x\ny\n"), &mut flags);
    assert_eq!(
        summary(&out),
        vec![
            ("x".to_string(), "a.txt:0".to_string(), None),
            ("y".to_string(), "a.txt:1".to_string(), None),
        ]
    );
}

#[test]
fn chain_composition_is_associative() {
    let bytes = b"one\ntwo\n\xff\nthree one\n";
    let left = Chain {
        first: Chain { first: Unpack {}, next: Lines {} },
        next: Contains::<String>::new("one".to_string()),
    };
    let right = Chain {
        first: Unpack {},
        next: Chain { first: Lines {}, next: Contains::<String>::new("one".to_string()) },
    };
    let mut left_flags = FailureFlags::new();
    let mut right_flags = FailureFlags::new();
    let mut a = image("f", bytes);
    a.meta.attach(left_flags.open_unit());
    let mut b = image("f", bytes);
    b.meta.attach(right_flags.open_unit());
    let l = left.transform(a, &mut left_flags);
    let r = right.transform(b, &mut right_flags);
    assert_eq!(summary(&l), summary(&r));
    assert_eq!(
        summary(&l),
        vec![
            ("one".to_string(), "f:0".to_string(), Some(0)),
            ("three one".to_string(), "f:3".to_string(), Some(0)),
        ]
    );
    assert!(left_flags.has_failed(0) && right_flags.has_failed(0));
}

#[test]
fn identity_hands_the_record_on() {
    let stage: Identity<String> = Identity::default();
    let mut flags = FailureFlags::new();
    let mut f = FlowFile::new("x".to_string());
    f.meta.add_source("s");
    let out = stage.transform(f, &mut flags);
    assert_eq!(summary(&out), vec![("x".to_string(), "s".to_string(), None)]);
    assert_eq!(flags.len(), 0);
}

#[test]
fn close_all_counts_each_record() {
    let mut stats = Stats::new(0);
    let close: Nullify<u8> = Nullify::from(vec![]);
    close_all(&close, vec![FlowFile::new(1), FlowFile::new(2), FlowFile::new(3)], &mut stats);
    assert_eq!(stats.total(), 3);
    close_all(&close, Vec::new(), &mut stats);
    assert_eq!(stats.total(), 3);
}

#[test]
fn run_unit_counts_and_completes() {
    let spine = Chain { first: Unpack {}, next: Lines {} };
    let close: Nullify<String> = Nullify::from(vec![]);
    let mut stats = Stats::new(0);
    let mut flags = FailureFlags::new();
    let done = run_unit(image("a", b"1\n2\n3\n"), &spine, &close, &mut stats, &mut flags);
    assert_eq!((done, stats.total(), flags.len()), (Completion::Success, 3, 1));
    let done = run_unit(image("b", b"1\n\xc3\n3\n"), &spine, &close, &mut stats, &mut flags);
    assert_eq!((done, stats.total(), flags.len()), (Completion::Failure, 5, 2));
    assert!(!flags.has_failed(0) && flags.has_failed(1));
    let done = run_unit(image("c", b""), &spine, &close, &mut stats, &mut flags);
    assert_eq!((done, stats.total()), (Completion::Success, 5));
}

#[test]
fn route_takes_only_zero_and_one_for_branches() {
    let junction: SplitByExt<u8> =
        SplitByExt::from(vec!["toml".to_string(), "csv".to_string(), "txt".to_string()]);
    let named = |source: &str| {
        let mut f = FlowFile::new(0u8);
        f.meta.add_source(source);
        f
    };
    assert_eq!(route(&junction, &named("a.toml")), Some(Branch::Zero));
    assert_eq!(route(&junction, &named("a.csv")), Some(Branch::One));
    assert_eq!(route(&junction, &named("a.txt")), None);
    assert_eq!(route(&junction, &named("a.bin")), None);
}

#[test]
fn fork_runs_the_branch_of_the_record() {
    let junction: SplitByExt<Vec<u8>> = SplitByExt::from(vec!["txt".to_string(), "csv".to_string()]);
    let text: Nullify<String> = Nullify::from(vec![]);
    let rows: Nullify<Row> = Nullify::from(vec![]);
    let mut stats = Stats::new(0);
    let mut flags = FailureFlags::new();
    let named = |source: &str, bytes: &[u8], flags: &mut FailureFlags| {
        let mut f = FlowFile::new(bytes.to_vec());
        f.meta.add_source(source);
        f.meta.attach(flags.open_unit());
        f
    };
    let a = named("a.txt", b"1\n2\n3\n", &mut flags);
    let taken = run_fork(a, &junction, &Lines {}, &text, &Csv {}, &rows, &mut stats, &mut flags);
    assert_eq!((taken, stats.total()), (Some(Branch::Zero), 3));
    let b = named("b.csv", b"h\n1\n2\n", &mut flags);
    let taken = run_fork(b, &junction, &Lines {}, &text, &Csv {}, &rows, &mut stats, &mut flags);
    assert_eq!((taken, stats.total()), (Some(Branch::One), 5));
    let c = named("c.bin", b"1\n2\n", &mut flags);
    let taken = run_fork(c, &junction, &Lines {}, &text, &Csv {}, &rows, &mut stats, &mut flags);
    assert_eq!((taken, stats.total()), (None, 5));
    let d = named("d.txt", b"\xff\n", &mut flags);
    let taken = run_fork(d, &junction, &Lines {}, &text, &Csv {}, &rows, &mut stats, &mut flags);
    assert_eq!((taken, stats.total()), (Some(Branch::Zero), 5));
    assert_eq!(
        (0..4).map(|i| flags.has_failed(i)).collect::<Vec<_>>(),
        vec![false, false, false, true]
    );
}
