use rust_nator::engine::{process_listing, Entry, Listing, ResultMap, St};
use rust_nator::model::{scan_tree, Access, Kid, Node};

fn dir(name: &str, kids: Vec<Kid>) -> Node {
    Node { name: name.to_string(), access: Access::Listed, kids }
}

fn file(name: &str) -> Kid {
    Kid::File(name.to_string())
}

#[test]
fn fixture_map_mode_end_to_end() {
    // root/{a/{f1,f2}, b/} with one (sequential) worker
    let tree = dir(
        "root",
        vec![
            Kid::Sub(dir("a", vec![file("f1"), file("f2")])),
            Kid::Sub(dir("b", vec![])),
        ],
    );
    let (map, c) = scan_tree("root", &tree);
    assert_eq!(c.dirs, 2);
    assert_eq!(c.files, 2);
    assert_eq!(c.den, 0);
    assert_eq!(c.err, 0);
    assert_eq!(map.len(), 3);
    assert_eq!(map.get("root").unwrap(), &Vec::<String>::new());
    assert_eq!(
        map.get("root/a").unwrap(),
        &vec!["root/a/f1".to_string(), "root/a/f2".to_string()]
    );
    assert_eq!(map.get("root/b").unwrap(), &Vec::<String>::new());
    assert!(map.get("root/c").is_none());
}

#[test]
fn files_counter_matches_map_totals() {
    // every recorded file appears in exactly one map row
    let tree = dir(
        "r",
        vec![
            file("x"),
            Kid::Sub(dir("d1", vec![file("y"), file("z"), Kid::Other])),
            Kid::Sub(Node { name: "locked".to_string(), access: Access::Denied, kids: vec![] }),
            Kid::Sub(dir("d2", vec![Kid::Sub(dir("d3", vec![file("w")]))])),
        ],
    );
    let (map, c) = scan_tree("r", &tree);
    let mut total = 0u64;
    for row in &map.rows {
        total += row.files.len() as u64;
    }
    assert_eq!(total, c.files);
    assert_eq!(c.files, 4);
}

#[test]
fn map_len_bounded_by_dirs_plus_one() {
    let tree = dir(
        "r",
        vec![
            Kid::Sub(Node { name: "no1".to_string(), access: Access::Denied, kids: vec![] }),
            Kid::Sub(Node { name: "no2".to_string(), access: Access::Failed, kids: vec![] }),
            Kid::Sub(dir("ok", vec![])),
        ],
    );
    let (map, c) = scan_tree("r", &tree);
    assert_eq!(c.dirs, 3);
    // only root and "ok" were listed; the two failures are counted but not mapped
    assert_eq!(map.len(), 2);
    assert!(map.len() as u64 <= c.dirs + 1);
    assert_eq!(c.den, 1);
    assert_eq!(c.err, 1);
}

#[test]
fn each_directory_appears_at_most_once() {
    let tree = dir(
        "r",
        vec![
            Kid::Sub(dir("a", vec![Kid::Sub(dir("x", vec![]))])),
            Kid::Sub(dir("b", vec![Kid::Sub(dir("x", vec![]))])),
        ],
    );
    let (map, _) = scan_tree("r", &tree);
    // two different directories may share a name; their paths still differ
    assert_eq!(map.len(), 5);
    for i in 0..map.rows.len() {
        for j in i + 1..map.rows.len() {
            assert_ne!(map.rows[i].path, map.rows[j].path);
        }
    }
}

#[test]
fn scan_twice_yields_identical_maps() {
    let tree = dir(
        "base",
        vec![
            file("a"),
            Kid::Sub(dir("sub", vec![file("b")])),
        ],
    );
    let (m1, c1) = scan_tree("base", &tree);
    let (m2, c2) = scan_tree("base", &tree);
    assert_eq!(m1.rows.len(), m2.rows.len());
    for (r1, r2) in m1.rows.iter().zip(m2.rows.iter()) {
        assert_eq!(r1.path, r2.path);
        assert_eq!(r1.files, r2.files);
    }
    assert_eq!(c1.files, c2.files);
    assert_eq!(c1.dirs, c2.dirs);
    assert_eq!(c1.deep, c2.deep);
}

#[test]
fn max_depth_matches_nesting() {
    let tree = dir(
        "d0",
        vec![Kid::Sub(dir("d1", vec![Kid::Sub(dir("d2", vec![Kid::Sub(dir("d3", vec![file("f")]))]))]))],
    );
    let (_, c) = scan_tree("d0", &tree);
    assert_eq!(c.deep, 3);

    let flat = dir("only", vec![file("f")]);
    let (_, c2) = scan_tree("only", &flat);
    assert_eq!(c2.deep, 0);
}

#[test]
fn listing_classification_is_exhaustive() {
    let es = vec![
        Entry::Dir("r/a".to_string()),
        Entry::File("r/f".to_string()),
        Entry::Other,
        Entry::StatFail,
        Entry::DeniedFail,
        Entry::OtherFail,
    ];
    let out = process_listing(3, Listing::Entries(es));
    assert!(out.record);
    assert_eq!(out.dirs, 1);
    assert_eq!(out.nfiles, 1);
    assert_eq!(out.den, 1);
    assert_eq!(out.err, 2);
    assert_eq!(out.subs.len(), 1);
    assert_eq!(out.subs[0].path, "r/a");
    assert_eq!(out.subs[0].depth, 4);
    assert_eq!(out.files, vec!["r/f".to_string()]);
}

#[test]
fn unlistable_directory_counts_once_and_yields_no_row() {
    let denied = process_listing(0, Listing::Denied);
    assert!(!denied.record);
    assert_eq!((denied.dirs, denied.nfiles, denied.den, denied.err), (0, 0, 1, 0));
    let failed = process_listing(0, Listing::Failed);
    assert!(!failed.record);
    assert_eq!((failed.dirs, failed.nfiles, failed.den, failed.err), (0, 0, 0, 1));
}

#[test]
fn queue_protocol_single_worker_run() {
    let mut st = St::new_scan("root".to_string());
    assert!(st.ready());
    let t = st.take().expect("root task");
    assert_eq!(t.path, "root");
    assert_eq!(t.depth, 0);
    // root turns out to have one subdirectory
    st.push_child("root/a".to_string(), 1);
    // finishing root does not complete the scan: a task is still queued
    assert!(!st.finish());
    assert!(!st.done);
    let t2 = st.take().expect("child task");
    assert_eq!(t2.path, "root/a");
    assert_eq!(t2.depth, 1);
    // the last finisher detects completion
    assert!(st.finish());
    assert!(st.done);
    // woken workers see done and exit
    assert!(st.ready());
    assert!(st.take().is_none());
}

#[test]
fn result_map_records_in_order() {
    let mut m = ResultMap::new();
    m.record("a".to_string(), vec!["a/x".to_string()]);
    m.record("b".to_string(), vec![]);
    assert_eq!(m.len(), 2);
    assert_eq!(m.rows[0].path, "a");
    assert_eq!(m.get("a").unwrap(), &vec!["a/x".to_string()]);
    assert!(m.get("z").is_none());
}
