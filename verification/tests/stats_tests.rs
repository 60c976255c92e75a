use rust_nator::stats::{avg_sms, rate_centi, score, sort_by_ms, summarize, Counters, Sm};

fn sm(ms: u128, wk: usize) -> Sm {
    Sm {
        ms,
        wk,
        dirs: 1,
        files: 2,
        den: 0,
        err: 0,
        deep: 3,
        fps_centi: 0,
        score_centi: 0,
    }
}

#[test]
fn throughput_formula() {
    // 10 files in 2 seconds: 5.00 files per second
    let (fps, _) = score(10, 2000, 0, 0, 0);
    assert_eq!(fps, 500);
    // below timer resolution: files count as files-per-second
    let (fps0, _) = score(5, 0, 0, 0, 0);
    assert_eq!(fps0, 500);
}

#[test]
fn score_formula() {
    // depth bonus floored at 1.0: score = fps * 1.0 - penalty
    let (_, sc) = score(10, 2000, 0, 2, 1);
    assert_eq!(sc, 350); // 5.00 - 1.50
    // depth 10: bonus 2.0
    let (_, sc2) = score(10, 2000, 10, 2, 1);
    assert_eq!(sc2, 850); // 10.00 - 1.50
}

#[test]
fn score_never_negative() {
    let (_, sc) = score(0, 1000, 0, 1000, 1000);
    assert_eq!(sc, 0);
    let (_, sc2) = score(1, 1000000, 0, 50, 50);
    assert_eq!(sc2, 0);
    let (_, sc3) = score(0, 0, 0, 0, 0);
    assert_eq!(sc3, 0);
}

#[test]
fn rate_formula() {
    assert_eq!(rate_centi(64, 2000), 3200); // 32.00 MB/s
    assert_eq!(rate_centi(400, 1), 40000000); // 400000.00 ops/s
    assert_eq!(rate_centi(7, 0), 700);
}

#[test]
fn summary_carries_counters_and_derives_metrics() {
    let c = Counters { dirs: 3, files: 10, den: 2, err: 1, deep: 10 };
    let sm = summarize(&c, 2000, 4);
    assert_eq!(sm.ms, 2000);
    assert_eq!(sm.wk, 4);
    assert_eq!(sm.dirs, 3);
    assert_eq!(sm.files, 10);
    assert_eq!(sm.den, 2);
    assert_eq!(sm.err, 1);
    assert_eq!(sm.deep, 10);
    assert_eq!(sm.fps_centi, 500); // 5.00 files per second
    assert_eq!(sm.score_centi, 850); // 5.00 * 2.0 - 1.50
}

#[test]
fn averaging_keeps_first_run_counters() {
    let mut a = sm(10, 4);
    a.files = 100;
    a.fps_centi = 300;
    a.score_centi = 600;
    let mut b = sm(20, 4);
    b.files = 101;
    b.fps_centi = 100;
    b.score_centi = 300;
    let mut c = sm(31, 4);
    c.files = 102;
    c.fps_centi = 200;
    c.score_centi = 330;
    let avg = avg_sms(&vec![a, b, c]);
    assert_eq!(avg.ms, 20); // (10+20+31)/3 rounded down
    assert_eq!(avg.fps_centi, 200);
    assert_eq!(avg.score_centi, 410);
    assert_eq!(avg.files, 100); // first run's counters
    assert_eq!(avg.wk, 4);
}

#[test]
fn benchmark_sorts_by_mean_elapsed_and_best_is_first() {
    let recs = vec![sm(30, 1), sm(10, 2), sm(20, 3)];
    let sorted = sort_by_ms(recs);
    assert_eq!(sorted.len(), 3);
    assert_eq!(sorted[0].ms, 10);
    assert_eq!(sorted[1].ms, 20);
    assert_eq!(sorted[2].ms, 30);
    // the displayed best is recs[0], the minimum mean elapsed time
    let best = &sorted[0];
    assert!(sorted.iter().all(|r| best.ms <= r.ms));
    assert_eq!(best.wk, 2);
}

#[test]
fn counters_merge_sums_and_maxes() {
    let mut total = Counters::new();
    let a = Counters { dirs: 2, files: 5, den: 1, err: 0, deep: 3 };
    let b = Counters { dirs: 1, files: 7, den: 0, err: 2, deep: 2 };
    total.merge(&a);
    total.merge(&b);
    assert_eq!(total.dirs, 3);
    assert_eq!(total.files, 12);
    assert_eq!(total.den, 1);
    assert_eq!(total.err, 2);
    assert_eq!(total.deep, 3);
    total.note_depth(9);
    assert_eq!(total.deep, 9);
    total.note_depth(4);
    assert_eq!(total.deep, 9);
}
