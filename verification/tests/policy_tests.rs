use rust_nator::config::Ps;
use rust_nator::policy::{bench_ladder, rec, sets, stress_plan};

#[test]
fn rec_explicit_overrides_everything() {
    assert_eq!(rec(Some(5), true, 8), 5);
    assert_eq!(rec(Some(5), false, 64), 5);
    assert_eq!(rec(Some(0), false, 4), 1);
}

#[test]
fn rec_fast_doubles_and_clamps() {
    assert_eq!(rec(None, true, 8), 16);
    assert_eq!(rec(None, true, 0), 2);
    assert_eq!(rec(None, true, 200), 256);
}

#[test]
fn rec_default_ladder() {
    assert_eq!(rec(None, false, 1), 1);
    assert_eq!(rec(None, false, 4), 4);
    assert_eq!(rec(None, false, 8), 10);
    assert_eq!(rec(None, false, 16), 18);
    assert_eq!(rec(None, false, 20), 28);
    assert_eq!(rec(None, false, 45), 63);
}

#[test]
fn sets_extreme_four_cores() {
    let (cycles, ladder) = sets(&Ps::Extreme, false, 4);
    assert_eq!(cycles, 4);
    assert_eq!(ladder, vec![4, 8, 12, 16]);
}

#[test]
fn sets_presets() {
    let (c1, l1) = sets(&Ps::Light, false, 8);
    assert_eq!(c1, 1);
    assert_eq!(l1, vec![4, 8]);
    let (c2, l2) = sets(&Ps::Balanced, true, 8);
    assert_eq!(c2, 2);
    assert_eq!(l2, vec![4, 8, 16]);
    let (c3, l3) = sets(&Ps::Hard, false, 200);
    assert_eq!(c3, 3);
    assert_eq!(l3, vec![200, 256, 256]);
}

#[test]
fn ladders_cap_every_rung_at_256() {
    let (_, hard) = sets(&Ps::Hard, false, 300);
    assert_eq!(hard, vec![256, 256, 256]);
    let (_, extreme) = sets(&Ps::Extreme, true, 300);
    assert_eq!(extreme, vec![256, 256, 256, 256]);
    let (_, light) = sets(&Ps::Light, false, 300);
    assert_eq!(light, vec![150, 256]);
    let (_, light_wide) = sets(&Ps::Light, false, 600);
    assert_eq!(light_wide, vec![256, 256]);
    let (_, balanced) = sets(&Ps::Balanced, false, 1000);
    assert_eq!(balanced, vec![256, 256, 256]);
    assert_eq!(bench_ladder(None, &Ps::Hard, false, 300), vec![256]);
}

#[test]
fn bench_ladder_sorts_and_dedups() {
    assert_eq!(bench_ladder(Some(7), &Ps::Balanced, false, 8), vec![7]);
    assert_eq!(bench_ladder(Some(0), &Ps::Balanced, false, 8), vec![1]);
    assert_eq!(bench_ladder(None, &Ps::Balanced, false, 8), vec![4, 8, 16]);
    assert_eq!(bench_ladder(None, &Ps::Light, false, 1), vec![1]);
    assert_eq!(bench_ladder(None, &Ps::Hard, false, 200), vec![200, 256]);
}

#[test]
fn stress_plan_orders_cycles_then_ladder() {
    let plan = stress_plan(&Ps::Hard, false, 2);
    assert_eq!(plan.len(), 9);
    assert_eq!(plan[0], (1, 2));
    assert_eq!(plan[1], (1, 4));
    assert_eq!(plan[2], (1, 6));
    assert_eq!(plan[4], (2, 4));
    assert_eq!(plan[8], (3, 6));
}
