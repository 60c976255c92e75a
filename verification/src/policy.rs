use vstd::prelude::*;
use crate::config::Ps;

verus! {

broadcast use vstd::seq_lib::group_to_multiset_ensures, vstd::multiset::group_multiset_axioms;

pub open spec fn clamp_spec(x: int, lo: int, hi: int) -> int {
    if x < lo {
        lo
    } else if x > hi {
        hi
    } else {
        x
    }
}

/// `cores * k`, capped at the global worker ceiling of 256.
pub open spec fn capped_spec(cores: int, k: int) -> int {
    if cores * k > 256 {
        256
    } else {
        cores * k
    }
}

/// Computes `capped_spec` without overflow.
fn capped_mul(c: usize, k: usize) -> (r: usize)
    requires
        1 <= k <= 4,
    ensures
        r as int == capped_spec(c as int, k as int),
{
    if c > 256 {
        proof {
            assert(c as int * k as int >= c as int) by (nonlinear_arith)
                requires
                    k as int >= 1,
                    c as int >= 0,
            ;
        }
        256
    } else {
        proof {
            assert(c as int * k as int <= 1024) by (nonlinear_arith)
                requires
                    0 <= c as int <= 256,
                    0 <= k as int <= 4,
            ;
        }
        let p = c * k;
        if p > 256 {
            256
        } else {
            p
        }
    }
}

/// The recommended worker count: an explicit request wins, floored at one;
/// otherwise it is derived from the CPU count — doubled and clamped to
/// [2, 256] in fast mode, kept as is up to four cores, plus two up to
/// sixteen, and otherwise scaled by 1.4 (rounded down).
pub open spec fn rec_spec(wk: Option<usize>, fast: bool, cores: int) -> int {
    match wk {
        Some(v) => if v >= 1 {
            v as int
        } else {
            1
        },
        None => {
            if fast {
                clamp_spec(cores * 2, 2, 256)
            } else if cores <= 4 {
                cores
            } else if cores <= 16 {
                cores + 2
            } else {
                cores * 14 / 10
            }
        },
    }
}

/// Recommended worker count for one scan, from the explicit request, the
/// fast flag and the detected CPU count.
pub fn rec(wk: Option<usize>, fast: bool, cores: usize) -> (r: usize)
    requires
        cores <= usize::MAX / 14,
    ensures
        r as int == rec_spec(wk, fast, cores as int),
{
    if let Some(v) = wk {
        return if v >= 1 {
            v
        } else {
            1
        };
    }
    if fast {
        let d = capped_mul(cores, 2);
        if d < 2 {
            2
        } else {
            d
        }
    } else if cores <= 4 {
        cores
    } else if cores <= 16 {
        cores + 2
    } else {
        cores * 14 / 10
    }
}

/// How many times a stress sweep repeats its ladder.
pub open spec fn cycles_spec(ps: Ps) -> int {
    match ps {
        Ps::Light => 1,
        Ps::Balanced => 2,
        Ps::Hard => 3,
        Ps::Extreme => 4,
    }
}

/// `max(1, cores / 2)`, the low rung of the lighter ladders, capped like
/// every rung at 256.
pub open spec fn half_spec(cores: int) -> int {
    if cores / 2 < 1 {
        1
    } else if cores / 2 > 256 {
        256
    } else {
        cores / 2
    }
}

/// The ladder of worker counts a preset sweeps over; every rung — the
/// plain `cores` rungs included — is capped at 256 workers.
pub open spec fn ladder_spec(ps: Ps, fast: bool, cores: int) -> Seq<int> {
    let b = if fast {
        capped_spec(cores, 2)
    } else {
        capped_spec(cores, 1)
    };
    match ps {
        Ps::Light => seq![half_spec(cores), b],
        Ps::Balanced => seq![half_spec(cores), capped_spec(cores, 1), capped_spec(cores, 2)],
        Ps::Hard => seq![
            capped_spec(cores, 1),
            capped_spec(cores, 2),
            capped_spec(cores, 3),
        ],
        Ps::Extreme => seq![
            capped_spec(cores, 1),
            capped_spec(cores, 2),
            capped_spec(cores, 3),
            capped_spec(cores, 4),
        ],
    }
}

/// Every rung of a preset ladder lies between one worker and the global
/// ceiling of 256.
pub proof fn lemma_ladder_in_range(ps: Ps, fast: bool, cores: int)
    requires
        cores >= 1,
    ensures
        ladder_spec(ps, fast, cores).len() > 0,
        forall|i: int|
            0 <= i < ladder_spec(ps, fast, cores).len() ==> 1 <= #[trigger] ladder_spec(
                ps,
                fast,
                cores,
            )[i] <= 256,
{
    assert(cores * 1 == cores) by (nonlinear_arith);
    assert(cores * 2 >= cores && cores * 3 >= cores && cores * 4 >= cores) by (nonlinear_arith)
        requires
            cores >= 1,
    ;
}

/// Cycle count and worker-count ladder for a sweep preset.
pub fn sets(ps: &Ps, fast: bool, cores: usize) -> (r: (usize, Vec<usize>))
    ensures
        r.0 as int == cycles_spec(*ps),
        r.1@.len() == ladder_spec(*ps, fast, cores as int).len(),
        forall|i: int|
            0 <= i < r.1@.len() ==> r.1@[i] as int == ladder_spec(*ps, fast, cores as int)[i],
{
    let b = if fast {
        capped_mul(cores, 2)
    } else {
        capped_mul(cores, 1)
    };
    let hh = cores / 2;
    let h = if hh < 1 {
        1
    } else if hh > 256 {
        256
    } else {
        hh
    };
    match ps {
        Ps::Light => {
            let mut v: Vec<usize> = Vec::new();
            v.push(h);
            v.push(b);
            (1, v)
        },
        Ps::Balanced => {
            let mut v: Vec<usize> = Vec::new();
            v.push(h);
            v.push(capped_mul(cores, 1));
            v.push(capped_mul(cores, 2));
            (2, v)
        },
        Ps::Hard => {
            let mut v: Vec<usize> = Vec::new();
            v.push(capped_mul(cores, 1));
            v.push(capped_mul(cores, 2));
            v.push(capped_mul(cores, 3));
            (3, v)
        },
        Ps::Extreme => {
            let mut v: Vec<usize> = Vec::new();
            v.push(capped_mul(cores, 1));
            v.push(capped_mul(cores, 2));
            v.push(capped_mul(cores, 3));
            v.push(capped_mul(cores, 4));
            (4, v)
        },
    }
}

/// The raw benchmark ladder: an explicit worker count stands alone,
/// floored at one; otherwise the preset ladder is swept.
pub open spec fn raw_ladder_spec(wk: Option<usize>, ps: Ps, fast: bool, cores: int) -> Seq<int> {
    match wk {
        Some(w) => seq![
            if w >= 1 {
                w as int
            } else {
                1
            },
        ],
        None => ladder_spec(ps, fast, cores),
    }
}

/// The benchmark schedule of worker counts: the raw ladder sorted
/// ascending with duplicates removed.
pub fn bench_ladder(wk: Option<usize>, ps: &Ps, fast: bool, cores: usize) -> (r: Vec<usize>)
    ensures
        forall|i: int, j: int| 0 <= i < j < r@.len() ==> r@[i] < r@[j],
        forall|x: usize|
            #[trigger] r@.contains(x) <==> raw_ladder_spec(wk, *ps, fast, cores as int).contains(
                x as int,
            ),
{
    let ghost ls = raw_ladder_spec(wk, *ps, fast, cores as int);
    let raw: Vec<usize> = match wk {
        Some(w) => {
            let mut v: Vec<usize> = Vec::new();
            v.push(
                if w >= 1 {
                    w
                } else {
                    1
                },
            );
            v
        },
        None => sets(ps, fast, cores).1,
    };
    proof {
        assert forall|x: usize| #[trigger] raw@.contains(x) implies ls.contains(x as int) by {
            let i = choose|i: int| 0 <= i < raw@.len() && raw@[i] == x;
            assert(ls[i] == x as int);
        }
        assert forall|x: usize| ls.contains(x as int) implies raw@.contains(x) by {
            let i = choose|i: int| 0 <= i < ls.len() && ls[i] == x as int;
            assert(raw@[i] == x);
        }
    }
    let mut work = raw;
    let ghost raw_view = work@;
    let mut srt: Vec<usize> = Vec::new();
    while work.len() > 0
        invariant
            forall|i: int, j: int| 0 <= i <= j < srt@.len() ==> srt@[i] <= srt@[j],
            srt@.to_multiset().add(work@.to_multiset()) == raw_view.to_multiset(),
            forall|a: int, b: int|
                0 <= a < srt@.len() && 0 <= b < work@.len() ==> srt@[a] <= work@[b],
        decreases work@.len(),
    {
        let mut m: usize = 0;
        let mut t: usize = 1;
        while t < work.len()
            invariant
                work@.len() > 0,
                m < t <= work@.len(),
                forall|k: int| 0 <= k < t ==> work@[m as int] <= work@[k],
            decreases work@.len() - t,
        {
            if work[t] < work[m] {
                m = t;
            }
            t = t + 1;
        }
        let x = work.remove(m);
        let ghost old_srt = srt@;
        srt.push(x);
        proof {
            assert(srt@.to_multiset().add(work@.to_multiset()) =~= raw_view.to_multiset());
            assert forall|a: int, b: int|
                0 <= a < srt@.len() && 0 <= b < work@.len() implies srt@[a] <= work@[b] by {
                if a < old_srt.len() {
                    assert(srt@[a] == old_srt[a]);
                }
            }
        }
    }
    proof {
        assert(work@.to_multiset() =~= Seq::<usize>::empty().to_multiset());
        assert(srt@.to_multiset() =~= raw_view.to_multiset());
        assert forall|x: usize| #[trigger] srt@.contains(x) implies raw_view.contains(x) by {
            assert(srt@.to_multiset().count(x) > 0);
        }
        assert forall|x: usize| raw_view.contains(x) implies srt@.contains(x) by {
            assert(raw_view.to_multiset().count(x) > 0);
        }
    }
    let mut out: Vec<usize> = Vec::new();
    let n = srt.len();
    let mut k: usize = 0;
    while k < n
        invariant
            k <= n,
            n == srt@.len(),
            forall|i: int, j: int| 0 <= i <= j < srt@.len() ==> srt@[i] <= srt@[j],
            forall|i: int, j: int| 0 <= i < j < out@.len() ==> out@[i] < out@[j],
            forall|x: usize| #[trigger] out@.contains(x) <==> srt@.subrange(0, k as int).contains(x),
            k > 0 ==> out@.len() > 0 && out@.last() == srt@[k - 1],
            k == 0 ==> out@.len() == 0,
        decreases n - k,
    {
        let cur = srt[k];
        let ghost old_out = out@;
        let ghost pre = srt@.subrange(0, k as int);
        let ghost pre1 = srt@.subrange(0, k + 1);
        let do_push = if out.len() == 0 {
            true
        } else {
            out[out.len() - 1] < cur
        };
        if do_push {
            out.push(cur);
        }
        proof {
            if !do_push {
                assert(old_out.last() == srt@[k as int - 1]);
                assert(srt@[k as int - 1] <= srt@[k as int]);
            }
            assert(out@.last() == cur);
        }
        k = k + 1;
        proof {
            assert forall|x: usize| #[trigger] out@.contains(x) implies pre1.contains(x) by {
                let i = choose|i: int| 0 <= i < out@.len() && out@[i] == x;
                if i < old_out.len() {
                    assert(old_out.contains(x));
                    let j = choose|j: int| 0 <= j < pre.len() && pre[j] == x;
                    assert(pre1[j] == x);
                } else {
                    assert(pre1[k - 1] == x);
                }
            }
            assert forall|x: usize| pre1.contains(x) implies #[trigger] out@.contains(x) by {
                let j = choose|j: int| 0 <= j < pre1.len() && pre1[j] == x;
                if j < pre.len() {
                    assert(pre[j] == x);
                    assert(old_out.contains(x));
                    let i = choose|i: int| 0 <= i < old_out.len() && old_out[i] == x;
                    assert(out@[i] == x);
                } else {
                    assert(x == srt@[k - 1]);
                    assert(out@[out@.len() - 1] == x);
                }
            }
        }
    }
    proof {
        assert(srt@.subrange(0, n as int) =~= srt@);
        assert forall|x: usize| #[trigger] out@.contains(x) implies ls.contains(x as int) by {
            assert(srt@.contains(x));
            assert(raw_view.contains(x));
        }
        assert forall|x: usize| ls.contains(x as int) implies #[trigger] out@.contains(x) by {
            assert(raw_view.contains(x));
            assert(srt@.contains(x));
        }
    }
    out
}

/// The ladder repeated once per cycle, in order, each pair carrying its
/// one-based cycle number.
pub open spec fn plan_upto(c: int, ladder: Seq<int>) -> Seq<(int, int)>
    decreases c,
{
    if c <= 0 {
        Seq::empty()
    } else {
        plan_upto(c - 1, ladder) + Seq::new(ladder.len(), |i: int| (c, ladder[i]))
    }
}

/// The whole stress schedule for a preset.
pub open spec fn stress_plan_spec(ps: Ps, fast: bool, cores: int) -> Seq<(int, int)> {
    plan_upto(cycles_spec(ps), ladder_spec(ps, fast, cores))
}

/// The stress schedule: for each cycle, every rung of the ladder in
/// preset order — exactly the order in which the sweep streams its
/// summaries.
pub fn stress_plan(ps: &Ps, fast: bool, cores: usize) -> (r: Vec<(usize, usize)>)
    ensures
        r@.len() == stress_plan_spec(*ps, fast, cores as int).len(),
        forall|k: int|
            0 <= k < r@.len() ==> (#[trigger] r@[k]).0 as int == stress_plan_spec(
                *ps,
                fast,
                cores as int,
            )[k].0 && r@[k].1 as int == stress_plan_spec(*ps, fast, cores as int)[k].1,
{
    let ghost ladder = ladder_spec(*ps, fast, cores as int);
    let (cycles, ws) = sets(ps, fast, cores);
    let mut r: Vec<(usize, usize)> = Vec::new();
    let mut cy: usize = 0;
    while cy < cycles
        invariant
            cy <= cycles,
            cycles as int == cycles_spec(*ps),
            cycles <= 4,
            ws@.len() == ladder.len(),
            forall|i: int| 0 <= i < ws@.len() ==> (#[trigger] ws@[i]) as int == ladder[i],
            r@.len() == plan_upto(cy as int, ladder).len(),
            forall|k: int|
                0 <= k < r@.len() ==> (#[trigger] r@[k]).0 as int == plan_upto(cy as int, ladder)[k].0
                    && r@[k].1 as int == plan_upto(cy as int, ladder)[k].1,
        decreases cycles - cy,
    {
        let ghost base = plan_upto(cy as int, ladder);
        let nw = ws.len();
        let mut wi: usize = 0;
        while wi < nw
            invariant
                wi <= nw,
                cy < cycles,
                cycles <= 4,
                nw == ws@.len(),
                ws@.len() == ladder.len(),
                forall|i: int| 0 <= i < ws@.len() ==> (#[trigger] ws@[i]) as int == ladder[i],
                base == plan_upto(cy as int, ladder),
                r@.len() == base.len() + wi,
                forall|k: int|
                    0 <= k < base.len() ==> (#[trigger] r@[k]).0 as int == base[k].0 && r@[k].1
                        as int == base[k].1,
                forall|k: int|
                    base.len() <= k < r@.len() ==> (#[trigger] r@[k]).0 == cy + 1 && r@[k].1 as int
                        == ladder[k - base.len()],
            decreases nw - wi,
        {
            r.push((cy + 1, ws[wi]));
            wi = wi + 1;
        }
        cy = cy + 1;
        proof {
            assert(plan_upto(cy as int, ladder) == base + Seq::new(
                ladder.len(),
                |i: int| (cy as int, ladder[i]),
            ));
        }
    }
    r
}

} // verus!
