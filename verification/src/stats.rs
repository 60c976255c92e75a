use vstd::prelude::*;

verus! {

broadcast use vstd::seq_lib::group_to_multiset_ensures, vstd::multiset::group_multiset_axioms;

/// The five per-scan counters: directories and files discovered,
/// permission-denied failures, other failures, and the deepest level seen.
#[derive(Clone, Copy, PartialEq, Eq, Structural, Debug)]
pub struct Counters {
    pub dirs: u64,
    pub files: u64,
    pub den: u64,
    pub err: u64,
    pub deep: u64,
}

impl Counters {
    pub fn new() -> (c: Counters)
        ensures
            c.dirs == 0 && c.files == 0 && c.den == 0 && c.err == 0 && c.deep == 0,
    {
        Counters { dirs: 0, files: 0, den: 0, err: 0, deep: 0 }
    }

    /// Folds one worker's counters into a running total: the four event
    /// counters add up, the depth is a running maximum.
    pub fn merge(&mut self, o: &Counters)
        requires
            old(self).dirs + o.dirs <= u64::MAX,
            old(self).files + o.files <= u64::MAX,
            old(self).den + o.den <= u64::MAX,
            old(self).err + o.err <= u64::MAX,
        ensures
            final(self).dirs == old(self).dirs + o.dirs,
            final(self).files == old(self).files + o.files,
            final(self).den == old(self).den + o.den,
            final(self).err == old(self).err + o.err,
            final(self).deep as int == vstd::math::max(old(self).deep as int, o.deep as int),
    {
        self.dirs = self.dirs + o.dirs;
        self.files = self.files + o.files;
        self.den = self.den + o.den;
        self.err = self.err + o.err;
        if o.deep > self.deep {
            self.deep = o.deep;
        }
    }

    /// Records the depth of a task being processed: a running maximum, the
    /// way the engine's depth counter is updated.
    pub fn note_depth(&mut self, d: u64)
        ensures
            final(self).deep as int == vstd::math::max(old(self).deep as int, d as int),
            final(self).dirs == old(self).dirs,
            final(self).files == old(self).files,
            final(self).den == old(self).den,
            final(self).err == old(self).err,
    {
        if d > self.deep {
            self.deep = d;
        }
    }
}

/// One scan's summary: elapsed milliseconds, worker count, the five
/// counters, and the two derived metrics held in hundredths.
#[derive(Clone, Copy, PartialEq, Eq, Structural, Debug)]
pub struct Sm {
    pub ms: u128,
    pub wk: usize,
    pub dirs: u64,
    pub files: u64,
    pub den: u64,
    pub err: u64,
    pub deep: u64,
    pub fps_centi: u128,
    pub score_centi: u128,
}

/// Throughput in hundredths of files per second: `files / (ms / 1000)`,
/// with a scan below timer resolution counting as `files` per second.
pub open spec fn fps_centi_spec(files: int, ms: int) -> int {
    if ms == 0 {
        files * 100
    } else {
        files * 100000 / ms
    }
}

/// Depth bonus in hundredths: a fifth of the deepest level, floored at one.
pub open spec fn bonus_centi_spec(deep: int) -> int {
    if deep * 20 > 100 {
        deep * 20
    } else {
        100
    }
}

/// Error penalty in hundredths: half a point per denied or failed listing.
pub open spec fn penalty_centi_spec(den: int, err: int) -> int {
    (den + err) * 50
}

/// Composite score in hundredths: throughput times depth bonus, less the
/// error penalty, floored at zero.
pub open spec fn score_centi_spec(files: int, ms: int, deep: int, den: int, err: int) -> int {
    let raw = fps_centi_spec(files, ms) * bonus_centi_spec(deep) / 100 - penalty_centi_spec(
        den,
        err,
    );
    if raw > 0 {
        raw
    } else {
        0
    }
}

/// The score is never negative, whatever the counters — including a scan
/// that saw no files at all.
pub proof fn lemma_score_nonneg(files: int, ms: int, deep: int, den: int, err: int)
    ensures
        score_centi_spec(files, ms, deep, den, err) >= 0,
{
}

/// Derived metrics of one scan: throughput and composite score, both in
/// hundredths.
pub fn score(files: u64, ms: u128, deep: u64, den: u64, err: u64) -> (r: (u128, u128))
    requires
        fps_centi_spec(files as int, ms as int) * bonus_centi_spec(deep as int) <= u128::MAX,
    ensures
        r.0 as int == fps_centi_spec(files as int, ms as int),
        r.1 as int == score_centi_spec(files as int, ms as int, deep as int, den as int, err as int),
{
    let fps: u128 = if ms == 0 {
        (files as u128) * 100
    } else {
        (files as u128) * 100000 / ms
    };
    let b: u128 = {
        let t = (deep as u128) * 20;
        if t > 100 {
            t
        } else {
            100
        }
    };
    let pen: u128 = ((den as u128) + (err as u128)) * 50;
    let prod = fps * b;
    let raw = prod / 100;
    if raw > pen {
        (fps, raw - pen)
    } else {
        (fps, 0)
    }
}

/// Assembles one scan's summary from its final counters, elapsed time and
/// worker count: the counters are carried over unchanged and the two
/// derived metrics are computed from them.
pub fn summarize(c: &Counters, ms: u128, wk: usize) -> (r: Sm)
    requires
        fps_centi_spec(c.files as int, ms as int) * bonus_centi_spec(c.deep as int) <= u128::MAX,
    ensures
        r.ms == ms,
        r.wk == wk,
        r.dirs == c.dirs,
        r.files == c.files,
        r.den == c.den,
        r.err == c.err,
        r.deep == c.deep,
        r.fps_centi as int == fps_centi_spec(c.files as int, ms as int),
        r.score_centi as int == score_centi_spec(
            c.files as int,
            ms as int,
            c.deep as int,
            c.den as int,
            c.err as int,
        ),
{
    let (fps_centi, score_centi) = score(c.files, ms, c.deep, c.den, c.err);
    Sm {
        ms,
        wk,
        dirs: c.dirs,
        files: c.files,
        den: c.den,
        err: c.err,
        deep: c.deep,
        fps_centi,
        score_centi,
    }
}

/// Transfer or operation rate in hundredths per second: `units` per `ms`
/// milliseconds, with the same zero-time convention as throughput.
pub fn rate_centi(units: u64, ms: u128) -> (r: u128)
    ensures
        r as int == fps_centi_spec(units as int, ms as int),
{
    if ms == 0 {
        (units as u128) * 100
    } else {
        (units as u128) * 100000 / ms
    }
}

pub open spec fn sum_ms(s: Seq<Sm>) -> int
    decreases s.len(),
{
    if s.len() == 0 {
        0
    } else {
        sum_ms(s.drop_last()) + s.last().ms
    }
}

pub open spec fn sum_fps(s: Seq<Sm>) -> int
    decreases s.len(),
{
    if s.len() == 0 {
        0
    } else {
        sum_fps(s.drop_last()) + s.last().fps_centi
    }
}

pub open spec fn sum_score(s: Seq<Sm>) -> int
    decreases s.len(),
{
    if s.len() == 0 {
        0
    } else {
        sum_score(s.drop_last()) + s.last().score_centi
    }
}

proof fn lemma_sums_nonneg(s: Seq<Sm>)
    ensures
        sum_ms(s) >= 0,
        sum_fps(s) >= 0,
        sum_score(s) >= 0,
    decreases s.len(),
{
    if s.len() > 0 {
        lemma_sums_nonneg(s.drop_last());
    }
}

proof fn lemma_sums_grow(s: Seq<Sm>, k: int)
    requires
        0 <= k <= s.len(),
    ensures
        sum_ms(s.subrange(0, k)) <= sum_ms(s),
        sum_fps(s.subrange(0, k)) <= sum_fps(s),
        sum_score(s.subrange(0, k)) <= sum_score(s),
        sum_ms(s.subrange(0, k)) >= 0,
        sum_fps(s.subrange(0, k)) >= 0,
        sum_score(s.subrange(0, k)) >= 0,
    decreases s.len() - k,
{
    lemma_sums_nonneg(s.subrange(0, k));
    if k == s.len() {
        assert(s.subrange(0, k) =~= s);
    } else {
        lemma_sums_grow(s, k + 1);
        let p = s.subrange(0, k + 1);
        assert(p.drop_last() =~= s.subrange(0, k));
    }
}

/// Benchmark averaging: elapsed time, throughput and score are averaged
/// across the runs, while the raw counters are taken from the first run.
pub fn avg_sms(all: &Vec<Sm>) -> (r: Sm)
    requires
        all@.len() > 0,
        sum_ms(all@) <= u128::MAX,
        sum_fps(all@) <= u128::MAX,
        sum_score(all@) <= u128::MAX,
    ensures
        r.ms as int == sum_ms(all@) / all@.len() as int,
        r.fps_centi as int == sum_fps(all@) / all@.len() as int,
        r.score_centi as int == sum_score(all@) / all@.len() as int,
        r.wk == all@[0].wk,
        r.dirs == all@[0].dirs,
        r.files == all@[0].files,
        r.den == all@[0].den,
        r.err == all@[0].err,
        r.deep == all@[0].deep,
{
    let mut sms: u128 = 0;
    let mut sf: u128 = 0;
    let mut ss: u128 = 0;
    let mut i: usize = 0;
    proof {
        assert(all@.subrange(0, 0) =~= Seq::<Sm>::empty());
    }
    while i < all.len()
        invariant
            i <= all@.len(),
            sum_ms(all@) <= u128::MAX,
            sum_fps(all@) <= u128::MAX,
            sum_score(all@) <= u128::MAX,
            sms as int == sum_ms(all@.subrange(0, i as int)),
            sf as int == sum_fps(all@.subrange(0, i as int)),
            ss as int == sum_score(all@.subrange(0, i as int)),
        decreases all@.len() - i,
    {
        let ghost p1 = all@.subrange(0, i + 1);
        proof {
            lemma_sums_grow(all@, i + 1);
            assert(p1.drop_last() =~= all@.subrange(0, i as int));
            assert(p1.last() == all@[i as int]);
        }
        sms = sms + all[i].ms;
        sf = sf + all[i].fps_centi;
        ss = ss + all[i].score_centi;
        i = i + 1;
    }
    proof {
        assert(all@.subrange(0, all@.len() as int) =~= all@);
    }
    let n = all.len() as u128;
    let first = &all[0];
    Sm {
        ms: sms / n,
        wk: first.wk,
        dirs: first.dirs,
        files: first.files,
        den: first.den,
        err: first.err,
        deep: first.deep,
        fps_centi: sf / n,
        score_centi: ss / n,
    }
}

/// Benchmark ordering: ascending mean elapsed time.
pub open spec fn sorted_by_ms(s: Seq<Sm>) -> bool {
    forall|i: int, j: int| 0 <= i <= j < s.len() ==> s[i].ms <= s[j].ms
}

/// In a sorted record list the first entry has the minimum elapsed time,
/// so the reported "best" is `recs[0]`.
pub proof fn lemma_sorted_first_min(s: Seq<Sm>)
    requires
        sorted_by_ms(s),
        s.len() > 0,
    ensures
        forall|i: int| 0 <= i < s.len() ==> s[0].ms <= #[trigger] s[i].ms,
{
}

/// Sorts benchmark records by ascending mean elapsed time.
pub fn sort_by_ms(recs: Vec<Sm>) -> (r: Vec<Sm>)
    ensures
        sorted_by_ms(r@),
        r@.to_multiset() == recs@.to_multiset(),
{
    let mut work = recs;
    let mut out: Vec<Sm> = Vec::new();
    while work.len() > 0
        invariant
            sorted_by_ms(out@),
            out@.to_multiset().add(work@.to_multiset()) == recs@.to_multiset(),
            forall|a: int, b: int|
                0 <= a < out@.len() && 0 <= b < work@.len() ==> out@[a].ms <= work@[b].ms,
        decreases work@.len(),
    {
        let mut m: usize = 0;
        let mut t: usize = 1;
        while t < work.len()
            invariant
                work@.len() > 0,
                m < t <= work@.len(),
                forall|k: int| 0 <= k < t ==> work@[m as int].ms <= work@[k].ms,
            decreases work@.len() - t,
        {
            if work[t].ms < work[m].ms {
                m = t;
            }
            t = t + 1;
        }
        let x = work.remove(m);
        let ghost old_out = out@;
        out.push(x);
        proof {
            assert(out@.to_multiset().add(work@.to_multiset()) =~= recs@.to_multiset());
            assert forall|a: int, b: int|
                0 <= a < out@.len() && 0 <= b < work@.len() implies out@[a].ms <= work@[b].ms by {
                if a < old_out.len() {
                    assert(out@[a] == old_out[a]);
                }
            }
        }
    }
    out
}

} // verus!
