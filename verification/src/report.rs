use vstd::prelude::*;
use crate::engine::ResultMap;
use crate::stats::Sm;
use crate::text::{centi_spec, centi_string, dec_spec, dec_u128, dec_u64, esc, esc_spec};

verus! {

/// Hardware summary for report headers; the caller collects the values.
#[derive(Clone, Debug)]
pub struct Hw {
    pub os: String,
    pub arch: String,
    pub cores: usize,
    pub ram_mb: u64,
}

/// Disk-probe report record; the four rates are held in hundredths.
#[derive(Clone, Debug)]
pub struct Dk {
    pub mode: String,
    pub path: String,
    pub write_mb_s_centi: u128,
    pub read_mb_s_centi: u128,
    pub create_ops_s_centi: u128,
    pub delete_ops_s_centi: u128,
    pub files: usize,
    pub total_mb: usize,
}

/// The hardware summary as a JSON object.
pub open spec fn hw_json_spec(h: Hw) -> Seq<char> {
    "{\"os\":\""@ + esc_spec(h.os@) + "\",\"arch\":\""@ + esc_spec(h.arch@) + "\",\"cores\":"@
        + dec_spec(h.cores as int) + ",\"ram_mb\":"@ + dec_spec(h.ram_mb as int) + "}"@
}

pub fn hw_json(h: &Hw) -> (r: String)
    ensures
        r@ == hw_json_spec(*h),
{
    let mut s = String::from_str("{\"os\":\"");
    s.append(esc(h.os.as_str()).as_str());
    s.append("\",\"arch\":\"");
    s.append(esc(h.arch.as_str()).as_str());
    s.append("\",\"cores\":");
    s.append(dec_u64(h.cores as u64).as_str());
    s.append(",\"ram_mb\":");
    s.append(dec_u64(h.ram_mb).as_str());
    s.append("}");
    proof {
        assert(s@ =~= hw_json_spec(*h));
    }
    s
}

/// One scan summary as a JSON object.
pub open spec fn sm_json_spec(s: Sm) -> Seq<char> {
    "{\"ms\":"@ + dec_spec(s.ms as int) + ",\"wk\":"@ + dec_spec(s.wk as int) + ",\"dirs\":"@
        + dec_spec(s.dirs as int) + ",\"files\":"@ + dec_spec(s.files as int) + ",\"den\":"@
        + dec_spec(s.den as int) + ",\"err\":"@ + dec_spec(s.err as int) + ",\"deep\":"@ + dec_spec(
        s.deep as int,
    ) + ",\"fps\":"@ + centi_spec(s.fps_centi as int) + ",\"score\":"@ + centi_spec(
        s.score_centi as int,
    ) + "}"@
}

pub fn sm_json(s: &Sm) -> (r: String)
    ensures
        r@ == sm_json_spec(*s),
{
    let mut o = String::from_str("{\"ms\":");
    o.append(dec_u128(s.ms).as_str());
    o.append(",\"wk\":");
    o.append(dec_u64(s.wk as u64).as_str());
    o.append(",\"dirs\":");
    o.append(dec_u64(s.dirs).as_str());
    o.append(",\"files\":");
    o.append(dec_u64(s.files).as_str());
    o.append(",\"den\":");
    o.append(dec_u64(s.den).as_str());
    o.append(",\"err\":");
    o.append(dec_u64(s.err).as_str());
    o.append(",\"deep\":");
    o.append(dec_u64(s.deep).as_str());
    o.append(",\"fps\":");
    o.append(centi_string(s.fps_centi).as_str());
    o.append(",\"score\":");
    o.append(centi_string(s.score_centi).as_str());
    o.append("}");
    proof {
        assert(o@ =~= sm_json_spec(*s));
    }
    o
}

/// The tail of a comma-separated list of scan summaries.
pub open spec fn sm_tail_spec(s: Seq<Sm>) -> Seq<char>
    decreases s.len(),
{
    if s.len() == 0 {
        Seq::empty()
    } else {
        ","@ + sm_json_spec(s[0]) + sm_tail_spec(s.drop_first())
    }
}

/// A comma-separated list of scan summaries.
pub open spec fn sm_list_spec(s: Seq<Sm>) -> Seq<char> {
    if s.len() == 0 {
        Seq::empty()
    } else {
        sm_json_spec(s[0]) + sm_tail_spec(s.drop_first())
    }
}

/// The whole JSON report of a scan or sweep: mode, root, hardware, and
/// the summary list.
pub open spec fn out_json_spec(mode: Seq<char>, root: Seq<char>, h: Hw, stats: Seq<Sm>) -> Seq<
    char,
> {
    "{\"mode\":\""@ + esc_spec(mode) + "\",\"root\":\""@ + esc_spec(root) + "\",\"hw\":"@
        + hw_json_spec(h) + ",\"stats\":["@ + sm_list_spec(stats) + "]}"@
}

pub fn out_json(mode: &str, root: &str, h: &Hw, stats: &Vec<Sm>) -> (r: String)
    ensures
        r@ == out_json_spec(mode@, root@, *h, stats@),
{
    let mut o = String::from_str("{\"mode\":\"");
    o.append(esc(mode).as_str());
    o.append("\",\"root\":\"");
    o.append(esc(root).as_str());
    o.append("\",\"hw\":");
    o.append(hw_json(h).as_str());
    o.append(",\"stats\":[");
    let n = stats.len();
    if n > 0 {
        o.append(sm_json(&stats[0]).as_str());
        let mut i: usize = 1;
        let ghost base = o@;
        proof {
            assert(stats@.subrange(1, n as int) =~= stats@.drop_first());
        }
        while i < n
            invariant
                1 <= i <= n,
                n == stats@.len(),
                o@ + sm_tail_spec(stats@.subrange(i as int, n as int)) == base + sm_tail_spec(
                    stats@.drop_first(),
                ),
            decreases n - i,
        {
            let ghost suf = stats@.subrange(i as int, n as int);
            proof {
                assert(suf[0] == stats@[i as int]);
                assert(suf.drop_first() =~= stats@.subrange(i + 1, n as int));
            }
            o.append(",");
            o.append(sm_json(&stats[i]).as_str());
            i = i + 1;
            proof {
                assert(o@ + sm_tail_spec(stats@.subrange(i as int, n as int)) =~= base
                    + sm_tail_spec(stats@.drop_first()));
            }
        }
        proof {
            assert(stats@.subrange(n as int, n as int) =~= Seq::<Sm>::empty());
        }
    }
    o.append("]}");
    proof {
        assert(o@ =~= out_json_spec(mode@, root@, *h, stats@));
    }
    o
}

/// The disk-probe record as a JSON object.
pub open spec fn dk_json_spec(d: Dk) -> Seq<char> {
    "{\"mode\":\""@ + esc_spec(d.mode@) + "\",\"path\":\""@ + esc_spec(d.path@)
        + "\",\"write_mb_s\":"@ + centi_spec(d.write_mb_s_centi as int) + ",\"read_mb_s\":"@
        + centi_spec(d.read_mb_s_centi as int) + ",\"create_ops_s\":"@ + centi_spec(
        d.create_ops_s_centi as int,
    ) + ",\"delete_ops_s\":"@ + centi_spec(d.delete_ops_s_centi as int) + ",\"files\":"@ + dec_spec(
        d.files as int,
    ) + ",\"total_mb\":"@ + dec_spec(d.total_mb as int) + "}"@
}

pub fn dk_json(d: &Dk) -> (r: String)
    ensures
        r@ == dk_json_spec(*d),
{
    let mut o = String::from_str("{\"mode\":\"");
    o.append(esc(d.mode.as_str()).as_str());
    o.append("\",\"path\":\"");
    o.append(esc(d.path.as_str()).as_str());
    o.append("\",\"write_mb_s\":");
    o.append(centi_string(d.write_mb_s_centi).as_str());
    o.append(",\"read_mb_s\":");
    o.append(centi_string(d.read_mb_s_centi).as_str());
    o.append(",\"create_ops_s\":");
    o.append(centi_string(d.create_ops_s_centi).as_str());
    o.append(",\"delete_ops_s\":");
    o.append(centi_string(d.delete_ops_s_centi).as_str());
    o.append(",\"files\":");
    o.append(dec_u64(d.files as u64).as_str());
    o.append(",\"total_mb\":");
    o.append(dec_u64(d.total_mb as u64).as_str());
    o.append("}");
    proof {
        assert(o@ =~= dk_json_spec(*d));
    }
    o
}

/// Report file name: `dnrs_<tag>_<stamp>.<ext>`.
pub fn file_name(tag: &str, stamp: &str, ext: &str) -> (r: String)
    ensures
        r@ == "dnrs_"@ + tag@ + "_"@ + stamp@ + "."@ + ext@,
{
    let mut s = String::from_str("dnrs_");
    s.append(tag);
    s.append("_");
    s.append(stamp);
    s.append(".");
    s.append(ext);
    proof {
        assert(s@ =~= "dnrs_"@ + tag@ + "_"@ + stamp@ + "."@ + ext@);
    }
    s
}

pub open spec fn bool_spec(b: bool) -> Seq<char> {
    if b {
        "true"@
    } else {
        "false"@
    }
}

/// One numbered line of the benchmark text report.
pub open spec fn bench_line_spec(i: int, s: Sm) -> Seq<char> {
    dec_spec(i) + ". workers="@ + dec_spec(s.wk as int) + " avg_ms="@ + dec_spec(s.ms as int)
        + " files="@ + dec_spec(s.files as int) + " dirs="@ + dec_spec(s.dirs as int)
        + " files_per_sec="@ + centi_spec(s.fps_centi as int) + " depth="@ + dec_spec(s.deep as int)
        + " score="@ + centi_spec(s.score_centi as int) + " den="@ + dec_spec(s.den as int)
        + " err="@ + dec_spec(s.err as int) + "\n"@
}

pub open spec fn bench_lines_spec(recs: Seq<Sm>, i: int) -> Seq<char>
    decreases recs.len() - i,
{
    if i < 0 || i >= recs.len() {
        Seq::empty()
    } else {
        bench_line_spec(i + 1, recs[i]) + bench_lines_spec(recs, i + 1)
    }
}

/// The benchmark text report: the run parameters, then one numbered line
/// per record in the order given.
pub open spec fn bench_txt_spec(root: Seq<char>, runs: int, fast: bool, recs: Seq<Sm>) -> Seq<
    char,
> {
    "root="@ + root + "\n"@ + "runs="@ + dec_spec(runs) + "\n"@ + "fast="@ + bool_spec(fast)
        + "\n"@ + bench_lines_spec(recs, 0)
}

#[verifier::rlimit(50)]
pub fn bench_txt(root: &str, runs: usize, fast: bool, recs: &Vec<Sm>) -> (r: String)
    ensures
        r@ == bench_txt_spec(root@, runs as int, fast, recs@),
{
    let mut o = String::from_str("root=");
    o.append(root);
    o.append("\n");
    o.append("runs=");
    o.append(dec_u64(runs as u64).as_str());
    o.append("\n");
    o.append("fast=");
    o.append(
        if fast {
            "true"
        } else {
            "false"
        },
    );
    o.append("\n");
    let ghost head = o@ + bench_lines_spec(recs@, 0);
    let n = recs.len();
    let mut i: usize = 0;
    proof {
        assert(o@ + bench_lines_spec(recs@, 0) =~= head);
    }
    while i < n
        invariant
            i <= n,
            n == recs@.len(),
            o@ + bench_lines_spec(recs@, i as int) == head,
        decreases n - i,
    {
        o.append(dec_u64((i + 1) as u64).as_str());
        o.append(". workers=");
        o.append(dec_u64(recs[i].wk as u64).as_str());
        o.append(" avg_ms=");
        o.append(dec_u128(recs[i].ms).as_str());
        o.append(" files=");
        o.append(dec_u64(recs[i].files).as_str());
        o.append(" dirs=");
        o.append(dec_u64(recs[i].dirs).as_str());
        o.append(" files_per_sec=");
        o.append(centi_string(recs[i].fps_centi).as_str());
        o.append(" depth=");
        o.append(dec_u64(recs[i].deep).as_str());
        o.append(" score=");
        o.append(centi_string(recs[i].score_centi).as_str());
        o.append(" den=");
        o.append(dec_u64(recs[i].den).as_str());
        o.append(" err=");
        o.append(dec_u64(recs[i].err).as_str());
        o.append("\n");
        i = i + 1;
        proof {
            assert(o@ + bench_lines_spec(recs@, i as int) =~= head);
        }
    }
    proof {
        assert(o@ =~= bench_txt_spec(root@, runs as int, fast, recs@));
    }
    o
}

/// Little-endian encoding of the low `k` bytes of a non-negative value;
/// a value wider than the field keeps only its low bytes.
pub open spec fn le_spec(x: int, k: nat) -> Seq<u8>
    decreases k,
{
    if k == 0 {
        Seq::empty()
    } else {
        seq![(x % 256) as u8] + le_spec(x / 256, (k - 1) as nat)
    }
}

/// Appends the `k`-byte little-endian form of `x`.
fn push_le(out: &mut Vec<u8>, x: u128, k: usize)
    ensures
        final(out)@ == old(out)@ + le_spec(x as int, k as nat),
{
    let mut cur = x;
    let mut i: usize = 0;
    proof {
        assert(out@ + le_spec(x as int, k as nat) =~= old(out)@ + le_spec(x as int, k as nat));
    }
    while i < k
        invariant
            i <= k,
            out@ + le_spec(cur as int, (k - i) as nat) == old(out)@ + le_spec(x as int, k as nat),
        decreases k - i,
    {
        let b = (cur % 256) as u8;
        proof {
            assert(le_spec(cur as int, (k - i) as nat) == seq![(cur as int % 256) as u8] + le_spec(
                cur as int / 256,
                (k - i - 1) as nat,
            ));
            assert(b as int == cur as int % 256);
        }
        out.push(b);
        cur = cur / 256;
        i = i + 1;
        proof {
            assert(out@ + le_spec(cur as int, (k - i) as nat) =~= old(out)@ + le_spec(
                x as int,
                k as nat,
            ));
        }
    }
    proof {
        assert(le_spec(cur as int, (k - i) as nat) =~= Seq::<u8>::empty());
        assert(out@ =~= old(out)@ + le_spec(x as int, k as nat));
    }
}

/// UTF-8 bytes of a string, as the binary report holds them.
pub open spec fn str_bytes_spec(s: Seq<char>) -> Seq<u8> {
    vstd::utf8::encode_utf8(s)
}

/// One row's file entries: 32-bit length then bytes, for each file path.
pub open spec fn files_bin_spec(fs: Seq<Seq<char>>) -> Seq<u8>
    decreases fs.len(),
{
    if fs.len() == 0 {
        Seq::empty()
    } else {
        le_spec(str_bytes_spec(fs[0]).len() as int, 4) + str_bytes_spec(fs[0]) + files_bin_spec(
            fs.drop_first(),
        )
    }
}

/// One row: key length and bytes, file count, then the files.
pub open spec fn row_bin_spec(row: (Seq<char>, Seq<Seq<char>>)) -> Seq<u8> {
    le_spec(str_bytes_spec(row.0).len() as int, 4) + str_bytes_spec(row.0) + le_spec(
        row.1.len() as int,
        4,
    ) + files_bin_spec(row.1)
}

pub open spec fn rows_bin_spec(m: Seq<(Seq<char>, Seq<Seq<char>>)>) -> Seq<u8>
    decreases m.len(),
{
    if m.len() == 0 {
        Seq::empty()
    } else {
        row_bin_spec(m[0]) + rows_bin_spec(m.drop_first())
    }
}

/// The whole binary report: the magic bytes `DNRS2`, the row count as a
/// 64-bit value, each row, then the trailer — elapsed milliseconds as a
/// 128-bit value, then worker count and the five counters as 64-bit
/// values, everything little-endian.
pub open spec fn bin_spec(m: Seq<(Seq<char>, Seq<Seq<char>>)>, s: Sm) -> Seq<u8> {
    seq![68u8, 78u8, 82u8, 83u8, 50u8] + le_spec(m.len() as int, 8) + rows_bin_spec(m) + le_spec(
        s.ms as int,
        16,
    ) + le_spec(s.wk as int, 8) + le_spec(s.dirs as int, 8) + le_spec(s.files as int, 8) + le_spec(
        s.den as int,
        8,
    ) + le_spec(s.err as int, 8) + le_spec(s.deep as int, 8)
}

pub fn bin_report(m: &ResultMap, sm: &Sm) -> (r: Vec<u8>)
    ensures
        r@ == bin_spec(m@, *sm),
{
    let mut out: Vec<u8> = Vec::new();
    out.push(68);
    out.push(78);
    out.push(82);
    out.push(83);
    out.push(50);
    push_le(&mut out, m.rows.len() as u128, 8);
    let ghost header = seq![68u8, 78u8, 82u8, 83u8, 50u8] + le_spec(m@.len() as int, 8);
    proof {
        assert(out@ =~= header);
    }
    let n = m.rows.len();
    let mut i: usize = 0;
    proof {
        assert(m@.subrange(0, n as int) =~= m@);
    }
    while i < n
        invariant
            i <= n,
            n == m.rows@.len(),
            n == m@.len(),
            out@ + rows_bin_spec(m@.subrange(i as int, n as int)) == header + rows_bin_spec(m@),
        decreases n - i,
    {
        let ghost suf = m@.subrange(i as int, n as int);
        proof {
            assert(suf[0] == m@[i as int]);
            assert(suf.drop_first() =~= m@.subrange(i + 1, n as int));
        }
        let kb = m.rows[i].path.as_str().as_bytes_vec();
        push_le(&mut out, kb.len() as u128, 4);
        let mut kbm = kb;
        out.append(&mut kbm);
        let fv = &m.rows[i].files;
        push_le(&mut out, fv.len() as u128, 4);
        let ghost fvs = m@[i as int].1;
        let ghost base = out@;
        let fcount = fv.len();
        let mut j: usize = 0;
        proof {
            assert(fvs.subrange(0, fcount as int) =~= fvs);
        }
        while j < fcount
            invariant
                j <= fcount,
                fcount == fv@.len(),
                fvs == fv.deep_view(),
                fvs.len() == fcount,
                out@ + files_bin_spec(fvs.subrange(j as int, fcount as int)) == base
                    + files_bin_spec(fvs),
            decreases fcount - j,
        {
            let ghost fsuf = fvs.subrange(j as int, fcount as int);
            proof {
                assert(fsuf[0] == fvs[j as int]);
                assert(fsuf.drop_first() =~= fvs.subrange(j + 1, fcount as int));
                assert(fvs[j as int] == fv@[j as int]@);
            }
            let fb = fv[j].as_str().as_bytes_vec();
            push_le(&mut out, fb.len() as u128, 4);
            let mut fbm = fb;
            out.append(&mut fbm);
            j = j + 1;
            proof {
                assert(out@ + files_bin_spec(fvs.subrange(j as int, fcount as int)) =~= base
                    + files_bin_spec(fvs));
            }
        }
        proof {
            assert(fvs.subrange(fcount as int, fcount as int) =~= Seq::<Seq<char>>::empty());
        }
        i = i + 1;
        proof {
            assert(out@ + rows_bin_spec(m@.subrange(i as int, n as int)) =~= header + rows_bin_spec(
                m@,
            ));
        }
    }
    proof {
        assert(m@.subrange(n as int, n as int) =~= Seq::<(Seq<char>, Seq<Seq<char>>)>::empty());
    }
    push_le(&mut out, sm.ms, 16);
    push_le(&mut out, sm.wk as u128, 8);
    push_le(&mut out, sm.dirs as u128, 8);
    push_le(&mut out, sm.files as u128, 8);
    push_le(&mut out, sm.den as u128, 8);
    push_le(&mut out, sm.err as u128, 8);
    push_le(&mut out, sm.deep as u128, 8);
    proof {
        assert(out@ =~= bin_spec(m@, *sm));
    }
    out
}

/// The indented file lines of one text-report block.
pub open spec fn files_txt_spec(fs: Seq<Seq<char>>) -> Seq<char>
    decreases fs.len(),
{
    if fs.len() == 0 {
        Seq::empty()
    } else {
        "    "@ + fs[0] + "\n"@ + files_txt_spec(fs.drop_first())
    }
}

/// One text-report block: the directory, its files indented below it, and
/// a blank separator line.
pub open spec fn row_txt_spec(row: (Seq<char>, Seq<Seq<char>>)) -> Seq<char> {
    row.0 + ":\n"@ + files_txt_spec(row.1) + "\n"@
}

/// The text report: one block per recorded directory, in row order.
pub open spec fn txt_spec(m: Seq<(Seq<char>, Seq<Seq<char>>)>) -> Seq<char>
    decreases m.len(),
{
    if m.len() == 0 {
        Seq::empty()
    } else {
        row_txt_spec(m[0]) + txt_spec(m.drop_first())
    }
}

pub fn txt_report(m: &ResultMap) -> (r: String)
    ensures
        r@ == txt_spec(m@),
{
    let mut o = String::new();
    let n = m.rows.len();
    let mut i: usize = 0;
    proof {
        assert(m@.subrange(0, n as int) =~= m@);
        assert(o@ + txt_spec(m@) =~= txt_spec(m@));
    }
    while i < n
        invariant
            i <= n,
            n == m.rows@.len(),
            n == m@.len(),
            o@ + txt_spec(m@.subrange(i as int, n as int)) == txt_spec(m@),
        decreases n - i,
    {
        let ghost suf = m@.subrange(i as int, n as int);
        proof {
            assert(suf[0] == m@[i as int]);
            assert(suf.drop_first() =~= m@.subrange(i + 1, n as int));
        }
        o.append(m.rows[i].path.as_str());
        o.append(":\n");
        let fv = &m.rows[i].files;
        let fn_ = fv.len();
        let mut j: usize = 0;
        let ghost fvs = m@[i as int].1;
        let ghost base = o@;
        proof {
            assert(fvs.subrange(0, fn_ as int) =~= fvs);
        }
        while j < fn_
            invariant
                j <= fn_,
                fn_ == fv@.len(),
                fvs == fv.deep_view(),
                fvs.len() == fn_,
                o@ + files_txt_spec(fvs.subrange(j as int, fn_ as int)) == base + files_txt_spec(
                    fvs,
                ),
            decreases fn_ - j,
        {
            let ghost fsuf = fvs.subrange(j as int, fn_ as int);
            proof {
                assert(fsuf[0] == fvs[j as int]);
                assert(fsuf.drop_first() =~= fvs.subrange(j + 1, fn_ as int));
                assert(fvs[j as int] == fv@[j as int]@);
            }
            o.append("    ");
            o.append(fv[j].as_str());
            o.append("\n");
            j = j + 1;
            proof {
                assert(o@ + files_txt_spec(fvs.subrange(j as int, fn_ as int)) =~= base
                    + files_txt_spec(fvs));
            }
        }
        proof {
            assert(fvs.subrange(fn_ as int, fn_ as int) =~= Seq::<Seq<char>>::empty());
        }
        o.append("\n");
        i = i + 1;
        proof {
            assert(o@ + txt_spec(m@.subrange(i as int, n as int)) =~= txt_spec(m@));
        }
    }
    proof {
        assert(m@.subrange(n as int, n as int) =~= Seq::<(Seq<char>, Seq<Seq<char>>)>::empty());
        assert(o@ =~= txt_spec(m@));
    }
    o
}

} // verus!
