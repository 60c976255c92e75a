use rust_nator::engine::ResultMap;
use rust_nator::report::{bench_txt, bin_report, dk_json, file_name, hw_json, out_json, sm_json, txt_report, Dk, Hw};
use rust_nator::stats::Sm;

fn small_sm() -> Sm {
    Sm {
        ms: 5,
        wk: 2,
        dirs: 1,
        files: 1,
        den: 0,
        err: 0,
        deep: 0,
        fps_centi: 2000,
        score_centi: 1950,
    }
}

#[test]
fn hardware_json_escapes_strings() {
    let h = Hw {
        os: "li\"nux".to_string(),
        arch: "x86_64".to_string(),
        cores: 8,
        ram_mb: 16000,
    };
    assert_eq!(
        hw_json(&h),
        "{\"os\":\"li\\\"nux\",\"arch\":\"x86_64\",\"cores\":8,\"ram_mb\":16000}"
    );
}

#[test]
fn summary_json_exact() {
    assert_eq!(
        sm_json(&small_sm()),
        "{\"ms\":5,\"wk\":2,\"dirs\":1,\"files\":1,\"den\":0,\"err\":0,\"deep\":0,\"fps\":20.00,\"score\":19.50}"
    );
}

#[test]
fn out_json_joins_stats_with_commas() {
    let h = Hw {
        os: "linux".to_string(),
        arch: "arm64".to_string(),
        cores: 4,
        ram_mb: 8192,
    };
    let one = sm_json(&small_sm());
    let whole = out_json("bench", "/da\\ta", &h, &vec![small_sm(), small_sm()]);
    let expected = format!(
        "{{\"mode\":\"bench\",\"root\":\"/da\\\\ta\",\"hw\":{},\"stats\":[{},{}]}}",
        hw_json(&h),
        one,
        one
    );
    assert_eq!(whole, expected);
    let empty = out_json("map", "/", &h, &vec![]);
    assert!(empty.ends_with("\"stats\":[]}"));
}

#[test]
fn disk_json_exact() {
    let d = Dk {
        mode: "disk".to_string(),
        path: "/out".to_string(),
        write_mb_s_centi: 12345,
        read_mb_s_centi: 67890,
        create_ops_s_centi: 100,
        delete_ops_s_centi: 5,
        files: 400,
        total_mb: 64,
    };
    assert_eq!(
        dk_json(&d),
        "{\"mode\":\"disk\",\"path\":\"/out\",\"write_mb_s\":123.45,\"read_mb_s\":678.90,\"create_ops_s\":1.00,\"delete_ops_s\":0.05,\"files\":400,\"total_mb\":64}"
    );
}

#[test]
fn report_file_names() {
    assert_eq!(file_name("run", "17", "txt"), "dnrs_run_17.txt");
    assert_eq!(file_name("night", "99", "json"), "dnrs_night_99.json");
}

#[test]
fn text_report_blocks() {
    let mut m = ResultMap::new();
    m.record("root".to_string(), vec!["root/f1".to_string(), "root/f2".to_string()]);
    m.record("root/b".to_string(), vec![]);
    assert_eq!(
        txt_report(&m),
        "root:\n    root/f1\n    root/f2\n\nroot/b:\n\n"
    );
    assert_eq!(txt_report(&ResultMap::new()), "");
}

#[test]
fn binary_report_layout() {
    let mut m = ResultMap::new();
    m.record("r".to_string(), vec!["r/f".to_string()]);
    let bytes = bin_report(&m, &small_sm());

    let mut expected: Vec<u8> = Vec::new();
    expected.extend_from_slice(b"DNRS2");
    expected.extend_from_slice(&1u64.to_le_bytes()); // one row
    expected.extend_from_slice(&1u32.to_le_bytes()); // key length
    expected.extend_from_slice(b"r");
    expected.extend_from_slice(&1u32.to_le_bytes()); // one file
    expected.extend_from_slice(&3u32.to_le_bytes()); // file path length
    expected.extend_from_slice(b"r/f");
    expected.extend_from_slice(&5u128.to_le_bytes()); // ms
    expected.extend_from_slice(&2u64.to_le_bytes()); // wk
    expected.extend_from_slice(&1u64.to_le_bytes()); // dirs
    expected.extend_from_slice(&1u64.to_le_bytes()); // files
    expected.extend_from_slice(&0u64.to_le_bytes()); // den
    expected.extend_from_slice(&0u64.to_le_bytes()); // err
    expected.extend_from_slice(&0u64.to_le_bytes()); // deep
    assert_eq!(bytes, expected);
}

#[test]
fn binary_report_handles_non_ascii_keys() {
    let mut m = ResultMap::new();
    m.record("é".to_string(), vec![]);
    let bytes = bin_report(&m, &small_sm());
    // after magic and count: the key length counts UTF-8 bytes, not chars
    let klen = u32::from_le_bytes([bytes[13], bytes[14], bytes[15], bytes[16]]);
    assert_eq!(klen, 2);
    assert_eq!(&bytes[17..19], "é".as_bytes());
}

#[test]
fn bench_text_report_lines() {
    let recs = vec![small_sm()];
    let txt = bench_txt("/srv", 3, true, &recs);
    assert_eq!(
        txt,
        "root=/srv\nruns=3\nfast=true\n1. workers=2 avg_ms=5 files=1 dirs=1 files_per_sec=20.00 depth=0 score=19.50 den=0 err=0\n"
    );
}
