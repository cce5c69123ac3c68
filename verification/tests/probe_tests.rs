use overwatchd::probe::{gather, hw_stats_advancing, modules_has, parse_acct};

#[test]
fn acct_parsing() {
    assert!(parse_acct("1\n"));
    assert!(!parse_acct("0"));
    assert!(!parse_acct(""));
}

#[test]
fn module_presence() {
    let mods = "sch_ingress 16384 0 - Live 0x0\nnf_conntrack 180224 4 - Live 0x0\n";
    assert!(modules_has(mods, "sch_ingress"));
    assert!(modules_has(mods, "nf_conntrack"));
    assert!(!modules_has(mods, "cls_bpf"));
}

#[test]
fn hw_stats_delta() {
    assert_eq!(hw_stats_advancing(100, 200), Some(true));
    assert_eq!(hw_stats_advancing(200, 200), Some(false));
    assert_eq!(hw_stats_advancing(200, 100), None);
    assert_eq!(hw_stats_advancing(0, 0), Some(false));
}

#[test]
fn gather_assembles_status() {
    let mods = "sch_ingress 1 0 - Live 0x0\n";
    let st = gather("1", true, mods);
    assert!(st.conntrack_acct);
    assert!(st.btf);
    assert!(st.clsact);
    assert_eq!(st.hw_stats_advancing, None);
}

#[test]
fn gather_clsact_via_ingress_alias() {
    let st = gather("0", false, "ingress 1 0 - Live 0x0\n");
    assert!(st.clsact);
    assert!(!st.conntrack_acct);
    assert!(!st.btf);
}

#[test]
fn module_name_must_match_whole_first_word() {
    assert!(!modules_has("sch_ingress_x 1 0 - Live 0x0\n", "sch_ingress"));
    assert!(!modules_has("foo sch_ingress 1\n", "sch_ingress"));
    assert!(parse_acct("  1  "));
}
