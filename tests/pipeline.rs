use likbench::{
    create_table, create_table_reporting, likwid_extract, likwid_extract_reporting, LineIssue, load_config, perfctr_args, plot_columns, relativize_output,
    relativize_targets, sweep_runs, update_regset, write_csv, Config, CpuFreq, Log, MetricSet, RegionConfig,
    RegionMetrics, RegionSet, Table, TableColumn, TableConfig, TestConfig,
};

fn block(region: &str, lines: &[&str]) -> String {
    let mut s = format!("TABLE,Region {},Group 1 Metric,4\nMetric,HWThread 0\n", region);
    for l in lines {
        s.push_str(l);
        s.push('\n');
    }
    s
}

fn readings(r: &RegionMetrics) -> Vec<(String, String)> {
    r.metrics.iter().map(|m| (m.key.clone(), m.value.clone())).collect()
}

fn find<'a>(rs: &'a [RegionMetrics], title: &str) -> &'a RegionMetrics {
    rs.iter().find(|r| r.title == title).unwrap()
}

fn series(set: &RegionSet, region: &str, metric: &str) -> Option<Vec<String>> {
    let ms = &set.0.iter().find(|e| e.0 == region)?.1;
    ms.0.iter().find(|e| e.0 == metric).map(|e| e.1.clone())
}

fn strings(v: &[&str]) -> Vec<String> {
    v.iter().map(|s| s.to_string()).collect()
}

fn pairs(v: &[(&str, &str)]) -> Vec<(String, String)> {
    v.iter().map(|(a, b)| (a.to_string(), b.to_string())).collect()
}

#[test]
fn grammar_round_trip() {
    let raw = format!(
        "STRUCT,Info,3\nCPU name:,Intel\n{}{}{}",
        block("alpha", &["Runtime (RDTSC) [s],0.5", "CPI,1.25"]),
        block("beta", &["MFLOP/s,1200", "Clock [MHz],2400.5,extra"]),
        block("gamma", &["Energy [J],-3e2"]),
    );
    let rs = likwid_extract(&raw);
    assert_eq!(rs.len(), 3);
    assert_eq!(rs[0].title, "alpha");
    assert_eq!(rs[1].title, "beta");
    assert_eq!(rs[2].title, "gamma");
    assert_eq!(readings(&rs[0]), pairs(&[("Runtime (RDTSC) [s]", "0.5"), ("CPI", "1.25")]));
    assert_eq!(readings(&rs[1]), pairs(&[("MFLOP/s", "1200"), ("Clock [MHz]", "2400.5")]));
    assert_eq!(readings(&rs[2]), pairs(&[("Energy [J]", "-3e2")]));
}

#[test]
fn empty_report_has_no_regions() {
    assert!(likwid_extract("").is_empty());
    assert!(likwid_extract("nothing here\nat all\n").is_empty());
}

#[test]
fn duplicate_region_overwrite() {
    let raw = format!("{}{}", block("R", &["A,1", "B,2"]), block("R", &["C,3"]));
    let rs = likwid_extract(&raw);
    assert_eq!(rs.len(), 1);
    assert_eq!(readings(&rs[0]), pairs(&[("C", "3")]));
}

#[test]
fn lenient_skipping() {
    let raw = block("R", &["A,1", "x", "y,notanumber", "B,2.5"]);
    let rs = likwid_extract(&raw);
    assert_eq!(rs.len(), 1);
    assert_eq!(readings(&rs[0]), pairs(&[("A", "1"), ("B", "2.5")]));
}

#[test]
fn number_syntax() {
    let raw = block(
        "R",
        &[
            "a,1e3", "b,inf", "c,-.5", "d,1.", "e,.", "f,e5", "g,1e", "h,NaN", "i,+Infinity",
            "j,1e+7", "k,", "l,1.2.3", "m,0x10",
        ],
    );
    let rs = likwid_extract(&raw);
    let keys: Vec<String> = rs[0].metrics.iter().map(|m| m.key.clone()).collect();
    assert_eq!(keys, strings(&["a", "b", "c", "d", "h", "i", "j"]));
}

#[test]
fn block_ends_at_stop_lines() {
    let raw = "TABLE,Region R,x\nMetric,h\nA,1\nSTRUCT,s\nB,2\nTABLE,Region S,x\nMetric,h\nC,3\nRegion S\nD,4\n";
    let rs = likwid_extract(raw);
    assert_eq!(rs.len(), 2);
    assert_eq!(readings(find(&rs, "R")), pairs(&[("A", "1")]));
    assert_eq!(readings(find(&rs, "S")), pairs(&[("C", "3")]));
}

#[test]
fn header_needs_metric_line_and_comma() {
    let raw = "TABLE,Region R,x\nA,1\nTABLE,Region S\nMetric,h\nB,2\n";
    assert!(likwid_extract(raw).is_empty());
}

#[test]
fn carriage_returns_are_dropped() {
    let raw = "TABLE,Region R,x\r\nMetric,h\r\nA,1.5\r\nB,2\r\n";
    let rs = likwid_extract(raw);
    assert_eq!(readings(&rs[0]), pairs(&[("A", "1.5"), ("B", "2")]));
}

#[test]
fn empty_block_still_names_region() {
    let rs = likwid_extract("TABLE,Region R,x\nMetric,h\n");
    assert_eq!(rs.len(), 1);
    assert!(rs[0].metrics.is_empty());
    let mut set = RegionSet(Vec::new());
    update_regset(&mut set, &rs);
    assert_eq!(set.0.len(), 1);
    assert!(set.0[0].1 .0.is_empty());
}

#[test]
fn append_on_presence_misalignment() {
    let mut set = RegionSet(Vec::new());
    update_regset(&mut set, &likwid_extract(&block("R", &["M,1", "N,10"])));
    update_regset(&mut set, &likwid_extract(&block("R", &["N,20"])));
    update_regset(&mut set, &likwid_extract(&block("R", &["M,3", "N,30"])));
    assert_eq!(series(&set, "R", "M"), Some(strings(&["1", "3"])));
    assert_eq!(series(&set, "R", "N"), Some(strings(&["10", "20", "30"])));
}

#[test]
fn update_keeps_other_regions() {
    let mut set = RegionSet(Vec::new());
    update_regset(&mut set, &likwid_extract(&block("R", &["M,1"])));
    update_regset(&mut set, &likwid_extract(&block("S", &["M,2"])));
    assert_eq!(series(&set, "R", "M"), Some(strings(&["1"])));
    assert_eq!(series(&set, "S", "M"), Some(strings(&["2"])));
    assert_eq!(series(&set, "S", "X"), None);
}

fn poison_set() -> RegionSet {
    let mut set = RegionSet(Vec::new());
    update_regset(&mut set, &likwid_extract(&format!("{}{}", block("R1", &["A,1", "B,2"]), block("R2", &["B,5"]))));
    set
}

fn titles(t: &Table) -> Vec<String> {
    t.columns.iter().map(|c| c.title.clone()).collect()
}

#[test]
fn poison_propagation() {
    let set = poison_set();
    let t = create_table("lbl", "ttl", &set, &strings(&["R2", "R1"]), &strings(&["A", "B"]), &[1]);
    assert_eq!(titles(&t), strings(&["n", "R2 (B)", "R1 (B)"]));
}

#[test]
fn poison_after_first_region_keeps_earlier_column() {
    let set = poison_set();
    let t = create_table("lbl", "ttl", &set, &strings(&["R1", "R2"]), &strings(&["A", "B"]), &[1]);
    assert_eq!(titles(&t), strings(&["n", "R1 (A)", "R1 (B)", "R2 (B)"]));
}

#[test]
fn create_table_columns() {
    let set = poison_set();
    let t = create_table("lbl", "ttl", &set, &strings(&["X", "R1"]), &strings(&["B"]), &[1, 20, 300]);
    assert_eq!(t.label, "lbl");
    assert_eq!(t.title, "ttl");
    assert_eq!(t.columns.len(), 2);
    assert_eq!(t.columns[0].title, "n");
    assert_eq!(t.columns[0].values, strings(&["1", "20", "300"]));
    assert_eq!(t.columns[1].title, "R1 (B)");
    assert_eq!(t.columns[1].values, strings(&["2"]));
}

fn column(title: &str, values: &[&str]) -> TableColumn {
    TableColumn { title: title.to_string(), values: strings(values) }
}

#[test]
fn csv_shape() {
    let t = Table {
        label: "l".to_string(),
        title: "t".to_string(),
        columns: vec![
            column("n", &["1", "2", "3"]),
            column("R (cpu_time)", &["0.5", "0.6", "0.7"]),
            column("R (B)", &["9"]),
        ],
    };
    let csv = write_csv(&t);
    assert_eq!(csv, "n,R (cpu time),R (B)\n1,0.5,9\n2,0.6,\n3,0.7,\n");
    assert_eq!(csv.lines().count(), 4);
}

#[test]
fn csv_of_axis_only() {
    let t = Table { label: "l".to_string(), title: "t".to_string(), columns: vec![column("n", &[])] };
    assert_eq!(write_csv(&t), "n\n");
}

#[test]
fn table_to_csv() {
    let set = poison_set();
    let t = create_table("l", "t", &set, &strings(&["R1"]), &strings(&["A", "B"]), &[4, 8]);
    assert_eq!(write_csv(&t), "n,R1 (A),R1 (B)\n4,1,2\n8,,\n");
}

#[test]
fn plot_column_ranges() {
    assert_eq!(plot_columns(0), None);
    assert_eq!(plot_columns(1), None);
    assert_eq!(plot_columns(2), Some((2, 2)));
    assert_eq!(plot_columns(5), Some((2, 5)));
}

fn config() -> Config {
    Config {
        target_paths: strings(&["bin/app", "/opt/tool"]),
        output_path: "out".to_string(),
        core: 3,
        tests: vec![TestConfig { label: "10".to_string(), params: strings(&["10"]) }],
        groups: strings(&["FLOPS_DP"]),
        regions: vec![RegionConfig { label: "all".to_string(), regions: strings(&["R"]) }],
        tables: vec![TableConfig { title: "time".to_string(), metrics: strings(&["M"]) }],
    }
}

#[test]
fn paths_follow_config_dir() {
    let c = config();
    assert_eq!(relativize_targets(&c, &"/home/u/cfg".to_string()), strings(&["/home/u/cfg/bin/app", "/opt/tool"]));
    assert_eq!(relativize_output(&c, &"/home/u/cfg/".to_string()), "/home/u/cfg/out");
    assert_eq!(relativize_output(&c, &"".to_string()), "out");
    let loaded = load_config(c, &"/d".to_string());
    assert_eq!(loaded.target_paths, strings(&["/d/bin/app", "/opt/tool"]));
    assert_eq!(loaded.output_path, "/d/out");
    assert_eq!(loaded.core, 3);
    assert_eq!(loaded.groups, strings(&["FLOPS_DP"]));
}

#[test]
fn profiler_arguments() {
    let a = perfctr_args(&"MEM".to_string(), 12, &strings(&["./bench", "100"]));
    assert_eq!(a, strings(&["-O", "-C", "12", "-g", "MEM", "-m", "./bench", "100"]));
}

#[test]
fn names_of_policies_and_tags() {
    assert_eq!(CpuFreq::Powersave.governor(), "powersave");
    assert_eq!(CpuFreq::Performance.governor(), "performance");
    assert_eq!(Log::INF.tag(), "[inf]");
    assert_eq!(Log::WRN.tag(), "[wrn]");
    assert_eq!(Log::ERR.tag(), "[err]");
}

#[test]
fn metric_set_is_plain_data() {
    let ms = MetricSet(vec![("M".to_string(), strings(&["1"]))]);
    let set = RegionSet(vec![("R".to_string(), ms)]);
    assert_eq!(series(&set, "R", "M"), Some(strings(&["1"])));
}

#[test]
fn poison_reports_one_missing_metric() {
    let set = poison_set();
    let (t, absent, missing) =
        create_table_reporting("l", "t", &set, &strings(&["R2", "R1", "R9"]), &strings(&["A", "B"]), &[1]);
    assert_eq!(titles(&t), strings(&["n", "R2 (B)", "R1 (B)"]));
    assert_eq!(absent, strings(&["R9"]));
    assert_eq!(missing, strings(&["A"]));
}

#[test]
fn lenient_skipping_reports_two_issues() {
    let raw = block("R", &["A,1", "x", "y,notanumber", "B,2.5"]);
    let (rs, issues) = likwid_extract_reporting(&raw);
    assert_eq!(readings(&rs[0]), pairs(&[("A", "1"), ("B", "2.5")]));
    assert_eq!(issues.len(), 2);
    assert!(matches!(&issues[0], LineIssue::Malformed(l) if l == "x"));
    assert!(matches!(&issues[1], LineIssue::NotANumber(v) if v == "notanumber"));
}

#[test]
fn lines_outside_blocks_raise_no_issue() {
    let raw = format!("stray line
{}", block("R", &["A,1"]));
    let (_, issues) = likwid_extract_reporting(&raw);
    assert!(issues.is_empty());
}

#[test]
fn metric_header_needs_a_newline() {
    assert!(likwid_extract("TABLE,Region R,g\nMetric,h").is_empty());
    let rs = likwid_extract("TABLE,Region R,g\nMetric,h\n");
    assert_eq!(rs.len(), 1);
    assert!(rs[0].metrics.is_empty());
}

#[test]
fn header_may_start_mid_line() {
    let rs = likwid_extract("xTABLE,Region R,g\nMetric,h\na,1\n");
    assert_eq!(rs.len(), 1);
    assert_eq!(rs[0].title, "R");
    assert_eq!(readings(&rs[0]), pairs(&[("a", "1")]));
}

#[test]
fn header_inside_a_body_line_is_not_a_block() {
    let rs = likwid_extract("TABLE,Region R,g\nMetric,h\na,1\nxTABLE,Region S,g\nMetric,h\nb,2\n");
    assert_eq!(rs.len(), 1);
    assert_eq!(readings(&rs[0]), pairs(&[("a", "1"), ("b", "2")]));
}

#[test]
fn last_body_line_without_newline() {
    let rs = likwid_extract("TABLE,Region R,g\nMetric,h\na,1\nb,2");
    assert_eq!(readings(&rs[0]), pairs(&[("a", "1"), ("b", "2")]));
}

#[test]
fn sweep_order_is_group_test_target() {
    let mut c = config();
    c.groups = strings(&["G1", "G2"]);
    c.tests = vec![
        TestConfig { label: "1".to_string(), params: strings(&["1"]) },
        TestConfig { label: "2".to_string(), params: strings(&["2", "x"]) },
    ];
    c.target_paths = strings(&["a", "b"]);
    let runs = sweep_runs(&c);
    let got: Vec<(String, Vec<String>)> = runs;
    let want: Vec<(String, Vec<String>)> = vec![
        ("G1".to_string(), strings(&["a", "1"])),
        ("G1".to_string(), strings(&["b", "1"])),
        ("G1".to_string(), strings(&["a", "2", "x"])),
        ("G1".to_string(), strings(&["b", "2", "x"])),
        ("G2".to_string(), strings(&["a", "1"])),
        ("G2".to_string(), strings(&["b", "1"])),
        ("G2".to_string(), strings(&["a", "2", "x"])),
        ("G2".to_string(), strings(&["b", "2", "x"])),
    ];
    assert_eq!(got, want);
}
