use flameview::cli::cargo_build::{
    cargo_build_args, needs_target_lookup, target_kinds, parse_kind_names, select_unique_target, workload_target,
    BinaryTarget, PackageInfo, TargetError, TargetInfo,
};
use flameview::cli::workload::{
    built_artifacts, find_artifact, has_executable, line_artifact_info, workload, workload_command,
    ArtifactInfo, Debuginfo, WorkloadError,
};
use flameview::cli::opts::{Opt, ProfileOptions, TargetKind};

fn base_opt() -> Opt {
    Opt {
        dev: false,
        cargo_profile: None,
        package: None,
        bin: None,
        example: None,
        test: None,
        bench: None,
        unit_test: None,
        unit_bench: None,
        unit_test_kind: None,
        manifest_path: None,
        target: None,
        features: None,
        no_default_features: false,
        release: false,
        profile: ProfileOptions { frequency: 99, output: None, keep_perf_data: false, cmd: None },
        trailing_arguments: vec![],
    }
}

fn strings(v: &[&str]) -> Vec<String> {
    v.iter().map(|s| s.to_string()).collect()
}

fn artifact(name: &str, kinds: &[&str], exe: Option<&str>, debuginfo: bool) -> ArtifactInfo {
    ArtifactInfo {
        target_name: name.to_string(),
        target_kinds: strings(kinds),
        executable: exe.map(|e| e.to_string()),
        debuginfo: if debuginfo { Debuginfo::Full } else { Debuginfo::Absent },
    }
}

fn target(name: &str, kinds: &[&str]) -> TargetInfo {
    TargetInfo { name: name.to_string(), kinds: strings(kinds) }
}

fn package(name: &str, in_root: bool, default_run: Option<&str>, targets: Vec<TargetInfo>) -> PackageInfo {
    PackageInfo {
        name: name.to_string(),
        in_crate_root: in_root,
        default_run: default_run.map(|s| s.to_string()),
        targets,
    }
}

#[test]
fn kind_names_keep_runnable_kinds() {
    let ks = strings(&["lib", "bin", "custom-build", "example", "bench"]);
    assert_eq!(
        parse_kind_names(&ks),
        vec![TargetKind::Bin, TargetKind::Example, TargetKind::Bench]
    );
}

#[test]
fn unique_target_is_selected() {
    let ps = vec![package("app", true, None, vec![target("app", &["lib"]), target("app", &["bin"])])];
    let bt = select_unique_target(&ps, &[TargetKind::Bin], None, None).unwrap();
    assert_eq!(bt.package, "app");
    assert_eq!(bt.target, "app");
    assert_eq!(bt.kind, vec![TargetKind::Bin]);
}

#[test]
fn ambiguous_targets_are_refused() {
    let ps = vec![package("p", true, None, vec![target("one", &["bin"]), target("two", &["bin"])])];
    match select_unique_target(&ps, &[TargetKind::Bin, TargetKind::Example], None, None) {
        Err(TargetError::Multiple(names)) => assert_eq!(names, strings(&["one", "two"])),
        other => panic!("unexpected {:?}", other.map(|b| b.target)),
    }
}

#[test]
fn default_run_and_names_settle_ambiguity() {
    let ps = vec![package("p", true, Some("two"), vec![target("one", &["bin"]), target("two", &["bin"])])];
    assert_eq!(select_unique_target(&ps, &[TargetKind::Bin], None, None).unwrap().target, "two");
    assert_eq!(select_unique_target(&ps, &[TargetKind::Bin], None, Some("one")).unwrap().target, "one");
}

#[test]
fn packages_outside_the_root_are_ignored() {
    let ps = vec![
        package("dep", false, None, vec![target("tool", &["bin"])]),
        package("me", true, None, vec![target("eg", &["example"])]),
    ];
    let bt = select_unique_target(&ps, &[TargetKind::Bin, TargetKind::Example], None, None).unwrap();
    assert_eq!(bt.target, "eg");
    assert_eq!(bt.kind, vec![TargetKind::Example]);
    let bt = select_unique_target(&ps, &[TargetKind::Bin], Some("dep"), None).unwrap();
    assert_eq!(bt.package, "dep");
    assert!(matches!(
        select_unique_target(&ps, &[TargetKind::Test], None, None),
        Err(TargetError::NoTargets)
    ));
}

#[test]
fn build_arguments_for_a_named_binary() {
    let mut opt = base_opt();
    opt.bin = Some("eg".to_string());
    opt.release = true;
    opt.no_default_features = true;
    assert!(!needs_target_lookup(&opt, &[TargetKind::Bin]));
    assert_eq!(
        cargo_build_args(&opt, &[TargetKind::Bin], None).unwrap(),
        strings(&[
            "build", "--release", "--bin", "eg", "--no-default-features",
            "--message-format=json-render-diagnostics",
        ])
    );
}

#[test]
fn build_arguments_for_a_looked_up_target() {
    let opt = base_opt();
    let kinds = [TargetKind::Bin, TargetKind::Example];
    assert!(needs_target_lookup(&opt, &kinds));
    assert!(cargo_build_args(&opt, &kinds, None).is_none());
    let bt = BinaryTarget { package: "p".to_string(), target: "eg".to_string(), kind: vec![TargetKind::Example] };
    assert_eq!(
        cargo_build_args(&opt, &kinds, Some(&bt)).unwrap(),
        strings(&["build", "--package", "p", "--example", "eg", "--message-format=json-render-diagnostics"])
    );
    let odd = BinaryTarget { package: "p".to_string(), target: "x".to_string(), kind: vec![] };
    assert!(cargo_build_args(&opt, &kinds, Some(&odd)).is_none());
}

#[test]
fn build_arguments_for_benches_and_tests() {
    let mut opt = base_opt();
    opt.unit_bench = Some(None);
    opt.cargo_profile = Some("prof".to_string());
    opt.manifest_path = Some("/w/Cargo.toml".to_string());
    opt.features = Some("a,b".to_string());
    assert_eq!(
        cargo_build_args(&opt, &[TargetKind::Bench], None).unwrap(),
        strings(&[
            "bench", "--no-run", "--profile", "prof", "--benches", "--manifest-path", "/w/Cargo.toml",
            "--features", "a,b", "--message-format=json-render-diagnostics",
        ])
    );
    let mut opt = base_opt();
    opt.unit_test = Some(Some("t".to_string()));
    opt.package = Some("p".to_string());
    opt.target = Some("x86_64-unknown-linux-gnu".to_string());
    assert_eq!(
        cargo_build_args(&opt, &[TargetKind::Test], None).unwrap(),
        strings(&[
            "test", "--no-run", "--package", "p", "--test", "t", "--target",
            "x86_64-unknown-linux-gnu", "--message-format=json-render-diagnostics",
        ])
    );
    let mut opt = base_opt();
    opt.dev = true;
    opt.bench = Some("b".to_string());
    assert_eq!(cargo_build_args(&opt, &[TargetKind::Bench], None).unwrap()[0], "build");
}

#[test]
fn workload_target_choice() {
    let mut opt = base_opt();
    let bt = BinaryTarget {
        package: "p".to_string(),
        target: "eg".to_string(),
        kind: vec![TargetKind::Example, TargetKind::Bin],
    };
    assert_eq!(workload_target(&opt, Some(&bt)), Some(("eg".to_string(), TargetKind::Example)));
    assert_eq!(workload_target(&opt, None), None);
    opt.test = Some("it".to_string());
    assert_eq!(workload_target(&opt, Some(&bt)), Some(("it".to_string(), TargetKind::Test)));
    opt.bin = Some("main".to_string());
    assert_eq!(workload_target(&opt, None), Some(("main".to_string(), TargetKind::Bin)));
}

#[test]
fn artifacts_are_matched_by_name_and_kind() {
    let arts = vec![
        artifact("eg", &["lib"], None, true),
        artifact("eg", &["example"], Some("/t/debug/examples/eg"), true),
    ];
    assert!(has_executable(&arts));
    assert!(!has_executable(&arts[..1]));
    assert_eq!(find_artifact(&arts, "eg", TargetKind::Example), Some(1));
    assert_eq!(find_artifact(&arts, "eg", TargetKind::Bin), None);
    assert_eq!(find_artifact(&arts, "other", TargetKind::Example), None);
}

#[test]
fn workload_command_appends_trailing_arguments() {
    assert_eq!(
        workload_command("/t/eg", &strings(&["foo", "bar"])),
        strings(&["/t/eg", "foo", "bar"])
    );
    assert_eq!(workload_command("/t/eg", &[]), strings(&["/t/eg"]));
}

#[test]
fn workload_runs_the_selected_executable() {
    let mut opt = base_opt();
    opt.example = Some("eg".to_string());
    opt.trailing_arguments = strings(&["--help"]);
    let arts = vec![
        artifact("eg", &["lib"], None, true),
        artifact("eg", &["example"], Some("/t/debug/examples/eg"), true),
    ];
    let w = workload(&opt, &arts, None).unwrap();
    assert_eq!(w.command, strings(&["/t/debug/examples/eg", "--help"]));
    assert!(!w.lacks_debuginfo);
}

#[test]
fn workload_warns_when_debuginfo_is_missing() {
    let mut opt = base_opt();
    opt.release = true;
    let bt = BinaryTarget { package: "p".to_string(), target: "app".to_string(), kind: vec![TargetKind::Bin] };
    let arts = vec![artifact("app", &["bin"], Some("/t/release/app"), false)];
    let w = workload(&opt, &arts, Some(&bt)).unwrap();
    assert_eq!(w.command, strings(&["/t/release/app"]));
    assert!(w.lacks_debuginfo);
    opt.dev = true;
    assert!(!workload(&opt, &arts, Some(&bt)).unwrap().lacks_debuginfo);
}

#[test]
fn workload_errors() {
    let mut opt = base_opt();
    let no_exe = vec![artifact("lib", &["lib"], None, true)];
    assert_eq!(workload(&opt, &no_exe, None).err(), Some(WorkloadError::NoExecutables));
    let arts = vec![artifact("app", &["bin"], Some("/t/app"), true), artifact("x", &["bin"], None, true)];
    assert_eq!(workload(&opt, &arts, None).err(), Some(WorkloadError::UnknownTarget));
    let kindless = BinaryTarget { package: "p".to_string(), target: "app".to_string(), kind: vec![] };
    assert_eq!(workload(&opt, &arts, Some(&kindless)).err(), Some(WorkloadError::UnknownTarget));
    opt.bin = Some("other".to_string());
    assert_eq!(workload(&opt, &arts, None).err(), Some(WorkloadError::ArtifactNotFound));
    opt.bin = Some("x".to_string());
    assert_eq!(workload(&opt, &arts, None).err(), Some(WorkloadError::NoExecutable));
}

#[test]
fn build_output_is_read_for_artifacts() {
    let out = [
        "{\"reason\":\"compiler-artifact\",\"package_id\":\"eg 0.1.0\",\"manifest_path\":\"/w/Cargo.toml\",",
        "\"target\":{\"name\":\"eg\",\"kind\":[\"example\"],\"crate_types\":[\"bin\"],\"src_path\":\"/w/examples/eg.rs\",\"edition\":\"2021\"},",
        "\"profile\":{\"opt_level\":\"0\",\"debuginfo\":2,\"debug_assertions\":true,\"overflow_checks\":true,\"test\":false},",
        "\"features\":[],\"filenames\":[\"/w/target/debug/examples/eg\"],\"executable\":\"/w/target/debug/examples/eg\",\"fresh\":false}\n",
        "   Compiling eg v0.1.0\n",
        "{\"reason\":\"build-finished\",\"success\":true}\n",
    ]
    .concat();
    let arts = built_artifacts(out.as_bytes());
    assert_eq!(arts.len(), 1);
    assert_eq!(arts[0].target_name, "eg");
    assert_eq!(arts[0].target_kinds, strings(&["example"]));
    assert_eq!(arts[0].executable.as_deref(), Some("/w/target/debug/examples/eg"));
    assert!(matches!(arts[0].debuginfo, Debuginfo::Full));
    assert!(built_artifacts(b"not json\n").is_empty());
    let one = line_artifact_info(out.lines().next().unwrap().as_bytes()).unwrap();
    assert_eq!(one.target_name, "eg");
    assert!(line_artifact_info(b"{\"reason\":\"build-finished\",\"success\":true}").is_none());
}

#[test]
fn kinds_follow_the_target_asked_for() {
    let mut opt = base_opt();
    assert_eq!(target_kinds(&opt), vec![TargetKind::Bin, TargetKind::Example]);
    opt.unit_bench = Some(None);
    assert_eq!(target_kinds(&opt), vec![TargetKind::Bench]);
    opt.unit_test = Some(None);
    assert_eq!(target_kinds(&opt), vec![TargetKind::Test]);
    opt.example = Some("eg".to_string());
    assert_eq!(target_kinds(&opt), vec![TargetKind::Example]);
}

#[test]
fn deeply_nested_lines_are_passed_over() {
    let mut deep = String::from("{\"x\":");
    for _ in 0..100_000 {
        deep.push('[');
    }
    deep.push('\n');
    assert!(built_artifacts(deep.as_bytes()).is_empty());
}

#[test]
fn debuginfo_levels_are_read() {
    let line = |level: &str| {
        format!(
            "{{\"reason\":\"compiler-artifact\",\"package_id\":\"p\",\"target\":{{\"name\":\"a\",\"kind\":[\"bin\"],\"src_path\":\"/a.rs\"}},\"profile\":{{\"opt_level\":\"3\",\"debuginfo\":{level},\"debug_assertions\":false,\"overflow_checks\":false,\"test\":false}},\"features\":[],\"filenames\":[],\"executable\":\"/t/a\",\"fresh\":true}}\n"
        )
    };
    let arts = built_artifacts(line("0").as_bytes());
    assert!(matches!(arts[0].debuginfo, Debuginfo::Absent));
    let arts = built_artifacts(line("\"line-tables-only\"").as_bytes());
    assert!(matches!(arts[0].debuginfo, Debuginfo::LineTablesOnly));
    let arts = built_artifacts(line("7").as_bytes());
    assert!(matches!(arts[0].debuginfo, Debuginfo::UnknownInt(7)));
    let mut opt = base_opt();
    opt.bin = Some("a".to_string());
    assert!(workload(&opt, &built_artifacts(line("0").as_bytes()), None).unwrap().lacks_debuginfo);
    assert!(!workload(&opt, &built_artifacts(line("1").as_bytes()), None).unwrap().lacks_debuginfo);
}
