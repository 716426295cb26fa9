use std::io;
use std::str::FromStr;

use flameview::cli::{exec_failure, map_loader_err};
use flameview::cli::opts::{profile_name, Opt, ProfileOptions, TargetKind};
use flameview::cli::profile::{
    after_run, fold_perf_output, fold_script, folded_path, perf_record_args, perf_script_args,
    perf_script_foldable, profile_error_message, start_profile, FoldedPath, PerfRun,
    ProfileError,
};
use flameview::loader::Error;

fn default_opt() -> Opt {
    Opt {
        dev: false,
        cargo_profile: None,
        package: None,
        bin: None,
        example: None,
        test: None,
        bench: None,
        unit_test: None,
        unit_bench: None,
        unit_test_kind: None,
        manifest_path: None,
        target: None,
        features: None,
        no_default_features: false,
        release: false,
        profile: ProfileOptions { frequency: 99, output: None, keep_perf_data: false, cmd: None },
        trailing_arguments: vec![],
    }
}

fn strings(v: &[&str]) -> Vec<String> {
    v.iter().map(|s| s.to_string()).collect()
}

#[test]
fn target_kind_names_round_trip() {
    for k in [TargetKind::Bin, TargetKind::Example, TargetKind::Test, TargetKind::Bench] {
        assert_eq!(TargetKind::parse(k.as_str()), Some(k));
        assert_eq!(TargetKind::from_str(k.as_str()), Ok(k));
    }
    assert_eq!(TargetKind::Example.as_str(), "example");
    assert_eq!(TargetKind::parse("lib"), None);
    assert_eq!(TargetKind::parse("Bin"), None);
    assert!(TargetKind::from_str("proc-macro").is_err());
}

#[test]
fn profile_name_prefers_explicit_profile() {
    let mut opt = default_opt();
    assert_eq!(profile_name(&opt), "debug");
    opt.release = true;
    assert_eq!(profile_name(&opt), "release");
    opt.cargo_profile = Some("bench".to_string());
    assert_eq!(profile_name(&opt), "bench");
}

#[test]
fn loader_errors_become_messages() {
    let io_err = Error::Io(io::Error::new(io::ErrorKind::Other, "gone"));
    assert_eq!(map_loader_err(&io_err, "-"), "flameview: unable to read stdin");
    assert_eq!(map_loader_err(&io_err, "stacks.folded"), "flameview: unable to read stacks.folded");
    assert_eq!(map_loader_err(&Error::BadLine(3), "x"), "flameview: parse error on line 3");
    assert_eq!(map_loader_err(&Error::BadLine(120), "x"), "flameview: parse error on line 120");
    assert_eq!(map_loader_err(&Error::TooLarge(7), "x"), "flameview: input too large at line 7");
    assert_eq!(map_loader_err(&Error::BadLine(10), "x"), "flameview: parse error on line 10");
    assert_eq!(
        map_loader_err(&Error::TooLarge(4294967296), "x"),
        "flameview: input too large at line 4294967296"
    );
}

#[test]
fn perf_record_arguments() {
    let opt = default_opt();
    let args = perf_record_args(&opt, "/tmp/perf.data", &strings(&["/bin/true", "--flag"]));
    assert_eq!(
        args,
        strings(&[
            "record", "-F", "99", "--call-graph", "dwarf,64000", "-g", "-o", "/tmp/perf.data", "--",
            "/bin/true", "--flag",
        ])
    );
    let mut opt = default_opt();
    opt.profile.frequency = 1000;
    let args = perf_record_args(&opt, "p", &strings(&["w"]));
    assert_eq!(args[2], "1000");
    opt.profile.cmd = Some("  record  -e cycles ".to_string());
    let args = perf_record_args(&opt, "p", &strings(&["w"]));
    assert_eq!(args, strings(&["record", "-e", "cycles", "-o", "p", "--", "w"]));
}

#[test]
fn perf_script_arguments() {
    assert_eq!(perf_script_args("/tmp/x"), strings(&["script", "--force", "-i", "/tmp/x"]));
}

#[test]
fn folded_path_under_crate_target_dir() {
    let mut opt = default_opt();
    match folded_path(&opt, "eg") {
        FoldedPath::UnderCrateRoot(parts) => {
            assert_eq!(parts, strings(&["target", "flameview", "debug", "eg.folded"]))
        }
        FoldedPath::Given(p) => panic!("unexpected {p}"),
    }
    opt.release = true;
    match folded_path(&opt, "app") {
        FoldedPath::UnderCrateRoot(parts) => {
            assert_eq!(parts, strings(&["target", "flameview", "release", "app.folded"]))
        }
        FoldedPath::Given(p) => panic!("unexpected {p}"),
    }
}

#[test]
fn folded_path_respects_output_override() {
    let mut opt = default_opt();
    opt.profile.output = Some("custom.folded".to_string());
    match folded_path(&opt, "eg") {
        FoldedPath::Given(p) => assert_eq!(p, "custom.folded"),
        FoldedPath::UnderCrateRoot(parts) => panic!("unexpected {parts:?}"),
    }
}

#[test]
fn folds_perf_script_output() {
    let script = b"prog 1234 1.000000: 1 cycles:\n\tffffffff81000000 func_a+0x10 (/usr/lib/x.so)\n\t400000 main (/bin/prog)\n\nprog 1234 2.000000: 1 cycles:\n\tffffffff81000000 func_a+0x10 (/usr/lib/x.so)\n\t400000 main (/bin/prog)\n\n";
    let folded = fold_perf_output(script).unwrap();
    assert_eq!(String::from_utf8(folded).unwrap(), "prog;main;func_a 2\n");
    assert!(fold_perf_output(b"").unwrap().is_empty());
}

#[test]
fn tool_failures_become_messages() {
    assert_eq!(exec_failure("perf", true, "ignored"), "failed to execute `perf`: not found in PATH");
    assert_eq!(
        exec_failure("perf script", false, "permission denied"),
        "failed to execute `perf script`: permission denied"
    );
    assert_eq!(exec_failure("cargo", true, ""), "failed to execute `cargo`: not found in PATH");
}

#[test]
fn perf_output_the_folder_takes() {
    assert!(perf_script_foldable(b""));
    assert!(perf_script_foldable(b"# header\n# more\n"));
    assert!(perf_script_foldable(b"prog 1234 1.000000: 1 cycles:\n\tff main (/bin/p)\n\n"));
    assert!(perf_script_foldable(b"# c\nprog 12/13 [000] 5.0: cycles:\n"));
    assert!(perf_script_foldable(b"garbage\n"));
    assert!(perf_script_foldable(b"prog x1 2: cycles:\n"));
    assert!(perf_script_foldable(b"x\ny\nprog 1 1.0: cycles:\n\n"));
    assert!(!perf_script_foldable(b"\n"));
    assert!(!perf_script_foldable(b"x\n\n"));
    assert!(!perf_script_foldable(b"x\n   \n"));
    assert!(!perf_script_foldable(b"prog 1234 1.0\n\tff main (/bin/p)\n\n"));
    assert!(!perf_script_foldable("foo 1/1 0: cpu-clock:\n 0 \u{e9}aaaaaaaaaaaaaaaa (foo)\n\n".as_bytes()));
    assert!(!perf_script_foldable(b"p 1 1.0: 18446744073709551615 cycles:\n\t1 f (/b)\n\n"));
    assert!(perf_script_foldable(b"p 1 1.0: 1000 cycles:\n\t1 f (/b)\n\n"));
    assert_eq!(fold_script(b"\n").err(), Some(ProfileError::Unfoldable));
    assert_eq!(fold_script(b"x\n\n").err(), Some(ProfileError::Unfoldable));
    assert!(fold_script(b"garbage\n").unwrap().unwrap().is_empty());
    let folded = fold_script(b"prog 1 1.0: 1 cycles:\n\t1 f (/b)\n\n").unwrap().unwrap();
    assert_eq!(String::from_utf8(folded).unwrap(), "prog;f 1\n");
    let folded = fold_script(b"prog 1 1.0: 1000 cycles:\n\t1 f (/b)\n\nprog 1 2.0: 7 cycles:\n\t1 f (/b)\n\n")
        .unwrap()
        .unwrap();
    assert_eq!(String::from_utf8(folded).unwrap(), "prog;f 1007\n");
}

#[test]
fn profile_steps() {
    assert_eq!(start_profile(&[]), Err(ProfileError::EmptyWorkload));
    assert_eq!(start_profile(&["w".to_string()]), Ok(PerfRun::Record));
    assert_eq!(after_run(PerfRun::Record, true), Ok(Some(PerfRun::Script)));
    assert_eq!(after_run(PerfRun::Script, true), Ok(None));
    assert_eq!(after_run(PerfRun::Record, false), Err(ProfileError::RecordFailed));
    assert_eq!(after_run(PerfRun::Script, false), Err(ProfileError::ScriptFailed));
    assert_eq!(profile_error_message(ProfileError::RecordFailed), "perf record failed");
    assert_eq!(profile_error_message(ProfileError::EmptyWorkload), "empty workload");
}
