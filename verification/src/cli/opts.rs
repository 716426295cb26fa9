//! Options of the `cargo flameview` command, as plain values.
use vstd::prelude::*;

use crate::text::str_eq;

verus! {

/// The kind of a cargo target.
#[derive(Clone, Copy, Debug, PartialEq, Eq, Structural)]
pub enum TargetKind {
    Bin,
    Example,
    Test,
    Bench,
}

/// The name cargo gives each target kind.
pub open spec fn target_kind_name(k: TargetKind) -> Seq<char> {
    match k {
        TargetKind::Bin => "bin"@,
        TargetKind::Example => "example"@,
        TargetKind::Test => "test"@,
        TargetKind::Bench => "bench"@,
    }
}

impl TargetKind {
    pub fn as_str(self) -> (r: &'static str)
        ensures
            r@ == target_kind_name(self),
    {
        match self {
            TargetKind::Bin => "bin",
            TargetKind::Example => "example",
            TargetKind::Test => "test",
            TargetKind::Bench => "bench",
        }
    }

    /// The kind whose cargo name is `s`, if any.
    pub fn parse(s: &str) -> (r: Option<TargetKind>)
        ensures
            r matches Some(k) ==> target_kind_name(k) == s@,
            r is None ==> forall|k: TargetKind| target_kind_name(k) != s@,
    {
        proof {
            reveal_strlit("bin");
            reveal_strlit("example");
            reveal_strlit("test");
            reveal_strlit("bench");
        }
        if str_eq(s, "bin") {
            Some(TargetKind::Bin)
        } else if str_eq(s, "example") {
            Some(TargetKind::Example)
        } else if str_eq(s, "test") {
            Some(TargetKind::Test)
        } else if str_eq(s, "bench") {
            Some(TargetKind::Bench)
        } else {
            proof {
                assert forall|k: TargetKind| target_kind_name(k) != s@ by {
                    match k {
                        TargetKind::Bin => {},
                        TargetKind::Example => {},
                        TargetKind::Test => {},
                        TargetKind::Bench => {},
                    }
                }
            }
            None
        }
    }
}

/// Distinct kinds have distinct names, so reading a name back gives the
/// kind.
pub proof fn lemma_target_kind_roundtrip(k: TargetKind, j: TargetKind)
    ensures
        target_kind_name(k) == target_kind_name(j) ==> k == j,
{
    reveal_strlit("bin");
    reveal_strlit("example");
    reveal_strlit("test");
    reveal_strlit("bench");
    if k != j {
        let a = target_kind_name(k);
        let b = target_kind_name(j);
        assert(a.len() != b.len() || a[0] != b[0]);
    }
}

impl std::str::FromStr for TargetKind {
    type Err = ();

    fn from_str(s: &str) -> (r: Result<Self, Self::Err>)
        ensures
            r matches Ok(k) ==> target_kind_name(k) == s@,
            r is Err ==> forall|k: TargetKind| target_kind_name(k) != s@,
    {
        match TargetKind::parse(s) {
            Some(k) => Ok(k),
            None => Err(()),
        }
    }
}

/// Which kind of unit-test target to profile.
#[derive(Clone, Copy, Debug, PartialEq, Eq)]
pub enum UnitTestTargetKind {
    Bin,
    Lib,
}

/// How to run `perf`.
#[derive(Clone, Debug)]
pub struct ProfileOptions {
    pub frequency: u32,
    pub output: Option<String>,
    pub keep_perf_data: bool,
    pub cmd: Option<String>,
}

/// The options of `cargo flameview`.
#[derive(Clone, Debug)]
pub struct Opt {
    pub dev: bool,
    pub cargo_profile: Option<String>,
    pub package: Option<String>,
    pub bin: Option<String>,
    pub example: Option<String>,
    pub test: Option<String>,
    pub bench: Option<String>,
    pub unit_test: Option<Option<String>>,
    pub unit_bench: Option<Option<String>>,
    pub unit_test_kind: Option<UnitTestTargetKind>,
    pub manifest_path: Option<String>,
    pub target: Option<String>,
    pub features: Option<String>,
    pub no_default_features: bool,
    pub release: bool,
    pub profile: ProfileOptions,
    pub trailing_arguments: Vec<String>,
}

/// The cargo profile the build uses: the one asked for, else `release` or
/// `debug`.
pub open spec fn profile_name_spec(opt: Opt) -> Seq<char> {
    match opt.cargo_profile {
        Some(p) => p@,
        None => if opt.release {
            "release"@
        } else {
            "debug"@
        },
    }
}

pub fn profile_name(opt: &Opt) -> (r: &str)
    ensures
        r@ == profile_name_spec(*opt),
{
    if let Some(p) = &opt.cargo_profile {
        p.as_str()
    } else if opt.release {
        "release"
    } else {
        "debug"
    }
}

} // verus!
