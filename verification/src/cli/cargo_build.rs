//! What `cargo flameview` asks cargo to build, and which target it runs.
use vstd::prelude::*;
use vstd::string::StringExecFns;

use crate::cli::opts::{lemma_target_kind_roundtrip, target_kind_name, Opt, TargetKind};
use crate::cli::profile::strings_view;
use crate::text::str_eq;

verus! {

/// A cargo target that can be built and run.
#[derive(Clone, Debug)]
pub struct BinaryTarget {
    pub package: String,
    pub target: String,
    pub kind: Vec<TargetKind>,
}

/// What target selection reads of a target in the workspace metadata.
pub struct TargetInfo {
    pub name: String,
    /// The kinds cargo reports, by name.
    pub kinds: Vec<String>,
}

/// What target selection reads of a package in the workspace metadata.
pub struct PackageInfo {
    pub name: String,
    /// The package's manifest sits in the crate root.
    pub in_crate_root: bool,
    pub default_run: Option<String>,
    pub targets: Vec<TargetInfo>,
}

/// Why no single target was selected.
#[derive(Debug)]
pub enum TargetError {
    NoTargets,
    /// The names of the targets that match.
    Multiple(Vec<String>),
}

/// A selected target as plain values.
pub struct TargetView {
    pub package: Seq<char>,
    pub target: Seq<char>,
    pub kind: Seq<TargetKind>,
}

pub open spec fn target_view(b: BinaryTarget) -> TargetView {
    TargetView { package: b.package@, target: b.target@, kind: b.kind@ }
}

pub open spec fn targets_view(v: Seq<BinaryTarget>) -> Seq<TargetView> {
    v.map_values(|b: BinaryTarget| target_view(b))
}

/// The target kind cargo names `s`, if it is one of the four runnable ones.
pub open spec fn kind_of_name(s: Seq<char>) -> Option<TargetKind> {
    if s == target_kind_name(TargetKind::Bin) {
        Some(TargetKind::Bin)
    } else if s == target_kind_name(TargetKind::Example) {
        Some(TargetKind::Example)
    } else if s == target_kind_name(TargetKind::Test) {
        Some(TargetKind::Test)
    } else if s == target_kind_name(TargetKind::Bench) {
        Some(TargetKind::Bench)
    } else {
        None
    }
}

/// The runnable kinds among cargo's kind names `ks`, in order.
pub open spec fn parse_kinds(ks: Seq<String>) -> Seq<TargetKind>
    decreases ks.len(),
{
    if ks.len() == 0 {
        Seq::empty()
    } else {
        let rest = parse_kinds(ks.drop_last());
        match kind_of_name(ks.last()@) {
            Some(k) => rest.push(k),
            None => rest,
        }
    }
}

/// Some kind of `tk` is among `kinds`.
pub open spec fn has_wanted_kind(tk: Seq<TargetKind>, kinds: Seq<TargetKind>) -> bool {
    exists|i: int| 0 <= i < tk.len() && kinds.contains(tk[i])
}

/// The package is looked at: it has the name asked for, or, with none
/// asked for, it lives in the crate root.
pub open spec fn package_selected(p: PackageInfo, pkg: Option<Seq<char>>) -> bool {
    match pkg {
        Some(n) => p.name@ == n,
        None => p.in_crate_root,
    }
}

/// The targets of `p` among `ts` of a wanted kind (`defaults_only`: and
/// that are the package's `default-run`).
pub open spec fn package_targets(
    p: PackageInfo,
    ts: Seq<TargetInfo>,
    kinds: Seq<TargetKind>,
    defaults_only: bool,
) -> Seq<TargetView>
    decreases ts.len(),
{
    if ts.len() == 0 {
        Seq::empty()
    } else {
        let rest = package_targets(p, ts.drop_last(), kinds, defaults_only);
        let t = ts.last();
        let tk = parse_kinds(t.kinds@);
        let is_default = match p.default_run {
            Some(d) => d@ == t.name@,
            None => false,
        };
        if has_wanted_kind(tk, kinds) && (!defaults_only || is_default) {
            rest.push(TargetView { package: p.name@, target: t.name@, kind: tk })
        } else {
            rest
        }
    }
}

/// The wanted targets of all selected packages among `ps`.
pub open spec fn all_targets(
    ps: Seq<PackageInfo>,
    pkg: Option<Seq<char>>,
    kinds: Seq<TargetKind>,
    defaults_only: bool,
) -> Seq<TargetView>
    decreases ps.len(),
{
    if ps.len() == 0 {
        Seq::empty()
    } else {
        let rest = all_targets(ps.drop_last(), pkg, kinds, defaults_only);
        let p = ps.last();
        if package_selected(p, pkg) {
            rest + package_targets(p, p.targets@, kinds, defaults_only)
        } else {
            rest
        }
    }
}

/// The targets among `ts` named `name`.
pub open spec fn named(ts: Seq<TargetView>, name: Seq<char>) -> Seq<TargetView>
    decreases ts.len(),
{
    if ts.len() == 0 {
        Seq::empty()
    } else {
        let rest = named(ts.drop_last(), name);
        if ts.last().target == name {
            rest.push(ts.last())
        } else {
            rest
        }
    }
}

/// The targets that could be meant: those with the name asked for; else the
/// single default-run target, if there is exactly one; else all.
pub open spec fn target_choices(
    ps: Seq<PackageInfo>,
    kinds: Seq<TargetKind>,
    pkg: Option<Seq<char>>,
    target_name: Option<Seq<char>>,
) -> Seq<TargetView> {
    let candidates = all_targets(ps, pkg, kinds, false);
    let defaults = all_targets(ps, pkg, kinds, true);
    match target_name {
        Some(n) => named(candidates, n),
        None => if defaults.len() == 1 {
            defaults
        } else {
            candidates
        },
    }
}


pub open spec fn opt_str_view(o: Option<&str>) -> Option<Seq<char>> {
    match o {
        Some(s) => Some(s@),
        None => None,
    }
}

/// The target kind named `s`, if any, as `kind_of_name` reads it.
fn kind_of(s: &str) -> (r: Option<TargetKind>)
    ensures
        r == kind_of_name(s@),
{
    let r = TargetKind::parse(s);
    proof {
        if let Some(k) = r {
            lemma_target_kind_roundtrip(k, TargetKind::Bin);
            lemma_target_kind_roundtrip(k, TargetKind::Example);
            lemma_target_kind_roundtrip(k, TargetKind::Test);
            lemma_target_kind_roundtrip(k, TargetKind::Bench);
        } else {
            assert(target_kind_name(TargetKind::Bin) != s@);
            assert(target_kind_name(TargetKind::Example) != s@);
            assert(target_kind_name(TargetKind::Test) != s@);
            assert(target_kind_name(TargetKind::Bench) != s@);
        }
    }
    r
}

/// The runnable kinds among cargo's kind names.
pub fn parse_kind_names(ks: &Vec<String>) -> (r: Vec<TargetKind>)
    ensures
        r@ == parse_kinds(ks@),
{
    let mut out: Vec<TargetKind> = Vec::new();
    let mut i: usize = 0;
    while i < ks.len()
        invariant
            i <= ks@.len(),
            out@ == parse_kinds(ks@.take(i as int)),
        decreases ks@.len() - i,
    {
        let k = kind_of(ks[i].as_str());
        proof {
            assert(ks@.take(i + 1).drop_last() =~= ks@.take(i as int));
            assert(ks@.take(i + 1).last() == ks@[i as int]);
        }
        match k {
            Some(k) => {
                out.push(k);
            },
            None => {},
        }
        i = i + 1;
    }
    proof {
        assert(ks@.take(i as int) =~= ks@);
    }
    out
}

/// `kinds` holds `k`.
fn holds_kind(kinds: &[TargetKind], k: TargetKind) -> (r: bool)
    ensures
        r == kinds@.contains(k),
{
    let mut i: usize = 0;
    while i < kinds.len()
        invariant
            i <= kinds@.len(),
            forall|j: int| 0 <= j < i ==> kinds@[j] != k,
        decreases kinds@.len() - i,
    {
        if kinds[i] == k {
            return true;
        }
        i = i + 1;
    }
    false
}

/// Some kind of `tk` is among `kinds`.
fn has_wanted(tk: &Vec<TargetKind>, kinds: &[TargetKind]) -> (r: bool)
    ensures
        r == has_wanted_kind(tk@, kinds@),
{
    let mut i: usize = 0;
    while i < tk.len()
        invariant
            i <= tk@.len(),
            forall|j: int| 0 <= j < i ==> !kinds@.contains(tk@[j]),
        decreases tk@.len() - i,
    {
        if holds_kind(kinds, tk[i]) {
            return true;
        }
        i = i + 1;
    }
    false
}

/// The wanted targets of package `p` (`defaults_only`: the default-run one).
fn collect_package_targets(
    p: &PackageInfo,
    kinds: &[TargetKind],
    defaults_only: bool,
    out: &mut Vec<BinaryTarget>,
)
    ensures
        targets_view(final(out)@) == targets_view(old(out)@) + package_targets(
            *p,
            p.targets@,
            kinds@,
            defaults_only,
        ),
{
    let ghost base = targets_view(out@);
    let mut i: usize = 0;
    proof {
        assert(p.targets@.take(0) =~= Seq::<TargetInfo>::empty());
        assert(targets_view(out@) =~= base + Seq::<TargetView>::empty());
    }
    while i < p.targets.len()
        invariant
            i <= p.targets@.len(),
            targets_view(out@) == base + package_targets(*p, p.targets@.take(i as int), kinds@, defaults_only),
        decreases p.targets@.len() - i,
    {
        let t = &p.targets[i];
        let tk = parse_kind_names(&t.kinds);
        proof {
            assert(p.targets@.take(i + 1).drop_last() =~= p.targets@.take(i as int));
            assert(p.targets@.take(i + 1).last() == *t);
        }
        let is_default = match &p.default_run {
            Some(d) => str_eq(d.as_str(), t.name.as_str()),
            None => false,
        };
        if has_wanted(&tk, kinds) && (!defaults_only || is_default) {
            let bt = BinaryTarget { package: p.name.clone(), target: t.name.clone(), kind: tk };
            let ghost before = out@;
            out.push(bt);
            proof {
                assert(targets_view(out@) =~= targets_view(before).push(target_view(bt)));
            }
        }
        i = i + 1;
    }
    proof {
        assert(p.targets@.take(i as int) =~= p.targets@);
    }
}

/// The wanted targets of all selected packages.
fn collect_targets(
    ps: &[PackageInfo],
    kinds: &[TargetKind],
    pkg: Option<&str>,
    defaults_only: bool,
) -> (r: Vec<BinaryTarget>)
    ensures
        targets_view(r@) == all_targets(ps@, opt_str_view(pkg), kinds@, defaults_only),
{
    let mut out: Vec<BinaryTarget> = Vec::new();
    let mut i: usize = 0;
    proof {
        assert(targets_view(out@) =~= Seq::<TargetView>::empty());
    }
    while i < ps.len()
        invariant
            i <= ps@.len(),
            targets_view(out@) == all_targets(ps@.take(i as int), opt_str_view(pkg), kinds@, defaults_only),
        decreases ps@.len() - i,
    {
        let p = &ps[i];
        proof {
            assert(ps@.take(i + 1).drop_last() =~= ps@.take(i as int));
            assert(ps@.take(i + 1).last() == *p);
        }
        let selected = match pkg {
            Some(n) => str_eq(p.name.as_str(), n),
            None => p.in_crate_root,
        };
        if selected {
            collect_package_targets(p, kinds, defaults_only, &mut out);
        }
        i = i + 1;
    }
    proof {
        assert(ps@.take(i as int) =~= ps@);
    }
    out
}

/// A copy of a target.
fn copy_target(b: &BinaryTarget) -> (r: BinaryTarget)
    ensures
        target_view(r) == target_view(*b),
{
    let mut kind: Vec<TargetKind> = Vec::new();
    let mut i: usize = 0;
    while i < b.kind.len()
        invariant
            i <= b.kind@.len(),
            kind@ == b.kind@.take(i as int),
        decreases b.kind@.len() - i,
    {
        kind.push(b.kind[i]);
        proof {
            assert(kind@ =~= b.kind@.take(i + 1));
        }
        i = i + 1;
    }
    proof {
        assert(kind@ =~= b.kind@);
    }
    BinaryTarget { package: b.package.clone(), target: b.target.clone(), kind }
}

/// The targets in `ts` named `name`.
fn named_targets(ts: &Vec<BinaryTarget>, name: &str) -> (r: Vec<BinaryTarget>)
    ensures
        targets_view(r@) == named(targets_view(ts@), name@),
{
    let mut out: Vec<BinaryTarget> = Vec::new();
    let mut i: usize = 0;
    proof {
        assert(targets_view(out@) =~= Seq::<TargetView>::empty());
    }
    while i < ts.len()
        invariant
            i <= ts@.len(),
            targets_view(out@) == named(targets_view(ts@).take(i as int), name@),
        decreases ts@.len() - i,
    {
        proof {
            assert(targets_view(ts@).take(i + 1).drop_last() =~= targets_view(ts@).take(i as int));
            assert(targets_view(ts@).take(i + 1).last() == target_view(ts@[i as int]));
        }
        if str_eq(ts[i].target.as_str(), name) {
            let c = copy_target(&ts[i]);
            let ghost before = out@;
            out.push(c);
            proof {
                assert(targets_view(out@) =~= targets_view(before).push(target_view(c)));
            }
        }
        i = i + 1;
    }
    proof {
        assert(targets_view(ts@).take(i as int) =~= targets_view(ts@));
    }
    out
}

/// Choose the one target to build: see [`target_choices`]. Fails when no
/// target, or more than one, could be meant.
pub fn select_unique_target(
    ps: &[PackageInfo],
    kinds: &[TargetKind],
    pkg: Option<&str>,
    target_name: Option<&str>,
) -> (r: Result<BinaryTarget, TargetError>)
    ensures
        ({
            let ch = target_choices(ps@, kinds@, opt_str_view(pkg), opt_str_view(target_name));
            &&& ch.len() == 1 ==> (r matches Ok(b) && target_view(b) == ch[0])
            &&& ch.len() == 0 ==> (r matches Err(TargetError::NoTargets))
            &&& ch.len() > 1 ==> (r matches Err(TargetError::Multiple(names)) && strings_view(names@)
                == ch.map_values(|t: TargetView| t.target))
        }),
{
    let candidates = collect_targets(ps, kinds, pkg, false);
    let defaults = collect_targets(ps, kinds, pkg, true);
    let mut list = match target_name {
        Some(n) => named_targets(&candidates, n),
        None => {
            if defaults.len() == 1 {
                defaults
            } else {
                candidates
            }
        },
    };
    let ghost ch = targets_view(list@);
    assert(ch == target_choices(ps@, kinds@, opt_str_view(pkg), opt_str_view(target_name)));
    if list.len() == 1 {
        let b = list.remove(0);
        assert(target_view(b) == ch[0]);
        Ok(b)
    } else if list.len() == 0 {
        Err(TargetError::NoTargets)
    } else {
        let mut names: Vec<String> = Vec::new();
        let mut i: usize = 0;
        while i < list.len()
            invariant
                i <= list@.len(),
                ch == targets_view(list@),
                strings_view(names@) == ch.map_values(|t: TargetView| t.target).take(i as int),
            decreases list@.len() - i,
        {
            let nm = list[i].target.clone();
            let ghost before = names@;
            names.push(nm);
            proof {
                assert(nm@ == list@[i as int].target@);
                assert(ch[i as int] == target_view(list@[i as int]));
                assert(strings_view(names@) =~= strings_view(before).push(nm@));
                assert(ch.map_values(|t: TargetView| t.target).take(i + 1) =~= ch.map_values(
                    |t: TargetView| t.target,
                ).take(i as int).push(ch[i as int].target));
                assert(strings_view(names@) =~= ch.map_values(|t: TargetView| t.target).take(i + 1));
            }
            i = i + 1;
        }
        proof {
            assert(ch.map_values(|t: TargetView| t.target).take(i as int) =~= ch.map_values(
                |t: TargetView| t.target,
            ));
        }
        Err(TargetError::Multiple(names))
    }
}


/// The kinds of target to build when none is named: the kind of the
/// target asked for, else binaries and examples.
pub open spec fn kinds_to_build(opt: Opt) -> Seq<TargetKind> {
    if opt.example is Some {
        seq![TargetKind::Example]
    } else if opt.test is Some || opt.unit_test is Some {
        seq![TargetKind::Test]
    } else if opt.bench is Some || opt.unit_bench is Some {
        seq![TargetKind::Bench]
    } else {
        seq![TargetKind::Bin, TargetKind::Example]
    }
}

pub fn target_kinds(opt: &Opt) -> (r: Vec<TargetKind>)
    ensures
        r@ == kinds_to_build(*opt),
{
    let mut v: Vec<TargetKind> = Vec::new();
    if opt.example.is_some() {
        v.push(TargetKind::Example);
    } else if opt.test.is_some() || opt.unit_test.is_some() {
        v.push(TargetKind::Test);
    } else if opt.bench.is_some() || opt.unit_bench.is_some() {
        v.push(TargetKind::Bench);
    } else {
        v.push(TargetKind::Bin);
        v.push(TargetKind::Example);
    }
    proof {
        assert(v@ =~= kinds_to_build(*opt));
    }
    v
}

/// A build target was named on the command line.
pub open spec fn target_specified(opt: Opt) -> bool {
    ||| opt.bin is Some
    ||| opt.example is Some
    ||| opt.test is Some
    ||| opt.bench is Some
    ||| opt.unit_test is Some
    ||| opt.unit_bench is Some
}

/// The build needs the workspace metadata to pick a target.
pub open spec fn needs_lookup_spec(opt: Opt, kinds: Seq<TargetKind>) -> bool {
    !target_specified(opt) && kinds.len() > 0
}

/// `[flag, value]` when a value is given.
pub open spec fn opt_pair(flag: Seq<char>, v: Option<String>) -> Seq<Seq<char>> {
    match v {
        Some(x) => seq![flag, x@],
        None => Seq::empty(),
    }
}

/// `--bin`, `--example`, `--test` or `--bench` for the kinds of a target,
/// in that order of preference.
pub open spec fn kind_flag(kind: Seq<TargetKind>) -> Option<Seq<char>> {
    if kind.contains(TargetKind::Bin) {
        Some("--bin"@)
    } else if kind.contains(TargetKind::Example) {
        Some("--example"@)
    } else if kind.contains(TargetKind::Test) {
        Some("--test"@)
    } else if kind.contains(TargetKind::Bench) {
        Some("--bench"@)
    } else {
        None
    }
}

/// The cargo subcommand: benches are built with `cargo bench --no-run`
/// (unless a dev build is asked for), unit tests with `cargo test
/// --no-run`, the rest with `cargo build`.
pub open spec fn build_subcommand(opt: Opt) -> Seq<Seq<char>> {
    if !opt.dev && (opt.bench is Some || opt.unit_bench is Some) {
        seq!["bench"@, "--no-run"@]
    } else if opt.unit_test is Some {
        seq!["test"@, "--no-run"@]
    } else {
        seq!["build"@]
    }
}

/// The profile options: the profile asked for, else `--release` if asked.
pub open spec fn build_profile_args(opt: Opt) -> Seq<Seq<char>> {
    match opt.cargo_profile {
        Some(p) => seq!["--profile"@, p@],
        None => if opt.release {
            seq!["--release"@]
        } else {
            Seq::empty()
        },
    }
}

/// `[flag, name]` for a named unit target, `[all_flag]` for all of them.
pub open spec fn unit_args(flag: Seq<char>, all_flag: Seq<char>, v: Option<Option<String>>) -> Seq<Seq<char>> {
    match v {
        Some(Some(n)) => seq![flag, n@],
        Some(None) => seq![all_flag],
        None => Seq::empty(),
    }
}

/// The cargo subcommand and the options taken from the command line
/// before the target that was looked up.
pub open spec fn build_args_head(opt: Opt) -> Seq<Seq<char>> {
    build_subcommand(opt) + build_profile_args(opt) + opt_pair("--package"@, opt.package) + opt_pair(
        "--bin"@,
        opt.bin,
    ) + opt_pair("--example"@, opt.example) + opt_pair("--test"@, opt.test) + opt_pair(
        "--bench"@,
        opt.bench,
    ) + unit_args("--test"@, "--tests"@, opt.unit_test) + unit_args(
        "--bench"@,
        "--benches"@,
        opt.unit_bench,
    )
}

/// The options after the target.
pub open spec fn build_args_tail(opt: Opt) -> Seq<Seq<char>> {
    opt_pair("--manifest-path"@, opt.manifest_path) + opt_pair("--target"@, opt.target) + opt_pair(
        "--features"@,
        opt.features,
    ) + if opt.no_default_features {
        seq!["--no-default-features"@]
    } else {
        Seq::empty()
    } + seq!["--message-format=json-render-diagnostics"@]
}

/// The arguments of `cargo`; nothing when the target looked up has no
/// kind that cargo can be asked to build.
pub open spec fn build_args_spec(opt: Opt, kinds: Seq<TargetKind>, found: Option<TargetView>) -> Option<
    Seq<Seq<char>>,
> {
    if needs_lookup_spec(opt, kinds) {
        match found {
            Some(bt) => match kind_flag(bt.kind) {
                Some(f) => Some(
                    build_args_head(opt) + seq!["--package"@, bt.package, f, bt.target]
                        + build_args_tail(opt),
                ),
                None => None,
            },
            None => None,
        }
    } else {
        Some(build_args_head(opt) + build_args_tail(opt))
    }
}

pub open spec fn opt_target_view(o: Option<&BinaryTarget>) -> Option<TargetView> {
    match o {
        Some(b) => Some(target_view(*b)),
        None => None,
    }
}

/// Whether the build has to look a target up in the workspace metadata.
pub fn needs_target_lookup(opt: &Opt, kinds: &[TargetKind]) -> (r: bool)
    ensures
        r == needs_lookup_spec(*opt, kinds@),
{
    let specified = opt.bin.is_some() || opt.example.is_some() || opt.test.is_some()
        || opt.bench.is_some() || opt.unit_test.is_some() || opt.unit_bench.is_some();
    !specified && kinds.len() > 0
}

/// Push `[flag, value]` when a value is given.
fn push_pair(args: &mut Vec<String>, flag: &str, v: &Option<String>)
    ensures
        strings_view(final(args)@) == strings_view(old(args)@) + opt_pair(flag@, *v),
{
    let ghost before = strings_view(args@);
    match v {
        Some(x) => {
            args.push(String::from_str(flag));
            args.push(x.clone());
        },
        None => {},
    }
    proof {
        assert(strings_view(args@) =~= before + opt_pair(flag@, *v));
    }
}

/// Push one argument.
fn push_arg(args: &mut Vec<String>, a: &str)
    ensures
        strings_view(final(args)@) == strings_view(old(args)@).push(a@),
{
    let ghost before = strings_view(args@);
    args.push(String::from_str(a));
    proof {
        assert(strings_view(args@) =~= before.push(a@));
    }
}

/// Push the cargo subcommand.
fn push_subcommand(opt: &Opt, args: &mut Vec<String>)
    ensures
        strings_view(final(args)@) == strings_view(old(args)@) + build_subcommand(*opt),
{
    let ghost before = strings_view(args@);
    if !opt.dev && (opt.bench.is_some() || opt.unit_bench.is_some()) {
        push_arg(args, "bench");
        push_arg(args, "--no-run");
    } else if opt.unit_test.is_some() {
        push_arg(args, "test");
        push_arg(args, "--no-run");
    } else {
        push_arg(args, "build");
    }
    proof {
        assert(strings_view(args@) =~= before + build_subcommand(*opt));
    }
}

/// Push the profile options.
fn push_profile(opt: &Opt, args: &mut Vec<String>)
    ensures
        strings_view(final(args)@) == strings_view(old(args)@) + build_profile_args(*opt),
{
    let ghost before = strings_view(args@);
    match &opt.cargo_profile {
        Some(p) => {
            push_arg(args, "--profile");
            push_arg(args, p.as_str());
        },
        None => {
            if opt.release {
                push_arg(args, "--release");
            }
        },
    }
    proof {
        assert(strings_view(args@) =~= before + build_profile_args(*opt));
    }
}

/// Push the options for unit targets.
fn push_unit(args: &mut Vec<String>, flag: &str, all_flag: &str, v: &Option<Option<String>>)
    ensures
        strings_view(final(args)@) == strings_view(old(args)@) + unit_args(flag@, all_flag@, *v),
{
    let ghost before = strings_view(args@);
    match v {
        Some(Some(n)) => {
            push_arg(args, flag);
            push_arg(args, n.as_str());
        },
        Some(None) => {
            push_arg(args, all_flag);
        },
        None => {},
    }
    proof {
        assert(strings_view(args@) =~= before + unit_args(flag@, all_flag@, *v));
    }
}

/// Push the subcommand and the options before the target.
fn push_head(opt: &Opt, args: &mut Vec<String>)
    requires
        old(args)@.len() == 0,
    ensures
        strings_view(final(args)@) == build_args_head(*opt),
{
    let ghost o = *opt;
    proof {
        assert(strings_view(args@) =~= Seq::<Seq<char>>::empty());
    }
    push_subcommand(opt, args);
    push_profile(opt, args);
    push_pair(args, "--package", &opt.package);
    push_pair(args, "--bin", &opt.bin);
    push_pair(args, "--example", &opt.example);
    push_pair(args, "--test", &opt.test);
    push_pair(args, "--bench", &opt.bench);
    push_unit(args, "--test", "--tests", &opt.unit_test);
    push_unit(args, "--bench", "--benches", &opt.unit_bench);
    proof {
        assert(strings_view(args@) =~= build_args_head(o));
    }
}

/// Push the options after the target.
fn push_tail(opt: &Opt, args: &mut Vec<String>)
    ensures
        strings_view(final(args)@) == strings_view(old(args)@) + build_args_tail(*opt),
{
    let ghost o = *opt;
    let ghost mid = strings_view(args@);
    push_pair(args, "--manifest-path", &opt.manifest_path);
    push_pair(args, "--target", &opt.target);
    push_pair(args, "--features", &opt.features);
    if opt.no_default_features {
        push_arg(args, "--no-default-features");
    }
    push_arg(args, "--message-format=json-render-diagnostics");
    proof {
        assert(strings_view(args@) =~= mid + build_args_tail(o));
    }
}

/// The arguments of `cargo` for building what `opt` asks for; `found` is
/// the target looked up when [`needs_target_lookup`] says so. Nothing when
/// that target has no kind cargo can be asked to build.
pub fn cargo_build_args(opt: &Opt, kinds: &[TargetKind], found: Option<&BinaryTarget>) -> (r: Option<
    Vec<String>,
>)
    ensures
        match r {
            Some(v) => build_args_spec(*opt, kinds@, opt_target_view(found)) == Some(
                strings_view(v@),
            ),
            None => build_args_spec(*opt, kinds@, opt_target_view(found)) is None,
        },
{
    let mut args: Vec<String> = Vec::new();
    let ghost o = *opt;
    push_head(opt, &mut args);
    if needs_target_lookup(opt, kinds) {
        match found {
            Some(bt) => {
                push_arg(&mut args, "--package");
                push_arg(&mut args, bt.package.as_str());
                if holds_kind(bt.kind.as_slice(), TargetKind::Bin) {
                    push_arg(&mut args, "--bin");
                } else if holds_kind(bt.kind.as_slice(), TargetKind::Example) {
                    push_arg(&mut args, "--example");
                } else if holds_kind(bt.kind.as_slice(), TargetKind::Test) {
                    push_arg(&mut args, "--test");
                } else if holds_kind(bt.kind.as_slice(), TargetKind::Bench) {
                    push_arg(&mut args, "--bench");
                } else {
                    return None;
                }
                push_arg(&mut args, bt.target.as_str());
            },
            None => {
                return None;
            },
        }
    }
    push_tail(opt, &mut args);
    Some(args)
}

/// The target to run named on the command line, if any, with its kind.
pub open spec fn explicit_target(opt: Opt) -> Option<(Seq<char>, TargetKind)> {
    match opt.bin {
        Some(b) => Some((b@, TargetKind::Bin)),
        None => match opt.example {
            Some(e) => Some((e@, TargetKind::Example)),
            None => match opt.test {
                Some(t) => Some((t@, TargetKind::Test)),
                None => match opt.bench {
                    Some(b) => Some((b@, TargetKind::Bench)),
                    None => None,
                },
            },
        },
    }
}

/// The target whose executable to run, with its kind: the one named on
/// the command line, else the target looked up with its first kind.
pub open spec fn workload_target_spec(opt: Opt, found: Option<TargetView>) -> Option<(Seq<char>, TargetKind)> {
    match explicit_target(opt) {
        Some(x) => Some(x),
        None => match found {
            Some(bt) => if bt.kind.len() > 0 {
                Some((bt.target, bt.kind[0]))
            } else {
                None
            },
            None => None,
        },
    }
}

pub fn workload_target(opt: &Opt, found: Option<&BinaryTarget>) -> (r: Option<(String, TargetKind)>)
    ensures
        match r {
            Some((n, k)) => workload_target_spec(*opt, opt_target_view(found)) == Some((n@, k)),
            None => workload_target_spec(*opt, opt_target_view(found)) is None,
        },
{
    if let Some(b) = &opt.bin {
        Some((b.clone(), TargetKind::Bin))
    } else if let Some(e) = &opt.example {
        Some((e.clone(), TargetKind::Example))
    } else if let Some(t) = &opt.test {
        Some((t.clone(), TargetKind::Test))
    } else if let Some(b) = &opt.bench {
        Some((b.clone(), TargetKind::Bench))
    } else {
        match found {
            Some(bt) => {
                if bt.kind.len() > 0 {
                    Some((bt.target.clone(), bt.kind[0]))
                } else {
                    None
                }
            },
            None => None,
        }
    }
}

/// `args` holds `flag` immediately followed by `value`.
pub open spec fn has_flag_pair(args: Seq<Seq<char>>, flag: Seq<char>, value: Seq<char>) -> bool {
    exists|i: int| 0 <= i && i + 1 < args.len() && #[trigger] args[i] == flag && args[i + 1] == value
}

/// A pair placed after `a` in `a + seq![x, y] + b` is found there.
proof fn lemma_pair_in(a: Seq<Seq<char>>, x: Seq<char>, y: Seq<char>, b: Seq<Seq<char>>)
    ensures
        has_flag_pair(a + seq![x, y] + b, x, y),
{
    let args = a + seq![x, y] + b;
    assert(args[a.len() as int] == x);
    assert(args[a.len() + 1int] == y);
}

/// Each target named on the command line is passed to cargo under its own
/// flag: `--bin`, `--example`, `--test` or `--bench` followed by the name.
/// A target named there also means no target is looked up, so the
/// arguments are always there.
pub proof fn lemma_named_targets_passed_on(opt: Opt, kinds: Seq<TargetKind>, found: Option<TargetView>)
    ensures
        opt.bin is Some || opt.example is Some || opt.test is Some || opt.bench is Some ==> build_args_spec(
            opt,
            kinds,
            found,
        ) is Some,
        opt.bin matches Some(v) ==> has_flag_pair(build_args_spec(opt, kinds, found)->0, "--bin"@, v@),
        opt.example matches Some(v) ==> has_flag_pair(
            build_args_spec(opt, kinds, found)->0,
            "--example"@,
            v@,
        ),
        opt.test matches Some(v) ==> has_flag_pair(build_args_spec(opt, kinds, found)->0, "--test"@, v@),
        opt.bench matches Some(v) ==> has_flag_pair(build_args_spec(opt, kinds, found)->0, "--bench"@, v@),
{
    if opt.bin is Some || opt.example is Some || opt.test is Some || opt.bench is Some {
        let args = build_args_head(opt) + build_args_tail(opt);
        assert(build_args_spec(opt, kinds, found) == Some(args));
        lemma_head_pairs(opt);
    }
}

/// The arguments, cut where the four target flags stand.
proof fn lemma_head_parts(opt: Opt)
    ensures
        build_args_head(opt) + build_args_tail(opt) == (build_subcommand(opt) + build_profile_args(opt)
            + opt_pair("--package"@, opt.package)) + opt_pair("--bin"@, opt.bin) + opt_pair(
            "--example"@,
            opt.example,
        ) + opt_pair("--test"@, opt.test) + opt_pair("--bench"@, opt.bench) + (unit_args(
            "--test"@,
            "--tests"@,
            opt.unit_test,
        ) + unit_args("--bench"@, "--benches"@, opt.unit_bench) + build_args_tail(opt)),
{
    let sub = build_subcommand(opt) + build_profile_args(opt) + opt_pair("--package"@, opt.package);
    let u1 = unit_args("--test"@, "--tests"@, opt.unit_test);
    let u2 = unit_args("--bench"@, "--benches"@, opt.unit_bench);
    let tail = build_args_tail(opt);
    let x = sub + opt_pair("--bin"@, opt.bin) + opt_pair("--example"@, opt.example) + opt_pair(
        "--test"@,
        opt.test,
    ) + opt_pair("--bench"@, opt.bench);
    assert(build_args_head(opt) == x + u1 + u2);
    assert(x + u1 + u2 + tail =~= x + (u1 + u2 + tail));
}

/// The pair `flag`, `v` put between `a` and `b` is found in `a + pair + b`.
proof fn lemma_opt_pair_in(a: Seq<Seq<char>>, flag: Seq<char>, v: Option<String>, b: Seq<Seq<char>>)
    requires
        v is Some,
    ensures
        has_flag_pair(a + opt_pair(flag, v) + b, flag, v->0@),
{
    lemma_pair_in(a, flag, v->0@, b);
}

/// Where the four target flags stand in the arguments.
proof fn lemma_head_pairs(opt: Opt)
    ensures
        opt.bin matches Some(v) ==> has_flag_pair(build_args_head(opt) + build_args_tail(opt), "--bin"@, v@),
        opt.example matches Some(v) ==> has_flag_pair(
            build_args_head(opt) + build_args_tail(opt),
            "--example"@,
            v@,
        ),
        opt.test matches Some(v) ==> has_flag_pair(build_args_head(opt) + build_args_tail(opt), "--test"@, v@),
        opt.bench matches Some(v) ==> has_flag_pair(
            build_args_head(opt) + build_args_tail(opt),
            "--bench"@,
            v@,
        ),
{
    lemma_head_parts(opt);
    let sub = build_subcommand(opt) + build_profile_args(opt) + opt_pair("--package"@, opt.package);
    let pb = opt_pair("--bin"@, opt.bin);
    let pe = opt_pair("--example"@, opt.example);
    let pt = opt_pair("--test"@, opt.test);
    let pn = opt_pair("--bench"@, opt.bench);
    let rest = unit_args("--test"@, "--tests"@, opt.unit_test) + unit_args(
        "--bench"@,
        "--benches"@,
        opt.unit_bench,
    ) + build_args_tail(opt);
    if opt.bin is Some {
        assert(sub + pb + pe + pt + pn + rest =~= sub + pb + (pe + pt + pn + rest));
        lemma_opt_pair_in(sub, "--bin"@, opt.bin, pe + pt + pn + rest);
    }
    if opt.example is Some {
        assert(sub + pb + pe + pt + pn + rest =~= (sub + pb) + pe + (pt + pn + rest));
        lemma_opt_pair_in(sub + pb, "--example"@, opt.example, pt + pn + rest);
    }
    if opt.test is Some {
        assert(sub + pb + pe + pt + pn + rest =~= (sub + pb + pe) + pt + (pn + rest));
        lemma_opt_pair_in(sub + pb + pe, "--test"@, opt.test, pn + rest);
    }
    if opt.bench is Some {
        assert(sub + pb + pe + pt + pn + rest =~= (sub + pb + pe + pt) + pn + rest);
        lemma_opt_pair_in(sub + pb + pe + pt, "--bench"@, opt.bench, rest);
    }
}

/// A target named on the command line is the one run, with the kind of
/// the flag that named it; when several are named, `--bin` wins over
/// `--example`, which wins over `--test`, which wins over `--bench`.
pub proof fn lemma_named_target_runs(opt: Opt, found: Option<TargetView>)
    ensures
        opt.bin matches Some(b) ==> workload_target_spec(opt, found) == Some((b@, TargetKind::Bin)),
        opt.bin is None && opt.example is Some ==> workload_target_spec(opt, found) == Some(
            (opt.example->0@, TargetKind::Example),
        ),
        opt.bin is None && opt.example is None && opt.test is Some ==> workload_target_spec(opt, found)
            == Some((opt.test->0@, TargetKind::Test)),
        opt.bin is None && opt.example is None && opt.test is None && opt.bench is Some
            ==> workload_target_spec(opt, found) == Some((opt.bench->0@, TargetKind::Bench)),
        opt.bin is None && opt.example is None && opt.test is None && opt.bench is None
            ==> workload_target_spec(opt, found) == match found {
            Some(bt) => if bt.kind.len() > 0 {
                Some((bt.target, bt.kind[0]))
            } else {
                None
            },
            None => None,
        },
{
}

} // verus!
