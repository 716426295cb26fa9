//! Which executable `cargo flameview` profiles, from what cargo built.
use vstd::prelude::*;
use vstd::string::StringExecFns;

use cargo_metadata::{ArtifactDebuginfo, Message};

use crate::cli::cargo_build::{opt_target_view, workload_target, workload_target_spec, BinaryTarget, TargetView};
use crate::cli::opts::{target_kind_name, Opt, TargetKind};
use crate::cli::profile::strings_view;
use crate::loader::collapsed::{line_pieces, next_line};
use crate::text::{opt_usize, str_eq};

verus! {

/// What workload selection reads of a built artifact.
pub struct ArtifactInfo {
    pub target_name: String,
    /// The kinds cargo reports for its target, by name.
    pub target_kinds: Vec<String>,
    pub executable: Option<String>,
    /// The debug information it was built with.
    pub debuginfo: Debuginfo,
}

/// The debug information of an artifact, as cargo reports it.
pub enum Debuginfo {
    /// No debug information (cargo's level 0).
    Absent,
    LineDirectivesOnly,
    LineTablesOnly,
    Limited,
    Full,
    /// A level given as a number cargo does not know.
    UnknownInt(i64),
    /// A level given as a name cargo does not know.
    UnknownString(String),
    /// A kind added to cargo's report after this library was written.
    Unlisted,
}

/// Debug information as plain values.
pub enum DebuginfoView {
    Absent,
    LineDirectivesOnly,
    LineTablesOnly,
    Limited,
    Full,
    UnknownInt(i64),
    UnknownString(Seq<char>),
    Unlisted,
}

pub open spec fn debuginfo_view(d: Debuginfo) -> DebuginfoView {
    match d {
        Debuginfo::Absent => DebuginfoView::Absent,
        Debuginfo::LineDirectivesOnly => DebuginfoView::LineDirectivesOnly,
        Debuginfo::LineTablesOnly => DebuginfoView::LineTablesOnly,
        Debuginfo::Limited => DebuginfoView::Limited,
        Debuginfo::Full => DebuginfoView::Full,
        Debuginfo::UnknownInt(n) => DebuginfoView::UnknownInt(n),
        Debuginfo::UnknownString(s) => DebuginfoView::UnknownString(s@),
        Debuginfo::Unlisted => DebuginfoView::Unlisted,
    }
}

/// The artifact belongs to target `name` of kind `kind`.
pub open spec fn artifact_matches(a: ArtifactInfo, name: Seq<char>, kind: TargetKind) -> bool {
    a.target_name@ == name && exists|j: int|
        0 <= j < a.target_kinds@.len() && a.target_kinds@[j]@ == target_kind_name(kind)
}

/// Some artifact is an executable.
pub fn has_executable(arts: &[ArtifactInfo]) -> (r: bool)
    ensures
        r == exists|i: int| 0 <= i < arts@.len() && arts@[i].executable is Some,
{
    let mut i: usize = 0;
    while i < arts.len()
        invariant
            i <= arts@.len(),
            forall|j: int| 0 <= j < i ==> arts@[j].executable is None,
        decreases arts@.len() - i,
    {
        if arts[i].executable.is_some() {
            return true;
        }
        i = i + 1;
    }
    false
}

/// The first artifact from index `i` on of target `name` of kind `kind`.
pub open spec fn first_match(arts: Seq<ArtifactInfo>, name: Seq<char>, kind: TargetKind, i: int) -> Option<int>
    decreases arts.len() - i,
{
    if i < 0 || i >= arts.len() {
        None
    } else if artifact_matches(arts[i], name, kind) {
        Some(i)
    } else {
        first_match(arts, name, kind, i + 1)
    }
}

proof fn lemma_first_match(arts: Seq<ArtifactInfo>, name: Seq<char>, kind: TargetKind, k: int, r: Option<int>)
    requires
        0 <= k,
        match r {
            Some(i) => k <= i < arts.len() && artifact_matches(arts[i], name, kind) && forall|j: int|
                k <= j < i ==> !artifact_matches(#[trigger] arts[j], name, kind),
            None => forall|j: int| k <= j < arts.len() ==> !artifact_matches(#[trigger] arts[j], name, kind),
        },
    ensures
        first_match(arts, name, kind, k) == r,
    decreases arts.len() - k,
{
    if k < arts.len() {
        if r != Some(k) {
            assert(!artifact_matches(arts[k], name, kind));
            lemma_first_match(arts, name, kind, k + 1, r);
        }
    }
}

/// The first artifact of target `name` of kind `kind`.
pub fn find_artifact(arts: &[ArtifactInfo], name: &str, kind: TargetKind) -> (r: Option<usize>)
    ensures
        opt_usize(r) == first_match(arts@, name@, kind, 0),
        match r {
            Some(i) => i < arts@.len() && artifact_matches(arts@[i as int], name@, kind) && forall|j: int|
                0 <= j < i ==> !artifact_matches(#[trigger] arts@[j], name@, kind),
            None => forall|j: int| 0 <= j < arts@.len() ==> !artifact_matches(#[trigger] arts@[j], name@, kind),
        },
{
    let kname = kind.as_str();
    let mut i: usize = 0;
    while i < arts.len()
        invariant
            i <= arts@.len(),
            kname@ == target_kind_name(kind),
            forall|j: int| 0 <= j < i ==> !artifact_matches(#[trigger] arts@[j], name@, kind),
        decreases arts@.len() - i,
    {
        let a = &arts[i];
        if str_eq(a.target_name.as_str(), name) {
            let mut k: usize = 0;
            while k < a.target_kinds.len()
                invariant
                    k <= a.target_kinds@.len(),
                    i < arts@.len(),
                    *a == arts@[i as int],
                    a.target_name@ == name@,
                    kname@ == target_kind_name(kind),
                    forall|j: int| 0 <= j < i ==> !artifact_matches(#[trigger] arts@[j], name@, kind),
                    forall|j: int| 0 <= j < k ==> a.target_kinds@[j]@ != kname@,
                decreases a.target_kinds@.len() - k,
            {
                if str_eq(a.target_kinds[k].as_str(), kname) {
                    proof {
                        lemma_first_match(arts@, name@, kind, 0, Some(i as int));
                    }
                    return Some(i);
                }
                k = k + 1;
            }
        }
        i = i + 1;
    }
    proof {
        lemma_first_match(arts@, name@, kind, 0, None);
    }
    None
}

/// The command to profile: the executable, then the trailing arguments.
pub fn workload_command(exe: &str, trailing: &[String]) -> (r: Vec<String>)
    ensures
        strings_view(r@) == seq![exe@] + strings_view(trailing@),
{
    let mut cmd: Vec<String> = Vec::new();
    cmd.push(String::from_str(exe));
    let mut i: usize = 0;
    proof {
        assert(strings_view(cmd@) =~= seq![exe@] + strings_view(trailing@).take(0));
    }
    while i < trailing.len()
        invariant
            i <= trailing@.len(),
            strings_view(cmd@) == seq![exe@] + strings_view(trailing@).take(i as int),
        decreases trailing@.len() - i,
    {
        let w = trailing[i].clone();
        let ghost before = cmd@;
        cmd.push(w);
        proof {
            assert(strings_view(cmd@) =~= strings_view(before).push(w@));
            assert(strings_view(trailing@).take(i + 1) =~= strings_view(trailing@).take(i as int).push(
                trailing@[i as int]@,
            ));
        }
        i = i + 1;
    }
    proof {
        assert(strings_view(trailing@).take(i as int) =~= strings_view(trailing@));
    }
    cmd
}


/// An artifact as plain values.
pub struct ArtifactView {
    pub target_name: Seq<char>,
    pub target_kinds: Seq<Seq<char>>,
    pub executable: Option<Seq<char>>,
    pub debuginfo: DebuginfoView,
}

pub open spec fn opt_string_view(o: Option<String>) -> Option<Seq<char>> {
    match o {
        Some(s) => Some(s@),
        None => None,
    }
}

pub open spec fn artifact_view(a: ArtifactInfo) -> ArtifactView {
    ArtifactView {
        target_name: a.target_name@,
        target_kinds: strings_view(a.target_kinds@),
        executable: opt_string_view(a.executable),
        debuginfo: debuginfo_view(a.debuginfo),
    }
}

pub open spec fn artifacts_view(v: Seq<ArtifactInfo>) -> Seq<ArtifactView> {
    v.map_values(|a: ArtifactInfo| artifact_view(a))
}

/// The most opening brackets (`[` or `{`) a line of build output may hold
/// to be read: JSON nested no deeper than this is read without exhausting
/// the stack (it is serde_json's own default limit).
pub const MAX_JSON_BRACKETS: usize = 128;

/// The number of opening brackets in `l`: a bound on how deep its JSON nests.
pub open spec fn opening_brackets(l: Seq<u8>) -> int
    decreases l.len(),
{
    if l.len() == 0 {
        0
    } else {
        opening_brackets(l.drop_last()) + if l.last() == 91 || l.last() == 123 {
            1int
        } else {
            0int
        }
    }
}

/// A line of build output that is read: one line, not nested too deep.
pub open spec fn readable_line(l: Seq<u8>) -> bool {
    &&& forall|k: int| 0 <= k < l.len() ==> l[k] != 10
    &&& opening_brackets(l) <= MAX_JSON_BRACKETS
}

/// What an artifact message says besides its debug information.
pub struct ArtifactFields {
    pub target_name: String,
    pub target_kinds: Vec<String>,
    pub executable: Option<String>,
}

/// One line of the JSON messages of `cargo build`, as far as workload
/// selection reads it.
pub enum BuildLine {
    /// The compiler produced an artifact.
    Artifact(ArtifactFields),
    /// Any other message, or a line that is no message.
    Other,
    /// A line that could not be read.
    Unreadable,
}

/// An artifact message's fields as plain values.
pub struct FieldsView {
    pub target_name: Seq<char>,
    pub target_kinds: Seq<Seq<char>>,
    pub executable: Option<Seq<char>>,
}

/// A line of build output as plain values.
pub enum BuildLineView {
    Artifact(FieldsView),
    Other,
    Unreadable,
}

pub open spec fn build_line_view(m: BuildLine) -> BuildLineView {
    match m {
        BuildLine::Artifact(f) => BuildLineView::Artifact(
            FieldsView {
                target_name: f.target_name@,
                target_kinds: strings_view(f.target_kinds@),
                executable: opt_string_view(f.executable),
            },
        ),
        BuildLine::Other => BuildLineView::Other,
        BuildLine::Unreadable => BuildLineView::Unreadable,
    }
}

pub open spec fn opt_debuginfo_view(o: Option<Debuginfo>) -> Option<DebuginfoView> {
    match o {
        Some(d) => Some(debuginfo_view(d)),
        None => None,
    }
}

/// What `cargo_metadata` reads from one line of the output of `cargo build
/// --message-format=json`.
pub uninterp spec fn build_line(line: Seq<u8>) -> BuildLineView;

/// The debug information of the artifact that `cargo_metadata` reads from
/// one line of build output, if the line reports an artifact.
pub uninterp spec fn build_line_debuginfo(line: Seq<u8>) -> Option<DebuginfoView>;

/// Calls `cargo_metadata::Message::parse_stream` on one line of build output
/// and converts the message it yields. Trusted: the contract only names the
/// outcome, which depends on the bytes alone. Lines nested deeper than
/// serde_json's default limit are left out: cargo_metadata lifts that limit
/// and could exhaust the stack on them.
#[verifier::external_body]
fn read_build_line(line: &[u8]) -> (r: BuildLine)
    requires
        readable_line(line@),
    ensures
        build_line_view(r) == build_line(line@),
{
    match Message::parse_stream(line).next() {
        Some(Ok(Message::CompilerArtifact(a))) => BuildLine::Artifact(ArtifactFields {
            target_name: a.target.name,
            target_kinds: a.target.kind.iter().map(|k| k.to_string()).collect(),
            executable: a.executable.map(|p| p.into_string()),
        }),
        Some(Ok(_)) | None => BuildLine::Other,
        Some(Err(_)) => BuildLine::Unreadable,
    }
}

/// Calls `cargo_metadata::Message::parse_stream` on one line of build output
/// and converts the debug information of the artifact it reports, one arm
/// per kind. Trusted: the contract names the outcome and states that it is
/// there exactly when the same parse reports an artifact.
#[verifier::external_body]
fn read_build_debuginfo(line: &[u8]) -> (r: Option<Debuginfo>)
    requires
        readable_line(line@),
    ensures
        opt_debuginfo_view(r) == build_line_debuginfo(line@),
        r is Some <==> build_line(line@) is Artifact,
{
    match Message::parse_stream(line).next() {
        Some(Ok(Message::CompilerArtifact(a))) => Some(match a.profile.debuginfo {
            ArtifactDebuginfo::None => Debuginfo::Absent,
            ArtifactDebuginfo::LineDirectivesOnly => Debuginfo::LineDirectivesOnly,
            ArtifactDebuginfo::LineTablesOnly => Debuginfo::LineTablesOnly,
            ArtifactDebuginfo::Limited => Debuginfo::Limited,
            ArtifactDebuginfo::Full => Debuginfo::Full,
            ArtifactDebuginfo::UnknownInt(n) => Debuginfo::UnknownInt(n),
            ArtifactDebuginfo::UnknownString(s) => Debuginfo::UnknownString(s),
            _ => Debuginfo::Unlisted,
        }),
        _ => None,
    }
}

/// The artifact a line of build output reports, if any.
pub open spec fn line_artifact(line: Seq<u8>) -> Option<ArtifactView> {
    match build_line(line) {
        BuildLineView::Artifact(f) => match build_line_debuginfo(line) {
            Some(d) => Some(
                ArtifactView {
                    target_name: f.target_name,
                    target_kinds: f.target_kinds,
                    executable: f.executable,
                    debuginfo: d,
                },
            ),
            None => None,
        },
        _ => None,
    }
}

/// The artifacts the lines of build output report, in order; lines nested
/// too deep to be read safely are passed over.
pub open spec fn stdout_artifacts(lines: Seq<Seq<u8>>) -> Seq<ArtifactView>
    decreases lines.len(),
{
    if lines.len() == 0 {
        Seq::empty()
    } else {
        let rest = stdout_artifacts(lines.drop_last());
        let l = lines.last();
        if opening_brackets(l) <= MAX_JSON_BRACKETS {
            match line_artifact(l) {
                Some(a) => rest.push(a),
                None => rest,
            }
        } else {
            rest
        }
    }
}

pub open spec fn opt_artifact_view(o: Option<ArtifactInfo>) -> Option<ArtifactView> {
    match o {
        Some(a) => Some(artifact_view(a)),
        None => None,
    }
}

/// The number of opening brackets in `l`.
fn count_opening_brackets(l: &[u8]) -> (r: usize)
    ensures
        r == opening_brackets(l@),
{
    let mut n: usize = 0;
    let mut i: usize = 0;
    while i < l.len()
        invariant
            i <= l@.len(),
            n <= i,
            n == opening_brackets(l@.take(i as int)),
        decreases l@.len() - i,
    {
        proof {
            assert(l@.take(i + 1).drop_last() =~= l@.take(i as int));
        }
        if l[i] == 91 || l[i] == 123 {
            n = n + 1;
        }
        i = i + 1;
    }
    proof {
        assert(l@.take(i as int) =~= l@);
    }
    n
}

/// The artifact one line of build output reports, if any.
pub fn line_artifact_info(line: &[u8]) -> (r: Option<ArtifactInfo>)
    requires
        readable_line(line@),
    ensures
        opt_artifact_view(r) == line_artifact(line@),
{
    match read_build_line(line) {
        BuildLine::Artifact(f) => match read_build_debuginfo(line) {
            Some(d) => Some(
                ArtifactInfo {
                    target_name: f.target_name,
                    target_kinds: f.target_kinds,
                    executable: f.executable,
                    debuginfo: d,
                },
            ),
            None => None,
        },
        _ => None,
    }
}

/// The artifacts a build reports on its standard output, line by line.
pub fn built_artifacts(stdout: &[u8]) -> (r: Vec<ArtifactInfo>)
    ensures
        artifacts_view(r@) == stdout_artifacts(line_pieces(stdout@)),
{
    let mut out: Vec<ArtifactInfo> = Vec::new();
    let mut rest = stdout;
    let ghost mut done: Seq<Seq<u8>> = Seq::empty();
    proof {
        assert(done + line_pieces(rest@) =~= line_pieces(stdout@));
    }
    while rest.len() > 0
        invariant
            done + line_pieces(rest@) == line_pieces(stdout@),
            artifacts_view(out@) == stdout_artifacts(done),
        decreases rest@.len(),
    {
        let (line, next) = next_line(rest);
        let ghost before = out@;
        proof {
            let ps = line_pieces(rest@);
            assert(ps[0] == line@);
            assert(ps.drop_first() =~= line_pieces(next@));
            assert(done.push(line@) + line_pieces(next@) =~= done + ps);
            assert(done.push(line@).drop_last() =~= done);
        }
        if count_opening_brackets(line) <= MAX_JSON_BRACKETS {
            match line_artifact_info(line) {
                Some(a) => {
                    out.push(a);
                    proof {
                        assert(artifacts_view(out@) =~= artifacts_view(before).push(artifact_view(a)));
                    }
                },
                None => {},
            }
        }
        proof {
            done = done.push(line@);
        }
        rest = next;
    }
    proof {
        assert(crate::text::split_bytes(Seq::<u8>::empty(), 10) == seq![Seq::<u8>::empty()]);
        assert(line_pieces(rest@) =~= Seq::<Seq<u8>>::empty());
        assert(done + Seq::<Seq<u8>>::empty() =~= done);
    }
    out
}

/// Why no workload could be put together.
#[derive(Debug, PartialEq, Eq)]
pub enum WorkloadError {
    /// The build produced no executable at all.
    NoExecutables,
    /// No target was named, and none with a kind was looked up.
    UnknownTarget,
    /// No artifact belongs to the target.
    ArtifactNotFound,
    /// The target's artifact is no executable.
    NoExecutable,
}

/// The command to profile, and whether the artifact run lacks debug
/// information although a non-dev profile was asked for.
pub struct Workload {
    pub command: Vec<String>,
    pub lacks_debuginfo: bool,
}

/// The workload for the built artifacts `arts`: the executable of the
/// target to run (named, or `found` by lookup), then the trailing
/// arguments.
pub open spec fn workload_spec(opt: Opt, arts: Seq<ArtifactInfo>, found: Option<TargetView>) -> Result<
    (Seq<Seq<char>>, bool),
    WorkloadError,
> {
    if !(exists|i: int| 0 <= i < arts.len() && arts[i].executable is Some) {
        Err(WorkloadError::NoExecutables)
    } else {
        match workload_target_spec(opt, found) {
            None => Err(WorkloadError::UnknownTarget),
            Some((name, kind)) => match first_match(arts, name, kind, 0) {
                None => Err(WorkloadError::ArtifactNotFound),
                Some(i) => match arts[i].executable {
                    None => Err(WorkloadError::NoExecutable),
                    Some(exe) => Ok(
                        (
                            seq![exe@] + strings_view(opt.trailing_arguments@),
                            !opt.dev && arts[i].debuginfo is Absent,
                        ),
                    ),
                },
            },
        }
    }
}

pub open spec fn workload_view(r: Result<Workload, WorkloadError>) -> Result<(Seq<Seq<char>>, bool), WorkloadError> {
    match r {
        Ok(w) => Ok((strings_view(w.command@), w.lacks_debuginfo)),
        Err(e) => Err(e),
    }
}

pub fn workload(opt: &Opt, arts: &[ArtifactInfo], found: Option<&BinaryTarget>) -> (r: Result<Workload, WorkloadError>)
    ensures
        workload_view(r) == workload_spec(*opt, arts@, opt_target_view(found)),
{
    if !has_executable(arts) {
        return Err(WorkloadError::NoExecutables);
    }
    let (name, kind) = match workload_target(opt, found) {
        Some(x) => x,
        None => {
            return Err(WorkloadError::UnknownTarget);
        },
    };
    let i = match find_artifact(arts, name.as_str(), kind) {
        Some(i) => i,
        None => {
            return Err(WorkloadError::ArtifactNotFound);
        },
    };
    let a = &arts[i];
    match &a.executable {
        None => Err(WorkloadError::NoExecutable),
        Some(exe) => {
            let command = workload_command(exe.as_str(), opt.trailing_arguments.as_slice());
            let absent = match a.debuginfo {
                Debuginfo::Absent => true,
                _ => false,
            };
            Ok(Workload { command, lacks_debuginfo: !opt.dev && absent })
        },
    }
}

} // verus!
