//! What `cargo flameview` hands to `perf`, and folding its output.
use vstd::prelude::*;
use vstd::string::StringExecFns;

use inferno::collapse::perf::{Folder, Options as PerfOptions};
use inferno::collapse::Collapse;

use crate::cli::{decimal, decimal_string};
use crate::loader::collapsed::{line_pieces, next_line};
use crate::cli::opts::{profile_name, profile_name_spec, Opt};
use crate::text::{split_whitespace, words};

verus! {

/// What inferno's `perf` folder makes of the output of `perf script`: the
/// folded stack lines, or nothing when it cannot read the input.
pub uninterp spec fn perf_folded(script: Seq<u8>) -> Option<Seq<u8>>;

/// A byte of a process or thread id as `perf script` prints it: a digit
/// or the `/` between pid and tid.
pub open spec fn is_id_byte(b: u8) -> bool {
    48 <= b <= 57 || b == 47
}

/// `l[i]` and `l[j]` are spaces with a nonempty word of id bytes between.
pub open spec fn id_word(l: Seq<u8>, i: int, j: int) -> bool {
    &&& 0 <= i
    &&& i + 1 < j < l.len()
    &&& l[i] == 32
    &&& l[j] == 32
    &&& forall|k: int| i < k < j ==> is_id_byte(#[trigger] l[k])
}

/// An event line of `perf script`, as inferno's folder takes it: after the
/// first id word comes a `:`, which ends the event's name.
pub open spec fn event_line(l: Seq<u8>) -> bool {
    exists|i: int, j: int|
        #[trigger] id_word(l, i, j) && (forall|i2: int, j2: int| #[trigger] id_word(l, i2, j2) ==> j <= j2)
            && exists|c: int| j < c < l.len() && l[c] == 58
}

/// The script has a space-delimited word of id bytes.
pub open spec fn has_id_word(l: Seq<u8>) -> bool {
    exists|i: int, j: int| id_word(l, i, j)
}

/// A byte that ends a line's text as white space.
pub open spec fn ws_byte(b: u8) -> bool {
    9 <= b <= 13 || b == 32
}

/// `l` without its trailing white space.
pub open spec fn trim_end_bytes(l: Seq<u8>) -> Seq<u8>
    decreases l.len(),
{
    if l.len() > 0 && ws_byte(l.last()) {
        trim_end_bytes(l.drop_last())
    } else {
        l
    }
}

/// How inferno's folder reads the first stack of `lines`, `in_event` telling
/// whether a line that named a process without an event came before:
/// `true` when it finds an event line before the stack ends or the input
/// ends, `false` when a blank line ends the stack first, which fails the
/// folder's check that the first stack named an event. Comment lines are
/// passed over; after a line with an id word and no event, the lines up to
/// the blank one are frames.
pub open spec fn first_stack_ok(lines: Seq<Seq<u8>>, in_event: bool) -> bool
    decreases lines.len(),
{
    if lines.len() == 0 {
        true
    } else {
        let l = lines[0];
        let t = trim_end_bytes(l);
        if l.len() > 0 && l[0] == 35 {
            first_stack_ok(lines.drop_first(), in_event)
        } else if t.len() == 0 {
            false
        } else if in_event {
            first_stack_ok(lines.drop_first(), true)
        } else if event_line(t) {
            true
        } else {
            first_stack_ok(lines.drop_first(), has_id_word(t))
        }
    }
}

/// A digit byte.
pub open spec fn digit_byte(b: u8) -> bool {
    48 <= b <= 57
}

/// Reading `b` left to right: the sum of the numbers (maximal runs of
/// digits) that have ended, and the value of the run still going on.
pub open spec fn number_runs(b: Seq<u8>) -> (int, int)
    decreases b.len(),
{
    if b.len() == 0 {
        (0, 0)
    } else {
        let (done, cur) = number_runs(b.drop_last());
        if digit_byte(b.last()) {
            (done, cur * 10 + (b.last() - 48))
        } else {
            (done + cur, 0)
        }
    }
}

/// The sum of all numbers written in `b`: a bound on the sum of the sample
/// periods of its events.
pub open spec fn numbers_total(b: Seq<u8>) -> int {
    number_runs(b).0 + number_runs(b).1
}

/// The script is ASCII, shorter than `i32::MAX` bytes (the folder counts
/// brackets in an `i32`), and the numbers in it plus its length, a bound on
/// the counts the folder adds up per stack, fit in a `u64`.
pub open spec fn script_in_limits(b: Seq<u8>) -> bool {
    &&& forall|k: int| 0 <= k < b.len() ==> b[k] < 128
    &&& b.len() <= i32::MAX
    &&& numbers_total(b) + b.len() <= u64::MAX
}

/// The output of `perf script` that inferno's folder takes without
/// panicking: its first stack names an event, it cuts no character apart
/// where the folder slices names by bytes, and no count overflows.
pub open spec fn perf_script_ok(script: Seq<u8>) -> bool {
    first_stack_ok(line_pieces(script), false) && script_in_limits(script)
}

/// The folder's limits refuse only what makes it panic: a script is taken
/// exactly when its first stack names an event, it is ASCII, it is no
/// longer than `i32::MAX` bytes (the folder's bracket counter), and the
/// numbers in it with its length fit in a `u64`. Any such script is taken,
/// however long, up to that bound.
pub proof fn lemma_what_the_folder_takes(script: Seq<u8>)
    ensures
        perf_script_ok(script) <==> {
            &&& first_stack_ok(line_pieces(script), false)
            &&& forall|k: int| 0 <= k < script.len() ==> script[k] < 128
            &&& script.len() <= 0x7fff_ffff
            &&& numbers_total(script) + script.len() <= 0xffff_ffff_ffff_ffff
        },
{
}

/// Whether `l` has a `:` after index `j`.
fn colon_after(l: &[u8], j: usize) -> (r: bool)
    requires
        j < l.len(),
    ensures
        r == exists|c: int| j < c < l@.len() && l@[c] == 58,
{
    let mut c = j + 1;
    while c < l.len()
        invariant
            j < c <= l@.len(),
            forall|k: int| j < k < c ==> l@[k] != 58,
        decreases l.len() - c,
    {
        if l[c] == 58 {
            return true;
        }
        c = c + 1;
    }
    false
}

/// Where the first id word of `l` ends, if it has one.
fn first_id_word(l: &[u8]) -> (r: Option<(usize, usize)>)
    ensures
        r matches Some((i, j)) ==> id_word(l@, i as int, j as int) && forall|i2: int, j2: int|
            #[trigger] id_word(l@, i2, j2) ==> j <= j2,
        r is None ==> !has_id_word(l@),
{
    let mut j: usize = 0;
    let mut last_space: Option<usize> = None;
    let mut clean = false;
    while j < l.len()
        invariant
            j <= l@.len(),
            forall|i2: int, j2: int| #[trigger] id_word(l@, i2, j2) ==> j <= j2,
            match last_space {
                Some(i) => {
                    &&& i < j
                    &&& l@[i as int] == 32
                    &&& forall|k: int| i < k < j ==> l@[k] != 32
                    &&& clean == forall|k: int| i < k < j ==> is_id_byte(#[trigger] l@[k])
                },
                None => forall|k: int| 0 <= k < j ==> l@[k] != 32,
            },
        decreases l@.len() - j,
    {
        let b = l[j];
        if b == 32 {
            if let Some(i) = last_space {
                if clean && j > i + 1 {
                    proof {
                        assert(id_word(l@, i as int, j as int));
                    }
                    return Some((i, j));
                }
            }
            proof {
                assert forall|i2: int| !#[trigger] id_word(l@, i2, j as int) by {
                    if id_word(l@, i2, j as int) {
                        match last_space {
                            Some(i) => {
                                if i2 < i {
                                    assert(!is_id_byte(l@[i as int]));
                                } else if i2 > i {
                                    assert(l@[i2] == 32);
                                } else {
                                    assert(!clean || j <= i + 1);
                                    if !clean {
                                        let k = choose|k: int| i < k < j && !is_id_byte(#[trigger] l@[k]);
                                    }
                                }
                            },
                            None => {
                                assert(l@[i2] == 32);
                            },
                        }
                    }
                }
            }
            last_space = Some(j);
            clean = true;
        } else if !((48 <= b && b <= 57) || b == 47) {
            clean = false;
        }
        j = j + 1;
    }
    proof {
        if has_id_word(l@) {
            let (i3, j3) = choose|i3: int, j3: int| id_word(l@, i3, j3);
            assert(id_word(l@, i3, j3));
        }
    }
    None
}

/// Whether `l` is an event line.
pub fn is_event_line(l: &[u8]) -> (r: bool)
    ensures
        r == event_line(l@),
{
    match first_id_word(l) {
        Some((i, j)) => {
            let r = colon_after(l, j);
            proof {
                if event_line(l@) {
                    let (i3, j3) = choose|i3: int, j3: int|
                        #[trigger] id_word(l@, i3, j3) && (forall|i2: int, j2: int|
                            #[trigger] id_word(l@, i2, j2) ==> j3 <= j2) && exists|c: int|
                            j3 < c < l@.len() && l@[c] == 58;
                    assert(j3 <= j);
                    assert(j <= j3);
                }
                if r {
                    assert(id_word(l@, i as int, j as int));
                }
            }
            r
        },
        None => {
            proof {
                if event_line(l@) {
                    let (i3, j3) = choose|i3: int, j3: int|
                        #[trigger] id_word(l@, i3, j3) && (forall|i2: int, j2: int|
                            #[trigger] id_word(l@, i2, j2) ==> j3 <= j2) && exists|c: int|
                            j3 < c < l@.len() && l@[c] == 58;
                    assert(has_id_word(l@));
                }
            }
            false
        },
    }
}

/// How long `l` is without its trailing white space.
fn trimmed_len(l: &[u8]) -> (k: usize)
    ensures
        k <= l@.len(),
        l@.take(k as int) == trim_end_bytes(l@),
{
    let mut k = l.len();
    proof {
        assert(l@.take(k as int) =~= l@);
    }
    while k > 0 && (9 <= l[k - 1] && l[k - 1] <= 13 || l[k - 1] == 32)
        invariant
            k <= l@.len(),
            trim_end_bytes(l@.take(k as int)) == trim_end_bytes(l@),
        decreases k,
    {
        proof {
            assert(l@.take(k as int).drop_last() =~= l@.take(k - 1));
        }
        k = k - 1;
    }
    k
}

/// The state after reading `b` grows the running total.
proof fn lemma_number_runs_grow(b: Seq<u8>, k: int)
    requires
        0 <= k < b.len(),
    ensures
        number_runs(b.take(k)).0 >= 0,
        number_runs(b.take(k)).1 >= 0,
        numbers_total(b.take(k)) <= numbers_total(b.take(k + 1)),
    decreases k,
{
    assert(b.take(k + 1).drop_last() =~= b.take(k));
    if k > 0 {
        lemma_number_runs_grow(b, k - 1);
        assert(b.take(k).drop_last() =~= b.take(k - 1));
    } else {
        assert(b.take(0) =~= Seq::<u8>::empty());
    }
}

/// The running total never shrinks: a prefix's total bounds the whole's
/// from below.
proof fn lemma_number_runs_mono(b: Seq<u8>, k: int)
    requires
        0 <= k <= b.len(),
    ensures
        numbers_total(b.take(k)) <= numbers_total(b),
    decreases b.len() - k,
{
    if k == b.len() {
        assert(b.take(k) =~= b);
    } else {
        lemma_number_runs_grow(b, k);
        lemma_number_runs_mono(b, k + 1);
    }
}

/// Whether the script is within the folder's limits: see [`script_in_limits`].
fn script_within_limits(b: &[u8]) -> (r: bool)
    ensures
        r == script_in_limits(b@),
{
    if b.len() > 0x7fff_ffff {
        return false;
    }
    let mut k: usize = 0;
    let mut done: u64 = 0;
    let mut cur: u64 = 0;
    proof {
        assert(b@.take(0) =~= Seq::<u8>::empty());
    }
    while k < b.len()
        invariant
            k <= b@.len(),
            b@.len() <= i32::MAX,
            (done as int, cur as int) == number_runs(b@.take(k as int)),
            done + cur + k <= u64::MAX,
            forall|i: int| 0 <= i < k ==> b@[i] < 128,
        decreases b.len() - k,
    {
        let x = b[k];
        proof {
            assert(b@.take(k + 1).drop_last() =~= b@.take(k as int));
            lemma_number_runs_grow(b@, k as int);
        }
        if x >= 128 {
            return false;
        }
        let (nd, nc): (u128, u128) = if 48 <= x && x <= 57 {
            (done as u128, (cur as u128) * 10 + (x - 48) as u128)
        } else {
            ((done as u128) + (cur as u128), 0)
        };
        if nd + nc + (k as u128) + 1 > 0xffff_ffff_ffff_ffff {
            proof {
                lemma_number_runs_mono(b@, k + 1);
            }
            return false;
        }
        done = nd as u64;
        cur = nc as u64;
        k = k + 1;
    }
    proof {
        assert(b@.take(k as int) =~= b@);
    }
    true
}

/// Whether inferno's folder takes the output `script` of `perf script`
/// without panicking: see [`perf_script_ok`].
pub fn perf_script_foldable(script: &[u8]) -> (r: bool)
    ensures
        r == perf_script_ok(script@),
{
    if !script_within_limits(script) {
        return false;
    }
    let mut rest = script;
    let mut in_event = false;
    while rest.len() > 0
        invariant
            first_stack_ok(line_pieces(script@), false) == first_stack_ok(line_pieces(rest@), in_event),
            script_in_limits(script@),
        decreases rest@.len(),
    {
        let (line, next) = next_line(rest);
        let ghost ps = line_pieces(rest@);
        proof {
            assert(ps[0] == line@);
            assert(ps.drop_first() =~= line_pieces(next@));
        }
        if line.len() > 0 && line[0] == 35 {
            rest = next;
        } else {
            assert(!(ps[0].len() > 0 && ps[0][0] == 35));
            let k = trimmed_len(line);
            let t = vstd::slice::slice_subrange(line, 0, k);
            proof {
                assert(t@ =~= line@.take(k as int));
            }
            if k == 0 {
                return false;
            }
            if !in_event {
                if is_event_line(t) {
                    proof {
                        assert(t@ == trim_end_bytes(ps[0]));
                        assert(trim_end_bytes(ps[0]).len() > 0);
                        assert(event_line(trim_end_bytes(ps[0])));
                        assert(first_stack_ok(ps, false));
                    }
                    return true;
                }
                in_event = first_id_word(t).is_some();
            }
            rest = next;
        }
    }
    proof {
        assert(rest@ =~= Seq::<u8>::empty());
        assert(crate::text::split_bytes(Seq::<u8>::empty(), 10) == seq![Seq::<u8>::empty()]);
        assert(line_pieces(rest@) =~= Seq::<Seq<u8>>::empty());
    }
    true
}

/// Calls inferno's `collapse::perf::Folder::collapse` with default options,
/// writing into memory. Trusted: the contract only names the outcome, which
/// depends on the input alone (the folder is single-threaded here and sorts
/// its output). Inputs on which the folder panics are left out by
/// `perf_script_ok`: a first stack that ends before naming an event (an
/// assertion), non-ASCII text (names are sliced by bytes), sample counts
/// whose sums overflow a `u64`, and bracket depths past an `i32`.
#[verifier::external_body]
fn collapse_perf(script: &[u8]) -> (r: Result<Vec<u8>, std::io::Error>)
    requires
        perf_script_ok(script@),
    ensures
        r is Ok <==> perf_folded(script@) is Some,
        r matches Ok(v) ==> perf_folded(script@) == Some(v@),
{
    let mut folder = Folder::from(PerfOptions::default());
    let mut out: Vec<u8> = Vec::new();
    match folder.collapse(script, &mut out) {
        Ok(()) => Ok(out),
        Err(e) => Err(e),
    }
}

/// Fold the output of `perf script` into collapsed stack lines.
pub fn fold_perf_output(script: &[u8]) -> (r: Result<Vec<u8>, std::io::Error>)
    requires
        perf_script_ok(script@),
    ensures
        r is Ok <==> perf_folded(script@) is Some,
        r matches Ok(v) ==> perf_folded(script@) == Some(v@),
{
    collapse_perf(script)
}

/// The runs of `perf` a profile makes, in order.
#[derive(Clone, Copy, Debug, PartialEq, Eq)]
pub enum PerfRun {
    /// `perf record`, sampling the workload.
    Record,
    /// `perf script`, printing the samples.
    Script,
}

/// Why profiling stopped.
#[derive(Clone, Copy, Debug, PartialEq, Eq)]
pub enum ProfileError {
    /// There was nothing to run.
    EmptyWorkload,
    /// `perf record` ended in failure.
    RecordFailed,
    /// `perf script` ended in failure.
    ScriptFailed,
    /// The samples `perf script` printed are outside what the folder takes.
    Unfoldable,
}

/// Start profiling `workload`: with `perf record`, unless there is nothing
/// to run.
pub fn start_profile(workload: &[String]) -> (r: Result<PerfRun, ProfileError>)
    ensures
        workload@.len() == 0 ==> r == Err::<PerfRun, ProfileError>(ProfileError::EmptyWorkload),
        workload@.len() > 0 ==> r == Ok::<PerfRun, ProfileError>(PerfRun::Record),
{
    if workload.len() == 0 {
        Err(ProfileError::EmptyWorkload)
    } else {
        Ok(PerfRun::Record)
    }
}

/// What follows a run of `perf` that `succeeded` or not: the next run, or
/// (after `perf script`) folding its output; a failed run stops profiling.
pub fn after_run(run: PerfRun, succeeded: bool) -> (r: Result<Option<PerfRun>, ProfileError>)
    ensures
        r == if !succeeded {
            Err::<Option<PerfRun>, ProfileError>(
                match run {
                    PerfRun::Record => ProfileError::RecordFailed,
                    PerfRun::Script => ProfileError::ScriptFailed,
                },
            )
        } else {
            Ok::<Option<PerfRun>, ProfileError>(
                match run {
                    PerfRun::Record => Some(PerfRun::Script),
                    PerfRun::Script => None,
                },
            )
        },
{
    if !succeeded {
        match run {
            PerfRun::Record => Err(ProfileError::RecordFailed),
            PerfRun::Script => Err(ProfileError::ScriptFailed),
        }
    } else {
        match run {
            PerfRun::Record => Ok(Some(PerfRun::Script)),
            PerfRun::Script => Ok(None),
        }
    }
}

/// The name of the tool a run starts, for messages.
pub open spec fn run_tool_name(run: PerfRun) -> Seq<char> {
    match run {
        PerfRun::Record => "perf"@,
        PerfRun::Script => "perf script"@,
    }
}

pub fn run_tool(run: PerfRun) -> (r: &'static str)
    ensures
        r@ == run_tool_name(run),
{
    match run {
        PerfRun::Record => "perf",
        PerfRun::Script => "perf script",
    }
}

/// The message for why profiling stopped.
pub open spec fn profile_error_text(e: ProfileError) -> Seq<char> {
    match e {
        ProfileError::EmptyWorkload => "empty workload"@,
        ProfileError::RecordFailed => "perf record failed"@,
        ProfileError::ScriptFailed => "perf script failed"@,
        ProfileError::Unfoldable => "perf script output cannot be folded"@,
    }
}

pub fn profile_error_message(e: ProfileError) -> (r: &'static str)
    ensures
        r@ == profile_error_text(e),
{
    match e {
        ProfileError::EmptyWorkload => "empty workload",
        ProfileError::RecordFailed => "perf record failed",
        ProfileError::ScriptFailed => "perf script failed",
        ProfileError::Unfoldable => "perf script output cannot be folded",
    }
}

/// Fold the output of `perf script`, refusing output that inferno's folder
/// cannot take (see [`perf_script_ok`]); `Ok(Err(_))` is a read error of
/// the folder.
pub fn fold_script(script: &[u8]) -> (r: Result<Result<Vec<u8>, std::io::Error>, ProfileError>)
    ensures
        r is Err <==> !perf_script_ok(script@),
        r is Err ==> r == Err::<Result<Vec<u8>, std::io::Error>, ProfileError>(ProfileError::Unfoldable),
        r matches Ok(f) ==> (f is Ok <==> perf_folded(script@) is Some),
        r matches Ok(Ok(v)) ==> perf_folded(script@) == Some(v@),
{
    if perf_script_foldable(script) {
        Ok(fold_perf_output(script))
    } else {
        Err(ProfileError::Unfoldable)
    }
}

/// The `perf` command line to record with: the one given, else sampling at
/// the configured frequency with DWARF call graphs.
pub open spec fn perf_command_spec(opt: Opt) -> Seq<char> {
    match opt.profile.cmd {
        Some(c) => c@,
        None => "record -F "@ + decimal(opt.profile.frequency as nat)
            + " --call-graph dwarf,64000 -g"@,
    }
}

/// Strings read as character sequences.
pub open spec fn strings_view(v: Seq<String>) -> Seq<Seq<char>> {
    v.map_values(|s: String| s@)
}

/// Arguments of `perf` that record `workload` into `perf_data`.
pub open spec fn perf_record_args_spec(opt: Opt, perf_data: Seq<char>, workload: Seq<Seq<char>>) -> Seq<
    Seq<char>,
> {
    words(perf_command_spec(opt)) + seq!["-o"@, perf_data, "--"@] + workload
}

pub fn perf_record_args(opt: &Opt, perf_data: &str, workload: &[String]) -> (r: Vec<String>)
    ensures
        strings_view(r@) == perf_record_args_spec(*opt, perf_data@, strings_view(workload@)),
{
    let cmd = match &opt.profile.cmd {
        Some(c) => c.clone(),
        None => {
            let s = String::from_str("record -F ");
            let f = decimal_string(opt.profile.frequency as u64);
            let s = s.concat(f.as_str());
            s.concat(" --call-graph dwarf,64000 -g")
        },
    };
    let mut args = split_whitespace(cmd.as_str());
    proof {
        assert(strings_view(args@) =~= words(perf_command_spec(*opt)));
    }
    let ghost front = strings_view(args@);
    args.push(String::from_str("-o"));
    args.push(String::from_str(perf_data));
    args.push(String::from_str("--"));
    proof {
        assert(strings_view(args@) =~= front + seq!["-o"@, perf_data@, "--"@]);
    }
    let ghost mid = strings_view(args@);
    let mut i: usize = 0;
    while i < workload.len()
        invariant
            i <= workload@.len(),
            strings_view(args@) == mid + strings_view(workload@).take(i as int),
        decreases workload@.len() - i,
    {
        let w = workload[i].clone();
        let ghost before = args@;
        args.push(w);
        proof {
            assert(w@ == workload@[i as int]@);
            assert(strings_view(args@) =~= strings_view(before).push(w@));
            assert(strings_view(workload@).take(i + 1) =~= strings_view(workload@).take(i as int).push(
                workload@[i as int]@,
            ));
            assert(strings_view(args@) =~= mid + strings_view(workload@).take(i + 1));
        }
        i = i + 1;
    }
    proof {
        assert(strings_view(workload@).take(i as int) =~= strings_view(workload@));
    }
    args
}

/// Arguments of `perf` that print the samples recorded in `perf_data`.
pub fn perf_script_args(perf_data: &str) -> (r: Vec<String>)
    ensures
        strings_view(r@) == seq!["script"@, "--force"@, "-i"@, perf_data@],
{
    let mut args: Vec<String> = Vec::new();
    args.push(String::from_str("script"));
    args.push(String::from_str("--force"));
    args.push(String::from_str("-i"));
    args.push(String::from_str(perf_data));
    proof {
        assert(strings_view(args@) =~= seq!["script"@, "--force"@, "-i"@, perf_data@]);
    }
    args
}

/// What a profiling run produced: where the folded stacks were written.
pub struct ProfileResult {
    pub folded_path: String,
}

/// Where the folded stacks go.
pub enum FoldedPath {
    /// The output file asked for, as given.
    Given(String),
    /// Path components to join, in order, to the crate root.
    UnderCrateRoot(Vec<String>),
}

pub enum FoldedPathView {
    Given(Seq<char>),
    UnderCrateRoot(Seq<Seq<char>>),
}

pub open spec fn folded_path_view(p: FoldedPath) -> FoldedPathView {
    match p {
        FoldedPath::Given(s) => FoldedPathView::Given(s@),
        FoldedPath::UnderCrateRoot(v) => FoldedPathView::UnderCrateRoot(strings_view(v@)),
    }
}

/// The output asked for, else `target/flameview/<profile>/<target>.folded`
/// under the crate root.
pub open spec fn folded_path_spec(opt: Opt, target_name: Seq<char>) -> FoldedPathView {
    match opt.profile.output {
        Some(o) => FoldedPathView::Given(o@),
        None => FoldedPathView::UnderCrateRoot(
            seq!["target"@, "flameview"@, profile_name_spec(opt), target_name + ".folded"@],
        ),
    }
}

pub fn folded_path(opt: &Opt, target_name: &str) -> (r: FoldedPath)
    ensures
        folded_path_view(r) == folded_path_spec(*opt, target_name@),
{
    match &opt.profile.output {
        Some(o) => FoldedPath::Given(o.clone()),
        None => {
            let mut parts: Vec<String> = Vec::new();
            parts.push(String::from_str("target"));
            parts.push(String::from_str("flameview"));
            parts.push(String::from_str(profile_name(opt)));
            let f = String::from_str(target_name);
            parts.push(f.concat(".folded"));
            proof {
                assert(strings_view(parts@) =~= seq![
                    "target"@,
                    "flameview"@,
                    profile_name_spec(*opt),
                    target_name@ + ".folded"@,
                ]);
            }
            FoldedPath::UnderCrateRoot(parts)
        },
    }
}

} // verus!
