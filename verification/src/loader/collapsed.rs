//! The collapsed ("folded") stack format: one sample line per distinct
//! stack, `frame;frame;...;frame count`, outermost frame first.
use vstd::prelude::*;
use vstd::string::StringSliceAdditionalSpecFns;
use vstd::utf8::*;

use crate::arena::{
    children_below, first_named, lemma_children_in_range, lemma_first_named_in,
    lemma_sum_counts_nonneg, lemma_sum_counts_update, sat, shape_add, shape_get_or_insert,
    shape_insert_path, shape_record, sum_counts, FlameTree, NodeId, Shape, lemma_children_suffix,
    parents_wf, shape_child,
};
use crate::loader::Error;
use crate::text::{
    from_utf8, lemma_trim_newline, lemma_ascii_byte_boundaries, lemma_first_index_of, lemma_last_index_of,
    parse_u64, parse_u64_spec, rfind_byte, find_byte, split_bytes, trim, trim_chars, trim_start,
    trim_start_chars, last_index_of, first_index_of,
};

verus! {

broadcast use vstd::utf8::encode_utf8_decode_utf8, vstd::utf8::encode_utf8_valid_utf8;

/// What one line of a collapsed stack file says.
pub enum LineSpec {
    /// Nothing but white space.
    Blank,
    /// Not of the form `stack count`.
    Bad,
    /// `count` samples of the stack `frames`, outermost frame first.
    Sample { frames: Seq<Seq<char>>, count: u64 },
}

/// The frame names of a stack: its UTF-8 bytes cut at every `;`.
pub open spec fn stack_frames(stack: Seq<u8>) -> Seq<Seq<char>> {
    split_bytes(stack, 59).map_values(|f: Seq<u8>| decode_utf8(f))
}

/// How a line is read: trimmed of white space, a blank line says nothing;
/// otherwise the last space separates the stack from the count, which
/// (after leading white space) must be a `u64` as `u64::from_str` reads it.
#[verifier::opaque]
pub open spec fn parse_line(line: Seq<char>) -> LineSpec {
    let t = trim_chars(line);
    if t.len() == 0 {
        LineSpec::Blank
    } else {
        let b = encode_utf8(t);
        match last_index_of(b, 32) {
            None => LineSpec::Bad,
            Some(k) => match parse_u64_spec(
                encode_utf8(trim_start_chars(decode_utf8(b.subrange(k, b.len() as int)))),
            ) {
                None => LineSpec::Bad,
                Some(count) => LineSpec::Sample { frames: stack_frames(b.subrange(0, k)), count },
            },
        }
    }
}

/// Split `stack` at every `;`, as `str::split(';')` does.
fn split_frames<'a>(stack: &'a str) -> (r: Vec<&'a str>)
    ensures
        r@.len() == stack_frames(stack.spec_bytes()).len(),
        forall|i: int| 0 <= i < r@.len() ==> (#[trigger] r@[i])@ == stack_frames(stack.spec_bytes())[i],
{
    let ghost full = stack.spec_bytes();
    let mut out: Vec<&'a str> = Vec::new();
    let ghost mut done: Seq<Seq<u8>> = Seq::empty();
    let mut rest = stack;
    assert(full.subrange(0, full.len() as int) =~= full);
    loop
        invariant_except_break
            split_bytes(full, 59) == done + split_bytes(rest.spec_bytes(), 59),
            out@.len() == done.len(),
            forall|i: int| 0 <= i < out@.len() ==> (#[trigger] out@[i])@ == decode_utf8(done[i]),
        ensures
            split_bytes(full, 59) == done,
            out@.len() == done.len(),
            forall|i: int| 0 <= i < out@.len() ==> (#[trigger] out@[i])@ == decode_utf8(done[i]),
        decreases rest.spec_bytes().len(),
    {
        let rb = rest.as_bytes();
        let ghost rbs = rest.spec_bytes();
        proof {
            lemma_first_index_of(rbs, 59);
        }
        match find_byte(rb, 59) {
            None => {
                proof {
                    assert(split_bytes(rbs, 59) == seq![rbs]);
                    assert(decode_utf8(encode_utf8(rest@)) == rest@);
                    done = done.push(rbs);
                    assert(split_bytes(full, 59) =~= done);
                }
                out.push(rest);
                break ;
            },
            Some(k) => {
                proof {
                    lemma_ascii_byte_boundaries(rbs, k as int);
                }
                let (f, r2) = rest.split_at(k);
                proof {
                    let r2b = r2.spec_bytes();
                    assert(r2b[0] == 59u8);
                    lemma_ascii_byte_boundaries(r2b, 0);
                }
                let (_sep, r3) = r2.split_at(1);
                proof {
                    assert(f.spec_bytes() =~= rbs.take(k as int));
                    assert(r3.spec_bytes() =~= rbs.skip(k + 1));
                    assert(decode_utf8(encode_utf8(f@)) == f@);
                    assert(split_bytes(rbs, 59) == seq![rbs.take(k as int)] + split_bytes(
                        rbs.skip(k + 1),
                        59,
                    ));
                    done = done.push(rbs.take(k as int));
                    assert(split_bytes(full, 59) =~= done + split_bytes(r3.spec_bytes(), 59));
                }
                out.push(f);
                rest = r3;
            },
        }
    }
    proof {
        assert forall|i: int| 0 <= i < out@.len() implies (#[trigger] out@[i])@ == stack_frames(
            full,
        )[i] by {}
    }
    out
}

/// The number of nodes a tree of shape `s` holds once the stack `frames`
/// is recorded in it.
pub open spec fn path_size(s: Shape, frames: Seq<Seq<char>>) -> int {
    shape_insert_path(s, 0, frames).0.names.len() as int
}

/// Following a path only adds nodes.
pub(crate) proof fn lemma_insert_path_grows(s: Shape, p: int, frames: Seq<Seq<char>>)
    ensures
        shape_insert_path(s, p, frames).0.names.len() >= s.names.len(),
    decreases frames.len(),
{
    if frames.len() > 0 {
        let (s1, c) = shape_get_or_insert(s, p, frames[0]);
        lemma_insert_path_grows(s1, c, frames.drop_first());
    }
}

/// Following `a` then `b` is following `a + b`.
proof fn lemma_insert_path_split(s: Shape, p: int, a: Seq<Seq<char>>, b: Seq<Seq<char>>)
    ensures
        shape_insert_path(s, p, a + b) == ({
            let (s1, c) = shape_insert_path(s, p, a);
            shape_insert_path(s1, c, b)
        }),
    decreases a.len(),
{
    if a.len() == 0 {
        assert(a + b =~= b);
    } else {
        let (s1, c) = shape_get_or_insert(s, p, a[0]);
        assert((a + b).drop_first() =~= a.drop_first() + b);
        assert((a + b)[0] == a[0]);
        lemma_insert_path_split(s1, c, a.drop_first(), b);
    }
}

/// Once a frame of the path is missing, every frame after it is added as
/// a new node.
proof fn lemma_fresh_path(s: Shape, p: int, frames: Seq<Seq<char>>)
    requires
        parents_wf(s.parents),
        s.parents.len() == s.names.len(),
        0 <= p < s.names.len(),
        frames.len() > 0 ==> p <= u32::MAX,
        s.names.len() + frames.len() <= u32::MAX + 2,
        frames.len() > 0 ==> shape_child(s, p, frames[0]) is None,
    ensures
        shape_insert_path(s, p, frames).0.names.len() == s.names.len() + frames.len(),
    decreases frames.len(),
{
    if frames.len() > 0 {
        let n = s.names.len() as int;
        let (s1, c) = shape_get_or_insert(s, p, frames[0]);
        assert(c == n);
        assert(s1.parents[n] as int == p);
        assert(parents_wf(s1.parents)) by {
            assert forall|j: int| 0 < j < s1.parents.len() implies (#[trigger] s1.parents[j] as int) < j by {
                if j < n {
                    assert(s1.parents[j] == s.parents[j]);
                }
            }
        }
        if frames.len() > 1 {
            let cs = children_below(s1.parents, n, n + 1);
            lemma_children_in_range(s1.parents, n, n + 1);
            if cs.len() > 0 {
                lemma_children_suffix(s1.parents, n, n + 1, 0);
                if cs[0] < n {
                    assert(s1.parents[cs[0]] == s.parents[cs[0]]);
                }
            }
            assert(cs.len() == 0);
            assert(frames.drop_first()[0] == frames[1]);
        }
        lemma_fresh_path(s1, n, frames.drop_first());
    }
}

/// Record one line of a collapsed stack file, numbered `line_no`, in `tree`:
/// blank lines are skipped; a sample line adds its count to the node at the
/// end of its stack, creating the missing frames.
pub fn load_line(tree: &mut FlameTree, line: &str, line_no: usize) -> (r: Result<(), Error>)
    requires
        old(tree).wf(),
    ensures
        final(tree).wf(),
        match parse_line(line@) {
            LineSpec::Blank => r is Ok && *final(tree) == *old(tree),
            LineSpec::Bad => (r matches Err(Error::BadLine(n)) && n == line_no) && *final(tree)
                == *old(tree),
            LineSpec::Sample { frames, count } => if path_size(old(tree).shape(), frames) > u32::MAX + 1 {
                (r matches Err(Error::TooLarge(n)) && n == line_no) && *final(tree) == *old(tree)
            } else {
                r is Ok && final(tree).shape() == shape_record(old(tree).shape(), frames, count)
            },
        },
{
    reveal(parse_line);
    let t = trim(line);
    if t.is_empty() {
        return Ok(());
    }
    let b = t.as_bytes();
    let ghost tb = t.spec_bytes();
    proof {
        lemma_last_index_of(tb, 32);
    }
    let k = match rfind_byte(b, 32) {
        None => {
            return Err(Error::BadLine(line_no));
        },
        Some(k) => k,
    };
    proof {
        lemma_ascii_byte_boundaries(tb, k as int);
    }
    let (stack, cnt) = t.split_at(k);
    let c = trim_start(cnt);
    proof {
        assert(decode_utf8(encode_utf8(cnt@)) == cnt@);
        assert(cnt.spec_bytes() == tb.subrange(k as int, tb.len() as int));
    }
    let count = match parse_u64(c.as_bytes()) {
        None => {
            return Err(Error::BadLine(line_no));
        },
        Some(v) => v,
    };
    let frames = split_frames(stack);
    let ghost fs = stack_frames(tb.subrange(0, k as int));
    proof {
        assert(stack.spec_bytes() == tb.subrange(0, k as int));
    }
    let n = tree.node_count();
    proof {
        tree.lemma_wf_parents();
    }
    let ghost s0 = tree.shape();
    let mut parent: NodeId = tree.root();
    let mut found: usize = 0;
    proof {
        assert(fs.skip(0) =~= fs);
    }
    while found < frames.len()
        invariant_except_break
            tree.wf(),
            s0 == tree.shape(),
            n == tree.len(),
            found <= frames@.len(),
            frames@.len() == fs.len(),
            forall|j: int| 0 <= j < frames@.len() ==> (#[trigger] frames@[j])@ == fs[j],
            (parent as int) < tree.len(),
            shape_insert_path(s0, 0, fs) == shape_insert_path(s0, parent as int, fs.skip(found as int)),
        ensures
            tree.wf(),
            s0 == tree.shape(),
            found <= frames@.len(),
            (parent as int) < tree.len(),
            shape_insert_path(s0, 0, fs) == shape_insert_path(s0, parent as int, fs.skip(found as int)),
            found < frames@.len() ==> shape_child(s0, parent as int, fs[found as int]) is None,
        decreases frames@.len() - found,
    {
        match tree.find_child(parent, frames[found]) {
            Some(c) => {
                proof {
                    assert(fs.skip(found as int).drop_first() =~= fs.skip(found + 1));
                    assert(fs.skip(found as int)[0] == fs[found as int]);
                    tree.lemma_wf_parents();
                    lemma_first_named_in(s0.names, tree.children(parent as int), fs[found as int]);
                    lemma_children_in_range(s0.parents, parent as int, n as int);
                }
                parent = c;
                found = found + 1;
            },
            None => {
                break;
            },
        }
    }
    proof {
        tree.lemma_wf_parents();
        let rest = fs.skip(found as int);
        if found < frames@.len() {
            assert(rest[0] == fs[found as int]);
        } else {
            assert(rest =~= Seq::<Seq<char>>::empty());
        }
        if n + rest.len() <= u32::MAX + 2 {
            lemma_fresh_path(s0, parent as int, rest);
        } else {
            let l = u32::MAX + 2 - n;
            let a = rest.take(l);
            let b = rest.skip(l);
            assert(a + b =~= rest);
            assert(a[0] == rest[0]);
            lemma_fresh_path(s0, parent as int, a);
            lemma_insert_path_split(s0, parent as int, a, b);
            let (s1, c) = shape_insert_path(s0, parent as int, a);
            lemma_insert_path_grows(s1, c, b);
        }
    }
    let fresh = frames.len() - found;
    if fresh as u64 > (u32::MAX as u64 + 1) - (n as u64) {
        return Err(Error::TooLarge(line_no));
    }
    let mut parent: NodeId = tree.root();
    let mut i: usize = 0;
    while i < frames.len()
        invariant
            tree.wf(),
            i <= frames@.len(),
            frames@.len() == fs.len(),
            forall|j: int| 0 <= j < frames@.len() ==> (#[trigger] frames@[j])@ == fs[j],
            (parent as int) < tree.len(),
            path_size(s0, fs) <= u32::MAX + 1,
            shape_insert_path(s0, 0, fs) == shape_insert_path(tree.shape(), parent as int, fs.skip(i as int)),
        decreases frames@.len() - i,
    {
        let ghost before = tree.shape();
        let ghost before_len = tree.len();
        proof {
            assert(fs.skip(i as int).drop_first() =~= fs.skip(i + 1));
            assert(fs.skip(i as int)[0] == fs[i as int]);
            let (s1, c) = shape_get_or_insert(before, parent as int, fs[i as int]);
            lemma_insert_path_grows(s1, c, fs.skip(i + 1));
            assert(before.names.len() == before_len);
        }
        let id = tree.get_or_insert_child(parent, frames[i]);
        parent = id;
        i = i + 1;
    }
    proof {
        assert(fs.skip(i as int) =~= Seq::<Seq<char>>::empty());
    }
    tree.add_samples(parent, count);
    Ok(())
}


/// The lines a reader hands out one by one: the pieces between newlines,
/// without the empty piece after a final newline.
pub open spec fn line_pieces(b: Seq<u8>) -> Seq<Seq<u8>> {
    let parts = split_bytes(b, 10);
    if parts.len() > 0 && parts.last().len() == 0 {
        parts.drop_last()
    } else {
        parts
    }
}

/// Why loading a sequence of lines stops.
pub enum LoadFailure {
    /// A line is not valid UTF-8.
    Unreadable,
    /// The line with this number is not `stack count`.
    BadLine(int),
    /// The line with this number would grow the tree past the largest `NodeId`.
    TooLarge(int),
}

/// The shape of a new tree: just the root.
pub open spec fn root_shape() -> Shape {
    Shape { names: seq!["root"@], parents: seq![0u32], counts: seq![0u64] }
}

/// Loading `lines` into a tree of shape `s`, the first line numbered `line_no`.
pub open spec fn load_lines(s: Shape, lines: Seq<Seq<u8>>, line_no: int) -> Result<
    Shape,
    LoadFailure,
>
    decreases lines.len(),
{
    if lines.len() == 0 {
        Ok(s)
    } else if !valid_utf8(lines[0]) {
        Err(LoadFailure::Unreadable)
    } else {
        match parse_line(decode_utf8(lines[0])) {
            LineSpec::Blank => load_lines(s, lines.drop_first(), line_no + 1),
            LineSpec::Bad => Err(LoadFailure::BadLine(line_no)),
            LineSpec::Sample { frames, count } => if path_size(s, frames) > u32::MAX + 1 {
                Err(LoadFailure::TooLarge(line_no))
            } else {
                load_lines(shape_record(s, frames, count), lines.drop_first(), line_no + 1)
            },
        }
    }
}

/// The sum of the counts of the sample lines among `lines`.
pub open spec fn sample_total(lines: Seq<Seq<u8>>) -> int
    decreases lines.len(),
{
    if lines.len() == 0 {
        0
    } else {
        sample_total(lines.drop_first()) + match parse_line(decode_utf8(lines[0])) {
            LineSpec::Sample { frames, count } => count as int,
            _ => 0,
        }
    }
}

pub proof fn lemma_line_pieces_step(b: Seq<u8>)
    requires
        b.len() > 0,
    ensures
        first_index_of(b, 10) matches Some(k) ==> line_pieces(b) == seq![b.take(k)] + line_pieces(
            b.skip(k + 1),
        ),
        first_index_of(b, 10) is None ==> line_pieces(b) == seq![b],
{
    lemma_first_index_of(b, 10);
    if let Some(k) = first_index_of(b, 10) {
        let rest = b.skip(k + 1);
        let parts = split_bytes(rest, 10);
        lemma_split_bytes_nonempty(rest, 10);
        assert(split_bytes(b, 10) == seq![b.take(k)] + parts);
        if parts.last().len() == 0 {
            assert((seq![b.take(k)] + parts).drop_last() =~= seq![b.take(k)] + parts.drop_last());
        }
    }
}

pub proof fn lemma_split_bytes_nonempty(b: Seq<u8>, sep: u8)
    ensures
        split_bytes(b, sep).len() > 0,
    decreases b.len(),
{
    lemma_first_index_of(b, sep);
    if let Some(k) = first_index_of(b, sep) {
        lemma_split_bytes_nonempty(b.skip(k + 1), sep);
    }
}

/// A shape whose sequences agree in length and hold at least the root.
pub open spec fn shape_sized(s: Shape) -> bool {
    &&& s.names.len() == s.parents.len()
    &&& s.names.len() == s.counts.len()
    &&& s.names.len() >= 1
}

pub proof fn lemma_insert_path_keeps_sum(s: Shape, p: int, frames: Seq<Seq<char>>)
    requires
        shape_sized(s),
        0 <= p < s.counts.len(),
    ensures
        ({
            let (s1, leaf) = shape_insert_path(s, p, frames);
            &&& shape_sized(s1)
            &&& sum_counts(s1.counts) == sum_counts(s.counts)
            &&& 0 <= leaf < s1.counts.len()
        }),
    decreases frames.len(),
{
    if frames.len() > 0 {
        let (s1, c) = shape_get_or_insert(s, p, frames[0]);
        let cs = children_below(s.parents, p, s.names.len() as int);
        lemma_first_named_in(s.names, cs, frames[0]);
        lemma_children_in_range(s.parents, p, s.names.len() as int);
        if let Some(j) = first_named(s.names, cs, frames[0]) {
            let k = choose|k: int| 0 <= k < cs.len() && cs[k] == j;
            assert(1 <= cs[k] < s.names.len());
        } else {
            assert(s1.counts.drop_last() =~= s.counts);
        }
        lemma_insert_path_keeps_sum(s1, c, frames.drop_first());
    }
}

pub proof fn lemma_count_le_sum(c: Seq<u64>, k: int)
    requires
        0 <= k < c.len(),
    ensures
        c[k] <= sum_counts(c),
    decreases c.len(),
{
    lemma_sum_counts_nonneg(c.drop_last());
    if k < c.len() - 1 {
        lemma_count_le_sum(c.drop_last(), k);
    }
}

pub proof fn lemma_sample_total_nonneg(lines: Seq<Seq<u8>>)
    ensures
        sample_total(lines) >= 0,
    decreases lines.len(),
{
    if lines.len() > 0 {
        lemma_sample_total_nonneg(lines.drop_first());
    }
}

/// Loading keeps the saturated sum of the own counts equal to the saturated
/// sum of everything the sample lines count: samples are neither lost nor
/// counted twice.
pub proof fn lemma_load_lines_total(s: Shape, lines: Seq<Seq<u8>>, line_no: int)
    requires
        shape_sized(s),
    ensures
        load_lines(s, lines, line_no) matches Ok(s2) ==> shape_sized(s2) && sat(sum_counts(s2.counts))
            == sat(sum_counts(s.counts) + sample_total(lines)) && sum_counts(s2.counts) >= sum_counts(
            s.counts,
        ),
    decreases lines.len(),
{
    if lines.len() > 0 && valid_utf8(lines[0]) {
        lemma_sample_total_nonneg(lines.drop_first());
        lemma_sum_counts_nonneg(s.counts);
        match parse_line(decode_utf8(lines[0])) {
            LineSpec::Blank => {
                lemma_load_lines_total(s, lines.drop_first(), line_no + 1);
            },
            LineSpec::Bad => {},
            LineSpec::Sample { frames, count } => {
                if path_size(s, frames) <= u32::MAX + 1 {
                    let (si, leaf) = shape_insert_path(s, 0, frames);
                    lemma_insert_path_keeps_sum(s, 0, frames);
                    let s1 = shape_record(s, frames, count);
                    let c = si.counts[leaf];
                    lemma_sum_counts_update(si.counts, leaf, sat(c + count));
                    lemma_count_le_sum(si.counts, leaf);
                    lemma_load_lines_total(s1, lines.drop_first(), line_no + 1);
                }
            },
        }
    }
}

/// One more line, numbered `line_no`, loaded into a tree of shape `s`.
pub open spec fn line_step(s: Shape, line: Seq<char>, line_no: int) -> Result<Shape, LoadFailure> {
    match parse_line(line) {
        LineSpec::Blank => Ok(s),
        LineSpec::Bad => Err(LoadFailure::BadLine(line_no)),
        LineSpec::Sample { frames, count } => if path_size(s, frames) > u32::MAX + 1 {
            Err(LoadFailure::TooLarge(line_no))
        } else {
            Ok(shape_record(s, frames, count))
        },
    }
}

/// Loading the text lines `lines`, numbered from 1, into a new tree; the
/// first line that fails stops loading.
pub open spec fn load_text(lines: Seq<Seq<char>>) -> Result<Shape, LoadFailure>
    decreases lines.len(),
{
    if lines.len() == 0 {
        Ok(root_shape())
    } else {
        match load_text(lines.drop_last()) {
            Ok(s) => line_step(s, lines.last(), lines.len() as int),
            Err(e) => Err(e),
        }
    }
}

/// A load that ended in `res` agrees with loading `lines`: a tree is what
/// loading them gives, and a rejected line is where loading them stops.
pub open spec fn agrees_with(res: Result<FlameTree, Error>, lines: Seq<Seq<char>>) -> bool {
    match res {
        Ok(t) => load_text(lines) == Ok::<Shape, LoadFailure>(t.shape()),
        Err(Error::BadLine(n)) => load_text(lines) == Err::<Shape, LoadFailure>(LoadFailure::BadLine(n as int)),
        Err(Error::TooLarge(n)) => load_text(lines) == Err::<Shape, LoadFailure>(LoadFailure::TooLarge(n as int))
            || n == usize::MAX,
        Err(Error::Io(_)) => true,
    }
}

/// Once loading text lines fails, more lines change nothing.
proof fn lemma_load_text_stays_failed(a: Seq<Seq<char>>, b: Seq<Seq<char>>)
    requires
        load_text(a) is Err,
    ensures
        load_text(a + b) == load_text(a),
    decreases b.len(),
{
    if b.len() == 0 {
        assert(a + b =~= a);
    } else {
        lemma_load_text_stays_failed(a, b.drop_last());
        assert((a + b).drop_last() =~= a + b.drop_last());
    }
}

/// The text of byte lines.
pub open spec fn decoded(lines: Seq<Seq<u8>>) -> Seq<Seq<char>> {
    lines.map_values(|l: Seq<u8>| decode_utf8(l))
}

/// Loading byte lines after the text lines `a` is loading their text after
/// `a`.
proof fn lemma_load_lines_as_text(a: Seq<Seq<char>>, s: Shape, b: Seq<Seq<u8>>)
    requires
        load_text(a) == Ok::<Shape, LoadFailure>(s),
        forall|i: int| 0 <= i < b.len() ==> valid_utf8(#[trigger] b[i]),
    ensures
        load_lines(s, b, a.len() as int + 1) == load_text(a + decoded(b)),
    decreases b.len(),
{
    if b.len() == 0 {
        assert(a + decoded(b) =~= a);
    } else {
        let x = decode_utf8(b[0]);
        let a2 = a.push(x);
        let rest = b.drop_first();
        assert(a2.drop_last() =~= a);
        assert(a + decoded(b) =~= a2 + decoded(rest));
        assert forall|i: int| 0 <= i < rest.len() implies valid_utf8(#[trigger] rest[i]) by {
            assert(rest[i] == b[i + 1]);
        }
        assert(valid_utf8(b[0]));
        match line_step(s, x, a.len() as int + 1) {
            Ok(s2) => {
                lemma_load_lines_as_text(a2, s2, rest);
            },
            Err(_) => {
                lemma_load_text_stays_failed(a2, decoded(rest));
            },
        }
    }
}

/// A slice of valid UTF-8 loads as its lines do, one after another, by the
/// same rule that loading from a reader applies to the lines it reads.
pub proof fn lemma_slice_loads_its_lines(data: Seq<u8>)
    requires
        forall|i: int| 0 <= i < line_pieces(data).len() ==> valid_utf8(#[trigger] line_pieces(data)[i]),
    ensures
        load_lines(root_shape(), line_pieces(data), 1) == load_text(decoded(line_pieces(data))),
{
    assert(Seq::<Seq<char>>::empty() + decoded(line_pieces(data)) =~= decoded(line_pieces(data)));
    lemma_load_lines_as_text(Seq::empty(), root_shape(), line_pieces(data));
}

/// The lines `lines`, those marked in `nl` ending in a newline.
pub open spec fn with_newlines(lines: Seq<Seq<char>>, nl: Seq<bool>) -> Seq<Seq<char>> {
    Seq::new(lines.len(), |i: int| if nl[i] { lines[i].push('\n') } else { lines[i] })
}

/// Whether the lines keep their newlines does not change what loading them
/// gives: a reader that hands out the lines of a text, newlines and all,
/// loads as the text's lines do.
pub proof fn lemma_newlines_do_not_matter(lines: Seq<Seq<char>>, nl: Seq<bool>)
    requires
        nl.len() == lines.len(),
    ensures
        load_text(with_newlines(lines, nl)) == load_text(lines),
    decreases lines.len(),
{
    if lines.len() > 0 {
        let n = lines.len() - 1;
        let w = with_newlines(lines, nl);
        assert(w.drop_last() =~= with_newlines(lines.drop_last(), nl.drop_last()));
        lemma_newlines_do_not_matter(lines.drop_last(), nl.drop_last());
        if nl[n] {
            lemma_trim_newline(lines[n]);
            reveal(parse_line);
            assert(parse_line(w[n]) == parse_line(lines[n]));
        }
    }
}

/// Calls `std::io::Error::new` with `ErrorKind::InvalidData`: the error a
/// reader gives for a line that is not valid UTF-8.
#[verifier::external_body]
fn invalid_utf8_error() -> std::io::Error {
    std::io::Error::new(std::io::ErrorKind::InvalidData, "stream did not contain valid UTF-8")
}

/// Cut the first line off `rest`: the bytes before the first newline, and
/// what follows that newline.
pub(crate) fn next_line(rest: &[u8]) -> (r: (&[u8], &[u8]))
    requires
        rest@.len() > 0,
    ensures
        line_pieces(rest@) == seq![r.0@] + line_pieces(r.1@),
        r.1@.len() < rest@.len(),
        forall|k: int| 0 <= k < r.0@.len() ==> r.0@[k] != 10,
{
    let ghost rb = rest@;
    proof {
        lemma_line_pieces_step(rb);
        lemma_first_index_of(rb, 10);
    }
    match find_byte(rest, 10) {
        Some(k) => {
            let (line, after) = rest.split_at(k);
            let (_nl, next) = after.split_at(1);
            proof {
                assert(line@ =~= rb.take(k as int));
                assert(next@ =~= rb.skip(k + 1));
            }
            (line, next)
        },
        None => {
            let (line, next) = rest.split_at(rest.len());
            proof {
                assert(line@ =~= rb);
                assert(next@ =~= Seq::<u8>::empty());
                assert(split_bytes(next@, 10) == seq![next@]);
                assert(line_pieces(next@) =~= Seq::<Seq<u8>>::empty());
            }
            (line, next)
        },
    }
}

/// Load a flamegraph from an in-memory slice of UTF-8 bytes, line by line as
/// a reader would hand them out.
pub fn load_slice(data: &[u8]) -> (r: Result<FlameTree, Error>)
    requires
        data@.len() < usize::MAX,
    ensures
        match load_lines(root_shape(), line_pieces(data@), 1) {
            Ok(s) => r matches Ok(t) && t.wf() && t.shape() == s,
            Err(LoadFailure::Unreadable) => r matches Err(Error::Io(_)),
            Err(LoadFailure::BadLine(n)) => r matches Err(Error::BadLine(m)) && m == n,
            Err(LoadFailure::TooLarge(n)) => r matches Err(Error::TooLarge(m)) && m == n,
        },
        r matches Ok(t) ==> t.nodes()[0].total_count == sat(sample_total(line_pieces(data@))),
        (forall|i: int| 0 <= i < line_pieces(data@).len() ==> valid_utf8(#[trigger] line_pieces(data@)[i]))
            ==> agrees_with(r, decoded(line_pieces(data@))),
{
    proof {
        if forall|i: int| 0 <= i < line_pieces(data@).len() ==> valid_utf8(#[trigger] line_pieces(data@)[i]) {
            lemma_slice_loads_its_lines(data@);
        }
        lemma_load_lines_total(root_shape(), line_pieces(data@), 1);
        assert(sum_counts(root_shape().counts) == 0) by {
            assert(root_shape().counts.drop_last() =~= Seq::<u64>::empty());
            reveal_with_fuel(sum_counts, 2);
        }
    }
    let mut tree = FlameTree::new();
    proof {
        assert(tree.shape().names =~= root_shape().names);
        assert(tree.shape().counts =~= root_shape().counts);
    }
    let mut rest = data;
    let mut line_no: usize = 0;
    let ghost full = line_pieces(data@);
    proof {
        assert(split_bytes(Seq::<u8>::empty(), 10) == seq![Seq::<u8>::empty()]);
    }
    while rest.len() > 0
        invariant
            tree.wf(),
            line_no + rest@.len() <= data@.len(),
            data@.len() < usize::MAX,
            full == line_pieces(data@),
            load_lines(root_shape(), full, 1) == load_lines(tree.shape(), line_pieces(rest@), line_no + 1),
            (forall|i: int| 0 <= i < full.len() ==> valid_utf8(#[trigger] full[i])) ==> load_lines(
                root_shape(),
                full,
                1,
            ) == load_text(decoded(full)),
        decreases rest@.len(),
    {
        let (line, next) = next_line(rest);
        let ghost before = tree.shape();
        let ghost pieces = line_pieces(rest@);
        proof {
            assert(pieces[0] == line@);
            assert(pieces.len() > 0);
            assert(pieces.drop_first() =~= line_pieces(next@));
        }
        line_no = line_no + 1;
        match from_utf8(line) {
            None => {
                proof {
                    assert(!valid_utf8(pieces[0]));
                    assert(load_lines(before, pieces, line_no as int) == Err::<Shape, LoadFailure>(
                        LoadFailure::Unreadable,
                    ));
                }
                return Err(Error::Io(invalid_utf8_error()));
            },
            Some(text) => {
                proof {
                    assert(decode_utf8(encode_utf8(text@)) == text@);
                    assert(valid_utf8(pieces[0]));
                    assert(decode_utf8(pieces[0]) == text@);
                }
                match load_line(&mut tree, text, line_no) {
                    Ok(()) => {},
                    Err(e) => {
                        return Err(e);
                    },
                }
            },
        }
        rest = next;
    }
    proof {
        tree.lemma_total_samples_is_sum();
    }
    Ok(tree)
}


/// Calls `BufRead::read_line`, which appends the next line of `reader` to
/// `buf` and returns the number of bytes read, 0 at the end of the input.
/// Trusted, with no claim: what a reader hands out, and whether it keeps to
/// that documented behaviour, is the reader's own affair (`R` may be any
/// implementation).
#[verifier::external_body]
fn read_line<R: std::io::BufRead>(reader: &mut R, buf: &mut String) -> (r: Result<
    usize,
    std::io::Error,
>)
{
    reader.read_line(buf)
}

#[verifier::external_type_specification]
#[verifier::external_body]
#[verifier::reject_recursive_types(R)]
pub struct ExBufReader<R: ?Sized>(std::io::BufReader<R>);

/// Calls `std::io::BufReader::new`, which wraps `r` with a buffer. Trusted:
/// nothing is claimed of the result.
#[verifier::external_body]
fn buffered<R: std::io::Read>(r: R) -> std::io::BufReader<R> {
    std::io::BufReader::new(r)
}

/// Load a flamegraph from any reader, through a buffer.
pub fn load<R: std::io::Read>(r: R) -> (res: Result<FlameTree, Error>)
    ensures
        res matches Ok(t) ==> t.wf(),
        res matches Err(Error::BadLine(n)) ==> n >= 1,
        res matches Err(Error::TooLarge(n)) ==> n >= 1,
        exists|lines: Seq<Seq<char>>| agrees_with(res, lines),
{
    load_stream(buffered(r))
}

/// Load a flamegraph from a buffered reader, line by line. The tree, or the
/// line that was rejected, is what loading the lines read gives (which
/// lines a reader hands out is its own affair).
pub fn load_stream<R: std::io::BufRead>(r: R) -> (res: Result<FlameTree, Error>)
    ensures
        res matches Ok(t) ==> t.wf(),
        res matches Err(Error::BadLine(n)) ==> n >= 1,
        res matches Err(Error::TooLarge(n)) ==> n >= 1,
        exists|lines: Seq<Seq<char>>| agrees_with(res, lines),
{
    let mut r = r;
    let mut tree = FlameTree::new();
    let mut line_no: usize = 0;
    let ghost mut lines: Seq<Seq<char>> = Seq::empty();
    proof {
        assert(tree.names() =~= root_shape().names);
        assert(tree.self_counts() =~= root_shape().counts);
        assert(tree.parents() =~= root_shape().parents);
        assert(tree.shape() == root_shape());
    }
    loop
        invariant
            tree.wf(),
            lines.len() == line_no,
            load_text(lines) == Ok::<Shape, LoadFailure>(tree.shape()),
        decreases usize::MAX - line_no,
    {
        let mut buf = String::new();
        let n = match read_line(&mut r, &mut buf) {
            Ok(n) => n,
            Err(e) => {
                let res = Err(Error::Io(e));
                assert(agrees_with(res, lines));
                return res;
            },
        };
        if n == 0 {
            break ;
        }
        if line_no == usize::MAX {
            let res = Err(Error::TooLarge(line_no));
            assert(agrees_with(res, lines));
            return res;
        }
        line_no = line_no + 1;
        let ghost before = tree.shape();
        proof {
            let ghost prev = lines;
            lines = lines.push(buf@);
            assert(lines.drop_last() =~= prev);
        }
        match load_line(&mut tree, buf.as_str(), line_no) {
            Ok(()) => {},
            Err(e) => {
                let res = Err(e);
                assert(agrees_with(res, lines));
                return res;
            },
        }
    }
    let res = Ok(tree);
    assert(agrees_with(res, lines));
    res
}

} // verus!
