//! Byte-level helpers on UTF-8 text.
use vstd::prelude::*;
use vstd::utf8::*;
use vstd::string::StringSliceAdditionalSpecFns;

verus! {

broadcast use vstd::utf8::encode_utf8_decode_utf8, vstd::utf8::encode_utf8_valid_utf8;

/// The UTF-8 encoding of a string slice determines its characters.
pub proof fn lemma_bytes_determine_chars(a: &str, b: &str)
    ensures
        (a.spec_bytes() == b.spec_bytes()) == (a@ == b@),
{
    if a.spec_bytes() == b.spec_bytes() {
        assert(decode_utf8(encode_utf8(a@)) == a@);
        assert(decode_utf8(encode_utf8(b@)) == b@);
    }
}

/// In valid UTF-8, an ASCII byte is a whole character: there are character
/// boundaries on both sides of it.
pub proof fn lemma_ascii_byte_boundaries(b: Seq<u8>, k: int)
    requires
        valid_utf8(b),
        0 <= k < b.len(),
        b[k] < 0x80,
    ensures
        is_char_boundary(b, k),
        is_char_boundary(b, k + 1),
{
    is_char_boundary_iff_not_is_continuation_byte(b, k);
    if k + 1 == b.len() {
        is_char_boundary_start_end_of_seq(b);
    } else {
        let s = b.subrange(k, b.len() as int);
        valid_utf8_split(b, k);
        assert(s[0] == b[k]);
        assert(valid_utf8(s));
        assert(pop_first_scalar(s) =~= s.subrange(1, s.len() as int));
        let t = pop_first_scalar(s);
        assert(valid_utf8(t));
        assert(t.len() > 0);
        assert(valid_first_scalar(t));
        assert(t[0] == b[k + 1]);
        is_char_boundary_iff_not_is_continuation_byte(b, k + 1);
    }
}

/// Compare two string slices for equality, byte by byte.
pub fn str_eq(a: &str, b: &str) -> (r: bool)
    ensures
        r == (a@ == b@),
{
    let x = a.as_bytes();
    let y = b.as_bytes();
    proof {
        lemma_bytes_determine_chars(a, b);
    }
    if x.len() != y.len() {
        return false;
    }
    let mut i: usize = 0;
    while i < x.len()
        invariant
            x.len() == y.len(),
            x@ == a.spec_bytes(),
            y@ == b.spec_bytes(),
            i <= x.len(),
            forall|k: int| 0 <= k < i ==> x@[k] == y@[k],
        decreases x.len() - i,
    {
        if x[i] != y[i] {
            return false;
        }
        i = i + 1;
    }
    assert(x@ =~= y@);
    true
}


/// The characters with the Unicode `White_Space` property.
pub open spec fn is_white_space(c: char) -> bool {
    let u = c as u32;
    ||| 0x9 <= u <= 0xD
    ||| u == 0x20
    ||| u == 0x85
    ||| u == 0xA0
    ||| u == 0x1680
    ||| 0x2000 <= u <= 0x200A
    ||| u == 0x2028
    ||| u == 0x2029
    ||| u == 0x202F
    ||| u == 0x205F
    ||| u == 0x3000
}

/// Number of white-space characters at the start of `s`.
pub open spec fn leading_ws(s: Seq<char>) -> nat
    decreases s.len(),
{
    if s.len() > 0 && is_white_space(s[0]) {
        1 + leading_ws(s.drop_first())
    } else {
        0
    }
}

/// Number of white-space characters at the end of `s`.
pub open spec fn trailing_ws(s: Seq<char>) -> nat
    decreases s.len(),
{
    if s.len() > 0 && is_white_space(s.last()) {
        1 + trailing_ws(s.drop_last())
    } else {
        0
    }
}

pub proof fn lemma_ws_counts_bounded(s: Seq<char>)
    ensures
        leading_ws(s) <= s.len(),
        trailing_ws(s) <= s.len(),
    decreases s.len(),
{
    if s.len() > 0 {
        lemma_ws_counts_bounded(s.drop_first());
        lemma_ws_counts_bounded(s.drop_last());
    }
}

/// `s` without its leading white space.
pub open spec fn trim_start_chars(s: Seq<char>) -> Seq<char> {
    s.skip(leading_ws(s) as int)
}

/// `s` without its leading and trailing white space.
pub open spec fn trim_chars(s: Seq<char>) -> Seq<char> {
    let t = trim_start_chars(s);
    t.take(t.len() - trailing_ws(t))
}

/// Appending `c` to `s` leaves its leading white space as it was, unless
/// `s` is all white space.
pub proof fn lemma_leading_ws_push(s: Seq<char>, c: char)
    ensures
        leading_ws(s.push(c)) as int == if leading_ws(s) == s.len() && is_white_space(c) {
            s.len() as int + 1
        } else if leading_ws(s) == s.len() {
            s.len() as int
        } else {
            leading_ws(s) as int
        },
    decreases s.len(),
{
    let s2 = s.push(c);
    if s.len() == 0 {
        assert(s2.drop_first() =~= Seq::<char>::empty());
        assert(leading_ws(Seq::<char>::empty()) == 0);
        assert(s2[0] == c);
    } else {
        assert(s2[0] == s[0]);
        assert(s2.drop_first() =~= s.drop_first().push(c));
        lemma_leading_ws_push(s.drop_first(), c);
        if is_white_space(s[0]) {
            assert(leading_ws(s2) == 1 + leading_ws(s.drop_first().push(c)));
            assert(leading_ws(s) == 1 + leading_ws(s.drop_first()));
        } else {
            assert(leading_ws(s2) == 0);
            assert(leading_ws(s) == 0);
        }
    }
}

/// A trailing newline is trimmed away with the rest of the white space.
pub proof fn lemma_trim_newline(s: Seq<char>)
    ensures
        trim_chars(s.push('\n')) == trim_chars(s),
{
    let s2 = s.push('\n');
    lemma_leading_ws_push(s, '\n');
    lemma_ws_counts_bounded(s);
    let k = leading_ws(s) as int;
    let t = trim_start_chars(s);
    let t2 = trim_start_chars(s2);
    if k == s.len() {
        assert(t =~= Seq::<char>::empty());
        assert(t2 =~= Seq::<char>::empty());
    } else {
        assert(t2 =~= t.push('\n'));
        assert(t2.drop_last() =~= t);
        lemma_ws_counts_bounded(t);
        assert(trailing_ws(t2) == trailing_ws(t) + 1);
        assert(t2.take(t2.len() - trailing_ws(t2)) =~= t.take(t.len() - trailing_ws(t)));
    }
}

/// Calls `str::trim`, which returns the slice of `s` left once the leading
/// and trailing characters with the Unicode `White_Space` property are
/// removed. Trusted: the contract restates that documented behaviour.
#[verifier::external_body]
pub(crate) fn trim(s: &str) -> (r: &str)
    ensures
        r@ == trim_chars(s@),
{
    s.trim()
}

/// Calls `str::trim_start`, which returns the slice of `s` left once the
/// leading characters with the Unicode `White_Space` property are removed.
/// Trusted: the contract restates that documented behaviour.
#[verifier::external_body]
pub(crate) fn trim_start(s: &str) -> (r: &str)
    ensures
        r@ == trim_start_chars(s@),
{
    s.trim_start()
}

/// Number of characters at the start of `s` that are not white space.
pub open spec fn leading_non_ws(s: Seq<char>) -> nat
    decreases s.len(),
{
    if s.len() > 0 && !is_white_space(s[0]) {
        1 + leading_non_ws(s.drop_first())
    } else {
        0
    }
}

pub proof fn lemma_leading_non_ws_bounded(s: Seq<char>)
    ensures
        leading_non_ws(s) <= s.len(),
    decreases s.len(),
{
    if s.len() > 0 {
        lemma_leading_non_ws_bounded(s.drop_first());
    }
}

/// The words of `s`: its maximal runs of characters that are not white
/// space, in order.
pub open spec fn words(s: Seq<char>) -> Seq<Seq<char>>
    decreases s.len(),
{
    let t = trim_start_chars(s);
    let w = leading_non_ws(t);
    if t.len() == 0 || w == 0 || t.len() > s.len() || w > t.len() {
        Seq::empty()
    } else {
        seq![t.take(w as int)] + words(t.skip(w as int))
    }
}

/// Calls `str::split_whitespace` and copies each word into a `String`; it
/// splits at characters with the Unicode `White_Space` property and drops
/// the empty pieces. Trusted: the contract restates that behaviour.
#[verifier::external_body]
pub(crate) fn split_whitespace(s: &str) -> (r: Vec<String>)
    ensures
        r@.len() == words(s@).len(),
        forall|i: int| 0 <= i < r@.len() ==> (#[trigger] r@[i])@ == words(s@)[i],
{
    s.split_whitespace().map(|w| w.to_string()).collect()
}

/// Calls `std::str::from_utf8`, which accepts exactly the byte sequences
/// that are valid UTF-8 and then views the same bytes as text. Trusted:
/// the contract restates that documented behaviour with vstd's UTF-8 model.
#[verifier::external_body]
pub(crate) fn from_utf8(b: &[u8]) -> (r: Option<&str>)
    ensures
        r is Some <==> valid_utf8(b@),
        r matches Some(s) ==> s.spec_bytes() == b@,
{
    std::str::from_utf8(b).ok()
}

/// Index of the last occurrence of `x` in `b`.
pub open spec fn last_index_of(b: Seq<u8>, x: u8) -> Option<int>
    decreases b.len(),
{
    if b.len() == 0 {
        None
    } else if b.last() == x {
        Some(b.len() - 1)
    } else {
        last_index_of(b.drop_last(), x)
    }
}

/// Index of the first occurrence of `x` in `b`.
pub open spec fn first_index_of(b: Seq<u8>, x: u8) -> Option<int>
    decreases b.len(),
{
    if b.len() == 0 {
        None
    } else if b[0] == x {
        Some(0)
    } else {
        match first_index_of(b.drop_first(), x) {
            Some(k) => Some(k + 1),
            None => None,
        }
    }
}

pub proof fn lemma_last_index_of(b: Seq<u8>, x: u8)
    ensures
        last_index_of(b, x) matches Some(k) ==> 0 <= k < b.len() && b[k] == x && forall|j: int|
            k < j < b.len() ==> b[j] != x,
        last_index_of(b, x) is None ==> forall|j: int| 0 <= j < b.len() ==> b[j] != x,
    decreases b.len(),
{
    if b.len() > 0 {
        lemma_last_index_of(b.drop_last(), x);
        assert forall|j: int| 0 <= j < b.len() - 1 implies b[j] == b.drop_last()[j] by {}
    }
}

pub proof fn lemma_first_index_of(b: Seq<u8>, x: u8)
    ensures
        first_index_of(b, x) matches Some(k) ==> 0 <= k < b.len() && b[k] == x && forall|j: int|
            0 <= j < k ==> b[j] != x,
        first_index_of(b, x) is None ==> forall|j: int| 0 <= j < b.len() ==> b[j] != x,
    decreases b.len(),
{
    if b.len() > 0 {
        lemma_first_index_of(b.drop_first(), x);
        if b[0] != x {
            assert forall|j: int| 1 <= j < b.len() implies b[j] == b.drop_first()[j - 1] by {}
        }
    }
}

/// The pieces of `b` between occurrences of `sep`, as `str::split` cuts them.
pub open spec fn split_bytes(b: Seq<u8>, sep: u8) -> Seq<Seq<u8>>
    decreases b.len(),
{
    match first_index_of(b, sep) {
        Some(k) => if 0 <= k < b.len() {
            seq![b.take(k)] + split_bytes(b.skip(k + 1), sep)
        } else {
            seq![b]
        },
        None => seq![b],
    }
}

/// Find the last occurrence of `x` in `b`.
pub fn rfind_byte(b: &[u8], x: u8) -> (r: Option<usize>)
    ensures
        opt_usize(r) == last_index_of(b@, x),
{
    let mut i = b.len();
    assert(b@.take(i as int) =~= b@);
    while i > 0
        invariant
            i <= b.len(),
            last_index_of(b@, x) == last_index_of(b@.take(i as int), x),
        decreases i,
    {
        if b[i - 1] == x {
            return Some(i - 1);
        }
        assert(b@.take(i as int).drop_last() =~= b@.take(i - 1));
        i = i - 1;
    }
    None
}

/// Find the first occurrence of `x` in `b`.
pub fn find_byte(b: &[u8], x: u8) -> (r: Option<usize>)
    ensures
        opt_usize(r) == first_index_of(b@, x),
{
    let mut i: usize = 0;
    proof {
        lemma_first_index_of(b@, x);
    }
    while i < b.len()
        invariant
            i <= b.len(),
            forall|j: int| 0 <= j < i ==> b@[j] != x,
            first_index_of(b@, x) matches Some(k) ==> 0 <= k < b.len() && b@[k] == x && forall|j: int|
                0 <= j < k ==> b@[j] != x,
            first_index_of(b@, x) is None ==> forall|j: int| 0 <= j < b.len() ==> b@[j] != x,
        decreases b.len() - i,
    {
        if b[i] == x {
            return Some(i);
        }
        i = i + 1;
    }
    None
}

pub open spec fn opt_usize(o: Option<usize>) -> Option<int> {
    match o {
        Some(v) => Some(v as int),
        None => None,
    }
}

pub open spec fn is_digit(b: u8) -> bool {
    48 <= b <= 57
}

/// The number written by the decimal digits `d`.
pub open spec fn digits_value(d: Seq<u8>) -> int
    decreases d.len(),
{
    if d.len() == 0 {
        0
    } else {
        digits_value(d.drop_last()) * 10 + (d.last() - 48)
    }
}

/// `b` without one leading `+` sign.
pub open spec fn unsigned_digits(b: Seq<u8>) -> Seq<u8> {
    if b.len() > 0 && b[0] == 43 {
        b.drop_first()
    } else {
        b
    }
}

pub open spec fn all_digits(d: Seq<u8>) -> bool {
    forall|i: int| 0 <= i < d.len() ==> is_digit(#[trigger] d[i])
}

/// What `u64::from_str` accepts: an optional `+`, then one or more ASCII
/// digits whose value fits in a `u64`.
pub open spec fn parse_u64_spec(b: Seq<u8>) -> Option<u64> {
    let d = unsigned_digits(b);
    if d.len() > 0 && all_digits(d) && digits_value(d) <= u64::MAX {
        Some(digits_value(d) as u64)
    } else {
        None
    }
}

pub proof fn lemma_digits_value_grows(d: Seq<u8>, k: int)
    requires
        0 <= k <= d.len(),
        all_digits(d),
    ensures
        digits_value(d) >= digits_value(d.take(k)),
        digits_value(d.take(k)) >= 0,
    decreases d.len(),
{
    if k < d.len() {
        lemma_digits_value_grows(d.drop_last(), k);
        assert(d.drop_last().take(k) =~= d.take(k));
        lemma_digits_value_grows(d.drop_last(), d.len() - 1);
        assert(d.drop_last().take(d.len() - 1) =~= d.drop_last());
    } else {
        assert(d.take(k) =~= d);
        if d.len() > 0 {
            lemma_digits_value_grows(d.drop_last(), d.len() - 1);
            assert(d.drop_last().take(d.len() - 1) =~= d.drop_last());
        }
    }
}

/// Parse an unsigned decimal number the way `u64::from_str` does.
pub fn parse_u64(b: &[u8]) -> (r: Option<u64>)
    ensures
        r == parse_u64_spec(b@),
{
    let mut i: usize = 0;
    if b.len() > 0 && b[0] == 43 {
        i = 1;
    }
    let ghost d = unsigned_digits(b@);
    let start = i;
    assert(d =~= b@.skip(start as int));
    if i == b.len() {
        return None;
    }
    let mut v: u64 = 0;
    while i < b.len()
        invariant
            start <= i <= b.len(),
            d =~= b@.skip(start as int),
            d == unsigned_digits(b@),
            forall|j: int| start <= j < i ==> is_digit(#[trigger] b@[j]),
            v as int == digits_value(d.take(i - start)),
        decreases b.len() - i,
    {
        let c = b[i];
        assert(d.take(i + 1 - start).drop_last() =~= d.take(i - start));
        assert(d[i - start] == c);
        if c < 48 || c > 57 {
            assert(!is_digit(d[i - start]));
            assert(!all_digits(d));
            return None;
        }
        assert(digits_value(d.take(i + 1 - start)) == v * 10 + (c - 48));
        let m = v.checked_mul(10);
        match m {
            None => {
                proof {
                    if all_digits(d) {
                        lemma_digits_value_grows(d, i + 1 - start);
                        assert(v * 10 > u64::MAX);
                        assert(digits_value(d) > u64::MAX);
                    }
                }
                return None;
            },
            Some(m) => {
                match m.checked_add((c - 48) as u64) {
                    None => {
                        proof {
                            if all_digits(d) {
                                lemma_digits_value_grows(d, i + 1 - start);
                                assert(digits_value(d) > u64::MAX);
                            }
                        }
                        return None;
                    },
                    Some(nv) => {
                        v = nv;
                    },
                }
            },
        }
        i = i + 1;
    }
    assert(d.take(i - start) =~= d);
    Some(v)
}

} // verus!
