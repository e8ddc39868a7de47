//! Byte-level text primitives: fixed-pattern matching, line splitting and
//! decimal numbers, shared by the log grammar and the parser.
use vstd::prelude::*;

verus! {

/// True when `b` is an ASCII decimal digit (`'0'..='9'`).
pub open spec fn is_ascii_digit(b: u8) -> bool {
    48 <= b && b <= 57
}

/// Numeric value of one ASCII digit.
pub open spec fn digit_value(b: u8) -> nat
    recommends
        is_ascii_digit(b),
{
    (b - 48) as nat
}

/// All bytes of `s` are ASCII digits.
pub open spec fn all_digits(s: Seq<u8>) -> bool {
    forall|i: int| 0 <= i < s.len() ==> is_ascii_digit(#[trigger] s[i])
}

/// Value of a sequence of ASCII digits read as a decimal number.
pub open spec fn digits_value(s: Seq<u8>) -> nat
    decreases s.len(),
{
    if s.len() == 0 {
        0
    } else {
        digits_value(s.drop_last()) * 10 + digit_value(s.last())
    }
}

/// The pattern `pat` occurs in `s` starting at position `i`.
pub open spec fn matches_at(s: Seq<u8>, i: int, pat: Seq<u8>) -> bool {
    &&& 0 <= i
    &&& i + pat.len() <= s.len()
    &&& forall|k: int| 0 <= k < pat.len() ==> s[i + k] == pat[k]
}

/// Decide whether a byte is an ASCII decimal digit.
pub fn byte_is_digit(b: u8) -> (r: bool)
    ensures
        r == is_ascii_digit(b),
{
    48 <= b && b <= 57
}

/// Decide whether `pat` occurs in `s` at position `i`.
pub fn bytes_match_at(s: &[u8], i: usize, pat: &[u8]) -> (r: bool)
    ensures
        r == matches_at(s@, i as int, pat@),
{
    if i > s.len() || pat.len() > s.len() - i {
        return false;
    }
    let mut k: usize = 0;
    while k < pat.len()
        invariant
            0 <= k <= pat.len(),
            i + pat.len() <= s.len(),
            forall|j: int| 0 <= j < k ==> s@[i + j] == pat@[j],
        decreases pat.len() - k,
    {
        if s[i + k] != pat[k] {
            return false;
        }
        k = k + 1;
    }
    true
}

/// A shorter run of digits reads as a number no larger than a longer one
/// that extends it.
pub proof fn lemma_digits_value_take_le(s: Seq<u8>, m: int)
    requires
        0 <= m <= s.len(),
    ensures
        digits_value(s.take(m)) <= digits_value(s),
    decreases s.len(),
{
    if m == s.len() {
        assert(s.take(m) =~= s);
    } else {
        assert(s.take(m) =~= s.drop_last().take(m));
        lemma_digits_value_take_le(s.drop_last(), m);
    }
}

/// Read the digits `s[lo..hi]` as a decimal number; `None` when the value
/// does not fit in a `u64`.
pub fn digits_to_u64(s: &[u8], lo: usize, hi: usize) -> (r: Option<u64>)
    requires
        lo <= hi <= s@.len(),
        all_digits(s@.subrange(lo as int, hi as int)),
    ensures
        digits_value(s@.subrange(lo as int, hi as int)) <= u64::MAX <==> r is Some,
        r is Some ==> r->0 == digits_value(s@.subrange(lo as int, hi as int)),
{
    let ghost whole = s@.subrange(lo as int, hi as int);
    let mut value: u64 = 0;
    let mut k: usize = lo;
    while k < hi
        invariant
            lo <= k <= hi <= s@.len(),
            whole == s@.subrange(lo as int, hi as int),
            all_digits(whole),
            value == digits_value(whole.take(k - lo)),
        decreases hi - k,
    {
        let ghost m = k - lo;
        assert(whole.take(m + 1).drop_last() =~= whole.take(m));
        assert(whole[m] == s@[k as int]);
        let d: u64 = (s[k] - 48) as u64;
        let limit: u64 = (u64::MAX - d) / 10;
        if value > limit {
            proof {
                assert(10 * limit <= u64::MAX - d < 10 * limit + 10);
                assert(digits_value(whole.take(m + 1)) == value * 10 + d);
                assert(value * 10 + d > u64::MAX);
                lemma_digits_value_take_le(whole, m + 1);
            }
            return None;
        }
        proof {
            assert(10 * limit <= u64::MAX - d);
            assert(value * 10 <= limit * 10);
        }
        value = value * 10 + d;
        k = k + 1;
    }
    assert(whole.take(hi - lo) =~= whole);
    Some(value)
}

/// True when `b` is ASCII whitespace: space, tab, line feed, form feed or
/// carriage return.
pub open spec fn is_ascii_whitespace(b: u8) -> bool {
    b == 32 || b == 9 || b == 10 || b == 12 || b == 13
}

/// Decide whether a byte is ASCII whitespace.
pub fn byte_is_whitespace(b: u8) -> (r: bool)
    ensures
        r == is_ascii_whitespace(b),
{
    b == 32 || b == 9 || b == 10 || b == 12 || b == 13
}

/// `s` with every trailing whitespace byte dropped.
pub open spec fn trim_trailing_whitespace(s: Seq<u8>) -> Seq<u8>
    decreases s.len(),
{
    if s.len() > 0 && is_ascii_whitespace(s.last()) {
        trim_trailing_whitespace(s.drop_last())
    } else {
        s
    }
}

/// Decide whether two byte strings hold the same bytes.
pub fn bytes_eq(a: &[u8], b: &[u8]) -> (r: bool)
    ensures
        r == (a@ == b@),
{
    if a.len() != b.len() {
        return false;
    }
    let mut k: usize = 0;
    while k < a.len()
        invariant
            0 <= k <= a@.len(),
            a@.len() == b@.len(),
            forall|j: int| 0 <= j < k ==> a@[j] == b@[j],
        decreases a@.len() - k,
    {
        if a[k] != b[k] {
            return false;
        }
        k = k + 1;
    }
    proof {
        assert(a@ =~= b@);
    }
    true
}

/// End of the run of ASCII digits that starts at `i`: the first position at
/// or after `i` that is past the end of `s` or holds a non-digit byte.
pub open spec fn digit_run_end(s: Seq<u8>, i: int) -> int
    decreases s.len() - i,
{
    if 0 <= i < s.len() && is_ascii_digit(s[i]) {
        digit_run_end(s, i + 1)
    } else {
        i
    }
}

/// The digit-run end lies between `i` and the end of `s`, every byte of the
/// run is a digit, and the run is maximal.
pub proof fn lemma_digit_run_end(s: Seq<u8>, i: int)
    requires
        0 <= i <= s.len(),
    ensures
        i <= digit_run_end(s, i) <= s.len(),
        forall|k: int| i <= k < digit_run_end(s, i) ==> is_ascii_digit(#[trigger] s[k]),
        digit_run_end(s, i) < s.len() ==> !is_ascii_digit(s[digit_run_end(s, i)]),
    decreases s.len() - i,
{
    if i < s.len() && is_ascii_digit(s[i]) {
        lemma_digit_run_end(s, i + 1);
    }
}

/// Find the end of the digit run that starts at `i`.
pub fn find_digit_run_end(s: &[u8], i: usize) -> (r: usize)
    requires
        i <= s@.len(),
    ensures
        r == digit_run_end(s@, i as int),
        i <= r <= s@.len(),
{
    proof {
        lemma_digit_run_end(s@, i as int);
    }
    let mut j: usize = i;
    while j < s.len() && byte_is_digit(s[j])
        invariant
            i <= j <= s@.len(),
            digit_run_end(s@, i as int) == digit_run_end(s@, j as int),
        decreases s@.len() - j,
    {
        j = j + 1;
    }
    j
}

/// First position at or after `i` that holds a line feed, or the length of
/// `s` when none follows.
pub open spec fn first_newline(s: Seq<u8>, i: int) -> int
    decreases s.len() - i,
{
    if 0 <= i < s.len() {
        if s[i] == 10 {
            i
        } else {
            first_newline(s, i + 1)
        }
    } else {
        i
    }
}

/// The first-newline position lies between `i` and the end of `s`, no line
/// feed stands before it, and it holds one unless it is the end.
pub proof fn lemma_first_newline(s: Seq<u8>, i: int)
    requires
        0 <= i <= s.len(),
    ensures
        i <= first_newline(s, i) <= s.len(),
        forall|k: int| i <= k < first_newline(s, i) ==> s[k] != 10,
        first_newline(s, i) < s.len() ==> s[first_newline(s, i)] == 10,
    decreases s.len() - i,
{
    if i < s.len() && s[i] != 10 {
        lemma_first_newline(s, i + 1);
    }
}

/// Any position with the first-newline properties is the first-newline
/// position.
pub proof fn lemma_first_newline_unique(s: Seq<u8>, i: int, q: int)
    requires
        0 <= i <= q <= s.len(),
        forall|k: int| i <= k < q ==> s[k] != 10,
        q < s.len() ==> s[q] == 10,
    ensures
        q == first_newline(s, i),
{
    lemma_first_newline(s, i);
    let p = first_newline(s, i);
    if q < p {
        assert(s[q] != 10);
    }
    if p < q {
        assert(s[p] != 10);
    }
}

/// One line as cut at a line feed: at most one trailing carriage return is
/// dropped.
pub open spec fn strip_carriage_return(l: Seq<u8>) -> Seq<u8> {
    if l.len() > 0 && l.last() == 13 {
        l.drop_last()
    } else {
        l
    }
}

/// The lines of `s`: segments between line feeds, each stripped of one
/// trailing carriage return; a last segment without a line feed is kept as
/// it stands, and a trailing line feed opens no empty line.
pub open spec fn spec_lines(s: Seq<u8>) -> Seq<Seq<u8>>
    decreases s.len(),
{
    if s.len() == 0 {
        Seq::empty()
    } else {
        let p = first_newline(s, 0);
        if 0 <= p && p < s.len() {
            seq![strip_carriage_return(s.take(p))] + spec_lines(
                s.subrange(p + 1, s.len() as int),
            )
        } else {
            seq![s]
        }
    }
}

/// Find the first line feed at or after `from`.
pub fn find_newline(s: &[u8], from: usize) -> (r: usize)
    requires
        from <= s@.len(),
    ensures
        r == first_newline(s@, from as int),
        from <= r <= s@.len(),
{
    proof {
        lemma_first_newline(s@, from as int);
    }
    let mut j: usize = from;
    while j < s.len() && s[j] != 10
        invariant
            from <= j <= s@.len(),
            first_newline(s@, from as int) == first_newline(s@, j as int),
        decreases s@.len() - j,
    {
        j = j + 1;
    }
    j
}

/// Split a window's raw text into its lines.
pub fn split_lines(text: &[u8]) -> (lines: Vec<Vec<u8>>)
    ensures
        lines@.map_values(|l: Vec<u8>| l@) == spec_lines(text@),
{
    let ghost whole = text@;
    let mut lines: Vec<Vec<u8>> = Vec::new();
    let mut start: usize = 0;
    proof {
        assert(whole.subrange(0, whole.len() as int) =~= whole);
    }
    while start < text.len()
        invariant
            start <= text@.len(),
            whole == text@,
            lines@.map_values(|l: Vec<u8>| l@) + spec_lines(whole.subrange(start as int, whole.len() as int))
                =~= spec_lines(whole),
        decreases text@.len() - start,
    {
        let ghost rest = whole.subrange(start as int, whole.len() as int);
        let p = find_newline(text, start);
        proof {
            lemma_first_newline(whole, start as int);
            lemma_first_newline_unique(rest, 0, p - start);
            assert(rest.len() > 0);
        }
        if p == text.len() {
            proof {
                assert(rest =~= whole.subrange(start as int, p as int));
            }
            let seg = vstd::slice::slice_to_vec(vstd::slice::slice_subrange(text, start, p));
            lines.push(seg);
            proof {
                assert(spec_lines(rest) =~= seq![rest]);
                assert(lines@.map_values(|l: Vec<u8>| l@) =~= lines@.drop_last().map_values(
                    |l: Vec<u8>| l@,
                ).push(rest));
            }
            start = text.len();
        } else {
            let line_end = if p > start && text[p - 1] == 13 {
                p - 1
            } else {
                p
            };
            let seg = vstd::slice::slice_to_vec(
                vstd::slice::slice_subrange(text, start, line_end),
            );
            proof {
                assert(rest.take(p - start) =~= whole.subrange(start as int, p as int));
                assert(strip_carriage_return(rest.take(p - start)) =~= seg@);
                assert(rest.subrange(p - start + 1, rest.len() as int) =~= whole.subrange(
                    p + 1,
                    whole.len() as int,
                ));
            }
            lines.push(seg);
            proof {
                assert(lines@.map_values(|l: Vec<u8>| l@) =~= lines@.drop_last().map_values(
                    |l: Vec<u8>| l@,
                ).push(seg@));
            }
            start = p + 1;
        }
    }
    proof {
        assert(whole.subrange(start as int, whole.len() as int).len() == 0);
        assert(spec_lines(whole.subrange(start as int, whole.len() as int)) =~= Seq::<
            Seq<u8>,
        >::empty());
    }
    lines
}

} // verus!
