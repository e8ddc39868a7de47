//! The three line grammars of the short-statistics log format: the identity
//! line, the author line, and the statistics summary line.
use crate::text::all_digits;
use crate::text::bytes_match_at;
use crate::text::byte_is_digit;
use crate::text::digit_run_end;
use crate::text::digits_to_u64;
use crate::text::digits_value;
use crate::text::find_digit_run_end;
use crate::text::is_ascii_digit;
use crate::text::byte_is_whitespace;
use crate::text::lemma_digit_run_end;
use crate::text::matches_at;
use crate::text::trim_trailing_whitespace;
use vstd::prelude::*;

verus! {

/// The bytes of `"commit "`.
pub open spec fn commit_marker() -> Seq<u8> {
    seq![99u8, 111u8, 109u8, 109u8, 105u8, 116u8, 32u8]
}

/// The bytes of `"Author: "`.
pub open spec fn author_marker() -> Seq<u8> {
    seq![65u8, 117u8, 116u8, 104u8, 111u8, 114u8, 58u8, 32u8]
}

/// Build the bytes of `"commit "`.
fn commit_marker_vec() -> (v: Vec<u8>)
    ensures
        v@ == commit_marker(),
{
    let mut v: Vec<u8> = Vec::new();
    v.push(99);
    v.push(111);
    v.push(109);
    v.push(109);
    v.push(105);
    v.push(116);
    v.push(32);
    proof {
        assert(v@ =~= commit_marker());
    }
    v
}

/// Build the bytes of `"Author: "`.
fn author_marker_vec() -> (v: Vec<u8>)
    ensures
        v@ == author_marker(),
{
    let mut v: Vec<u8> = Vec::new();
    v.push(65);
    v.push(117);
    v.push(116);
    v.push(104);
    v.push(111);
    v.push(114);
    v.push(58);
    v.push(32);
    proof {
        assert(v@ =~= author_marker());
    }
    v
}

/// True when `b` is a lowercase hexadecimal digit (`'0'..='9'` or
/// `'a'..='f'`).
pub open spec fn is_hex_lower(b: u8) -> bool {
    is_ascii_digit(b) || (97 <= b && b <= 102)
}

/// An identity line: the commit marker followed by a forty-character
/// lowercase hexadecimal identifier; anything may follow.
pub open spec fn is_commit_id_line(s: Seq<u8>) -> bool {
    &&& matches_at(s, 0, commit_marker())
    &&& s.len() >= 47
    &&& forall|k: int| 7 <= k < 47 ==> is_hex_lower(#[trigger] s[k])
}

/// The identifier captured from an identity line.
pub open spec fn commit_id_of(s: Seq<u8>) -> Seq<u8> {
    s.subrange(7, 47)
}

/// Recognize an identity line and capture its commit identifier. The first
/// component says whether the line matched; the captured identifier is empty
/// otherwise.
pub fn get_commit_id(line: &[u8]) -> (r: (bool, Vec<u8>))
    ensures
        r.0 == is_commit_id_line(line@),
        r.0 ==> r.1@ == commit_id_of(line@),
        !r.0 ==> r.1@.len() == 0,
{
    let marker = commit_marker_vec();
    if !bytes_match_at(line, 0, marker.as_slice()) || line.len() < 47 {
        return (false, Vec::new());
    }
    let mut k: usize = 7;
    while k < 47
        invariant
            7 <= k <= 47,
            line@.len() >= 47,
            forall|j: int| 7 <= j < k ==> is_hex_lower(#[trigger] line@[j]),
        decreases 47 - k,
    {
        let b = line[k];
        if !(byte_is_digit(b) || (97 <= b && b <= 102)) {
            return (false, Vec::new());
        }
        k = k + 1;
    }
    let id = vstd::slice::slice_to_vec(vstd::slice::slice_subrange(line, 7, 47));
    (true, id)
}

/// The author line matches with the first angle bracket at position `p`:
/// the author marker, a non-empty display name free of angle brackets, one
/// space, the bracket, and at least one byte after it.
pub open spec fn author_match_at(s: Seq<u8>, p: int) -> bool {
    &&& matches_at(s, 0, author_marker())
    &&& 10 <= p
    &&& p + 2 <= s.len()
    &&& s[p] == 60
    &&& s[p - 1] == 32
    &&& forall|k: int| 8 <= k < p ==> s[k] != 60
}

/// An author line: the author marker, a display name, then an address in
/// angle brackets.
pub open spec fn is_author_line(s: Seq<u8>) -> bool {
    exists|p: int| author_match_at(s, p)
}

/// Position of the angle bracket that ends the display name.
pub open spec fn author_angle_pos(s: Seq<u8>) -> int {
    choose|p: int| author_match_at(s, p)
}

/// The display name captured from an author line: the bytes between the
/// marker and the first angle bracket, trimmed of trailing whitespace.
pub open spec fn author_of(s: Seq<u8>) -> Seq<u8> {
    trim_trailing_whitespace(s.subrange(8, author_angle_pos(s)))
}

/// At most one position can carry the author match: both hold the first
/// angle bracket after the marker.
pub proof fn lemma_author_match_unique(s: Seq<u8>, p1: int, p2: int)
    requires
        author_match_at(s, p1),
        author_match_at(s, p2),
    ensures
        p1 == p2,
{
    if p1 < p2 {
        assert(s[p1] != 60);
    }
    if p2 < p1 {
        assert(s[p2] != 60);
    }
}

/// With `q` the first angle-bracket position at or after the name's start
/// (or the line's end when there is none), the author line matches exactly
/// when `q` leaves a non-empty name, follows a space, and is not at the end.
pub proof fn lemma_author_candidate(s: Seq<u8>, q: int)
    requires
        matches_at(s, 0, author_marker()),
        8 <= q <= s.len(),
        forall|k: int| 8 <= k < q ==> s[k] != 60,
        q == s.len() || s[q] == 60,
    ensures
        is_author_line(s) <==> (10 <= q && q + 2 <= s.len() && s[q - 1] == 32),
        is_author_line(s) ==> author_angle_pos(s) == q,
{
    if 10 <= q && q + 2 <= s.len() && s[q - 1] == 32 {
        assert(author_match_at(s, q));
    }
    if is_author_line(s) {
        let p = choose|p: int| author_match_at(s, p);
        if p < q {
            assert(s[p] != 60);
        }
        if q < p {
            assert(s[q] != 60);
        }
        assert(p == q);
        lemma_author_match_unique(s, author_angle_pos(s), q);
    }
}

/// First position at or after `i` that holds an angle bracket, or the length
/// of `s` when none follows.
pub open spec fn first_angle(s: Seq<u8>, i: int) -> int
    decreases s.len() - i,
{
    if 0 <= i < s.len() {
        if s[i] == 60 {
            i
        } else {
            first_angle(s, i + 1)
        }
    } else {
        i
    }
}

/// The first-angle position lies between `i` and the end of `s`, no angle
/// bracket stands before it, and it holds one unless it is the end.
pub proof fn lemma_first_angle(s: Seq<u8>, i: int)
    requires
        0 <= i <= s.len(),
    ensures
        i <= first_angle(s, i) <= s.len(),
        forall|k: int| i <= k < first_angle(s, i) ==> s[k] != 60,
        first_angle(s, i) < s.len() ==> s[first_angle(s, i)] == 60,
    decreases s.len() - i,
{
    if i < s.len() && s[i] != 60 {
        lemma_first_angle(s, i + 1);
    }
}

/// Find the first angle bracket at or after `from`.
fn find_angle(s: &[u8], from: usize) -> (r: usize)
    requires
        from <= s@.len(),
    ensures
        r == first_angle(s@, from as int),
        from <= r <= s@.len(),
{
    proof {
        lemma_first_angle(s@, from as int);
    }
    let mut j: usize = from;
    while j < s.len() && s[j] != 60
        invariant
            from <= j <= s@.len(),
            first_angle(s@, from as int) == first_angle(s@, j as int),
        decreases s@.len() - j,
    {
        j = j + 1;
    }
    j
}

/// Recognize an author line and capture the display name. The first
/// component says whether the line matched; the captured name is empty
/// otherwise.
pub fn get_commit_author(line: &[u8]) -> (r: (bool, Vec<u8>))
    ensures
        r.0 == is_author_line(line@),
        r.0 ==> r.1@ == author_of(line@),
        !r.0 ==> r.1@.len() == 0,
{
    let marker = author_marker_vec();
    if !bytes_match_at(line, 0, marker.as_slice()) {
        assert(!is_author_line(line@));
        return (false, Vec::new());
    }
    let q = find_angle(line, 8);
    proof {
        lemma_first_angle(line@, 8);
        lemma_author_candidate(line@, q as int);
    }
    if q >= 10 && line.len() - q >= 2 && line[q - 1] == 32 {
        let mut end: usize = q;
        while end > 8 && byte_is_whitespace(line[end - 1])
            invariant
                8 <= end <= q,
                q <= line@.len(),
                trim_trailing_whitespace(line@.subrange(8, q as int)) == trim_trailing_whitespace(
                    line@.subrange(8, end as int),
                ),
            decreases end,
        {
            proof {
                assert(line@.subrange(8, end as int).drop_last() =~= line@.subrange(
                    8,
                    end - 1,
                ));
                assert(line@.subrange(8, end as int).last() == line@[end - 1]);
            }
            end = end - 1;
        }
        proof {
            if end > 8 {
                assert(line@.subrange(8, end as int).last() == line@[end - 1]);
            }
            assert(trim_trailing_whitespace(line@.subrange(8, end as int)) =~= line@.subrange(
                8,
                end as int,
            ));
        }
        let name = vstd::slice::slice_to_vec(vstd::slice::slice_subrange(line, 8, end));
        (true, name)
    } else {
        (false, Vec::new())
    }
}

/// The bytes of `" file"`.
pub open spec fn file_marker() -> Seq<u8> {
    seq![32u8, 102u8, 105u8, 108u8, 101u8]
}

/// The bytes of `"s changed"`.
pub open spec fn s_changed_marker() -> Seq<u8> {
    seq![115u8, 32u8, 99u8, 104u8, 97u8, 110u8, 103u8, 101u8, 100u8]
}

/// The bytes of `" changed"`.
pub open spec fn changed_marker() -> Seq<u8> {
    seq![32u8, 99u8, 104u8, 97u8, 110u8, 103u8, 101u8, 100u8]
}

/// The bytes of `", "`.
pub open spec fn comma_marker() -> Seq<u8> {
    seq![44u8, 32u8]
}

/// The bytes of `" insertion"`.
pub open spec fn insertion_marker() -> Seq<u8> {
    seq![32u8, 105u8, 110u8, 115u8, 101u8, 114u8, 116u8, 105u8, 111u8, 110u8]
}

/// The bytes of `" deletion"`.
pub open spec fn deletion_marker() -> Seq<u8> {
    seq![32u8, 100u8, 101u8, 108u8, 101u8, 116u8, 105u8, 111u8, 110u8]
}

/// The bytes of `"s(+)"`.
pub open spec fn s_plus_marker() -> Seq<u8> {
    seq![115u8, 40u8, 43u8, 41u8]
}

/// The bytes of `"(+)"`.
pub open spec fn plus_marker() -> Seq<u8> {
    seq![40u8, 43u8, 41u8]
}

/// The bytes of `"s(-)"`.
pub open spec fn s_minus_marker() -> Seq<u8> {
    seq![115u8, 40u8, 45u8, 41u8]
}

/// The bytes of `"(-)"`.
pub open spec fn minus_marker() -> Seq<u8> {
    seq![40u8, 45u8, 41u8]
}

/// Build the bytes of `" file"`.
fn file_marker_vec() -> (v: Vec<u8>)
    ensures
        v@ == file_marker(),
{
    let mut v: Vec<u8> = Vec::new();
    v.push(32);
    v.push(102);
    v.push(105);
    v.push(108);
    v.push(101);
    proof {
        assert(v@ =~= file_marker());
    }
    v
}

/// Build the bytes of `"s changed"`.
fn s_changed_marker_vec() -> (v: Vec<u8>)
    ensures
        v@ == s_changed_marker(),
{
    let mut v: Vec<u8> = Vec::new();
    v.push(115);
    v.push(32);
    v.push(99);
    v.push(104);
    v.push(97);
    v.push(110);
    v.push(103);
    v.push(101);
    v.push(100);
    proof {
        assert(v@ =~= s_changed_marker());
    }
    v
}

/// Build the bytes of `" changed"`.
fn changed_marker_vec() -> (v: Vec<u8>)
    ensures
        v@ == changed_marker(),
{
    let mut v: Vec<u8> = Vec::new();
    v.push(32);
    v.push(99);
    v.push(104);
    v.push(97);
    v.push(110);
    v.push(103);
    v.push(101);
    v.push(100);
    proof {
        assert(v@ =~= changed_marker());
    }
    v
}

/// Build the bytes of `", "`.
fn comma_marker_vec() -> (v: Vec<u8>)
    ensures
        v@ == comma_marker(),
{
    let mut v: Vec<u8> = Vec::new();
    v.push(44);
    v.push(32);
    proof {
        assert(v@ =~= comma_marker());
    }
    v
}

/// Build the bytes of `" insertion"`.
fn insertion_marker_vec() -> (v: Vec<u8>)
    ensures
        v@ == insertion_marker(),
{
    let mut v: Vec<u8> = Vec::new();
    v.push(32);
    v.push(105);
    v.push(110);
    v.push(115);
    v.push(101);
    v.push(114);
    v.push(116);
    v.push(105);
    v.push(111);
    v.push(110);
    proof {
        assert(v@ =~= insertion_marker());
    }
    v
}

/// Build the bytes of `" deletion"`.
fn deletion_marker_vec() -> (v: Vec<u8>)
    ensures
        v@ == deletion_marker(),
{
    let mut v: Vec<u8> = Vec::new();
    v.push(32);
    v.push(100);
    v.push(101);
    v.push(108);
    v.push(101);
    v.push(116);
    v.push(105);
    v.push(111);
    v.push(110);
    proof {
        assert(v@ =~= deletion_marker());
    }
    v
}

/// Build the bytes of `"s(+)"`.
fn s_plus_marker_vec() -> (v: Vec<u8>)
    ensures
        v@ == s_plus_marker(),
{
    let mut v: Vec<u8> = Vec::new();
    v.push(115);
    v.push(40);
    v.push(43);
    v.push(41);
    proof {
        assert(v@ =~= s_plus_marker());
    }
    v
}

/// Build the bytes of `"(+)"`.
fn plus_marker_vec() -> (v: Vec<u8>)
    ensures
        v@ == plus_marker(),
{
    let mut v: Vec<u8> = Vec::new();
    v.push(40);
    v.push(43);
    v.push(41);
    proof {
        assert(v@ =~= plus_marker());
    }
    v
}

/// Build the bytes of `"s(-)"`.
fn s_minus_marker_vec() -> (v: Vec<u8>)
    ensures
        v@ == s_minus_marker(),
{
    let mut v: Vec<u8> = Vec::new();
    v.push(115);
    v.push(40);
    v.push(45);
    v.push(41);
    proof {
        assert(v@ =~= s_minus_marker());
    }
    v
}

/// Build the bytes of `"(-)"`.
fn minus_marker_vec() -> (v: Vec<u8>)
    ensures
        v@ == minus_marker(),
{
    let mut v: Vec<u8> = Vec::new();
    v.push(40);
    v.push(45);
    v.push(41);
    proof {
        assert(v@ =~= minus_marker());
    }
    v
}

/// After a count's digit run ending at `j`, the files-changed phrase
/// follows: `" file"`, an optional plural `s`, then `" changed"`.
pub open spec fn files_changed_tail_at(s: Seq<u8>, j: int) -> bool {
    &&& matches_at(s, j, file_marker())
    &&& (matches_at(s, j + 5, s_changed_marker()) || matches_at(s, j + 5, changed_marker()))
}

/// Position just past the files-changed phrase; the plural form is taken
/// when it matches.
pub open spec fn files_changed_end(s: Seq<u8>, j: int) -> int {
    if matches_at(s, j + 5, s_changed_marker()) {
        j + 14
    } else {
        j + 13
    }
}

/// The statistics line's base phrase matches at `i`: a digit run followed by
/// the files-changed phrase.
pub open spec fn stats_match_at(s: Seq<u8>, i: int) -> bool {
    &&& 0 <= i < s.len()
    &&& is_ascii_digit(s[i])
    &&& files_changed_tail_at(s, digit_run_end(s, i))
}

/// First position at or after `i` where the base phrase matches, or the
/// length of `s` when it matches nowhere.
pub open spec fn first_stats_match(s: Seq<u8>, i: int) -> int
    decreases s.len() - i,
{
    if 0 <= i < s.len() {
        if stats_match_at(s, i) {
            i
        } else {
            first_stats_match(s, i + 1)
        }
    } else {
        i
    }
}

/// The first-match position lies between `i` and the end of `s`, the base
/// phrase matches nowhere before it, and it matches there unless the
/// position is the end.
pub proof fn lemma_first_stats_match(s: Seq<u8>, i: int)
    requires
        0 <= i <= s.len(),
    ensures
        i <= first_stats_match(s, i) <= s.len(),
        forall|k: int| i <= k < first_stats_match(s, i) ==> !stats_match_at(s, k),
        first_stats_match(s, i) < s.len() ==> stats_match_at(s, first_stats_match(s, i)),
    decreases s.len() - i,
{
    if i < s.len() && !stats_match_at(s, i) {
        lemma_first_stats_match(s, i + 1);
    }
}

/// The insertion phrase matches at `e`: `", "`, a digit run, then
/// `" insertion"`, an optional plural `s`, and `"(+)"`.
pub open spec fn ins_group_at(s: Seq<u8>, e: int) -> bool {
    &&& matches_at(s, e, comma_marker())
    &&& e + 2 < s.len()
    &&& is_ascii_digit(s[e + 2])
    &&& matches_at(s, digit_run_end(s, e + 2), insertion_marker())
    &&& (matches_at(s, digit_run_end(s, e + 2) + 10, s_plus_marker()) || matches_at(
        s,
        digit_run_end(s, e + 2) + 10,
        plus_marker(),
    ))
}

/// Position just past the insertion phrase.
pub open spec fn ins_group_end(s: Seq<u8>, e: int) -> int {
    if matches_at(s, digit_run_end(s, e + 2) + 10, s_plus_marker()) {
        digit_run_end(s, e + 2) + 14
    } else {
        digit_run_end(s, e + 2) + 13
    }
}

/// The digits of the insertion count.
pub open spec fn ins_digits(s: Seq<u8>, e: int) -> Seq<u8> {
    s.subrange(e + 2, digit_run_end(s, e + 2))
}

/// The deletion phrase matches at `f`: `", "`, a digit run, then
/// `" deletion"`, an optional plural `s`, and `"(-)"`.
pub open spec fn del_group_at(s: Seq<u8>, f: int) -> bool {
    &&& matches_at(s, f, comma_marker())
    &&& f + 2 < s.len()
    &&& is_ascii_digit(s[f + 2])
    &&& matches_at(s, digit_run_end(s, f + 2), deletion_marker())
    &&& (matches_at(s, digit_run_end(s, f + 2) + 9, s_minus_marker()) || matches_at(
        s,
        digit_run_end(s, f + 2) + 9,
        minus_marker(),
    ))
}

/// The digits of the deletion count.
pub open spec fn del_digits(s: Seq<u8>, f: int) -> Seq<u8> {
    s.subrange(f + 2, digit_run_end(s, f + 2))
}

/// Outcome of reading one line as a statistics line. The line is recognized
/// only when the insertion or the deletion count is present and fits; a
/// count that is absent or does not fit stands as zero.
pub ghost struct StatsLine {
    pub recognized: bool,
    pub insertions: u64,
    pub deletions: u64,
}

/// Read a line as a statistics line: the leftmost base phrase is found, then
/// the insertion phrase and the deletion phrase are taken in turn where each
/// matches.
pub open spec fn stats_of(s: Seq<u8>) -> StatsLine {
    let i = first_stats_match(s, 0);
    if i >= s.len() {
        StatsLine { recognized: false, insertions: 0, deletions: 0 }
    } else {
        let e = files_changed_end(s, digit_run_end(s, i));
        let has_ins = ins_group_at(s, e);
        let ins_ok = has_ins && digits_value(ins_digits(s, e)) <= u64::MAX;
        let ins = if ins_ok {
            digits_value(ins_digits(s, e)) as u64
        } else {
            0
        };
        let f = if has_ins {
            ins_group_end(s, e)
        } else {
            e
        };
        let has_del = del_group_at(s, f);
        let del_ok = has_del && digits_value(del_digits(s, f)) <= u64::MAX;
        let del = if del_ok {
            digits_value(del_digits(s, f)) as u64
        } else {
            0
        };
        StatsLine { recognized: ins_ok || del_ok, insertions: ins, deletions: del }
    }
}

/// Check the base phrase at `i`: a digit run followed by the files-changed
/// phrase.
fn stats_base_check(line: &[u8], i: usize) -> (r: bool)
    requires
        i < line@.len(),
    ensures
        r == stats_match_at(line@, i as int),
{
    if !byte_is_digit(line[i]) {
        return false;
    }
    let j = find_digit_run_end(line, i);
    let file_m = file_marker_vec();
    if !bytes_match_at(line, j, file_m.as_slice()) {
        return false;
    }
    let j5 = j + 5;
    let s_changed_m = s_changed_marker_vec();
    let changed_m = changed_marker_vec();
    bytes_match_at(line, j5, s_changed_m.as_slice()) || bytes_match_at(
        line,
        j5,
        changed_m.as_slice(),
    )
}

/// Check the insertion phrase at `e`; on a match, return the end of the
/// phrase and the bounds of its digit run.
fn ins_group_check(line: &[u8], e: usize) -> (r: (bool, usize, usize, usize))
    requires
        e <= line@.len(),
    ensures
        r.0 == ins_group_at(line@, e as int),
        r.0 ==> {
            &&& r.1 == ins_group_end(line@, e as int)
            &&& r.1 <= line@.len()
            &&& r.2 == e + 2
            &&& r.3 == digit_run_end(line@, e + 2)
            &&& r.2 <= r.3 <= line@.len()
        },
{
    let comma_m = comma_marker_vec();
    if !bytes_match_at(line, e, comma_m.as_slice()) {
        return (false, 0, 0, 0);
    }
    let n = line.len();
    proof {
        assert(comma_marker().len() == 2);
        assert(e + 2 <= n);
    }
    let e2 = e + 2;
    if e2 >= n || !byte_is_digit(line[e2]) {
        return (false, 0, 0, 0);
    }
    let m = find_digit_run_end(line, e2);
    let ins_m = insertion_marker_vec();
    if !bytes_match_at(line, m, ins_m.as_slice()) {
        return (false, 0, 0, 0);
    }
    let m10 = m + 10;
    let s_plus_m = s_plus_marker_vec();
    if bytes_match_at(line, m10, s_plus_m.as_slice()) {
        return (true, m + 14, e2, m);
    }
    let plus_m = plus_marker_vec();
    if bytes_match_at(line, m10, plus_m.as_slice()) {
        return (true, m + 13, e2, m);
    }
    (false, 0, 0, 0)
}

/// Check the deletion phrase at `f`; on a match, return the bounds of its
/// digit run.
fn del_group_check(line: &[u8], f: usize) -> (r: (bool, usize, usize))
    requires
        f <= line@.len(),
    ensures
        r.0 == del_group_at(line@, f as int),
        r.0 ==> {
            &&& r.1 == f + 2
            &&& r.2 == digit_run_end(line@, f + 2)
            &&& r.1 <= r.2 <= line@.len()
        },
{
    let comma_m = comma_marker_vec();
    if !bytes_match_at(line, f, comma_m.as_slice()) {
        return (false, 0, 0);
    }
    let n = line.len();
    proof {
        assert(comma_marker().len() == 2);
        assert(f + 2 <= n);
    }
    let f2 = f + 2;
    if f2 >= n || !byte_is_digit(line[f2]) {
        return (false, 0, 0);
    }
    let m = find_digit_run_end(line, f2);
    let del_m = deletion_marker_vec();
    if !bytes_match_at(line, m, del_m.as_slice()) {
        return (false, 0, 0);
    }
    let m9 = m + 9;
    let s_minus_m = s_minus_marker_vec();
    let minus_m = minus_marker_vec();
    if bytes_match_at(line, m9, s_minus_m.as_slice()) || bytes_match_at(
        line,
        m9,
        minus_m.as_slice(),
    ) {
        return (true, f2, m);
    }
    (false, 0, 0)
}

/// The digits of a digit run form a digit sequence.
proof fn lemma_run_digits(s: Seq<u8>, lo: int, hi: int)
    requires
        0 <= lo <= hi <= s.len(),
        hi == digit_run_end(s, lo),
    ensures
        all_digits(s.subrange(lo, hi)),
{
    lemma_digit_run_end(s, lo);
    assert forall|k: int| 0 <= k < hi - lo implies is_ascii_digit(
        #[trigger] s.subrange(lo, hi)[k],
    ) by {
        assert(s.subrange(lo, hi)[k] == s[lo + k]);
    }
}

/// Recognize a statistics line and capture its insertion and deletion
/// counts. The first component says whether the line was recognized; the
/// counts are zero where their phrase is absent or its number does not fit.
pub fn get_commit_file_change(line: &[u8]) -> (r: (bool, (u64, u64)))
    ensures
        r.0 == stats_of(line@).recognized,
        r.1.0 == stats_of(line@).insertions,
        r.1.1 == stats_of(line@).deletions,
{
    let n = line.len();
    let mut i: usize = 0;
    while i < n && !stats_base_check(line, i)
        invariant
            0 <= i <= n,
            n == line@.len(),
            first_stats_match(line@, 0) == first_stats_match(line@, i as int),
        decreases n - i,
    {
        i = i + 1;
    }
    if i == n {
        return (false, (0, 0));
    }
    assert(first_stats_match(line@, 0) == i as int);
    let j = find_digit_run_end(line, i);
    proof {
        assert(matches_at(line@, j as int, file_marker()));
    }
    let j5 = j + 5;
    let s_changed_m = s_changed_marker_vec();
    let e: usize = if bytes_match_at(line, j5, s_changed_m.as_slice()) {
        j + 14
    } else {
        j + 13
    };
    proof {
        assert(e as int == files_changed_end(line@, digit_run_end(line@, i as int)));
        assert(e <= line@.len());
    }
    let ins_res = ins_group_check(line, e);
    let mut recognized = false;
    let mut insertions: u64 = 0;
    let f: usize = if ins_res.0 {
        proof {
            lemma_run_digits(line@, ins_res.2 as int, ins_res.3 as int);
        }
        match digits_to_u64(line, ins_res.2, ins_res.3) {
            Some(v) => {
                recognized = true;
                insertions = v;
            },
            None => {},
        }
        ins_res.1
    } else {
        e
    };
    let del_res = del_group_check(line, f);
    let mut deletions: u64 = 0;
    if del_res.0 {
        proof {
            lemma_run_digits(line@, del_res.1 as int, del_res.2 as int);
        }
        match digits_to_u64(line, del_res.1, del_res.2) {
            Some(v) => {
                recognized = true;
                deletions = v;
            },
            None => {},
        }
    }
    (recognized, (insertions, deletions))
}

} // verus!
