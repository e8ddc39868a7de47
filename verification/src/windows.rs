//! Work scheduling: reading the total commit count and partitioning the
//! commit range into fixed-size windows, one per worker.
use crate::stats::sat_add;
use crate::stats::add_sat;
use crate::text::all_digits;
use crate::text::digits_to_u64;
use crate::text::digits_value;
use crate::text::find_digit_run_end;
use crate::text::spec_lines;
use crate::text::split_lines;
use vstd::prelude::*;

verus! {

/// One window of the commit range: `limit` commits starting `skip` commits
/// back from the branch tip.
#[derive(Clone, Copy, Debug, PartialEq, Eq, Structural)]
pub struct Window {
    pub skip: usize,
    pub limit: usize,
}

/// The windows that partition `[skip, total)` into slices of `wsize`, the
/// last one truncated.
pub open spec fn windows_from(skip: int, total: int, wsize: int) -> Seq<(int, int)>
    decreases total - skip,
{
    if wsize < 1 || skip >= total {
        Seq::empty()
    } else if total - skip <= wsize {
        seq![(skip, total - skip)]
    } else {
        seq![(skip, wsize)] + windows_from(skip + wsize, total, wsize)
    }
}

/// The windows that partition the whole range `[0, total)`.
pub open spec fn windows_spec(total: int, wsize: int) -> Seq<(int, int)> {
    windows_from(0, total, wsize)
}

/// `c` falls in the window `w`.
pub open spec fn window_covers(w: (int, int), c: int) -> bool {
    w.0 <= c < w.0 + w.1
}

/// Some window of `ws` covers `c`.
pub open spec fn some_window_covers(ws: Seq<(int, int)>, c: int) -> bool {
    exists|i: int| 0 <= i < ws.len() && window_covers(#[trigger] ws[i], c)
}

/// The windows of `[skip, total)` are non-empty, lie inside the range, cover
/// every commit of it, and are pairwise disjoint.
pub proof fn lemma_windows_from(skip: int, total: int, wsize: int)
    requires
        wsize >= 1,
        0 <= skip <= total,
    ensures
        forall|i: int|
            0 <= i < windows_from(skip, total, wsize).len() ==> {
                let w = #[trigger] windows_from(skip, total, wsize)[i];
                skip <= w.0 && w.1 >= 1 && w.0 + w.1 <= total
            },
        forall|c: int|
            skip <= c < total ==> #[trigger] some_window_covers(
                windows_from(skip, total, wsize),
                c,
            ),
        forall|i: int, j: int, c: int|
            0 <= i < j < windows_from(skip, total, wsize).len() ==> !(window_covers(
                windows_from(skip, total, wsize)[i],
                c,
            ) && window_covers(windows_from(skip, total, wsize)[j], c)),
    decreases total - skip,
{
    let ws = windows_from(skip, total, wsize);
    if skip >= total {
    } else if total - skip <= wsize {
        assert forall|c: int| skip <= c < total implies some_window_covers(ws, c) by {
            assert(window_covers(ws[0], c));
        }
    } else {
        let rest = windows_from(skip + wsize, total, wsize);
        lemma_windows_from(skip + wsize, total, wsize);
        assert(ws[0] == (skip, wsize));
        assert(forall|i: int| 0 <= i < rest.len() ==> ws[i + 1] == #[trigger] rest[i]);
        assert forall|i: int| 0 <= i < ws.len() implies {
            let w = #[trigger] ws[i];
            skip <= w.0 && w.1 >= 1 && w.0 + w.1 <= total
        } by {
            if i >= 1 {
                assert(ws[i] == rest[i - 1]);
            }
        }
        assert forall|c: int| skip <= c < total implies some_window_covers(ws, c) by {
            if c < skip + wsize {
                assert(window_covers(ws[0], c));
            } else {
                assert(some_window_covers(rest, c));
                let j = choose|j: int|
                    0 <= j < rest.len() && window_covers(#[trigger] rest[j], c);
                assert(ws[j + 1] == rest[j]);
                assert(window_covers(ws[j + 1], c));
            }
        }
        assert forall|i: int, j: int, c: int| 0 <= i < j < ws.len() implies !(window_covers(
            ws[i],
            c,
        ) && window_covers(ws[j], c)) by {
            assert(ws[j] == rest[j - 1]);
            if i == 0 {
                assert(skip <= rest[j - 1].0);
            } else {
                assert(ws[i] == rest[i - 1]);
            }
        }
    }
}

/// Every commit of `[0, total)` falls in exactly one generated window.
pub proof fn lemma_windows_partition(total: int, wsize: int, c: int)
    requires
        wsize >= 1,
        0 <= c < total,
    ensures
        some_window_covers(windows_spec(total, wsize), c),
        forall|i: int, j: int|
            0 <= i < windows_spec(total, wsize).len() && 0 <= j < windows_spec(
                total,
                wsize,
            ).len() && i != j ==> !(window_covers(windows_spec(total, wsize)[i], c)
                && window_covers(windows_spec(total, wsize)[j], c)),
        forall|i: int|
            0 <= i < windows_spec(total, wsize).len() ==> {
                let w = #[trigger] windows_spec(total, wsize)[i];
                0 <= w.0 && w.1 >= 1 && w.0 + w.1 <= total
            },
{
    lemma_windows_from(0, total, wsize);
}

/// Partition `[0, total)` into windows of `window_size`, the last one
/// truncated to the range's end.
pub fn generate_windows(total: usize, window_size: usize) -> (ws: Vec<Window>)
    requires
        window_size >= 1,
    ensures
        ws@.map_values(|w: Window| (w.skip as int, w.limit as int)) == windows_spec(
            total as int,
            window_size as int,
        ),
{
    let mut ws: Vec<Window> = Vec::new();
    let mut skip: usize = 0;
    while skip < total
        invariant
            window_size >= 1,
            0 <= skip <= total,
            ws@.map_values(|w: Window| (w.skip as int, w.limit as int)) + windows_from(
                skip as int,
                total as int,
                window_size as int,
            ) =~= windows_spec(total as int, window_size as int),
        decreases total - skip,
    {
        let limit: usize = if total - skip < window_size {
            total - skip
        } else {
            window_size
        };
        ws.push(Window { skip, limit });
        proof {
            assert(ws@.map_values(|w: Window| (w.skip as int, w.limit as int)) =~= ws@.drop_last()
                .map_values(|w: Window| (w.skip as int, w.limit as int)).push(
                ((skip as int, limit as int)),
            ));
        }
        skip = skip + limit;
    }
    proof {
        assert(windows_from(skip as int, total as int, window_size as int)
            =~= Seq::<(int, int)>::empty());
        assert(ws@.map_values(|w: Window| (w.skip as int, w.limit as int)) =~= ws@.map_values(
            |w: Window| (w.skip as int, w.limit as int),
        ) + Seq::<(int, int)>::empty());
    }
    ws
}

/// The body of a count line: one optional leading plus sign is dropped.
pub open spec fn count_body(l: Seq<u8>) -> Seq<u8> {
    if l.len() > 0 && l[0] == 43 {
        l.drop_first()
    } else {
        l
    }
}

/// The line reads as a count: a non-empty run of digits, after an optional
/// plus sign, whose value fits in a `u64`.
pub open spec fn line_parses(l: Seq<u8>) -> bool {
    &&& count_body(l).len() > 0
    &&& all_digits(count_body(l))
    &&& digits_value(count_body(l)) <= u64::MAX
}

/// The count a line contributes: its value when it reads as a count, zero
/// otherwise.
pub open spec fn line_count(l: Seq<u8>) -> u64 {
    if line_parses(l) {
        digits_value(count_body(l)) as u64
    } else {
        0
    }
}

/// The total that a count text sums to, line by line, clipped at the largest
/// `u64`.
pub open spec fn total_count_spec(lines: Seq<Seq<u8>>) -> u64
    decreases lines.len(),
{
    if lines.len() == 0 {
        0
    } else {
        sat_add(total_count_spec(lines.drop_last()), line_count(lines.last()))
    }
}

/// Read one line as a count.
fn parse_count_line(line: &[u8]) -> (r: u64)
    ensures
        r == line_count(line@),
{
    let n = line.len();
    let lo: usize = if n > 0 && line[0] == 43 {
        1
    } else {
        0
    };
    proof {
        assert(count_body(line@) =~= line@.subrange(lo as int, n as int));
    }
    if lo >= n {
        return 0;
    }
    let end = find_digit_run_end(line, lo);
    proof {
        crate::text::lemma_digit_run_end(line@, lo as int);
    }
    if end < n {
        proof {
            assert(!all_digits(count_body(line@))) by {
                assert(count_body(line@)[end - lo] == line@[end as int]);
            }
        }
        return 0;
    }
    proof {
        assert(all_digits(line@.subrange(lo as int, n as int))) by {
            assert(forall|k: int|
                0 <= k < n - lo ==> line@.subrange(lo as int, n as int)[k] == line@[lo + k]);
        }
    }
    match digits_to_u64(line, lo, n) {
        Some(v) => v,
        None => 0,
    }
}

/// Sum the counts of a count text's lines, clipped at the largest `u64`.
/// The history tool prints one total; summing tolerates stray lines as the
/// surrounding flow always did.
pub fn parse_total_count(text: &[u8]) -> (total: u64)
    ensures
        total == total_count_spec(spec_lines(text@)),
{
    let lines = split_lines(text);
    let ghost all = lines@.map_values(|l: Vec<u8>| l@);
    let mut total: u64 = 0;
    let mut k: usize = 0;
    proof {
        assert(all.take(0) =~= Seq::<Seq<u8>>::empty());
    }
    while k < lines.len()
        invariant
            0 <= k <= lines@.len(),
            all == lines@.map_values(|l: Vec<u8>| l@),
            all == spec_lines(text@),
            total == total_count_spec(all.take(k as int)),
        decreases lines@.len() - k,
    {
        proof {
            assert(all.take(k + 1).drop_last() =~= all.take(k as int));
            assert(all.take(k + 1).last() == lines@[k as int]@);
        }
        let c = parse_count_line(lines[k].as_slice());
        total = add_sat(total, c);
        k = k + 1;
    }
    proof {
        assert(all.take(lines@.len() as int) =~= all);
    }
    total
}

} // verus!

