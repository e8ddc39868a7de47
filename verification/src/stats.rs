//! Per-author statistics: the accumulator, per-window batch tables, window
//! aggregation, and the order-independent merge of batch results.
use crate::parser::CommitRecord;
use crate::parser::CommitRecordModel;
use crate::text::bytes_eq;
use vstd::prelude::*;

verus! {

/// Running totals of one author: commits counted, lines inserted, lines
/// deleted.
#[derive(Clone, Copy, Debug, PartialEq, Eq, Structural)]
pub struct AuthorAccumulator {
    pub commit_count: u64,
    pub insertions: u64,
    pub deletions: u64,
}

/// Addition clipped at the largest `u64`.
pub open spec fn sat_add(a: u64, b: u64) -> u64 {
    if a + b > u64::MAX {
        u64::MAX
    } else {
        (a + b) as u64
    }
}

/// Compute a sum clipped at the largest `u64`.
pub fn add_sat(a: u64, b: u64) -> (r: u64)
    ensures
        r == sat_add(a, b),
{
    if a > u64::MAX - b {
        u64::MAX
    } else {
        a + b
    }
}

/// The accumulator with nothing counted.
pub open spec fn acc_zero() -> AuthorAccumulator {
    AuthorAccumulator { commit_count: 0, insertions: 0, deletions: 0 }
}

/// Fieldwise clipped sum of two accumulators.
pub open spec fn acc_add(a: AuthorAccumulator, b: AuthorAccumulator) -> AuthorAccumulator {
    AuthorAccumulator {
        commit_count: sat_add(a.commit_count, b.commit_count),
        insertions: sat_add(a.insertions, b.insertions),
        deletions: sat_add(a.deletions, b.deletions),
    }
}

/// Compute the fieldwise clipped sum of two accumulators.
pub fn acc_add_exec(a: AuthorAccumulator, b: AuthorAccumulator) -> (r: AuthorAccumulator)
    ensures
        r == acc_add(a, b),
{
    AuthorAccumulator {
        commit_count: add_sat(a.commit_count, b.commit_count),
        insertions: add_sat(a.insertions, b.insertions),
        deletions: add_sat(a.deletions, b.deletions),
    }
}

/// What one record contributes to its author: one commit and its two line
/// counts.
pub open spec fn acc_of_record(r: CommitRecordModel) -> AuthorAccumulator {
    AuthorAccumulator { commit_count: 1, insertions: r.insertions, deletions: r.deletions }
}

/// The accumulator of `author` in `m`, or the empty one when the author is
/// absent.
pub open spec fn acc_in(m: Map<Seq<u8>, AuthorAccumulator>, author: Seq<u8>) -> AuthorAccumulator {
    if m.dom().contains(author) {
        m[author]
    } else {
        acc_zero()
    }
}

/// The entry list holds no author twice.
pub open spec fn distinct_keys(entries: Seq<(Vec<u8>, AuthorAccumulator)>) -> bool {
    forall|i: int, j: int|
        0 <= i < j < entries.len() ==> (#[trigger] entries[i]).0@ != (#[trigger] entries[j]).0@
}

/// The author-to-accumulator mapping that an entry list stands for.
pub open spec fn table_map(entries: Seq<(Vec<u8>, AuthorAccumulator)>) -> Map<
    Seq<u8>,
    AuthorAccumulator,
>
    decreases entries.len(),
{
    if entries.len() == 0 {
        Map::empty()
    } else {
        table_map(entries.drop_last()).insert(entries.last().0@, entries.last().1)
    }
}

/// An author is in the mapping exactly when some entry carries it.
pub proof fn lemma_table_map_dom(entries: Seq<(Vec<u8>, AuthorAccumulator)>, k: Seq<u8>)
    ensures
        table_map(entries).dom().contains(k) <==> exists|i: int|
            0 <= i < entries.len() && (#[trigger] entries[i]).0@ == k,
    decreases entries.len(),
{
    if entries.len() > 0 {
        lemma_table_map_dom(entries.drop_last(), k);
        if entries.last().0@ == k {
            assert(entries[entries.len() - 1].0@ == k);
        } else if table_map(entries).dom().contains(k) {
            let i = choose|i: int|
                0 <= i < entries.drop_last().len() && (#[trigger] entries.drop_last()[i]).0@ == k;
            assert(entries[i].0@ == k);
        } else {
            assert forall|i: int|
                0 <= i < entries.len() && (#[trigger] entries[i]).0@ == k implies false by {
                if i < entries.len() - 1 {
                    assert(entries.drop_last()[i].0@ == k);
                }
            }
        }
    }
}

/// With distinct authors, the mapping sends each entry's author to that
/// entry's accumulator.
pub proof fn lemma_table_map_at(entries: Seq<(Vec<u8>, AuthorAccumulator)>, i: int)
    requires
        distinct_keys(entries),
        0 <= i < entries.len(),
    ensures
        table_map(entries).dom().contains(entries[i].0@),
        table_map(entries)[entries[i].0@] == entries[i].1,
    decreases entries.len(),
{
    if i == entries.len() - 1 {
    } else {
        assert(entries[i].0@ != entries[entries.len() - 1].0@);
        assert(entries.drop_last()[i] == entries[i]);
        lemma_table_map_at(entries.drop_last(), i);
    }
}

/// Replacing the entry of one author replaces its image in the mapping and
/// nothing else.
pub proof fn lemma_table_map_update(
    entries: Seq<(Vec<u8>, AuthorAccumulator)>,
    i: int,
    p: (Vec<u8>, AuthorAccumulator),
)
    requires
        distinct_keys(entries),
        0 <= i < entries.len(),
        p.0@ == entries[i].0@,
    ensures
        table_map(entries.update(i, p)) == table_map(entries).insert(p.0@, p.1),
    decreases entries.len(),
{
    let updated = entries.update(i, p);
    if i == entries.len() - 1 {
        assert(updated.drop_last() =~= entries.drop_last());
        assert(updated.last() == p);
        assert(table_map(updated) =~= table_map(entries).insert(p.0@, p.1));
    } else {
        assert(updated.drop_last() =~= entries.drop_last().update(i, p));
        assert(updated.last() == entries.last());
        assert(entries.drop_last()[i] == entries[i]);
        lemma_table_map_update(entries.drop_last(), i, p);
        assert(entries[i].0@ != entries[entries.len() - 1].0@);
        assert(table_map(updated) =~= table_map(entries).insert(p.0@, p.1));
    }
}

/// Find the entry of `author` in the list.
fn find_entry(entries: &Vec<(Vec<u8>, AuthorAccumulator)>, author: &[u8]) -> (r: Option<usize>)
    ensures
        match r {
            Some(i) => 0 <= i < entries@.len() && entries@[i as int].0@ == author@,
            None => forall|i: int|
                0 <= i < entries@.len() ==> (#[trigger] entries@[i]).0@ != author@,
        },
{
    let mut k: usize = 0;
    while k < entries.len()
        invariant
            0 <= k <= entries@.len(),
            forall|i: int| 0 <= i < k ==> (#[trigger] entries@[i]).0@ != author@,
        decreases entries@.len() - k,
    {
        if bytes_eq(entries[k].0.as_slice(), author) {
            return Some(k);
        }
        k = k + 1;
    }
    None
}

/// Fold `delta` into the totals of `author`, inserting the author when it is
/// new.
fn add_into(
    entries: &mut Vec<(Vec<u8>, AuthorAccumulator)>,
    author: &[u8],
    delta: AuthorAccumulator,
)
    requires
        distinct_keys(old(entries)@),
    ensures
        distinct_keys(final(entries)@),
        table_map(final(entries)@) == table_map(old(entries)@).insert(
            author@,
            acc_add(acc_in(table_map(old(entries)@), author@), delta),
        ),
{
    let ghost before = entries@;
    match find_entry(entries, author) {
        Some(i) => {
            proof {
                lemma_table_map_at(before, i as int);
            }
            let key = vstd::slice::slice_to_vec(entries[i].0.as_slice());
            let merged = acc_add_exec(entries[i].1, delta);
            entries.set(i, (key, merged));
            proof {
                lemma_table_map_update(before, i as int, (key, merged));
                assert(distinct_keys(entries@)) by {
                    assert(forall|j: int|
                        0 <= j < entries@.len() ==> (#[trigger] entries@[j]).0@ == before[j].0@);
                }
            }
        },
        None => {
            proof {
                lemma_table_map_dom(before, author@);
            }
            let key = vstd::slice::slice_to_vec(author);
            entries.push((key, delta));
            proof {
                assert(entries@.drop_last() =~= before);
                assert(acc_add(acc_zero(), delta) == delta);
                assert(distinct_keys(entries@)) by {
                    assert(forall|j: int|
                        0 <= j < before.len() ==> (#[trigger] entries@[j]).0@ == before[j].0@);
                }
            }
        },
    }
}

/// Per-author partial totals of one window, owned by the worker that built
/// them.
pub struct BatchResult {
    pub entries: Vec<(Vec<u8>, AuthorAccumulator)>,
}

impl View for BatchResult {
    type V = Map<Seq<u8>, AuthorAccumulator>;

    open spec fn view(&self) -> Map<Seq<u8>, AuthorAccumulator> {
        table_map(self.entries@)
    }
}

impl BatchResult {
    /// No author stands in the table twice.
    pub open spec fn wf(&self) -> bool {
        distinct_keys(self.entries@)
    }

    /// The totals recorded for `author`, or nothing when the author is
    /// absent.
    pub fn get(&self, author: &[u8]) -> (r: Option<AuthorAccumulator>)
        requires
            self.wf(),
        ensures
            match r {
                Some(acc) => self@.dom().contains(author@) && acc == self@[author@],
                None => !self@.dom().contains(author@),
            },
    {
        proof {
            lemma_table_map_dom(self.entries@, author@);
        }
        match find_entry(&self.entries, author) {
            Some(i) => {
                proof {
                    lemma_table_map_at(self.entries@, i as int);
                }
                Some(self.entries[i].1)
            },
            None => None,
        }
    }

    /// How many authors the table holds.
    pub fn author_count(&self) -> (n: usize)
        ensures
            n == self.entries@.len(),
    {
        self.entries.len()
    }
}

/// The per-author totals that a sequence of records folds to: each record
/// adds one commit and its line counts to its author.
pub open spec fn aggregate_spec(records: Seq<CommitRecordModel>) -> Map<Seq<u8>, AuthorAccumulator>
    decreases records.len(),
{
    if records.len() == 0 {
        Map::empty()
    } else {
        let m = aggregate_spec(records.drop_last());
        let r = records.last();
        m.insert(r.author, acc_add(acc_in(m, r.author), acc_of_record(r)))
    }
}

/// Fold one window's records into a batch table.
pub fn aggregate_window(records: &Vec<CommitRecord>) -> (batch: BatchResult)
    ensures
        batch.wf(),
        batch@ == aggregate_spec(records@.map_values(|r: CommitRecord| r@)),
{
    let ghost all = records@.map_values(|r: CommitRecord| r@);
    let mut entries: Vec<(Vec<u8>, AuthorAccumulator)> = Vec::new();
    let mut k: usize = 0;
    proof {
        assert(all.take(0) =~= Seq::<CommitRecordModel>::empty());
    }
    while k < records.len()
        invariant
            0 <= k <= records@.len(),
            all == records@.map_values(|r: CommitRecord| r@),
            distinct_keys(entries@),
            table_map(entries@) == aggregate_spec(all.take(k as int)),
        decreases records@.len() - k,
    {
        proof {
            assert(all.take(k + 1).drop_last() =~= all.take(k as int));
            assert(all.take(k + 1).last() == records@[k as int]@);
        }
        let rec = &records[k];
        let delta = AuthorAccumulator {
            commit_count: 1,
            insertions: rec.insertions,
            deletions: rec.deletions,
        };
        add_into(&mut entries, rec.author.as_slice(), delta);
        k = k + 1;
    }
    proof {
        assert(all.take(records@.len() as int) =~= all);
    }
    BatchResult { entries }
}

/// Pointwise merge of two author tables: an author stands in the result
/// when it stands in either, with the clipped sum of its two accumulators.
pub open spec fn merge_maps(
    a: Map<Seq<u8>, AuthorAccumulator>,
    b: Map<Seq<u8>, AuthorAccumulator>,
) -> Map<Seq<u8>, AuthorAccumulator> {
    Map::new(
        |k: Seq<u8>| a.dom().contains(k) || b.dom().contains(k),
        |k: Seq<u8>| acc_add(acc_in(a, k), acc_in(b, k)),
    )
}

/// The global table that a sequence of batch tables merges to, folded left
/// to right.
pub open spec fn merge_all(batches: Seq<Map<Seq<u8>, AuthorAccumulator>>) -> Map<
    Seq<u8>,
    AuthorAccumulator,
>
    decreases batches.len(),
{
    if batches.len() == 0 {
        Map::empty()
    } else {
        merge_maps(merge_all(batches.drop_last()), batches.last())
    }
}

/// In a merge, each author's totals are the clipped sum of its totals on the
/// two sides.
pub proof fn lemma_acc_in_merge(
    a: Map<Seq<u8>, AuthorAccumulator>,
    b: Map<Seq<u8>, AuthorAccumulator>,
    k: Seq<u8>,
)
    ensures
        acc_in(merge_maps(a, b), k) == acc_add(acc_in(a, k), acc_in(b, k)),
{
}

/// Folding an entry list into a table, author by author.
pub open spec fn merge_entries(
    m: Map<Seq<u8>, AuthorAccumulator>,
    entries: Seq<(Vec<u8>, AuthorAccumulator)>,
) -> Map<Seq<u8>, AuthorAccumulator>
    decreases entries.len(),
{
    if entries.len() == 0 {
        m
    } else {
        let m2 = merge_entries(m, entries.drop_last());
        m2.insert(
            entries.last().0@,
            acc_add(acc_in(m2, entries.last().0@), entries.last().1),
        )
    }
}

/// Folding an entry list with distinct authors into a table is the
/// pointwise merge with the mapping the list stands for.
pub proof fn lemma_merge_entries_map(
    m: Map<Seq<u8>, AuthorAccumulator>,
    entries: Seq<(Vec<u8>, AuthorAccumulator)>,
)
    requires
        distinct_keys(entries),
    ensures
        merge_entries(m, entries) == merge_maps(m, table_map(entries)),
    decreases entries.len(),
{
    if entries.len() == 0 {
        assert(merge_maps(m, table_map(entries)) =~= m);
    } else {
        let e = entries.drop_last();
        let k = entries.last().0@;
        let v = entries.last().1;
        assert(distinct_keys(e)) by {
            assert(forall|i: int| 0 <= i < e.len() ==> e[i] == entries[i]);
        }
        lemma_merge_entries_map(m, e);
        lemma_table_map_dom(e, k);
        assert(!table_map(e).dom().contains(k)) by {
            if exists|i: int| 0 <= i < e.len() && (#[trigger] e[i]).0@ == k {
                let i = choose|i: int| 0 <= i < e.len() && (#[trigger] e[i]).0@ == k;
                assert(entries[i].0@ == entries[entries.len() - 1].0@);
            }
        }
        lemma_acc_in_merge(m, table_map(e), k);
        assert(merge_entries(m, entries) =~= merge_maps(m, table_map(entries)));
    }
}

/// The whole project's per-author totals: the merge of every window's batch
/// table.
pub struct GlobalStats {
    pub entries: Vec<(Vec<u8>, AuthorAccumulator)>,
}

impl View for GlobalStats {
    type V = Map<Seq<u8>, AuthorAccumulator>;

    open spec fn view(&self) -> Map<Seq<u8>, AuthorAccumulator> {
        table_map(self.entries@)
    }
}

impl GlobalStats {
    /// No author stands in the table twice.
    pub open spec fn wf(&self) -> bool {
        distinct_keys(self.entries@)
    }

    /// The totals recorded for `author`, or nothing when the author is
    /// absent.
    pub fn get(&self, author: &[u8]) -> (r: Option<AuthorAccumulator>)
        requires
            self.wf(),
        ensures
            match r {
                Some(acc) => self@.dom().contains(author@) && acc == self@[author@],
                None => !self@.dom().contains(author@),
            },
    {
        proof {
            lemma_table_map_dom(self.entries@, author@);
        }
        match find_entry(&self.entries, author) {
            Some(i) => {
                proof {
                    lemma_table_map_at(self.entries@, i as int);
                }
                Some(self.entries[i].1)
            },
            None => None,
        }
    }

    /// How many authors the table holds.
    pub fn author_count(&self) -> (n: usize)
        ensures
            n == self.entries@.len(),
    {
        self.entries.len()
    }
}

/// Merge every window's batch table into one global table. Run only after
/// all windows have completed; the result does not depend on the order in
/// which the batches arrived.
pub fn merge_batches(batches: &Vec<BatchResult>) -> (global: GlobalStats)
    requires
        forall|i: int| 0 <= i < batches@.len() ==> (#[trigger] batches@[i]).wf(),
    ensures
        global.wf(),
        global@ == merge_all(batches@.map_values(|b: BatchResult| b@)),
{
    let ghost views = batches@.map_values(|b: BatchResult| b@);
    let mut entries: Vec<(Vec<u8>, AuthorAccumulator)> = Vec::new();
    let mut i: usize = 0;
    proof {
        assert(views.take(0) =~= Seq::<Map<Seq<u8>, AuthorAccumulator>>::empty());
    }
    while i < batches.len()
        invariant
            0 <= i <= batches@.len(),
            views == batches@.map_values(|b: BatchResult| b@),
            forall|n: int| 0 <= n < batches@.len() ==> (#[trigger] batches@[n]).wf(),
            distinct_keys(entries@),
            table_map(entries@) == merge_all(views.take(i as int)),
        decreases batches@.len() - i,
    {
        let ghost m_start = table_map(entries@);
        let ghost batch_entries = batches@[i as int].entries@;
        let batch = &batches[i];
        let mut j: usize = 0;
        proof {
            assert(batch_entries.take(0) =~= Seq::<(Vec<u8>, AuthorAccumulator)>::empty());
        }
        while j < batch.entries.len()
            invariant
                0 <= j <= batch_entries.len(),
                batch_entries == batch.entries@,
                distinct_keys(entries@),
                table_map(entries@) == merge_entries(m_start, batch_entries.take(j as int)),
            decreases batch_entries.len() - j,
        {
            proof {
                assert(batch_entries.take(j + 1).drop_last() =~= batch_entries.take(j as int));
                assert(batch_entries.take(j + 1).last() == batch_entries[j as int]);
            }
            let author = vstd::slice::slice_to_vec(batch.entries[j].0.as_slice());
            let delta = batch.entries[j].1;
            add_into(&mut entries, author.as_slice(), delta);
            j = j + 1;
        }
        proof {
            assert(batch_entries.take(batch_entries.len() as int) =~= batch_entries);
            assert(batches@[i as int].wf());
            lemma_merge_entries_map(m_start, batch_entries);
            assert(views.take(i + 1).drop_last() =~= views.take(i as int));
            assert(views.take(i + 1).last() == views[i as int]);
            assert(views[i as int] == table_map(batch_entries));
        }
        i = i + 1;
    }
    proof {
        assert(views.take(batches@.len() as int) =~= views);
    }
    GlobalStats { entries }
}

/// Clipped addition can trade its last two addends.
pub proof fn lemma_sat_add_rotate(a: u64, b: u64, c: u64)
    ensures
        sat_add(sat_add(a, b), c) == sat_add(sat_add(a, c), b),
{
}

/// Accumulator addition can trade its last two addends.
pub proof fn lemma_acc_add_rotate(a: AuthorAccumulator, b: AuthorAccumulator, c: AuthorAccumulator)
    ensures
        acc_add(acc_add(a, b), c) == acc_add(acc_add(a, c), b),
{
    lemma_sat_add_rotate(a.commit_count, b.commit_count, c.commit_count);
    lemma_sat_add_rotate(a.insertions, b.insertions, c.insertions);
    lemma_sat_add_rotate(a.deletions, b.deletions, c.deletions);
}

/// The left fold of the pointwise merge is the global merge.
pub proof fn lemma_merge_all_fold(
    batches: Seq<Map<Seq<u8>, AuthorAccumulator>>,
    f: spec_fn(Map<Seq<u8>, AuthorAccumulator>, Map<Seq<u8>, AuthorAccumulator>) -> Map<
        Seq<u8>,
        AuthorAccumulator,
    >,
)
    requires
        forall|m: Map<Seq<u8>, AuthorAccumulator>, b: Map<Seq<u8>, AuthorAccumulator>|
            #[trigger] f(m, b) == merge_maps(m, b),
    ensures
        merge_all(batches) == batches.fold_left(Map::empty(), f),
    decreases batches.len(),
{
    if batches.len() > 0 {
        lemma_merge_all_fold(batches.drop_last(), f);
    }
}

/// Merging a collection of batch tables in any order yields the same global
/// table: two sequences that hold the same batches, however arranged, merge
/// to one result.
pub proof fn lemma_merge_order_independent(
    b1: Seq<Map<Seq<u8>, AuthorAccumulator>>,
    b2: Seq<Map<Seq<u8>, AuthorAccumulator>>,
)
    requires
        b1.to_multiset() == b2.to_multiset(),
    ensures
        merge_all(b1) == merge_all(b2),
{
    let f = |m: Map<Seq<u8>, AuthorAccumulator>, b: Map<Seq<u8>, AuthorAccumulator>|
        merge_maps(m, b);
    assert forall|x: Map<Seq<u8>, AuthorAccumulator>, y: Map<Seq<u8>, AuthorAccumulator>, v: Map<
        Seq<u8>,
        AuthorAccumulator,
    >| #[trigger] f(f(v, x), y) == f(f(v, y), x) by {
        assert forall|k: Seq<u8>|
            acc_in(merge_maps(merge_maps(v, x), y), k) == acc_in(
                merge_maps(merge_maps(v, y), x),
                k,
            ) by {
            lemma_acc_in_merge(merge_maps(v, x), y, k);
            lemma_acc_in_merge(v, x, k);
            lemma_acc_in_merge(merge_maps(v, y), x, k);
            lemma_acc_in_merge(v, y, k);
            lemma_acc_add_rotate(acc_in(v, k), acc_in(x, k), acc_in(y, k));
        }
        assert(merge_maps(merge_maps(v, x), y) =~= merge_maps(merge_maps(v, y), x));
    }
    assert(vstd::seq_lib::commutative_foldl(f));
    vstd::seq_lib::lemma_fold_left_permutation(b1, b2, f, Map::empty());
    lemma_merge_all_fold(b1, f);
    lemma_merge_all_fold(b2, f);
}

/// Sum of an author's commit counts over a sequence of batch tables.
pub open spec fn commit_count_sum(
    batches: Seq<Map<Seq<u8>, AuthorAccumulator>>,
    author: Seq<u8>,
) -> int
    decreases batches.len(),
{
    if batches.len() == 0 {
        0
    } else {
        commit_count_sum(batches.drop_last(), author) + acc_in(
            batches.last(),
            author,
        ).commit_count
    }
}

/// Sum of an author's insertions over a sequence of batch tables.
pub open spec fn insertions_sum(
    batches: Seq<Map<Seq<u8>, AuthorAccumulator>>,
    author: Seq<u8>,
) -> int
    decreases batches.len(),
{
    if batches.len() == 0 {
        0
    } else {
        insertions_sum(batches.drop_last(), author) + acc_in(batches.last(), author).insertions
    }
}

/// Sum of an author's deletions over a sequence of batch tables.
pub open spec fn deletions_sum(
    batches: Seq<Map<Seq<u8>, AuthorAccumulator>>,
    author: Seq<u8>,
) -> int
    decreases batches.len(),
{
    if batches.len() == 0 {
        0
    } else {
        deletions_sum(batches.drop_last(), author) + acc_in(batches.last(), author).deletions
    }
}

/// For one author, the merged table holds exactly the sum of that author's
/// per-window totals, as long as each sum fits in a `u64`.
pub proof fn lemma_merge_additive(
    batches: Seq<Map<Seq<u8>, AuthorAccumulator>>,
    author: Seq<u8>,
)
    requires
        commit_count_sum(batches, author) <= u64::MAX,
        insertions_sum(batches, author) <= u64::MAX,
        deletions_sum(batches, author) <= u64::MAX,
    ensures
        acc_in(merge_all(batches), author).commit_count == commit_count_sum(batches, author),
        acc_in(merge_all(batches), author).insertions == insertions_sum(batches, author),
        acc_in(merge_all(batches), author).deletions == deletions_sum(batches, author),
    decreases batches.len(),
{
    if batches.len() > 0 {
        lemma_merge_additive(batches.drop_last(), author);
        lemma_acc_in_merge(merge_all(batches.drop_last()), batches.last(), author);
    }
}

} // verus!
