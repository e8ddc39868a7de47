//! The stateful line parser: scans a window's log text and extracts one
//! record per commit whose identity, author and statistics lines were all
//! recognized, in that order.
use crate::grammar::author_of;
use crate::grammar::commit_id_of;
use crate::grammar::get_commit_author;
use crate::grammar::get_commit_file_change;
use crate::grammar::get_commit_id;
use crate::grammar::is_author_line;
use crate::grammar::is_commit_id_line;
use crate::grammar::stats_of;
use crate::text::spec_lines;
use crate::text::split_lines;
use vstd::prelude::*;

verus! {

/// One extracted commit: identifier, author display name, and the two line
/// counts from its statistics line.
pub struct CommitRecord {
    pub id: Vec<u8>,
    pub author: Vec<u8>,
    pub insertions: u64,
    pub deletions: u64,
}

/// Mathematical shape of a commit record.
#[verifier::ext_equal]
pub ghost struct CommitRecordModel {
    pub id: Seq<u8>,
    pub author: Seq<u8>,
    pub insertions: u64,
    pub deletions: u64,
}

impl View for CommitRecord {
    type V = CommitRecordModel;

    open spec fn view(&self) -> CommitRecordModel {
        CommitRecordModel {
            id: self.id@,
            author: self.author@,
            insertions: self.insertions,
            deletions: self.deletions,
        }
    }
}

/// Parser stage, carrying what the earlier anchor lines of the commit at
/// hand captured.
#[verifier::ext_equal]
pub ghost enum ParserState {
    ExpectCommitId,
    ExpectAuthor { id: Seq<u8> },
    ExpectStats { id: Seq<u8>, author: Seq<u8> },
}

/// One step of the machine: the line is read at the current stage alone; a
/// line that does not match the stage's grammar changes nothing.
pub open spec fn parse_step(st: ParserState, line: Seq<u8>) -> (ParserState, Option<
    CommitRecordModel,
>) {
    match st {
        ParserState::ExpectCommitId => {
            if is_commit_id_line(line) {
                (ParserState::ExpectAuthor { id: commit_id_of(line) }, None)
            } else {
                (st, None)
            }
        },
        ParserState::ExpectAuthor { id } => {
            if is_author_line(line) {
                (ParserState::ExpectStats { id, author: author_of(line) }, None)
            } else {
                (st, None)
            }
        },
        ParserState::ExpectStats { id, author } => {
            let sl = stats_of(line);
            if sl.recognized {
                (
                    ParserState::ExpectCommitId,
                    Some(
                        CommitRecordModel {
                            id,
                            author,
                            insertions: sl.insertions,
                            deletions: sl.deletions,
                        },
                    ),
                )
            } else {
                (st, None)
            }
        },
    }
}

/// Run the machine from `st` over `lines`; the final stage and the records
/// emitted, in the order of the lines that completed them.
pub open spec fn parse_lines_from(st: ParserState, lines: Seq<Seq<u8>>) -> (ParserState, Seq<
    CommitRecordModel,
>)
    decreases lines.len(),
{
    if lines.len() == 0 {
        (st, Seq::empty())
    } else {
        let prev = parse_lines_from(st, lines.drop_last());
        let stepped = parse_step(prev.0, lines.last());
        match stepped.1 {
            Some(r) => (stepped.0, prev.1.push(r)),
            None => (stepped.0, prev.1),
        }
    }
}

/// The records extracted from a window's lines, scanned from the initial
/// stage.
pub open spec fn parse_lines_spec(lines: Seq<Seq<u8>>) -> Seq<CommitRecordModel> {
    parse_lines_from(ParserState::ExpectCommitId, lines).1
}

/// Exec mirror of the parser stage, without the captured data.
enum Stage {
    ExpectCommitId,
    ExpectAuthor,
    ExpectStats,
}

/// The abstract stage that the exec scanner's stage tag and captured
/// buffers stand for.
pub open spec fn abstract_state(stage_id: int, id: Seq<u8>, author: Seq<u8>) -> ParserState {
    if stage_id == 0 {
        ParserState::ExpectCommitId
    } else if stage_id == 1 {
        ParserState::ExpectAuthor { id }
    } else {
        ParserState::ExpectStats { id, author }
    }
}

/// Scan the lines of one window and extract its commit records.
pub fn parse_window_lines(lines: &Vec<Vec<u8>>) -> (records: Vec<CommitRecord>)
    ensures
        records@.map_values(|r: CommitRecord| r@) == parse_lines_spec(
            lines@.map_values(|l: Vec<u8>| l@),
        ),
{
    let ghost all = lines@.map_values(|l: Vec<u8>| l@);
    let mut records: Vec<CommitRecord> = Vec::new();
    let mut stage = Stage::ExpectCommitId;
    let mut current_id: Vec<u8> = Vec::new();
    let mut current_author: Vec<u8> = Vec::new();
    let ghost stage_tag: int = 0;
    let mut k: usize = 0;
    proof {
        assert(all.take(0) =~= Seq::<Seq<u8>>::empty());
    }
    while k < lines.len()
        invariant
            0 <= k <= lines@.len(),
            all == lines@.map_values(|l: Vec<u8>| l@),
            stage_tag == (match stage {
                Stage::ExpectCommitId => 0int,
                Stage::ExpectAuthor => 1int,
                Stage::ExpectStats => 2int,
            }),
            parse_lines_from(ParserState::ExpectCommitId, all.take(k as int)).0 == abstract_state(
                stage_tag,
                current_id@,
                current_author@,
            ),
            parse_lines_from(ParserState::ExpectCommitId, all.take(k as int)).1
                == records@.map_values(|r: CommitRecord| r@),
        decreases lines@.len() - k,
    {
        let ghost prefix = all.take(k as int);
        let ghost st_before = abstract_state(stage_tag, current_id@, current_author@);
        let line = &lines[k];
        proof {
            assert(all.take(k + 1).drop_last() =~= prefix);
            assert(all.take(k + 1).last() == line@);
        }
        match stage {
            Stage::ExpectCommitId => {
                let r = get_commit_id(line.as_slice());
                if r.0 {
                    current_id = r.1;
                    stage = Stage::ExpectAuthor;
                    proof {
                        stage_tag = 1;
                    }
                }
            },
            Stage::ExpectAuthor => {
                let r = get_commit_author(line.as_slice());
                if r.0 {
                    current_author = r.1;
                    stage = Stage::ExpectStats;
                    proof {
                        stage_tag = 2;
                    }
                }
            },
            Stage::ExpectStats => {
                let r = get_commit_file_change(line.as_slice());
                if r.0 {
                    stage = Stage::ExpectCommitId;
                    proof {
                        stage_tag = 0;
                    }
                    let id_copy = clone_bytes(&current_id);
                    let author_copy = clone_bytes(&current_author);
                    let rec = CommitRecord {
                        id: id_copy,
                        author: author_copy,
                        insertions: r.1.0,
                        deletions: r.1.1,
                    };
                    records.push(rec);
                    proof {
                        assert(records@.map_values(|r: CommitRecord| r@) =~= records@.drop_last()
                            .map_values(|r: CommitRecord| r@).push(records@.last()@));
                    }
                }
            },
        }
        k = k + 1;
    }
    proof {
        assert(all.take(lines@.len() as int) =~= all);
    }
    records
}

/// Copy a byte buffer.
fn clone_bytes(v: &Vec<u8>) -> (r: Vec<u8>)
    ensures
        r@ == v@,
{
    let mut r: Vec<u8> = Vec::new();
    let mut k: usize = 0;
    while k < v.len()
        invariant
            0 <= k <= v@.len(),
            r@ == v@.take(k as int),
        decreases v@.len() - k,
    {
        r.push(v[k]);
        proof {
            assert(v@.take(k + 1) =~= v@.take(k as int).push(v@[k as int]));
        }
        k = k + 1;
    }
    proof {
        assert(v@.take(v@.len() as int) =~= v@);
    }
    r
}

/// Running the machine over joined line sequences is running it over the
/// first, then over the second from the stage reached.
pub proof fn lemma_parse_lines_concat(st: ParserState, s1: Seq<Seq<u8>>, s2: Seq<Seq<u8>>)
    ensures
        parse_lines_from(st, s1 + s2).0 == parse_lines_from(parse_lines_from(st, s1).0, s2).0,
        parse_lines_from(st, s1 + s2).1 == parse_lines_from(st, s1).1 + parse_lines_from(
            parse_lines_from(st, s1).0,
            s2,
        ).1,
    decreases s2.len(),
{
    if s2.len() == 0 {
        assert(s1 + s2 =~= s1);
        assert(parse_lines_from(st, s1).1 + parse_lines_from(parse_lines_from(st, s1).0, s2).1
            =~= parse_lines_from(st, s1).1);
    } else {
        lemma_parse_lines_concat(st, s1, s2.drop_last());
        assert((s1 + s2).drop_last() =~= s1 + s2.drop_last());
        assert((s1 + s2).last() == s2.last());
        let a = parse_lines_from(st, s1);
        let b = parse_lines_from(a.0, s2.drop_last());
        let stepped = parse_step(b.0, s2.last());
        match stepped.1 {
            Some(r) => {
                assert((a.1 + b.1).push(r) =~= a.1 + b.1.push(r));
            },
            None => {},
        }
    }
}

/// A line that matches none of the three grammars at any stage.
pub open spec fn is_inert_line(l: Seq<u8>) -> bool {
    &&& !is_commit_id_line(l)
    &&& !is_author_line(l)
    &&& !stats_of(l).recognized
}

/// A block of inert lines leaves the machine where it stood and emits
/// nothing.
pub proof fn lemma_inert_block(st: ParserState, junk: Seq<Seq<u8>>)
    requires
        forall|i: int| 0 <= i < junk.len() ==> is_inert_line(#[trigger] junk[i]),
    ensures
        parse_lines_from(st, junk).0 == st,
        parse_lines_from(st, junk).1 == Seq::<CommitRecordModel>::empty(),
    decreases junk.len(),
{
    if junk.len() > 0 {
        assert(is_inert_line(junk[junk.len() - 1]));
        lemma_inert_block(st, junk.drop_last());
    }
}

/// Inserting lines that match no grammar anywhere between a window's lines
/// changes neither the records extracted nor the stage reached.
pub proof fn lemma_skip_on_malformed(
    st: ParserState,
    s1: Seq<Seq<u8>>,
    junk: Seq<Seq<u8>>,
    s2: Seq<Seq<u8>>,
)
    requires
        forall|i: int| 0 <= i < junk.len() ==> is_inert_line(#[trigger] junk[i]),
    ensures
        parse_lines_from(st, s1 + junk + s2).0 == parse_lines_from(st, s1 + s2).0,
        parse_lines_from(st, s1 + junk + s2).1 == parse_lines_from(st, s1 + s2).1,
{
    let mid = parse_lines_from(st, s1).0;
    lemma_parse_lines_concat(st, s1, junk);
    lemma_inert_block(mid, junk);
    lemma_parse_lines_concat(st, s1 + junk, s2);
    lemma_parse_lines_concat(st, s1, s2);
    assert(parse_lines_from(st, s1 + junk).1 =~= parse_lines_from(st, s1).1);
    assert(parse_lines_from(st, s1 + junk + s2).1 =~= parse_lines_from(st, s1 + s2).1);
}

/// The three anchor lines of one well-formed commit in a synthetic log.
pub ghost struct CommitLines {
    pub id_line: Seq<u8>,
    pub author_line: Seq<u8>,
    pub stats_line: Seq<u8>,
}

/// Each anchor line matches its grammar.
pub open spec fn commit_lines_well_formed(c: CommitLines) -> bool {
    &&& is_commit_id_line(c.id_line)
    &&& is_author_line(c.author_line)
    &&& stats_of(c.stats_line).recognized
}

/// The three lines of one commit, in log order.
pub open spec fn render_commit(c: CommitLines) -> Seq<Seq<u8>> {
    seq![c.id_line, c.author_line, c.stats_line]
}

/// A synthetic log: the commits' anchor lines, one commit after the other.
pub open spec fn render_log(cs: Seq<CommitLines>) -> Seq<Seq<u8>>
    decreases cs.len(),
{
    if cs.len() == 0 {
        Seq::empty()
    } else {
        render_log(cs.drop_last()) + render_commit(cs.last())
    }
}

/// The record that one well-formed commit's lines carry.
pub open spec fn record_of_commit_lines(c: CommitLines) -> CommitRecordModel {
    CommitRecordModel {
        id: commit_id_of(c.id_line),
        author: author_of(c.author_line),
        insertions: stats_of(c.stats_line).insertions,
        deletions: stats_of(c.stats_line).deletions,
    }
}

/// Round trip: a synthetic log of well-formed commits parses to exactly
/// those commits' records, in log order, and leaves the machine ready for
/// another commit.
#[verifier::rlimit(50)]
pub proof fn lemma_parser_round_trip(cs: Seq<CommitLines>)
    requires
        forall|i: int| 0 <= i < cs.len() ==> commit_lines_well_formed(#[trigger] cs[i]),
    ensures
        parse_lines_from(ParserState::ExpectCommitId, render_log(cs)).0
            == ParserState::ExpectCommitId,
        parse_lines_spec(render_log(cs)) == cs.map_values(
            |c: CommitLines| record_of_commit_lines(c),
        ),
    decreases cs.len(),
{
    if cs.len() == 0 {
        assert(cs.map_values(|c: CommitLines| record_of_commit_lines(c)) =~= Seq::<
            CommitRecordModel,
        >::empty());
    } else {
        let e = cs.drop_last();
        let c = cs.last();
        assert(commit_lines_well_formed(c));
        assert(forall|i: int| 0 <= i < e.len() ==> e[i] == #[trigger] cs[i]);
        lemma_parser_round_trip(e);
        lemma_parse_lines_concat(ParserState::ExpectCommitId, render_log(e), render_commit(c));
        let tri = render_commit(c);
        reveal_with_fuel(parse_lines_from, 4);
        assert(tri.drop_last() =~= seq![c.id_line, c.author_line]);
        assert(seq![c.id_line, c.author_line].drop_last() =~= seq![c.id_line]);
        assert(seq![c.id_line].drop_last() =~= Seq::<Seq<u8>>::empty());
        assert(parse_lines_from(ParserState::ExpectCommitId, tri).1 =~= seq![
            record_of_commit_lines(c),
        ]);
        assert(cs.map_values(|cl: CommitLines| record_of_commit_lines(cl)) =~= e.map_values(
            |cl: CommitLines| record_of_commit_lines(cl),
        ).push(record_of_commit_lines(c)));
        assert(parse_lines_spec(render_log(cs)) =~= cs.map_values(
            |cl: CommitLines| record_of_commit_lines(cl),
        ));
    }
}

/// A well-formed identity and author pair followed by the next commit's
/// identity and author lines, with no statistics line anywhere, yields no
/// record: the first commit is dropped and the machine stays stalled
/// awaiting statistics.
pub proof fn lemma_missing_stats_commit(l1: Seq<u8>, l2: Seq<u8>, l3: Seq<u8>, l4: Seq<u8>)
    requires
        is_commit_id_line(l1),
        is_author_line(l2),
        is_commit_id_line(l3),
        is_author_line(l4),
        !stats_of(l3).recognized,
        !stats_of(l4).recognized,
    ensures
        parse_lines_spec(seq![l1, l2, l3, l4]) == Seq::<CommitRecordModel>::empty(),
{
    reveal_with_fuel(parse_lines_from, 5);
    assert(seq![l1, l2, l3, l4].drop_last() =~= seq![l1, l2, l3]);
    assert(seq![l1, l2, l3].drop_last() =~= seq![l1, l2]);
    assert(seq![l1, l2].drop_last() =~= seq![l1]);
    assert(seq![l1].drop_last() =~= Seq::<Seq<u8>>::empty());
}

/// Split a window's raw text into lines and extract its commit records.
pub fn parse_window(text: &[u8]) -> (records: Vec<CommitRecord>)
    ensures
        records@.map_values(|r: CommitRecord| r@) == parse_lines_spec(spec_lines(text@)),
{
    let lines = split_lines(text);
    parse_window_lines(&lines)
}

} // verus!
