use git_statistic::parser::parse_window;
use git_statistic::stats::aggregate_window;
use git_statistic::stats::merge_batches;
use git_statistic::stats::AuthorAccumulator;
use git_statistic::stats::BatchResult;
use git_statistic::windows::generate_windows;
use git_statistic::windows::parse_total_count;

const ID_A: &str = "aaaaaaaaaaaaaaaaaaaaaaaaaaaaaaaaaaaaaaaa";
const ID_B: &str = "bbbbbbbbbbbbbbbbbbbbbbbbbbbbbbbbbbbbbbbb";

fn window_batch(text: &str) -> BatchResult {
    aggregate_window(&parse_window(text.as_bytes()))
}

#[test]
fn aggregation_sums_per_author_within_a_window() {
    let text = format!(
        "commit {}\nAuthor: Alice <a@x.com>\n 1 file changed, 2 insertions(+), 1 deletion(-)\ncommit {}\nAuthor: Alice <a@x.com>\n 1 file changed, 3 insertions(+)\n",
        ID_A, ID_B
    );
    let batch = window_batch(&text);
    let acc = batch.get(b"Alice").expect("Alice should be counted");
    assert_eq!(acc.commit_count, 2);
    assert_eq!(acc.insertions, 5);
    assert_eq!(acc.deletions, 1);
    assert!(batch.get(b"Bob").is_none());
}

#[test]
fn merge_sums_across_windows() {
    let w1 = format!(
        "commit {}\nAuthor: Alice <a@x.com>\n 1 file changed, 10 insertions(+), 1 deletion(-)\n",
        ID_A
    );
    let w2 = format!(
        "commit {}\nAuthor: Alice <a@x.com>\n 1 file changed, 20 insertions(+)\ncommit {}\nAuthor: Bob <b@y.org>\n 1 file changed, 4 deletions(-)\n",
        ID_B, ID_A
    );
    let batches = vec![window_batch(&w1), window_batch(&w2)];
    let global = merge_batches(&batches);
    let alice = global.get(b"Alice").expect("Alice should be counted");
    assert_eq!(alice.commit_count, 2);
    assert_eq!(alice.insertions, 30);
    assert_eq!(alice.deletions, 1);
    let bob = global.get(b"Bob").expect("Bob should be counted");
    assert_eq!(bob.commit_count, 1);
    assert_eq!(bob.insertions, 0);
    assert_eq!(bob.deletions, 4);
    assert_eq!(global.author_count(), 2);
}

#[test]
fn merge_is_order_independent() {
    let w1 = format!(
        "commit {}\nAuthor: Alice <a@x.com>\n 1 file changed, 10 insertions(+)\n",
        ID_A
    );
    let w2 = format!(
        "commit {}\nAuthor: Bob <b@y.org>\n 1 file changed, 7 deletions(-)\ncommit {}\nAuthor: Alice <a@x.com>\n 1 file changed, 1 insertion(+)\n",
        ID_B, ID_A
    );
    let w3 = format!(
        "commit {}\nAuthor: Carol <c@z.net>\n 2 files changed, 5 insertions(+), 5 deletions(-)\n",
        ID_B
    );
    let forward = vec![window_batch(&w1), window_batch(&w2), window_batch(&w3)];
    let backward = vec![window_batch(&w3), window_batch(&w2), window_batch(&w1)];
    let g1 = merge_batches(&forward);
    let g2 = merge_batches(&backward);
    for name in [&b"Alice"[..], &b"Bob"[..], &b"Carol"[..]] {
        assert_eq!(g1.get(name), g2.get(name));
    }
    assert_eq!(g1.author_count(), g2.author_count());
}

#[test]
fn merge_of_no_batches_is_empty() {
    let batches: Vec<BatchResult> = Vec::new();
    let global = merge_batches(&batches);
    assert_eq!(global.author_count(), 0);
    assert!(global.get(b"Alice").is_none());
}

#[test]
fn merge_clips_at_the_largest_u64() {
    let near_max = AuthorAccumulator {
        commit_count: 1,
        insertions: u64::MAX - 1,
        deletions: 0,
    };
    let more = AuthorAccumulator {
        commit_count: 1,
        insertions: 5,
        deletions: 0,
    };
    let b1 = BatchResult {
        entries: vec![(b"Alice".to_vec(), near_max)],
    };
    let b2 = BatchResult {
        entries: vec![(b"Alice".to_vec(), more)],
    };
    let global = merge_batches(&vec![b1, b2]);
    let alice = global.get(b"Alice").expect("Alice should be counted");
    assert_eq!(alice.commit_count, 2);
    assert_eq!(alice.insertions, u64::MAX);
}

#[test]
fn windows_partition_exactly() {
    let ws = generate_windows(1000, 200);
    assert_eq!(ws.len(), 5);
    for (i, w) in ws.iter().enumerate() {
        assert_eq!(w.skip, i * 200);
        assert_eq!(w.limit, 200);
    }

    let ws2 = generate_windows(1001, 200);
    assert_eq!(ws2.len(), 6);
    assert_eq!(ws2[5].skip, 1000);
    assert_eq!(ws2[5].limit, 1);

    let mut covered = vec![false; 1001];
    for w in ws2.iter() {
        for c in w.skip..w.skip + w.limit {
            assert!(!covered[c], "windows overlap");
            covered[c] = true;
        }
    }
    assert!(covered.iter().all(|&c| c), "windows leave a gap");
}

#[test]
fn windows_of_empty_range() {
    let ws = generate_windows(0, 200);
    assert_eq!(ws.len(), 0);
}

#[test]
fn window_smaller_than_range() {
    let ws = generate_windows(7, 10);
    assert_eq!(ws.len(), 1);
    assert_eq!(ws[0].skip, 0);
    assert_eq!(ws[0].limit, 7);
}

#[test]
fn total_count_reads_the_tool_output() {
    assert_eq!(parse_total_count(b"12345\n"), 12345);
    assert_eq!(parse_total_count(b"12345"), 12345);
    assert_eq!(parse_total_count(b""), 0);
    assert_eq!(parse_total_count(b"abc\n"), 0);
    assert_eq!(parse_total_count(b"12\n3\n"), 15);
    assert_eq!(parse_total_count(b"+7\n"), 7);
    assert_eq!(parse_total_count(b"99999999999999999999999999\n"), 0);
}
