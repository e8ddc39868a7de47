use git_statistic::grammar::get_commit_author;
use git_statistic::grammar::get_commit_file_change;
use git_statistic::grammar::get_commit_id;
use git_statistic::parser::parse_window;
use git_statistic::stats::aggregate_window;

const ID_A: &str = "aaaaaaaaaaaaaaaaaaaaaaaaaaaaaaaaaaaaaaaa";
const ID_B: &str = "bbbbbbbbbbbbbbbbbbbbbbbbbbbbbbbbbbbbbbbb";

#[test]
fn commit_id_line_matches() {
    let line = format!("commit {}", ID_A);
    let (ok, id) = get_commit_id(line.as_bytes());
    assert!(ok);
    assert_eq!(id, ID_A.as_bytes().to_vec());
}

#[test]
fn commit_id_line_trailing_text_matches() {
    let line = format!("commit {} (HEAD -> main)", ID_A);
    let (ok, id) = get_commit_id(line.as_bytes());
    assert!(ok);
    assert_eq!(id, ID_A.as_bytes().to_vec());
}

#[test]
fn commit_id_line_rejects_short_and_uppercase() {
    let (ok, id) = get_commit_id("commit abc123".as_bytes());
    assert!(!ok);
    assert!(id.is_empty());
    let upper = format!("commit {}", ID_A.to_uppercase());
    let (ok2, _) = get_commit_id(upper.as_bytes());
    assert!(!ok2);
    let (ok3, _) = get_commit_id("Commit aaaaaaaaaaaaaaaaaaaaaaaaaaaaaaaaaaaaaaaa".as_bytes());
    assert!(!ok3);
}

#[test]
fn author_line_matches() {
    let (ok, name) = get_commit_author("Author: Alice <a@x.com>".as_bytes());
    assert!(ok);
    assert_eq!(name, b"Alice".to_vec());
}

#[test]
fn author_line_name_with_spaces() {
    let (ok, name) = get_commit_author("Author: Alice B Carol <abc@x.com>".as_bytes());
    assert!(ok);
    assert_eq!(name, b"Alice B Carol".to_vec());
}

#[test]
fn author_name_trailing_whitespace_is_trimmed() {
    let (ok, name) = get_commit_author("Author: Alice   <a@x.com>".as_bytes());
    assert!(ok);
    assert_eq!(name, b"Alice".to_vec());
    let (ok2, name2) = get_commit_author("Author: Alice \t <a@x.com>".as_bytes());
    assert!(ok2);
    assert_eq!(name2, b"Alice".to_vec());
    // A name of nothing but whitespace still matches the line grammar and
    // trims to the empty name.
    let (ok3, name3) = get_commit_author("Author:   <a@x.com>".as_bytes());
    assert!(ok3);
    assert!(name3.is_empty());
}

#[test]
fn author_line_rejects_missing_parts() {
    let (ok, _) = get_commit_author("Author: Alice".as_bytes());
    assert!(!ok);
    let (ok2, _) = get_commit_author("Author:  <a@x.com>".as_bytes());
    assert!(!ok2);
    let (ok3, _) = get_commit_author("Author: Alice <".as_bytes());
    assert!(!ok3);
    let (ok4, _) = get_commit_author("author: Alice <a@x.com>".as_bytes());
    assert!(!ok4);
}

#[test]
fn stats_line_both_counts() {
    let (ok, (ins, del)) =
        get_commit_file_change(" 2 files changed, 10 insertions(+), 3 deletions(-)".as_bytes());
    assert!(ok);
    assert_eq!(ins, 10);
    assert_eq!(del, 3);
}

#[test]
fn stats_line_singular_forms() {
    let (ok, (ins, del)) =
        get_commit_file_change(" 1 file changed, 1 insertion(+), 1 deletion(-)".as_bytes());
    assert!(ok);
    assert_eq!(ins, 1);
    assert_eq!(del, 1);
}

#[test]
fn stats_line_insertions_only() {
    let (ok, (ins, del)) = get_commit_file_change(" 3 files changed, 7 insertions(+)".as_bytes());
    assert!(ok);
    assert_eq!(ins, 7);
    assert_eq!(del, 0);
}

#[test]
fn stats_line_deletions_only() {
    let (ok, (ins, del)) = get_commit_file_change(" 1 file changed, 5 deletions(-)".as_bytes());
    assert!(ok);
    assert_eq!(ins, 0);
    assert_eq!(del, 5);
}

#[test]
fn stats_line_no_counts_is_not_recognized() {
    let (ok, (ins, del)) = get_commit_file_change(" 1 file changed".as_bytes());
    assert!(!ok);
    assert_eq!(ins, 0);
    assert_eq!(del, 0);
}

#[test]
fn stats_line_rejects_plain_text() {
    let (ok, _) = get_commit_file_change("    nothing to see here".as_bytes());
    assert!(!ok);
}

#[test]
fn stats_line_overflowing_count_is_treated_as_absent() {
    let (ok, (ins, del)) = get_commit_file_change(
        " 1 file changed, 99999999999999999999999999 insertions(+), 3 deletions(-)".as_bytes(),
    );
    assert!(ok);
    assert_eq!(ins, 0);
    assert_eq!(del, 3);
    let (ok2, _) = get_commit_file_change(
        " 1 file changed, 99999999999999999999999999 insertions(+)".as_bytes(),
    );
    assert!(!ok2);
}

#[test]
fn concrete_window_scenario() {
    let text = format!(
        "commit {}\nAuthor: Alice <a@x.com>\n\n 2 files changed, 10 insertions(+), 3 deletions(-)\n",
        ID_A
    );
    let records = parse_window(text.as_bytes());
    assert_eq!(records.len(), 1);
    assert_eq!(records[0].id, ID_A.as_bytes().to_vec());
    assert_eq!(records[0].author, b"Alice".to_vec());
    assert_eq!(records[0].insertions, 10);
    assert_eq!(records[0].deletions, 3);

    let batch = aggregate_window(&records);
    let acc = batch.get(b"Alice").expect("Alice should be counted");
    assert_eq!(acc.commit_count, 1);
    assert_eq!(acc.insertions, 10);
    assert_eq!(acc.deletions, 3);
    assert_eq!(batch.author_count(), 1);
}

#[test]
fn junk_lines_between_anchors_change_nothing() {
    let plain = format!(
        "commit {}\nAuthor: Alice <a@x.com>\n 1 file changed, 2 insertions(+)\n",
        ID_A
    );
    let noisy = format!(
        "commit {}\n\n    body text, quite unrelated\nDate:   Mon Jan 1 00:00:00 2024\nAuthor: Alice <a@x.com>\n\n    more body\n\n 1 file changed, 2 insertions(+)\n",
        ID_A
    );
    let a = parse_window(plain.as_bytes());
    let b = parse_window(noisy.as_bytes());
    assert_eq!(a.len(), 1);
    assert_eq!(b.len(), 1);
    assert_eq!(a[0].id, b[0].id);
    assert_eq!(a[0].author, b[0].author);
    assert_eq!(a[0].insertions, b[0].insertions);
    assert_eq!(a[0].deletions, b[0].deletions);
}

#[test]
fn two_commits_in_order() {
    let text = format!(
        "commit {}\nAuthor: Alice <a@x.com>\n 1 file changed, 2 insertions(+)\ncommit {}\nAuthor: Bob <b@y.org>\n 2 files changed, 4 deletions(-)\n",
        ID_A, ID_B
    );
    let records = parse_window(text.as_bytes());
    assert_eq!(records.len(), 2);
    assert_eq!(records[0].author, b"Alice".to_vec());
    assert_eq!(records[0].insertions, 2);
    assert_eq!(records[1].author, b"Bob".to_vec());
    assert_eq!(records[1].deletions, 4);
}

#[test]
fn missing_stats_commit_is_dropped() {
    let text = format!(
        "commit {}\nAuthor: Alice <a@x.com>\ncommit {}\nAuthor: Bob <b@y.org>\n",
        ID_A, ID_B
    );
    let records = parse_window(text.as_bytes());
    assert_eq!(records.len(), 0);
}

#[test]
fn stalled_parser_pairs_first_commit_with_later_stats() {
    // Documented behavior of the stage machine: with the first commit's
    // statistics line missing, the next statistics line to appear completes
    // the first commit's captured identity and author.
    let text = format!(
        "commit {}\nAuthor: Alice <a@x.com>\ncommit {}\nAuthor: Bob <b@y.org>\n 1 file changed, 6 insertions(+)\n",
        ID_A, ID_B
    );
    let records = parse_window(text.as_bytes());
    assert_eq!(records.len(), 1);
    assert_eq!(records[0].id, ID_A.as_bytes().to_vec());
    assert_eq!(records[0].author, b"Alice".to_vec());
    assert_eq!(records[0].insertions, 6);
}

#[test]
fn empty_window_text_yields_nothing() {
    let records = parse_window(b"");
    assert_eq!(records.len(), 0);
    let batch = aggregate_window(&records);
    assert_eq!(batch.author_count(), 0);
}

#[test]
fn carriage_returns_are_tolerated() {
    let text = format!(
        "commit {}\r\nAuthor: Alice <a@x.com>\r\n 1 file changed, 2 insertions(+)\r\n",
        ID_A
    );
    let records = parse_window(text.as_bytes());
    assert_eq!(records.len(), 1);
    assert_eq!(records[0].insertions, 2);
}
