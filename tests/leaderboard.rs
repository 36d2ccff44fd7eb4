use leaderboard::board::Leaderboard;
use leaderboard::entry::{validate_name, RankedEntry, ScoreEntry};
use leaderboard::error::LeaderboardError;
use leaderboard::ranking::{distinct_scores, rank_top_n, DEFAULT_LIMIT};

fn triples(rs: &[RankedEntry]) -> Vec<(String, i32, usize)> {
    rs.iter().map(|r| (r.name.clone(), r.score, r.rank)).collect()
}

fn entry(id: u64, name: &str, score: i32) -> ScoreEntry {
    ScoreEntry { id, name: name.to_string(), score }
}

#[test]
fn tie_group_included_in_full() {
    let mut b = Leaderboard::new();
    assert_eq!(b.submit("alice", 100), Ok(()));
    assert_eq!(b.submit("bob", 100), Ok(()));
    assert_eq!(b.submit("carol", 90), Ok(()));
    let top = b.top_n(2);
    assert_eq!(
        triples(&top),
        vec![
            ("alice".to_string(), 100, 1),
            ("bob".to_string(), 100, 1),
            ("carol".to_string(), 90, 2),
        ]
    );
}

#[test]
fn empty_store_lists_nothing() {
    let b = Leaderboard::new();
    assert!(b.top_n(10).is_empty());
    assert!(b.top_n(DEFAULT_LIMIT).is_empty());
}

#[test]
fn top_zero_is_empty() {
    let mut b = Leaderboard::new();
    b.submit("alice", 5).unwrap();
    assert!(b.top_n(0).is_empty());
}

#[test]
fn empty_name_rejected_and_count_kept() {
    let mut b = Leaderboard::new();
    b.submit("alice", 1).unwrap();
    assert_eq!(b.submit("", 5), Err(LeaderboardError::ValidationError));
    assert_eq!(b.len(), 1);
}

#[test]
fn whitespace_name_rejected() {
    let mut b = Leaderboard::new();
    assert_eq!(b.submit("   ", 5), Err(LeaderboardError::ValidationError));
    assert_eq!(b.submit(" \t\n", 5), Err(LeaderboardError::ValidationError));
    assert_eq!(b.len(), 0);
}

#[test]
fn validate_name_cases() {
    assert_eq!(validate_name(""), Err(LeaderboardError::ValidationError));
    assert_eq!(validate_name("  "), Err(LeaderboardError::ValidationError));
    assert_eq!(validate_name("alice"), Ok(()));
    assert_eq!(validate_name(" a "), Ok(()));
}

#[test]
fn submitted_score_is_listed() {
    let mut b = Leaderboard::new();
    b.submit("x", 10).unwrap();
    b.submit("y", 20).unwrap();
    b.submit("dave", 15).unwrap();
    let top = b.top_n(2);
    assert!(top.iter().any(|r| r.name == "dave" && r.score == 15 && r.rank == 2));
    assert!(!top.iter().any(|r| r.name == "x"));
}

#[test]
fn dense_ranks_have_no_gaps() {
    let mut b = Leaderboard::new();
    for (n, s) in [("a", 50), ("b", 70), ("c", 70), ("d", 70), ("e", 60), ("f", 50)] {
        b.submit(n, s).unwrap();
    }
    let top = b.top_n(10);
    assert_eq!(
        triples(&top),
        vec![
            ("b".to_string(), 70, 1),
            ("c".to_string(), 70, 1),
            ("d".to_string(), 70, 1),
            ("e".to_string(), 60, 2),
            ("a".to_string(), 50, 3),
            ("f".to_string(), 50, 3),
        ]
    );
    for w in top.windows(2) {
        assert!(w[1].rank == w[0].rank || w[1].rank == w[0].rank + 1);
        if w[0].score == w[1].score {
            assert_eq!(w[0].rank, w[1].rank);
        } else {
            assert!(w[0].score > w[1].score && w[0].rank < w[1].rank);
        }
    }
}

#[test]
fn repeated_reads_agree() {
    let mut b = Leaderboard::new();
    b.submit("a", 3).unwrap();
    b.submit("b", 9).unwrap();
    b.submit("c", 3).unwrap();
    assert_eq!(triples(&b.top_n(5)), triples(&b.top_n(5)));
}

#[test]
fn many_submissions_none_lost() {
    let mut b = Leaderboard::new();
    let n: usize = 200;
    for i in 0..n {
        assert_eq!(b.submit(&format!("player{}", i), (i % 7) as i32), Ok(()));
    }
    assert_eq!(b.len(), n);
    let all = b.top_n(n);
    assert_eq!(all.len(), n);
    for i in 0..n {
        let name = format!("player{}", i);
        assert!(all.iter().any(|r| r.name == name && r.score == (i % 7) as i32));
    }
}

#[test]
fn default_limit_keeps_whole_last_group() {
    let mut rows = Vec::new();
    for i in 0..10u64 {
        rows.push(entry(i + 1, &format!("p{}", i), 100 - i as i32));
    }
    rows.push(entry(11, "late", 91));
    rows.push(entry(12, "out", 80));
    let top = rank_top_n(&rows, DEFAULT_LIMIT);
    assert_eq!(top.len(), 11);
    assert_eq!(top[9].name, "p9");
    assert_eq!(top[10].name, "late");
    assert_eq!(top[10].rank, 10);
    assert!(!top.iter().any(|r| r.name == "out"));
}

#[test]
fn negative_and_extreme_scores() {
    let rows = vec![
        entry(1, "lo", i32::MIN),
        entry(2, "hi", i32::MAX),
        entry(3, "neg", -5),
        entry(4, "zero", 0),
    ];
    let top = rank_top_n(&rows, 3);
    assert_eq!(
        triples(&top),
        vec![
            ("hi".to_string(), i32::MAX, 1),
            ("zero".to_string(), 0, 2),
            ("neg".to_string(), -5, 3),
        ]
    );
}

#[test]
fn distinct_scores_descending() {
    let rows = vec![entry(1, "a", 3), entry(2, "b", 7), entry(3, "c", 3), entry(4, "d", -1)];
    assert_eq!(distinct_scores(&rows), vec![7, 3, -1]);
    assert_eq!(distinct_scores(&Vec::new()), Vec::<i32>::new());
}

#[test]
fn same_name_twice_kept_as_two_entries() {
    let mut b = Leaderboard::new();
    b.submit("alice", 10).unwrap();
    b.submit("alice", 20).unwrap();
    assert_eq!(
        triples(&b.top_n(2)),
        vec![("alice".to_string(), 20, 1), ("alice".to_string(), 10, 2)]
    );
}

#[test]
fn error_status_codes() {
    assert_eq!(LeaderboardError::ValidationError.status_code(), 400);
    assert_eq!(LeaderboardError::PoolExhaustedOrTimeout.status_code(), 503);
    assert_eq!(LeaderboardError::StorageError.status_code(), 500);
    assert_eq!(LeaderboardError::ValidationError.message(), "name must not be blank");
}
