use wordle_clone::highscore::{HighScoreError, HighScores, UserScore};

fn scores(board: &HighScores) -> Vec<u8> {
    board.get_high_scores().iter().map(|u| u.get_score()).collect()
}

fn names(board: &HighScores) -> Vec<String> {
    board.get_high_scores().iter().map(|u| u.get_username().clone()).collect()
}

#[test]
fn user_score_accessors() {
    let u = UserScore::new("alice".to_string(), 4);
    assert_eq!(u.get_username(), &"alice".to_string());
    assert_eq!(u.get_score(), 4);
}

#[test]
fn insertion_scenario() {
    let mut board = HighScores::new();
    let steps: [(u8, &[u8]); 6] = [
        (3, &[3]),
        (5, &[5, 3]),
        (4, &[5, 4, 3]),
        (5, &[5, 5, 4, 3]),
        (2, &[5, 5, 4, 3, 2]),
        (6, &[6, 5, 5, 4, 3]),
    ];
    for (i, (score, expected)) in steps.iter().enumerate() {
        board.try_insert_new_score(UserScore::new(format!("user{}", i), *score));
        assert_eq!(scores(&board), expected.to_vec());
    }
    // The earlier 5 (second insertion) outranks the later one (fourth).
    assert_eq!(
        names(&board),
        vec!["user5", "user1", "user3", "user2", "user0"]
            .into_iter()
            .map(|s| s.to_string())
            .collect::<Vec<String>>()
    );
}

#[test]
fn low_score_on_full_board_is_dropped() {
    let mut board = HighScores::new();
    for s in [6, 5, 4, 3, 2] {
        board.try_insert_new_score(UserScore::new("p".to_string(), s));
    }
    board.try_insert_new_score(UserScore::new("q".to_string(), 1));
    assert_eq!(scores(&board), vec![6, 5, 4, 3, 2]);
    board.try_insert_new_score(UserScore::new("q".to_string(), 2));
    assert_eq!(scores(&board), vec![6, 5, 4, 3, 2]);
    assert!(names(&board).iter().all(|n| n == "p"));
}

#[test]
fn records_text_format() {
    let mut board = HighScores::new();
    assert_eq!(board.records_text(), "".to_string());
    board.try_insert_new_score(UserScore::new("alice".to_string(), 3));
    assert_eq!(board.records_text(), "alice 3".to_string());
    board.try_insert_new_score(UserScore::new("bobby".to_string(), 10));
    board.try_insert_new_score(UserScore::new("carol".to_string(), 255));
    assert_eq!(board.records_text(), "carol 255\nbobby 10\nalice 3".to_string());
}

#[test]
fn round_trip_through_text() {
    let mut board = HighScores::new();
    for (n, s) in [("alice", 3), ("bobby", 5), ("carol", 4), ("dave_", 5), ("erin0", 0), ("frank", 6)] {
        board.try_insert_new_score(UserScore::new(n.to_string(), s));
    }
    let text = board.records_text();
    let reloaded = HighScores::init(&text).unwrap();
    assert_eq!(names(&reloaded), names(&board));
    assert_eq!(scores(&reloaded), scores(&board));
    assert_eq!(reloaded.records_text(), text);
}

#[test]
fn full_ordered_store_is_read() {
    let board = HighScores::init("a 6\nb 5\nc 5\nd 3\ne 2").unwrap();
    assert_eq!(scores(&board), vec![6, 5, 5, 3, 2]);
}

#[test]
fn empty_store_gives_empty_board() {
    let board = HighScores::init("").unwrap();
    assert!(board.get_high_scores().is_empty());
}

#[test]
fn store_with_extra_whitespace_is_read() {
    let board = HighScores::init("  alice\t 3  \r\nbobby 2\n").unwrap();
    assert_eq!(names(&board), vec!["alice".to_string(), "bobby".to_string()]);
    assert_eq!(scores(&board), vec![3, 2]);
}

#[test]
fn corrupted_store_is_rejected() {
    for text in [
        "alice",
        "alice 3 4",
        "alice x",
        "alice -1",
        "alice 256",
        "alice 3\n\nbobby 2",
        "alice 3\nbobby",
        "alice 3\nbobby 4",
        "a 6\nb 5\nc 4\nd 3\ne 2\nf 1",
    ] {
        assert_eq!(HighScores::init(text).err(), Some(HighScoreError::CorruptedState));
    }
}
