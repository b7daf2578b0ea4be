use crypto_trainer::caesar::encrypt;
use crypto_trainer::challenge::{
    generate_caesar_encryption, Answer, Payload, PublicView,
};
use crypto_trainer::dss::generate_dss;
use crypto_trainer::leaderboard::{Leaderboard, LeaderboardResult};
use crypto_trainer::lifecycle::{CompleteError, Lifecycle};
use crypto_trainer::rate::AccessPeriod;

fn open_caesar_challenge(lc: &mut Lifecycle, user: i32, now: u64) -> (i32, bool, u8, Vec<u8>) {
    let payload = generate_caesar_encryption(6);
    let (id, is_new) = lc.create_or_get(user, payload, now);
    let (key, message) = match lc.view_of(id).expect("challenge exists") {
        PublicView::CaesarEncryption { key, message } => (key, message),
        _ => panic!("wrong view kind"),
    };
    (id, is_new, key, message)
}

#[test]
fn create_or_fetch_is_idempotent_until_completion() {
    let mut lc = Lifecycle::new();
    let (id1, new1, key, message) = open_caesar_challenge(&mut lc, 1, 100);
    assert!(new1);
    let (id2, new2, _, _) = open_caesar_challenge(&mut lc, 1, 200);
    assert_eq!(id1, id2);
    assert!(!new2);
    assert_eq!(lc.find_incomplete(1), Some(id1));

    // A wrong cipher is rejected and the challenge stays open.
    let wrong = Answer::Cipher(encrypt(&message, (key + 1) % 26));
    assert_eq!(lc.complete(1, wrong, 300), Err(CompleteError::Rejected));
    assert_eq!(lc.find_incomplete(1), Some(id1));

    // The right cipher completes it exactly once.
    let right = Answer::Cipher(encrypt(&message, key));
    assert_eq!(lc.complete(1, right, 500), Ok(400));
    assert_eq!(lc.find_incomplete(1), None);

    // Completing again finds nothing open; the completed row is untouched.
    let again = Answer::Cipher(encrypt(&message, key));
    assert_eq!(lc.complete(1, again, 600), Err(CompleteError::NoActive));

    // The next create starts a genuinely new challenge.
    let (id3, new3, _, _) = open_caesar_challenge(&mut lc, 1, 700);
    assert!(new3);
    assert_ne!(id3, id1);
}

#[test]
fn users_hold_open_challenges_independently() {
    let mut lc = Lifecycle::new();
    let (id_a, _, key_a, msg_a) = open_caesar_challenge(&mut lc, 1, 10);
    let (id_b, new_b, _, _) = open_caesar_challenge(&mut lc, 2, 20);
    assert!(new_b);
    assert_ne!(id_a, id_b);
    assert_eq!(lc.complete(1, Answer::Cipher(encrypt(&msg_a, key_a)), 30), Ok(20));
    // Completing one user's challenge leaves the other's open.
    assert_eq!(lc.find_incomplete(2), Some(id_b));
}

#[test]
fn degenerate_submissions_surface_as_internal_faults() {
    let mut lc = Lifecycle::new();
    let mut params = None;
    for _ in 0..50 {
        if let Some(p) = generate_dss(100, 1000) {
            params = Some(p);
            break;
        }
    }
    let params = params.expect("generation succeeds");
    let (_, is_new) = lc.create_or_get(7, Payload::DssSign(params), 100);
    assert!(is_new);
    // s = 0 is within bounds but has no inverse modulo q.
    let answer = Answer::Signature { pk: 0, r: 0, s: 0 };
    assert_eq!(lc.complete(7, answer, 200), Err(CompleteError::Internal));
}

#[test]
fn completed_challenges_feed_the_leaderboard() {
    let mut lc = Lifecycle::new();
    let (_, _, key, msg) = open_caesar_challenge(&mut lc, 1, 1_000_000_000);
    assert_eq!(
        lc.complete(1, Answer::Cipher(encrypt(&msg, key)), 31_000_000_000),
        Ok(30_000_000_000)
    );
    let (_, _, key, msg) = open_caesar_challenge(&mut lc, 1, 40_000_000_000);
    assert_eq!(
        lc.complete(1, Answer::Cipher(encrypt(&msg, key)), 50_000_000_000),
        Ok(10_000_000_000)
    );
    let (_, _, key, msg) = open_caesar_challenge(&mut lc, 2, 60_000_000_000);
    assert_eq!(
        lc.complete(2, Answer::Cipher(encrypt(&msg, key)), 80_000_000_000),
        Ok(20_000_000_000)
    );

    let completed = lc.list_completed();
    assert_eq!(
        completed,
        vec![(1, 30_000_000_000), (1, 10_000_000_000), (2, 20_000_000_000)]
    );

    // Aggregate: best time per user, ranked ascending.
    let mut board = Leaderboard::new();
    for (user_id, duration) in completed {
        if !board.is_faster_result(user_id, duration) {
            continue;
        }
        let username = if user_id == 1 { "alice" } else { "bob" };
        board.insert(user_id, LeaderboardResult { username: username.to_string(), duration });
    }
    let results = board.into_results();
    assert_eq!(results.len(), 2);
    assert_eq!(results[0].username, "alice");
    assert_eq!(results[0].duration, 10_000_000_000);
    assert_eq!(results[1].username, "bob");
    assert_eq!(results[1].duration, 20_000_000_000);
}

#[test]
fn leaderboard_keeps_only_the_fastest_entry_per_user() {
    let mut board = Leaderboard::new();
    board.insert(1, LeaderboardResult { username: "alice".to_string(), duration: 30 });
    // A slower result for the same user is ignored.
    board.insert(1, LeaderboardResult { username: "alice".to_string(), duration: 45 });
    board.insert(1, LeaderboardResult { username: "alice".to_string(), duration: 10 });
    board.insert(2, LeaderboardResult { username: "bob".to_string(), duration: 20 });
    assert!(board.is_faster_result(1, 5));
    assert!(!board.is_faster_result(1, 10));
    assert!(!board.is_faster_result(2, 25));
    assert!(board.is_faster_result(3, 1_000_000));
    let results = board.into_results();
    let pairs: Vec<(String, u64)> = results
        .into_iter()
        .map(|r| (r.username, r.duration))
        .collect();
    assert_eq!(pairs, vec![("alice".to_string(), 10), ("bob".to_string(), 20)]);
}

#[test]
fn rate_limiter_rejects_the_fourth_burst_request_and_resets() {
    // First request at t=0 opens the window with count 1.
    let mut period = AccessPeriod::new(0);
    // Three more inside 500ms with a maximum of 3: only the 4th trips.
    assert!(!period.is_exceeded(100, 3));
    assert!(!period.is_exceeded(300, 3));
    assert!(period.is_exceeded(500, 3));
    // A request 1100ms after the window start resets it and passes.
    assert!(!period.is_exceeded(1100, 3));
    assert_eq!(period.start, 1100);
    assert_eq!(period.count, 0);
}

#[test]
fn rate_limiter_counts_within_a_window() {
    let mut period = AccessPeriod::new(50);
    assert_eq!(period.start, 50);
    assert_eq!(period.count, 1);
    assert!(!period.is_exceeded(1050, 5));
    assert_eq!(period.count, 2);
    // Exactly at the window edge the request still counts.
    assert!(period.is_exceeded(1050, 1));
    assert_eq!(period.count, 3);
}
