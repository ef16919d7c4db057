use coursework::guessing::{Part2, Player, PlayerTrait, Strategy};

#[test]
fn bisection_finds_the_number() {
    for secret in [0u32, 1, 7, 42, 99, 100] {
        let mut p = Player::new(secret);
        assert_eq!(Part2::guess_the_number(&mut p, 0, 100), secret);
        assert!(p.steps() <= 33);
    }
}

#[test]
fn bisection_on_a_wide_range_takes_at_most_33_questions() {
    let mut p = Player::new(2_000_000_000);
    assert_eq!(Part2::guess_the_number(&mut p, 0, 2_147_483_647), 2_000_000_000);
    assert!(p.steps() <= 33);
    let mut p = Player::new(0);
    assert_eq!(Part2::guess_the_number(&mut p, 0, 2_147_483_647), 0);
    assert!(p.steps() <= 33);
}

#[test]
fn bisection_outside_the_range_gives_zero() {
    let mut p = Player::new(500);
    assert_eq!(Part2::guess_the_number(&mut p, 0, 100), 0);
    let mut p = Player::new(5);
    assert_eq!(Part2::guess_the_number(&mut p, 10, 20), 0);
    let mut p = Player::new(5);
    assert_eq!(Part2::guess_the_number(&mut p, 20, 10), 0);
    assert_eq!(p.steps(), 0);
}

#[test]
fn player_answers_and_counts() {
    let mut p = Player::new(10);
    assert_eq!(p.ask_to_compare(11), -1);
    assert_eq!(p.ask_to_compare(10), 0);
    assert_eq!(p.ask_to_compare(9), 1);
    assert_eq!(p.steps(), 3);
}

// The largest k with 2^k <= s.
fn log2_floor(s: u64) -> usize {
    (63 - s.leading_zeros()) as usize
}

#[test]
fn bisection_asks_at_most_log2_of_the_range_plus_one() {
    for (min, max) in [(0u32, 100u32), (5, 5), (0, 1), (10, 17), (0, 1023)] {
        for secret in min..=max {
            let mut p = Player::new(secret);
            assert_eq!(Part2::guess_the_number(&mut p, min, max), secret);
            assert!(p.steps() >= 1);
            assert!(p.steps() <= log2_floor((max - min + 1) as u64) + 1);
        }
    }
    let mut p = Player::new(50);
    assert_eq!(Part2::guess_the_number(&mut p, 0, 100), 50);
    assert_eq!(p.steps(), 1);
}
