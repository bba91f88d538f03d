use pepulo_rps::{get_quote, GameMode, Match, Playable, Player, Rps, RpsResult, Rpssl};

fn opposite(r: RpsResult) -> RpsResult {
    match r {
        RpsResult::Win => RpsResult::Lose,
        RpsResult::Lose => RpsResult::Win,
        RpsResult::Draw => RpsResult::Draw,
    }
}

#[test]
fn five_move_results_are_reciprocal() {
    for a in 0..5u8 {
        for b in 0..5u8 {
            let ma = Rpssl::from_ordinal(a);
            let mb = Rpssl::from_ordinal(b);
            let r = ma.result(&mb);
            assert_eq!(r == RpsResult::Draw, a == b);
            assert_eq!(mb.result(&ma), opposite(r));
        }
    }
}

#[test]
fn three_move_results_are_reciprocal() {
    let moves = [Rps::Rock, Rps::Paper, Rps::Scissors];
    for (i, a) in moves.iter().enumerate() {
        for (j, b) in moves.iter().enumerate() {
            let r = a.result(b);
            assert_eq!(r == RpsResult::Draw, i == j);
            assert_eq!(b.result(a), opposite(r));
        }
    }
}

#[test]
fn every_five_move_beats_two_others() {
    for a in 0..5u8 {
        let ma = Rpssl::from_ordinal(a);
        let wins = (0..5u8)
            .filter(|b| ma.result(&Rpssl::from_ordinal(*b)) == RpsResult::Win)
            .count();
        assert_eq!(wins, 2);
    }
}

#[test]
fn spock_and_lizard() {
    assert_eq!(Rpssl::Spock.result(&Rpssl::Rock), RpsResult::Win);
    assert_eq!(Rpssl::Spock.result(&Rpssl::Scissors), RpsResult::Win);
    assert_eq!(Rpssl::Spock.result(&Rpssl::Paper), RpsResult::Lose);
    assert_eq!(Rpssl::Lizard.result(&Rpssl::Scissors), RpsResult::Lose);
}

#[test]
fn move_values_follow_position() {
    assert_eq!(Rpssl::Rock.get_score(), 1);
    assert_eq!(Rpssl::Paper.get_score(), 2);
    assert_eq!(Rpssl::Scissors.get_score(), 3);
    assert_eq!(Rpssl::Spock.get_score(), 4);
    assert_eq!(Rpssl::Lizard.get_score(), 5);
    assert_eq!(Rpssl::Unset.get_score(), 0);
    assert_eq!(Rps::Scissors.get_score(), 3);
    assert_eq!(Rps::Unset.get_score(), 0);
}

#[test]
fn outcome_bonuses() {
    assert_eq!(RpsResult::Win.get_score(), 6);
    assert_eq!(RpsResult::Draw.get_score(), 3);
    assert_eq!(RpsResult::Lose.get_score(), 0);
}

#[test]
fn symbols_round_trip() {
    for a in 0..6u8 {
        let m = Rpssl::from_ordinal(a);
        assert_eq!(Rpssl::new(m.str()), Some(m));
    }
    for m in [Rps::Rock, Rps::Paper, Rps::Scissors, Rps::Unset] {
        assert_eq!(Rps::new(m.str()), Some(m));
    }
    assert_eq!(Rpssl::new("x"), None);
    assert_eq!(Rps::new("\u{1F596}"), None);
    assert_eq!(Rpssl::Rock.str(), "\u{1FAA8}");
    assert!(Rpssl::Unset.is_none());
    assert!(Rpssl::Lizard.is_some());
    assert!(Rps::Unset.is_none());
}

#[test]
fn mode_names() {
    assert_eq!(GameMode::RPS.str(), "RPS");
    assert_eq!(GameMode::RPSSL.str(), "RPSSL");
    assert_eq!(GameMode::RPS.arity(), 3);
    assert_eq!(GameMode::RPSSL.arity(), 5);
}

#[test]
fn match_scores_are_symmetric() {
    let a = Player::new("A", 1);
    let b = Player::new("B", 2);
    let mut m = Match::new(&a, &b, 1);
    assert_eq!(m.get_score(), (0, 0));
    m.play1 = Rpssl::Paper;
    m.play2 = Rpssl::Lizard;
    m.result = Some(RpsResult::Lose);
    let (s1, s2) = m.get_score();
    assert_eq!((s1, s2), (2, 11));
    assert_eq!(s1 + s2, 2 + 5 + 6);
    assert_eq!(m.get_score_for_player(1), 2);
    assert_eq!(m.get_score_for_player(2), 11);
    assert_eq!(m.get_score_for_player(3), 0);
}

#[test]
fn quotes_cycle() {
    let (q, a) = get_quote(0);
    assert_eq!(q, "Victory belongs to the most persevering.");
    assert_eq!(a, "Napoleon Bonaparte");
    assert_eq!(get_quote(25), get_quote(0));
    let (_, a1) = get_quote(1);
    assert_eq!(a1, "Nicky Minaj");
}
