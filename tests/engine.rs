use pepulo_rps::{Game, GameError, GameMode, Rpssl};

fn game_with(names: &[&str]) -> Game {
    let mut g = Game::new();
    for n in names {
        g.add_player(n).unwrap();
    }
    g
}

#[test]
fn pairing_is_complete() {
    let mut g = game_with(&["A", "B", "C", "D", "E"]);
    g.set_rounds(3).unwrap();
    assert_eq!(g.get_rounds(), 3);
    assert_eq!(g.match_list.len(), 3 * 5 * 4 / 2);
    for a in 1..=5u16 {
        for b in (a + 1)..=5u16 {
            for r in 1..=3u16 {
                let n = g
                    .match_list
                    .iter()
                    .filter(|m| {
                        m.round == r
                            && ((m.player1 == a && m.player2 == b)
                                || (m.player1 == b && m.player2 == a))
                    })
                    .count();
                assert_eq!(n, 1);
            }
        }
    }
}

#[test]
fn pairing_alternates_sides() {
    let mut g = game_with(&["A", "B"]);
    g.set_rounds(2).unwrap();
    let keys: Vec<_> = g.match_list.iter().map(|m| m.key()).collect();
    assert!(keys.contains(&(1, 2, 1)));
    assert!(keys.contains(&(2, 1, 2)));
    g.add_player("C").unwrap();
    let keys: Vec<_> = g.match_list.iter().map(|m| m.key()).collect();
    assert!(keys.contains(&(1, 3, 1)));
    assert!(keys.contains(&(3, 1, 2)));
    assert!(keys.contains(&(2, 3, 1)));
    assert!(keys.contains(&(3, 2, 2)));
    assert_eq!(keys.len(), 6);
}

#[test]
fn ids_increase_from_one() {
    let g = game_with(&["A", "B", "C", "D"]);
    let ids: Vec<u16> = g.player_list.iter().map(|p| p.id).collect();
    assert_eq!(ids, vec![1, 2, 3, 4]);
    assert_eq!(g.get_player_name(3), Some("C".to_string()));
    assert_eq!(g.get_player_name(5), None);
    assert!(g.get_player(0).is_none());
}

#[test]
fn duplicate_name_is_refused() {
    let mut g = game_with(&["A", "B"]);
    assert_eq!(g.add_player("A"), Err(GameError::DuplicateName));
    assert_eq!(g.player_list.len(), 2);
    assert_eq!(g.match_list.len(), 1);
}

#[test]
fn score_symmetry_in_a_recorded_match() {
    let mut g = game_with(&["A", "B"]);
    g.set_mode(GameMode::RPSSL).unwrap();
    g.add_result((1, 2, 1), Rpssl::Spock, Rpssl::Lizard).unwrap();
    let m = g.match_list[0];
    let (s1, s2) = m.get_score();
    assert_eq!(s1 + s2, 4 + 5 + 6);
    assert_eq!(g.get_player(1).unwrap().score, s1);
    assert_eq!(g.get_player(2).unwrap().score, s2);
}

#[test]
fn recompute_twice_is_stable() {
    let mut g = game_with(&["A", "B", "C"]);
    g.add_result((1, 2, 1), Rpssl::Rock, Rpssl::Rock).unwrap();
    g.update_scores();
    let first: Vec<(u16, u16)> = g.player_list.iter().map(|p| (p.score, p.played)).collect();
    g.update_scores();
    let second: Vec<(u16, u16)> = g.player_list.iter().map(|p| (p.score, p.played)).collect();
    assert_eq!(first, second);
    assert_eq!(first, vec![(4, 1), (4, 1), (0, 0)]);
}

#[test]
fn lower_round_comes_first() {
    let mut g = game_with(&["A", "B"]);
    g.set_rounds(2).unwrap();
    let next = g.get_next_games(5);
    assert_eq!(next.len(), 2);
    assert_eq!(next[0].round, 1);
    assert_eq!(next[1].round, 2);
    assert_eq!(g.get_next_game().unwrap().key(), (1, 2, 1));
}

#[test]
fn three_player_scenario() {
    let mut g = game_with(&["Alice", "Bob", "Charlie"]);
    assert_eq!(g.match_list.len(), 3);
    assert_eq!(g.get_left_n(), 3);
    g.add_result((1, 2, 1), Rpssl::Rock, Rpssl::Scissors).unwrap();
    let p1 = g.get_player(1).unwrap();
    let p2 = g.get_player(2).unwrap();
    assert_eq!((p1.score, p1.played), (7, 1));
    assert_eq!((p2.score, p2.played), (3, 1));
    assert_eq!(g.get_next_game().unwrap().key(), (2, 3, 1));
    assert_eq!(g.get_played_n(), 1);
    assert_eq!(g.get_left_n(), 2);
}

#[test]
fn late_player_keeps_results() {
    let mut g = game_with(&["A", "B", "C"]);
    g.add_result((1, 2, 1), Rpssl::Paper, Rpssl::Rock).unwrap();
    let before: Vec<_> = g.match_list.clone();
    g.add_player("D").unwrap();
    assert_eq!(&g.match_list[..3], &before[..]);
    for m in &g.match_list[3..] {
        assert!(m.player1 == 4 || m.player2 == 4);
        assert!(m.result.is_none());
    }
    let d = g.get_player(4).unwrap();
    assert_eq!((d.score, d.played), (0, 0));
    assert_eq!(g.get_player(1).unwrap().score, 8);
}

#[test]
fn remove_latest_on_fresh_game_does_nothing() {
    let mut g = game_with(&["A", "B", "C"]);
    g.remove_latest();
    assert_eq!(g.get_played_n(), 0);
    assert_eq!(g.get_left_n(), 3);
    let mut empty = Game::new();
    empty.remove_latest();
    assert_eq!(empty.get_left_n(), 0);
}

#[test]
fn remove_latest_takes_back_last_result() {
    let mut g = game_with(&["A", "B", "C"]);
    g.add_result((1, 2, 1), Rpssl::Rock, Rpssl::Scissors).unwrap();
    g.add_result((2, 3, 1), Rpssl::Paper, Rpssl::Paper).unwrap();
    let played = g.get_played_games();
    assert_eq!(played.len(), 2);
    assert_eq!(played[0].0.key(), (1, 2, 1));
    assert_eq!(played[1].0.key(), (2, 3, 1));
    assert!(played[0].1 > played[1].1);
    g.remove_latest();
    assert_eq!(g.get_played_n(), 1);
    assert_eq!(g.get_player(3).unwrap().score, 0);
    assert_eq!(g.get_player(2).unwrap().score, 3);
    assert_eq!(g.get_player(2).unwrap().played, 1);
}

#[test]
fn remove_result_recomputes() {
    let mut g = game_with(&["A", "B"]);
    g.add_result((1, 2, 1), Rpssl::Scissors, Rpssl::Paper).unwrap();
    assert_eq!(g.get_player(1).unwrap().score, 9);
    g.remove_result((1, 2, 1)).unwrap();
    assert_eq!(g.get_player(1).unwrap().score, 0);
    assert_eq!(g.get_player(1).unwrap().played, 0);
    assert_eq!(g.get_played_n(), 0);
    assert!(g.match_list[0].result.is_none());
    assert_eq!(g.remove_result((2, 1, 1)), Err(GameError::NotFound));
}

#[test]
fn errors_of_add_result() {
    let mut g = game_with(&["A", "B"]);
    assert_eq!(
        g.add_result((2, 1, 1), Rpssl::Rock, Rpssl::Rock),
        Err(GameError::NotFound)
    );
    assert_eq!(
        g.add_result((1, 2, 1), Rpssl::Spock, Rpssl::Rock),
        Err(GameError::InvalidState)
    );
    assert_eq!(
        g.add_result((1, 2, 1), Rpssl::Unset, Rpssl::Rock),
        Err(GameError::InvalidState)
    );
    g.add_result((1, 2, 1), Rpssl::Rock, Rpssl::Rock).unwrap();
    assert_eq!(
        g.add_result((1, 2, 1), Rpssl::Rock, Rpssl::Paper),
        Err(GameError::InvalidState)
    );
    assert_eq!(g.get_player(1).unwrap().score, 4);
}

#[test]
fn mode_change_only_before_play() {
    let mut g = game_with(&["A", "B"]);
    g.set_mode(GameMode::RPSSL).unwrap();
    assert_eq!(g.get_mode(), GameMode::RPSSL);
    g.add_result((1, 2, 1), Rpssl::Rock, Rpssl::Lizard).unwrap();
    assert_eq!(g.set_mode(GameMode::RPS), Err(GameError::InvalidState));
    assert_eq!(g.get_mode(), GameMode::RPSSL);
}

#[test]
fn rounds_limits() {
    let mut g = game_with(&["A", "B"]);
    assert_eq!(g.set_rounds(5958), Err(GameError::TooLarge));
    assert_eq!(g.set_rounds(70000), Err(GameError::TooLarge));
    assert_eq!(g.get_rounds(), 1);
    g.set_rounds(5000).unwrap();
    assert_eq!(g.get_rounds(), 5000);
    assert_eq!(g.match_list.len(), 5000);
    g.set_rounds(2).unwrap();
    assert_eq!(g.get_rounds(), 5000);
}

#[test]
fn many_players_in_one_round() {
    let mut g = Game::new();
    for i in 0..120 {
        g.add_player(&format!("P{}", i)).unwrap();
    }
    assert_eq!(g.player_list.len(), 120);
    assert_eq!(g.match_list.len(), 120 * 119 / 2);
    assert_eq!(g.get_player(120).unwrap().id, 120);
}

#[test]
fn player_capacity_limit() {
    let mut g = game_with(&["A", "B"]);
    g.set_rounds(2979).unwrap();
    // A third player would face 2 * 2979 = 5958 matches, past what a u16 score holds.
    assert_eq!(g.add_player("C"), Err(GameError::TooLarge));
    assert_eq!(g.player_list.len(), 2);
}

#[test]
fn reset_clears_everything() {
    let mut g = game_with(&["A", "B"]);
    g.add_result((1, 2, 1), Rpssl::Rock, Rpssl::Paper).unwrap();
    g.reset();
    assert_eq!(g.player_list.len(), 0);
    assert_eq!(g.match_list.len(), 0);
    assert_eq!(g.get_played_n(), 0);
    assert!(g.get_next_game().is_none());
    g.add_player("A").unwrap();
    assert_eq!(g.get_player(1).unwrap().id, 1);
}

#[test]
fn options_and_quote() {
    let g = Game::default();
    assert_eq!(g.get_options().len(), 6);
    let (q, a) = g.get_quote();
    assert!(!q.is_empty());
    assert!(!a.is_empty());
}

#[test]
fn leaderboard_breaks_ties_by_id() {
    let mut g = game_with(&["A", "B", "C"]);
    g.add_result((2, 3, 1), Rpssl::Rock, Rpssl::Rock).unwrap();
    let board = g.get_scores();
    let ids: Vec<u16> = board.iter().map(|p| p.id).collect();
    assert_eq!(ids, vec![2, 3, 1]);
}

#[test]
fn equal_priorities_follow_registry_order() {
    let mut g = game_with(&["A", "B", "C"]);
    g.add_result((1, 2, 1), Rpssl::Rock, Rpssl::Paper).unwrap();
    g.add_result((2, 3, 1), Rpssl::Rock, Rpssl::Paper).unwrap();
    g.remove_result((1, 2, 1)).unwrap();
    g.add_result((1, 3, 1), Rpssl::Scissors, Rpssl::Paper).unwrap();
    let played = g.get_played_games();
    assert_eq!(played.len(), 2);
    assert_eq!(played[0].1, played[1].1);
    assert_eq!(played[0].0.key(), (1, 3, 1));
    assert_eq!(played[1].0.key(), (2, 3, 1));
    g.remove_latest();
    let played = g.get_played_games();
    assert_eq!(played.len(), 1);
    assert_eq!(played[0].0.key(), (1, 3, 1));
}

#[test]
fn remove_latest_takes_last_of_listing() {
    let mut g = game_with(&["A", "B", "C"]);
    g.add_result((1, 2, 1), Rpssl::Rock, Rpssl::Paper).unwrap();
    g.add_result((1, 3, 1), Rpssl::Rock, Rpssl::Paper).unwrap();
    g.remove_result((1, 2, 1)).unwrap();
    g.add_result((2, 3, 1), Rpssl::Rock, Rpssl::Paper).unwrap();
    let played = g.get_played_games();
    assert_eq!(played.len(), 2);
    assert_eq!(played[0].1, played[1].1);
    assert_eq!(played[1].0.key(), (2, 3, 1));
    g.remove_latest();
    let played = g.get_played_games();
    assert_eq!(played.len(), 1);
    assert_eq!(played[0].0.key(), (1, 3, 1));
    assert_eq!(g.get_player(2).unwrap().played, 0);
}

#[test]
fn new_result_sinks_below_earlier_ones() {
    let mut g = game_with(&["A", "B", "C", "D"]);
    g.add_result((1, 2, 1), Rpssl::Rock, Rpssl::Paper).unwrap();
    g.add_result((3, 4, 1), Rpssl::Rock, Rpssl::Rock).unwrap();
    g.add_result((1, 3, 1), Rpssl::Paper, Rpssl::Rock).unwrap();
    let played = g.get_played_games();
    let prios: Vec<i64> = played.iter().map(|(_, p)| *p).collect();
    assert_eq!(prios, vec![-2, -3, -4]);
    assert_eq!(played[2].0.key(), (1, 3, 1));
}
