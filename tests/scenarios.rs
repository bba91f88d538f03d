use pepulo_rps::{Game, Playable, Rps, RpsResult, Rpssl};

#[test]
fn rps() {
    let rock = Rps::Rock;
    let paper = Rps::Paper;
    let scissors = Rps::Scissors;
    assert_eq!(rock.result(&rock), RpsResult::Draw);
    assert_eq!(rock.result(&paper), RpsResult::Lose);
    assert_eq!(rock.result(&scissors), RpsResult::Win);
    assert_eq!(paper.result(&scissors), RpsResult::Lose);
    assert_eq!(paper.result(&rock), RpsResult::Win);
    assert_eq!(scissors.result(&rock), RpsResult::Lose);
    assert_eq!(scissors.result(&paper), RpsResult::Win);
}

#[test]
fn rpssl() {
    let rock = Rpssl::Rock;
    let paper = Rpssl::Paper;
    let scissors = Rpssl::Scissors;
    let lizard = Rpssl::Lizard;
    let spock = Rpssl::Spock;
    assert_eq!(rock.result(&rock), RpsResult::Draw);
    assert_eq!(rock.result(&paper), RpsResult::Lose);
    assert_eq!(rock.result(&scissors), RpsResult::Win);
    assert_eq!(lizard.result(&spock), RpsResult::Win);
    assert_eq!(lizard.result(&paper), RpsResult::Win);
    assert_eq!(rock.result(&lizard), RpsResult::Win);
    assert_eq!(paper.result(&scissors), RpsResult::Lose);
    assert_eq!(paper.result(&rock), RpsResult::Win);
    assert_eq!(scissors.result(&rock), RpsResult::Lose);
    assert_eq!(scissors.result(&paper), RpsResult::Win);
}

#[test]
fn new_player_midgame() {
    let mut game = Game::new();
    let _ = game.add_player("Alice");
    let _ = game.add_player("Bob");
    let _ = game.add_player("Charlie");

    game.add_result((1, 2, 1), Rpssl::Rock, Rpssl::Scissors).unwrap();
    game.add_result((1, 3, 1), Rpssl::Rock, Rpssl::Paper).unwrap();

    let _ = game.add_player("David");
    game.update_priorities();
    assert_eq!(game.player_list.len(), 4);
    assert_eq!(game.match_list.len(), 6);
    assert_eq!(game.get_played_n() + game.get_left_n(), 6);

    let p1 = game.get_player(1).unwrap();
    let p2 = game.get_player(2).unwrap();
    let p3 = game.get_player(3).unwrap();
    let p4 = game.get_player(4).unwrap();
    assert_eq!(p1.score, 8);
    assert_eq!(p2.score, 3);
    assert_eq!(p3.score, 8);
    assert_eq!(p4.score, 0);

    assert_eq!(p1.played, 2);
    assert_eq!(p2.played, 1);
    assert_eq!(p3.played, 1);
    assert_eq!(p4.played, 0);

    let played_games = game.get_played_games();
    assert_eq!(played_games.len(), 2);

    let g3 = game.get_next_game().unwrap().key();
    assert_eq!(g3, (2, 4, 1));

    let scores = game.get_scores();
    assert_eq!(scores[0].id, 1);
    assert_eq!(scores[1].id, 3);
    assert_eq!(scores[2].id, 2);
    assert_eq!(scores[3].id, 4);
}

#[test]
fn rounds() {
    let mut game = Game::new();
    let _ = game.add_player("Alice");
    let _ = game.add_player("Bob");
    let _ = game.add_player("Charlie");
    assert_eq!(game.get_left_n(), 3);
    game.set_rounds(2).unwrap();
    assert_eq!(game.get_left_n(), 6);
}

#[test]
fn game() {
    let mut game = Game::new();
    let _ = game.add_player("Alice");
    assert_eq!(game.player_list.len(), 1);
    assert_eq!(game.match_list.len(), 0);
    assert_eq!(game.get_played_n() + game.get_left_n(), 0);
    let _ = game.add_player("Bob");
    assert_eq!(game.player_list.len(), 2);
    assert_eq!(game.match_list.len(), 1);
    assert_eq!(game.get_played_n() + game.get_left_n(), 1);

    let _ = game.add_player("Charlie");
    assert_eq!(game.player_list.len(), 3);
    assert_eq!(game.match_list.len(), 3);
    assert_eq!(game.get_played_n() + game.get_left_n(), 3);

    game.add_result((1, 2, 1), Rpssl::Rock, Rpssl::Scissors).unwrap();
    let p1 = game.get_player(1).unwrap();
    let p2 = game.get_player(2).unwrap();
    assert_eq!(p1.score, 7);
    assert_eq!(p2.score, 3);

    assert_eq!(p1.played, 1);
    assert_eq!(p2.played, 1);
    // 2,3 should come first since player 1 has a higher score
    // Thus 1,3 has lower priority than 2,3
    let next = game.get_next_games(2);
    assert_eq!(next[0].key(), (2, 3, 1));
    assert_eq!(next[1].key(), (1, 3, 1));

    {
        let scores = game.get_scores();
        assert_eq!(scores[0].id, 1);
        assert_eq!(scores[1].id, 2);
        assert_eq!(scores[2].id, 3);
    }
    {
        let played_games = game.get_played_games();
        assert_eq!(played_games.len(), 1);
    }

    // #3 wins, gets 6 + 2 points, 1 point for #1
    game.add_result((1, 3, 1), Rpssl::Rock, Rpssl::Paper).unwrap();
    let p1 = game.get_player(1).unwrap();
    let p3 = game.get_player(3).unwrap();
    assert_eq!(p1.score, 8);
    assert_eq!(p3.score, 8);

    assert_eq!(p1.played, 2);
    assert_eq!(p3.played, 1);

    // Both recorded matches are sunk below the pending one.
    let played_games = game.get_played_games();
    assert_eq!(played_games.len(), 2);

    let scores = game.get_scores();
    assert_eq!(scores[0].id, 1);
    assert_eq!(scores[1].id, 3);
    assert_eq!(scores[2].id, 2);
}
