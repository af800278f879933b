use soroban_contracts::tictactoe::{Cell, Contract};

const ALICE: &str = "GDALICEALICEALICEALICEALICEALICEALICEALICEALICEALICEAA";
const BOB: &str = "GDBOBBOBBOBBOBBOBBOBBOBBOBBOBBOBBOBBOBBOBBOBBOBBOBBOBB";
const CAROL: &str = "GDCAROLCAROLCAROLCAROLCAROLCAROLCAROLCAROLCAROLCAROLCA";

fn addr(s: &str) -> String {
    s.to_string()
}

#[test]
fn test() {
    let mut game = Contract::new();
    let alice = addr(ALICE);
    let bob = addr(BOB);

    // alice starts the game
    assert_eq!(game.start(alice.clone(), bob.clone()), 0);
    // starting the game again fails
    assert_eq!(game.start(alice.clone(), bob.clone()), 1);
    // alice goes middle
    assert_eq!(game.play(&alice, 4), 0);
    // bob can't also go center center
    assert_eq!(game.play(&bob, 4), 1);
    // bob can't go off board
    assert_eq!(game.play(&bob, 9), 1);
    // bob goes top left
    assert_eq!(game.play(&bob, 0), 0);
    // alice goes top center
    assert_eq!(game.play(&alice, 1), 0);
    // bob goes center left
    assert_eq!(game.play(&bob, 3), 0);
    // alice goes bottom center, winning the game
    assert_eq!(game.play(&alice, 7), 0);
    // alice is the winner
    assert_eq!(game.winner(), alice);
    // bob goes center right: fails, the game is over
    assert_eq!(game.play(&bob, 5), 1);
    // bob starts a new game
    assert_eq!(game.start(bob.clone(), alice.clone()), 0);
}

#[test]
fn fresh_contract_has_no_game() {
    let game = Contract::new();
    assert!(!game.is_playing());
    assert_eq!(game.winner(), "");
    assert_eq!(game.playing(), 0);
    for i in 0..9u32 {
        assert!(game.is_empty(i));
    }
}

#[test]
fn start_sets_up_a_fresh_game() {
    let mut game = Contract::new();
    assert_eq!(game.start(addr(ALICE), addr(BOB)), 0);
    assert!(game.is_playing());
    assert_eq!(game.playing(), 1);
    assert_eq!(game.player(), ALICE);
    assert_eq!(game.opponent(), BOB);
    assert_eq!(game.next(), ALICE);
    assert_eq!(game.winner(), "");
    assert_eq!(game.board(), [Cell::Null; 9]);
}

#[test]
fn play_refused_without_a_game() {
    let mut game = Contract::new();
    assert_eq!(game.play(&addr(ALICE), 0), 1);
    assert_eq!(game.board(), [Cell::Null; 9]);
}

#[test]
fn play_refused_out_of_turn() {
    let mut game = Contract::new();
    game.start(addr(ALICE), addr(BOB));
    // the opponent cannot move first
    assert_eq!(game.play(&addr(BOB), 0), 1);
    assert!(game.is_empty(0));
    assert_eq!(game.next(), ALICE);
}

#[test]
fn play_refused_for_outsider() {
    let mut game = Contract::new();
    game.start(addr(ALICE), addr(BOB));
    assert_eq!(game.play(&addr(CAROL), 0), 1);
    assert!(game.is_empty(0));
}

#[test]
fn play_refused_off_board_and_on_taken_square() {
    let mut game = Contract::new();
    game.start(addr(ALICE), addr(BOB));
    assert_eq!(game.play(&addr(ALICE), 9), 1);
    assert_eq!(game.play(&addr(ALICE), u32::MAX), 1);
    assert_eq!(game.play(&addr(ALICE), 8), 0);
    assert_eq!(game.play(&addr(BOB), 8), 1);
    assert_eq!(game.next(), BOB);
}

#[test]
fn moves_mark_the_board_and_pass_the_turn() {
    let mut game = Contract::new();
    game.start(addr(ALICE), addr(BOB));
    assert_eq!(game.play(&addr(ALICE), 2), 0);
    assert_eq!(game.next(), BOB);
    assert_eq!(game.play(&addr(BOB), 6), 0);
    assert_eq!(game.next(), ALICE);
    let mut expected = [Cell::Null; 9];
    expected[2] = Cell::X;
    expected[6] = Cell::O;
    assert_eq!(game.board(), expected);
    assert!(!game.is_empty(2));
    assert!(!game.is_empty(6));
    assert!(game.is_empty(4));
}

#[test]
fn nobody_moves_twice_in_a_row() {
    let mut game = Contract::new();
    game.start(addr(ALICE), addr(BOB));
    assert_eq!(game.play(&addr(ALICE), 0), 0);
    for i in 0..9u32 {
        assert_eq!(game.play(&addr(ALICE), i), 1);
    }
}

#[test]
fn opponent_wins_on_a_row() {
    let mut game = Contract::new();
    game.start(addr(ALICE), addr(BOB));
    assert_eq!(game.play(&addr(ALICE), 0), 0);
    assert_eq!(game.play(&addr(BOB), 3), 0);
    assert_eq!(game.play(&addr(ALICE), 1), 0);
    assert_eq!(game.play(&addr(BOB), 4), 0);
    assert_eq!(game.play(&addr(ALICE), 8), 0);
    assert!(game.is_playing());
    assert_eq!(game.play(&addr(BOB), 5), 0);
    assert_eq!(game.winner(), BOB);
    assert!(!game.is_playing());
}

#[test]
fn player_wins_on_each_diagonal() {
    for (a, b) in [([0u32, 4, 8], [1u32, 2]), ([2u32, 4, 6], [0u32, 1])] {
        let mut game = Contract::new();
        game.start(addr(ALICE), addr(BOB));
        assert_eq!(game.play(&addr(ALICE), a[0]), 0);
        assert_eq!(game.play(&addr(BOB), b[0]), 0);
        assert_eq!(game.play(&addr(ALICE), a[1]), 0);
        assert_eq!(game.play(&addr(BOB), b[1]), 0);
        assert_eq!(game.winner(), "");
        assert_eq!(game.play(&addr(ALICE), a[2]), 0);
        assert_eq!(game.winner(), ALICE);
        assert!(!game.is_playing());
    }
}

#[test]
fn full_board_without_winner_keeps_game_open() {
    // X O X / X O O / O X X: no line, board full
    let mut game = Contract::new();
    game.start(addr(ALICE), addr(BOB));
    let moves = [(ALICE, 0), (BOB, 1), (ALICE, 2), (BOB, 4), (ALICE, 3), (BOB, 5), (ALICE, 7), (BOB, 6), (ALICE, 8)];
    for (who, square) in moves {
        assert_eq!(game.play(&addr(who), square), 0);
    }
    assert_eq!(game.winner(), "");
    assert!(game.is_playing());
    // no square is left, and a new game cannot be started
    for i in 0..9u32 {
        assert!(!game.is_empty(i));
        assert_eq!(game.play(&addr(BOB), i), 1);
    }
    assert_eq!(game.start(addr(BOB), addr(ALICE)), 1);
}

#[test]
fn restart_after_win_clears_the_board() {
    let mut game = Contract::new();
    game.start(addr(ALICE), addr(BOB));
    for (who, square) in [(ALICE, 0), (BOB, 3), (ALICE, 1), (BOB, 4), (ALICE, 2)] {
        assert_eq!(game.play(&addr(who), square), 0);
    }
    assert_eq!(game.winner(), ALICE);
    assert_eq!(game.start(addr(BOB), addr(CAROL)), 0);
    assert_eq!(game.board(), [Cell::Null; 9]);
    assert_eq!(game.winner(), "");
    assert_eq!(game.next(), BOB);
    // alice no longer takes part
    assert_eq!(game.play(&addr(ALICE), 0), 1);
    assert_eq!(game.play(&addr(BOB), 0), 0);
}

#[test]
fn same_address_on_both_sides_plays_both_marks() {
    let mut game = Contract::new();
    game.start(addr(ALICE), addr(ALICE));
    assert_eq!(game.play(&addr(ALICE), 0), 0);
    assert_eq!(game.play(&addr(ALICE), 1), 0);
    assert_eq!(game.board()[0], Cell::X);
    assert_eq!(game.board()[1], Cell::X);
}

#[test]
fn from_storage_round_trips() {
    let mut board = [Cell::Null; 9];
    board[4] = Cell::X;
    let game = Contract::from_storage(1, addr(ALICE), addr(BOB), addr(BOB), String::new(), board);
    assert_eq!(game.playing(), 1);
    assert_eq!(game.player(), ALICE);
    assert_eq!(game.opponent(), BOB);
    assert_eq!(game.next(), BOB);
    assert_eq!(game.winner(), "");
    assert_eq!(game.board(), board);
}

#[test]
fn winner_is_the_last_winning_mover_since_start() {
    let mut game = Contract::new();
    assert_eq!(game.winner(), "");
    game.start(addr(ALICE), addr(BOB));
    for (who, square) in [(ALICE, 4), (BOB, 0), (ALICE, 2), (BOB, 1)] {
        assert_eq!(game.play(&addr(who), square), 0);
        assert_eq!(game.winner(), "");
    }
    assert_eq!(game.play(&addr(ALICE), 6), 0);
    assert_eq!(game.winner(), ALICE);
    // refused calls after the win leave the winner in place
    assert_eq!(game.play(&addr(BOB), 3), 1);
    assert_eq!(game.winner(), ALICE);
    // a new game clears it
    assert_eq!(game.start(addr(BOB), addr(ALICE)), 0);
    assert_eq!(game.winner(), "");
    for (who, square) in [(BOB, 0), (ALICE, 3), (BOB, 1), (ALICE, 4), (BOB, 2)] {
        assert_eq!(game.play(&addr(who), square), 0);
    }
    assert_eq!(game.winner(), BOB);
}
