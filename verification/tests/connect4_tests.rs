use rltoolkit::connect4::Connect4;
use rltoolkit::domain::{simulate, Domain};

#[test]
fn simulate_test() {
    let mut game = Connect4::new();
    let (data, _rewards) = simulate(&mut game);
    for d in &data {
        println!("{:?}", d);
    }
}

#[test]
fn connect4_simulate_test() {
    let mut game = Connect4::new();
    let (data, rewards) = simulate(&mut game);
    for i in 0..data.len() {
        println!("{:?} {:?}", data[i], rewards[i]);
    }
}

#[test]
fn new_game_is_empty_with_agent_1_to_move() {
    let game = Connect4::new();
    assert_eq!(game.player(), 1);
    let state = game.get_state();
    assert_eq!(state.len(), 42);
    assert!(state.iter().all(|&v| v == 0));
}

#[test]
fn gravity_drops_to_the_lowest_empty_row() {
    let mut game = Connect4::new();
    game.act((1, 3));
    let state = game.get_state();
    assert_eq!(state[5 * 7 + 3], 1);
    game.act((2, 3));
    let state = game.get_state();
    assert_eq!(state[4 * 7 + 3], 2);
    assert_eq!(state[5 * 7 + 3], 1);
    // every other cell stays empty
    for r in 0..4 {
        assert_eq!(state[r * 7 + 3], 0);
    }
    for c in [0, 1, 2, 4, 5, 6] {
        for r in 0..6 {
            assert_eq!(state[r * 7 + c], 0);
        }
    }
}

#[test]
fn turn_alternates_after_every_act() {
    let mut game = Connect4::new();
    assert_eq!(game.player(), 1);
    game.act((1, 0));
    assert_eq!(game.player(), 2);
    game.act((2, 1));
    assert_eq!(game.player(), 1);
    game.act((1, 2));
    assert_eq!(game.player(), 2);
}

#[test]
fn actions_carry_the_current_agent_and_open_columns() {
    let mut game = Connect4::new();
    let actions = game.get_actions();
    assert_eq!(actions, vec![(1, 0), (1, 1), (1, 2), (1, 3), (1, 4), (1, 5), (1, 6)]);
    game.act((1, 4));
    let actions = game.get_actions();
    assert_eq!(actions, vec![(2, 0), (2, 1), (2, 2), (2, 3), (2, 4), (2, 5), (2, 6)]);
}

#[test]
fn a_full_column_is_no_longer_offered() {
    let mut game = Connect4::new();
    // the agents alternate on one column: it fills as 1, 2, 1, 2, 1, 2
    // from the bottom, which wins nothing
    let mut player = 1;
    for _ in 0..6 {
        assert!(game.act((player, 0)).is_empty());
        player = if player == 1 { 2 } else { 1 };
    }
    let actions = game.get_actions();
    assert_eq!(actions, vec![(1, 1), (1, 2), (1, 3), (1, 4), (1, 5), (1, 6)]);
}

// An empty grid, agent 1 at columns 0, 1 and 2 (each lands on the bottom
// row), then agent 1 at column 3: the horizontal run through the last
// placement has length 4 and the act reports (winner +1, loser -1).
#[test]
fn horizontal_win_scenario() {
    let mut game = Connect4::new();
    assert!(game.act((1, 0)).is_empty());
    assert!(game.act((1, 1)).is_empty());
    assert!(game.act((1, 2)).is_empty());
    let events = game.act((1, 3));
    assert_eq!(events, vec![(1, 1), (2, -1)]);
    let fwd = game.board.run_length(5, 3, 0, 1);
    let back = game.board.run_length(5, 3, 0, -1);
    assert_eq!(fwd + back - 1, 4);
    assert_eq!(game.board.longest_row(5, 3), 4);
    // the game is over: no actions, though open columns remain
    assert!(game.get_actions().is_empty());
    assert_eq!(game.board.get_ij(0, 4), 0);
}

#[test]
fn vertical_win_is_detected() {
    let mut game = Connect4::new();
    for _ in 0..3 {
        assert!(game.act((1, 6)).is_empty());
    }
    let events = game.act((1, 6));
    assert_eq!(events, vec![(1, 1), (2, -1)]);
    assert_eq!(game.board.longest_col(2, 6), 4);
    assert!(game.get_actions().is_empty());
}

#[test]
fn diagonal_win_is_detected() {
    let mut game = Connect4::new();
    // a staircase for agent 1 on columns 0..=3
    game.act((1, 0)); // (5,0) = 1
    game.act((2, 1)); // (5,1) = 2
    game.act((1, 1)); // (4,1) = 1
    game.act((2, 2)); // (5,2) = 2
    game.act((1, 2)); // (4,2) = 1
    game.act((2, 3)); // (5,3) = 2
    game.act((1, 2)); // (3,2) = 1
    game.act((2, 3)); // (4,3) = 2
    game.act((1, 3)); // (3,3) = 1
    game.act((2, 6)); // (5,6) = 2
    let events = game.act((1, 3)); // (2,3) = 1 completes (5,0)-(2,3)
    assert_eq!(events, vec![(1, 1), (2, -1)]);
    assert_eq!(game.board.longest_diag_2(2, 3), 4);
    assert!(game.get_actions().is_empty());
}

// A full grid with no four-in-a-row anywhere: the action set is empty (a
// draw), and a drawn episode's reward table is the default reward for every
// agent at every step.
#[test]
fn full_grid_draw_scenario() {
    let mut game = Connect4::new();
    // bottom three rows of column c hold base[c], top three the other agent
    let base = [1, 2, 1, 2, 2, 1, 2];
    for c in 0..7 {
        let top = if base[c] == 1 { 2 } else { 1 };
        for r in 0..3 {
            game.board.put_ij(r, c, top);
        }
        for r in 3..6 {
            game.board.put_ij(r, c, base[c]);
        }
    }
    // no run of four anywhere, along any axis
    for r in 0..6 {
        for c in 0..7 {
            assert!(game.board.longest_row(r, c) < 4);
            assert!(game.board.longest_col(r, c) < 4);
            assert!(game.board.longest_diag_1(r, c) < 4);
            assert!(game.board.longest_diag_2(r, c) < 4);
        }
    }
    assert!(game.get_actions().is_empty());
    // a drawn episode issues no reward events, so every dense entry stays at
    // the default
    let data = vec![
        (game.get_state(), (1usize, 0usize), vec![]),
        (game.get_state(), (2usize, 1usize), vec![]),
        (game.get_state(), (1usize, 2usize), vec![]),
    ];
    let agents = game.get_agents();
    let table = rltoolkit::domain::backpropagate(&game, &data, &agents);
    assert_eq!(table.len(), 3);
    for row in &table {
        assert_eq!(row, &vec![(1, 0), (2, 0)]);
    }
}

// Resetting twice in a row leaves exactly what resetting once leaves: an
// all-zero grid with agent 1 to move.
#[test]
fn reset_twice_equals_reset_once() {
    let mut game = Connect4::new();
    game.act((1, 2));
    game.act((2, 3));
    game.act((1, 2));
    game.reset();
    let state_once = game.get_state();
    let player_once = game.player();
    game.reset();
    assert_eq!(game.get_state(), state_once);
    assert_eq!(game.player(), player_once);
    assert!(state_once.iter().all(|&v| v == 0));
    assert_eq!(player_once, 1);
}

#[test]
fn board_text_after_some_moves() {
    let mut game = Connect4::new();
    assert_eq!(
        game.to_string(),
        "0000000\n0000000\n0000000\n0000000\n0000000\n0000000\n"
    );
    game.act((1, 0));
    game.act((2, 1));
    game.act((1, 1));
    assert_eq!(
        game.to_string(),
        "0000000\n0000000\n0000000\n0000000\n0100000\n1200000\n"
    );
}
