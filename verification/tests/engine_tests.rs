use rltoolkit::connect4::Connect4;
use rltoolkit::domain::{backpropagate, simulate, Domain};

#[test]
fn reward_add_is_plain_addition_in_range() {
    let game = Connect4::new();
    assert_eq!(game.reward_add(&5, &7), 12);
    assert_eq!(game.reward_add(&-3, &1), -2);
    assert_eq!(game.reward_add(&0, &0), 0);
    assert_eq!(game.reward_add(&1, &-1), 0);
}

#[test]
fn reward_add_clamps_at_the_ends_of_the_range() {
    let game = Connect4::new();
    assert_eq!(game.reward_add(&i64::MAX, &1), i64::MAX);
    assert_eq!(game.reward_add(&i64::MIN, &-1), i64::MIN);
    assert_eq!(game.reward_add(&i64::MAX, &i64::MAX), i64::MAX);
    assert_eq!(game.reward_add(&i64::MAX, &-1), i64::MAX - 1);
}

#[test]
fn backpropagate_accumulates_backward_per_agent() {
    let game = Connect4::new();
    let s = game.get_state();
    let data = vec![
        (s.clone(), (1usize, 0usize), vec![(1, 5)]),
        (s.clone(), (2usize, 1usize), vec![]),
        (s.clone(), (1usize, 2usize), vec![(1, 2), (2, -7), (1, 1)]),
    ];
    let agents = game.get_agents();
    let table = backpropagate(&game, &data, &agents);
    assert_eq!(table.len(), 3);
    assert_eq!(table[2], vec![(1, 3), (2, -7)]);
    assert_eq!(table[1], vec![(1, 3), (2, -7)]);
    assert_eq!(table[0], vec![(1, 8), (2, -7)]);
}

#[test]
fn backpropagate_of_an_empty_episode_is_empty() {
    let game = Connect4::new();
    let data = vec![];
    let agents = game.get_agents();
    let table = backpropagate(&game, &data, &agents);
    assert!(table.is_empty());
}

// The reward-table entry at ply 0 is the agent's total over the whole
// episode, and every entry is that ply's own events plus the next entry.
#[test]
fn backprop_total_return_over_a_random_episode() {
    let mut game = Connect4::new();
    let (data, rewards) = simulate(&mut game);
    assert_eq!(rewards.len(), data.len());
    assert!(!data.is_empty());
    let agents = game.get_agents();
    for (k, &a) in agents.iter().enumerate() {
        let mut total: i64 = 0;
        for step in &data {
            for &(agent, r) in &step.2 {
                if agent == a {
                    total += r;
                }
            }
        }
        assert_eq!(rewards[0][k], (a, total));
        // the recurrence row by row
        for t in 0..data.len() {
            let mut own: i64 = 0;
            for &(agent, r) in &data[t].2 {
                if agent == a {
                    own += r;
                }
            }
            let next = if t + 1 < data.len() { rewards[t + 1][k].1 } else { 0 };
            assert_eq!(rewards[t][k], (a, own + next));
        }
    }
}

// After any episode the grid respects gravity: within each column no empty
// cell sits below a filled one.
#[test]
fn episode_leaves_a_gravity_respecting_grid() {
    let mut game = Connect4::new();
    let _ = simulate(&mut game);
    let state = game.get_state();
    for c in 0..7 {
        for r in 0..5 {
            if state[r * 7 + c] != 0 {
                assert!(state[(r + 1) * 7 + c] != 0);
            }
        }
    }
    // the episode ended: either someone won or the top row is full
    assert!(game.get_actions().is_empty());
}

#[test]
fn episode_records_legal_actions_of_the_acting_agent() {
    let mut game = Connect4::new();
    let (data, _) = simulate(&mut game);
    // agents 1 and 2 alternate, agent 1 first; columns stay in range
    for (t, step) in data.iter().enumerate() {
        let (agent, column) = step.1;
        assert_eq!(agent, if t % 2 == 0 { 1 } else { 2 });
        assert!(column < 7);
    }
    // a game of Connect Four lasts at most one ply per cell
    assert!(data.len() <= 42);
}

#[test]
fn get_agents_is_the_fixed_pair() {
    let game = Connect4::new();
    assert_eq!(game.get_agents(), vec![1, 2]);
}
