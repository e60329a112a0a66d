use tiles2048::board::{resolve, Board, Moves};
use tiles2048::game::{Game, GameStates, MoveOutcome};

fn cell_sum(b: &Board) -> u64 {
    b.iter().flatten().sum()
}

fn tile_count(b: &Board) -> usize {
    b.iter().flatten().filter(|&&x| x != 0).count()
}

#[test]
fn new_game_has_one_tile() {
    let g = Game::new();
    assert_eq!(g.board(), [[0, 0, 0, 0], [0, 0, 2, 0], [0, 0, 0, 0], [0, 0, 0, 0]]);
    assert_eq!(g.score(), 2);
    assert_eq!(g.state(), GameStates::ALIVE);
}

#[test]
fn accepted_move_spawns_and_rescores() {
    let mut g = Game::new();
    assert_eq!(g.play(Moves::LEFT, 0, false), MoveOutcome::Accepted);
    assert_eq!(g.board(), [[2, 0, 0, 0], [2, 0, 0, 0], [0, 0, 0, 0], [0, 0, 0, 0]]);
    assert_eq!(g.score(), 4);
    assert_eq!(g.play(Moves::UP, 14, true), MoveOutcome::Accepted);
    assert_eq!(g.board(), [[4, 0, 0, 0], [0, 0, 0, 0], [0, 0, 0, 0], [0, 0, 0, 4]]);
    assert_eq!(g.score(), cell_sum(&g.board()));
    assert_eq!(g.score(), 8);
}

#[test]
fn refused_move_changes_nothing() {
    let mut g = Game::new();
    g.play(Moves::LEFT, 0, false);
    let before = g.board();
    assert_eq!(g.play(Moves::LEFT, 0, false), MoveOutcome::NoEffect);
    assert_eq!(g.board(), before);
    assert_eq!(g.score(), 4);
    assert_eq!(g.state(), GameStates::ALIVE);
}

#[test]
fn score_is_sum_after_many_moves() {
    let mut g = Game::new();
    let moves = [Moves::LEFT, Moves::UP, Moves::RIGHT, Moves::DOWN];
    for k in 0..200usize {
        let out = g.play(moves[k % 4], k % 5, k % 3 == 0);
        assert_eq!(g.score(), cell_sum(&g.board()));
        if out == MoveOutcome::GameOver {
            assert_eq!(g.state(), GameStates::DEAD);
        }
    }
}

#[test]
fn random_spawn_adds_one_tile() {
    let mut g = Game::new();
    let expected = resolve(&g.board(), Moves::DOWN);
    assert_eq!(g.game_loop(Moves::DOWN), MoveOutcome::Accepted);
    let b = g.board();
    assert_eq!(tile_count(&b), tile_count(&expected) + 1);
    let spawned = cell_sum(&b) - cell_sum(&expected);
    assert!(spawned == 2 || spawned == 4);
    assert_eq!(g.score(), cell_sum(&b));
}

#[test]
fn random_games_keep_score_and_end() {
    let mut g = Game::new();
    let moves = [Moves::LEFT, Moves::DOWN, Moves::RIGHT, Moves::UP];
    let mut k: usize = 0;
    while g.state() == GameStates::ALIVE && k < 100_000 {
        g.game_loop(moves[k % 4]);
        assert_eq!(g.score(), cell_sum(&g.board()));
        k += 1;
    }
    if g.state() == GameStates::DEAD {
        let before = g.board();
        assert_eq!(g.game_loop(Moves::LEFT), MoveOutcome::GameOver);
        assert_eq!(g.board(), before);
    }
}

#[test]
fn reset_returns_to_start() {
    let mut g = Game::new();
    g.play(Moves::RIGHT, 3, true);
    g.play(Moves::DOWN, 1, false);
    g.reset();
    assert_eq!(g.board(), [[0, 0, 0, 0], [0, 0, 2, 0], [0, 0, 0, 0], [0, 0, 0, 0]]);
    assert_eq!(g.score(), 2);
    assert_eq!(g.state(), GameStates::ALIVE);
}
