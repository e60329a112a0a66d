use tiles2048::board::{compact_line, differs, resolve, Board, Moves};
use tiles2048::game::{count_empty, evaluate_state, place_tile, GameStates};
use tiles2048::render::render_board;

fn row_board(row: [u64; 4]) -> Board {
    [row, [0, 0, 0, 0], [0, 0, 0, 0], [0, 0, 0, 0]]
}

fn mirror_h(b: &Board) -> Board {
    let mut m = [[0u64; 4]; 4];
    for i in 0..4 {
        for j in 0..4 {
            m[i][j] = b[i][3 - j];
        }
    }
    m
}

fn mirror_v(b: &Board) -> Board {
    let mut m = [[0u64; 4]; 4];
    for i in 0..4 {
        m[i] = b[3 - i];
    }
    m
}

fn sorted_tiles(b: &Board) -> Vec<u64> {
    let mut v: Vec<u64> = b.iter().flatten().copied().filter(|&x| x != 0).collect();
    v.sort();
    v
}

#[test]
fn three_equal_tiles_merge_once() {
    assert_eq!(compact_line([2, 2, 2, 0]), [4, 2, 0, 0]);
    let r = resolve(&row_board([2, 2, 2, 0]), Moves::LEFT);
    assert_eq!(r[0], [4, 2, 0, 0]);
}

#[test]
fn scenario_left_pairs() {
    let r = resolve(&row_board([2, 2, 4, 4]), Moves::LEFT);
    assert_eq!(r[0], [4, 8, 0, 0]);
}

#[test]
fn scenario_right_pair() {
    let r = resolve(&row_board([0, 0, 2, 2]), Moves::RIGHT);
    assert_eq!(r[0], [0, 0, 0, 4]);
}

#[test]
fn empty_and_single_lines() {
    assert_eq!(compact_line([0, 0, 0, 0]), [0, 0, 0, 0]);
    assert_eq!(compact_line([0, 0, 8, 0]), [8, 0, 0, 0]);
    assert_eq!(compact_line([2, 4, 2, 4]), [2, 4, 2, 4]);
    assert_eq!(compact_line([4, 4, 4, 4]), [8, 8, 0, 0]);
    assert_eq!(compact_line([2, 0, 0, 2]), [4, 0, 0, 0]);
}

#[test]
fn columns_move_up_and_down() {
    let b: Board = [[2, 0, 0, 4], [2, 0, 0, 0], [0, 0, 0, 4], [4, 0, 0, 8]];
    let up = resolve(&b, Moves::UP);
    assert_eq!(up, [[4, 0, 0, 8], [4, 0, 0, 8], [0, 0, 0, 0], [0, 0, 0, 0]]);
    let down = resolve(&b, Moves::DOWN);
    assert_eq!(down, [[0, 0, 0, 0], [0, 0, 0, 0], [4, 0, 0, 8], [4, 0, 0, 8]]);
}

#[test]
fn largest_doublable_tile_merges() {
    let big: u64 = 0x4000_0000_0000_0000;
    assert_eq!(compact_line([big, big, 0, 0]), [0x8000_0000_0000_0000, 0, 0, 0]);
}

#[test]
fn conservation_on_a_board() {
    let b: Board = [[2, 2, 2, 2], [4, 0, 4, 8], [0, 16, 16, 16], [2, 4, 8, 16]];
    for d in [Moves::LEFT, Moves::RIGHT, Moves::UP, Moves::DOWN] {
        let r = resolve(&b, d);
        let before: u64 = b.iter().flatten().sum();
        let after: u64 = r.iter().flatten().sum();
        assert_eq!(before, after);
    }
    let r = resolve(&b, Moves::LEFT);
    // merges: 2+2, 2+2, 4+4, 16+16
    assert_eq!(sorted_tiles(&b).len() - 4, sorted_tiles(&r).len());
    assert_eq!(sorted_tiles(&r), vec![2, 4, 4, 4, 8, 8, 8, 16, 16, 32]);
}

#[test]
fn noop_move_is_stable() {
    let b: Board = [[2, 4, 0, 0], [8, 0, 0, 0], [0, 0, 0, 0], [0, 0, 0, 0]];
    let r = resolve(&b, Moves::LEFT);
    assert!(!differs(&b, &r));
    assert_eq!(resolve(&r, Moves::LEFT), r);
}

#[test]
fn mirrored_boards_move_alike() {
    let b: Board = [[2, 2, 4, 0], [0, 8, 8, 8], [4, 0, 4, 2], [16, 2, 2, 2]];
    assert_eq!(mirror_h(&resolve(&b, Moves::LEFT)), resolve(&mirror_h(&b), Moves::RIGHT));
    assert_eq!(mirror_v(&resolve(&b, Moves::UP)), resolve(&mirror_v(&b), Moves::DOWN));
}

#[test]
fn differs_finds_one_cell() {
    let a: Board = [[0; 4]; 4];
    let mut b = a;
    assert!(!differs(&a, &b));
    b[3][3] = 2;
    assert!(differs(&a, &b));
}

#[test]
fn locked_board_is_dead() {
    let b: Board = [[2, 4, 2, 4], [4, 2, 4, 2], [2, 4, 2, 4], [4, 2, 4, 2]];
    for d in [Moves::LEFT, Moves::RIGHT, Moves::UP, Moves::DOWN] {
        assert!(!differs(&b, &resolve(&b, d)));
    }
    assert_eq!(evaluate_state(&b), GameStates::DEAD);
}

#[test]
fn full_board_spawns_nothing() {
    // a board left without an empty cell: the spawn step places nothing
    let full: Board = [[2, 4, 2, 4], [4, 2, 4, 2], [2, 4, 2, 4], [4, 2, 4, 2]];
    assert_eq!(count_empty(&full), 0);
    assert_eq!(place_tile(&full, 0, false), full);
    assert_eq!(evaluate_state(&full), GameStates::DEAD);
    let one_gap: Board = [[2, 2, 4, 8], [4, 8, 16, 32], [8, 16, 32, 64], [16, 32, 64, 0]];
    assert_eq!(evaluate_state(&one_gap), GameStates::ALIVE);
}

#[test]
fn spawn_goes_to_chosen_empty_cell() {
    let b: Board = [[2, 0, 4, 0], [0, 2, 2, 2], [2, 2, 2, 2], [2, 2, 2, 0]];
    assert_eq!(count_empty(&b), 4);
    let r = place_tile(&b, 2, true);
    assert_eq!(r[1][0], 4);
    assert_eq!(count_empty(&r), 3);
    let r = place_tile(&b, 3, false);
    assert_eq!(r[3][3], 2);
    assert_eq!(place_tile(&b, 4, false), b);
}

#[test]
fn evaluate_state_alive_on_movable_board() {
    let b: Board = [[2, 4, 2, 4], [4, 2, 4, 2], [2, 4, 2, 4], [4, 2, 4, 4]];
    assert_eq!(evaluate_state(&b), GameStates::ALIVE);
}

#[test]
fn render_draws_bordered_grid() {
    let b: Board = [[0, 0, 0, 0], [0, 0, 2, 0], [0, 16, 0, 0], [1024, 0, 0, 4]];
    let expected = "+---+---+---+---+\n\
                    | 0 | 0 | 0 | 0 |\n\
                    +---+---+---+---+\n\
                    | 0 | 0 | 2 | 0 |\n\
                    +---+---+---+---+\n\
                    | 0 | 16 | 0 | 0 |\n\
                    +---+---+---+---+\n\
                    | 1024 | 0 | 0 | 4 |\n\
                    +---+---+---+---+\n";
    assert_eq!(render_board(&b), expected);
}

#[test]
fn selectors_map_to_moves() {
    assert_eq!(Moves::from_selector(1), Some(Moves::UP));
    assert_eq!(Moves::from_selector(2), Some(Moves::DOWN));
    assert_eq!(Moves::from_selector(3), Some(Moves::LEFT));
    assert_eq!(Moves::from_selector(4), Some(Moves::RIGHT));
    assert_eq!(Moves::from_selector(0), None);
    assert_eq!(Moves::from_selector(5), None);
}
