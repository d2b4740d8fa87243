use std::time::Instant;
use tavern::game::santorini::board::{searchable, StandardBoard};
use tavern::game::packed::Packed1;
use tavern::game::santorini::evaluator::negamax_alphabeta_exp::{EvState, NegaMaxAlphaBetaExp};
use tavern::game::santorini::evaluator::Evaluator;
use tavern::game::santorini::evaluator_info::EvaluatorInfo;
use tavern::game::santorini::heuristic::{
    AdjustedNeighbourHeuristic, Heuristic, NeighbourHeuristic, SimpleHeightHeuristic, PLAYER_0_WIN, PLAYER_1_WIN,
};
use tavern::game::santorini::move_stack::MoveStack;
use tavern::game::santorini::perft::PERFT_DEPTH;
use tavern::game::santorini::state::State;
use tavern::game::santorini::transposition::ZobristHash;
use tavern::game::santorini::minimax::MiniMax;
use tavern::game::santorini::{Evaluation, HeuristicValue, Move};
use tavern::game::util::{Player, Slot};

struct TestCase {
    name: &'static str,
    state: State,
    scores: Vec<HeuristicValue>,
}

fn with_heights(board: &StandardBoard, placements: [(i8, i8); 2], heights: &[(i8, u8)], to_move: i8) -> State {
    let mut state = State::initial();
    for &(a, b) in placements.iter() {
        state = board.apply(Move::PlaceBuilders { a: Slot(a), b: Slot(b) }, &state);
    }
    for &(slot, h) in heights {
        state.set_building_height(Slot(slot), h);
    }
    state.to_move = Player(to_move);
    state
}

fn initial(to_move: i8) -> State {
    let mut state = State::initial();
    state.to_move = Player(to_move);
    state
}

fn case(name: &'static str, state: State, scores: Vec<HeuristicValue>) -> TestCase {
    TestCase { name, state, scores }
}

fn test_cases(board: &StandardBoard) -> Vec<TestCase> {
    let distant = [(0, 1), (23, 24)];
    let near = [(0, 1), (3, 4)];
    vec![
        case("init_a", initial(0), vec![0, 0, 0, 0]),
        case("init_b", initial(1), vec![0, 0, 0, 0]),
        case("mild_a", with_heights(board, distant, &[(5, 1)], 0), vec![1, 1, 2, 1]),
        case("mild_a", with_heights(board, distant, &[(5, 1)], 1), vec![0, 1, 0, 1]),
        case("a_in_1", with_heights(board, distant, &[(1, 2), (2, 3)], 0), vec![PLAYER_0_WIN, PLAYER_0_WIN]),
        case("a_in_1", with_heights(board, distant, &[(1, 2), (2, 3)], 1), vec![2, PLAYER_0_WIN]),
        case("a_in_2", with_heights(board, distant, &[(1, 1), (2, 2), (3, 3)], 0), vec![2, 2, PLAYER_0_WIN, PLAYER_0_WIN]),
        case("a_in_2", with_heights(board, distant, &[(1, 1), (2, 2), (3, 3)], 1), vec![1, 2, 1, PLAYER_0_WIN]),
        case("b_in_1", with_heights(board, distant, &[(23, 2), (22, 3)], 0), vec![-2, PLAYER_1_WIN]),
        case("b_in_1", with_heights(board, distant, &[(23, 2), (22, 3)], 1), vec![PLAYER_1_WIN, PLAYER_1_WIN]),
        case("b_in_2", with_heights(board, distant, &[(23, 1), (22, 2), (21, 3)], 0), vec![-1, -2, -1, PLAYER_1_WIN]),
        case("b_in_2", with_heights(board, distant, &[(23, 1), (22, 2), (21, 3)], 1), vec![-2, -2, PLAYER_1_WIN, PLAYER_1_WIN]),
        case("a_blockable", with_heights(board, near, &[(1, 2), (2, 3), (3, 1)], 0), vec![PLAYER_0_WIN]),
        case("a_blockable", with_heights(board, near, &[(1, 2), (2, 3), (3, 1)], 1), vec![1, 1]),
        case("b_blockable", with_heights(board, near, &[(1, 1), (2, 3), (3, 2)], 0), vec![-1, -1]),
        case("b_blockable", with_heights(board, near, &[(1, 1), (2, 3), (3, 2)], 1), vec![PLAYER_1_WIN]),
        case("any_in_1", with_heights(board, near, &[(1, 2), (2, 3), (3, 2)], 0), vec![PLAYER_0_WIN]),
        case("any_in_1", with_heights(board, near, &[(1, 2), (2, 3), (3, 2)], 1), vec![PLAYER_1_WIN]),
        case("any_trap_in_1", with_heights(board, near, &[(2, 1), (5, 2), (6, 2), (7, 1), (8, 2), (9, 2)], 0), vec![PLAYER_0_WIN]),
        case("any_trap_in_1", with_heights(board, near, &[(2, 1), (5, 2), (6, 2), (7, 1), (8, 2), (9, 2)], 1), vec![PLAYER_1_WIN]),
    ]
}

fn run_heuristic_count<H: Heuristic>() {
    let mut move_stack = MoveStack::new();
    let board = StandardBoard::new(ZobristHash::new_unseeded());
    let mut moves = 0u64;
    let mut h_value = 0i64;
    let start = Instant::now();
    for test_case in test_cases(&board) {
        let (m, h) = board.perft_heuristic::<H>(&test_case.state, PERFT_DEPTH, &mut move_stack);
        moves += m;
        h_value += h;
        assert!(test_case.scores.len() >= 1);
    }
    let as_seconds = start.elapsed().as_secs_f64();
    let million_moves_per_second = moves as f64 / 1_000_000f64 / as_seconds;
    println!(
        "=== Heuristic perft {} === perft {} moves {} h ({:.2}M/second) in {:.2} seconds",
        H::name(),
        moves,
        h_value,
        million_moves_per_second,
        as_seconds
    );
}

#[test]
fn perft_heuristic() {
    run_heuristic_count::<SimpleHeightHeuristic>();
    run_heuristic_count::<NeighbourHeuristic>();
    run_heuristic_count::<AdjustedNeighbourHeuristic>();
}

#[test]
fn perft() {
    let mut move_stack = MoveStack::new();
    let board = StandardBoard::new(ZobristHash::new_unseeded());
    let mut moves = 0u64;
    let start = Instant::now();
    for test_case in test_cases(&board) {
        moves += board.perft(&test_case.state, PERFT_DEPTH, &mut move_stack);
    }
    let as_seconds = start.elapsed().as_secs_f64();
    let million_moves_per_second = moves as f64 / 1_000_000f64 / as_seconds;
    println!("=== OLD === perft {} moves ({:.2}M/second) in {:.2} seconds", moves, million_moves_per_second, as_seconds);
}

fn evaluate_state(evaluator_state: &mut EvState, board: &StandardBoard, state: &State, max_depth: u8) -> (Vec<HeuristicValue>, EvaluatorInfo) {
    let mut info = EvaluatorInfo::new();
    let mut values = Vec::new();
    for depth in 1..(max_depth + 1) {
        let (best, new_info) = NegaMaxAlphaBetaExp::evaluate_moves_impl::<SimpleHeightHeuristic>(evaluator_state, board, state, depth);
        info = info.add(&new_info);
        if let Some((_, score)) = best {
            values.push(score);
        }
    }
    (values, info)
}

#[test]
fn negamax_alphabeta_exp() {
    let board = StandardBoard::new(ZobristHash::new_unseeded());
    let cases = test_cases(&board);
    let mut evaluator_state = NegaMaxAlphaBetaExp::new_state();
    let mut error_cases = 0;
    for case in &cases {
        let (scores, info) = evaluate_state(&mut evaluator_state, &board, &case.state, case.scores.len() as u8);
        if scores != case.scores {
            error_cases += 1;
            println!("test case expected {:?} but got {:?}", case.scores, scores);
        } else {
            println!("ok -> {:?}", info);
        }
    }
    assert!(error_cases == 0);
}

#[test]
fn adj_neighbour_heuristic() {
    let board = StandardBoard::new(ZobristHash::new_unseeded());
    println!("INITIAL -> {}", AdjustedNeighbourHeuristic::evaluate(&board, &State::initial()));
    let mut state = State::initial();
    for &mve in &vec![Move::PlaceBuilders { a: Slot(3), b: Slot(1) }, Move::PlaceBuilders { a: Slot(23), b: Slot(24) }] {
        state = board.apply(mve, &state);
    }
    state.set_building_height(Slot(1), 2);
    state.set_building_height(Slot(2), 3);
    state.to_move = Player(0);
    println!("state -> {}", board.print(&state));
    println!("a in 1 -> {}", AdjustedNeighbourHeuristic::evaluate(&board, &state));
}

#[test]
fn traps_seen_where_leaves_count_moves() {
    // The plain minimax scores a leaf whose player has no move as a loss for that player,
    // so it sees the traps one move deep.
    let board = StandardBoard::new(ZobristHash::new_unseeded());
    for case in test_cases(&board).iter().filter(|c| c.name == "any_trap_in_1") {
        let (moves, _) = <MiniMax as Evaluation<SimpleHeightHeuristic>>::evaluate(&board, &case.state, 1);
        assert_eq!(moves[0].1, case.scores[0]);
    }
}

#[test]
fn placements_counted_up_to_symmetry() {
    // The 300 pairs of squares fall into 49 classes under the 8 symmetries of the board.
    let board = StandardBoard::new(ZobristHash::new_unseeded());
    let mut move_stack = MoveStack::new();
    let state = State::initial();
    assert_eq!(board.perft(&state, 0, &mut move_stack), 1);
    assert_eq!(board.perft(&state, 1, &mut move_stack), 49);
}

#[test]
fn stack_need_of_counts_move_lists() {
    let board = StandardBoard::new(ZobristHash::new_unseeded());
    let state = State::initial();
    assert_eq!(board.stack_need_of(&state, 0), 0);
    assert_eq!(board.stack_need_of(&state, 1), 49);
    let mut moves: Vec<Move> = Vec::new();
    board.next_moves(&state, &mut moves);
    let mut widest = 0u64;
    for m in moves.iter() {
        let child = board.apply(*m, &state);
        let mut replies: Vec<Move> = Vec::new();
        board.next_moves(&child, &mut replies);
        widest = widest.max(replies.len() as u64);
    }
    assert!(widest > 0);
    assert_eq!(board.stack_need_of(&state, 2), 49 + widest);
}

#[test]
fn searchable_positions() {
    let board = StandardBoard::new(ZobristHash::new_unseeded());
    assert!(searchable(&State::initial()));
    let placed = with_heights(&board, [(0, 6), (12, 18)], &[(3, 2)], 1);
    assert!(searchable(&placed));
    let mut wrong_player = placed;
    wrong_player.to_move = Player(2);
    assert!(!searchable(&wrong_player));
    let mut shared = placed;
    shared.builders[1] = Packed1(shared.builders[1].0 | 1);
    assert!(!searchable(&shared));
    let mut domed = placed;
    domed.domes = Packed1(1);
    assert!(!searchable(&domed));
    let mut off_board = placed;
    off_board.builders[0] = Packed1(off_board.builders[0].0 | (1 << 25));
    assert!(!searchable(&off_board));
}
