use tavern::game::santorini::board::StandardBoard;
use tavern::game::santorini::move_stack::MoveStack;
use tavern::game::santorini::evaluator::minimax::MiniMax as MiniMaxSearch;
use tavern::game::santorini::evaluator::minimax_alphabeta::MiniMaxAlphaBeta;
use tavern::game::santorini::evaluator::negamax::NegaMax as NegaMaxSearch;
use tavern::game::santorini::evaluator::negamax_alphabeta::NegaMaxAlphaBeta;
use tavern::game::santorini::heuristic::{NeighbourHeuristic, SimpleHeightHeuristic};
use tavern::game::santorini::minimax::MiniMax;
use tavern::game::santorini::negamax::NegaMax;
use tavern::game::santorini::negamax_alphabeta_exp::NegaMaxAlphaBetaExp;
use tavern::game::santorini::evaluator::negamax_alphabeta_exp::NegaMaxAlphaBetaExp as TableSearch;
use tavern::game::santorini::evaluator::Evaluator;
use tavern::game::santorini::search::sort_by_score;
use tavern::game::santorini::state::State;
use tavern::game::santorini::transposition::ZobristHash;
use tavern::game::santorini::{Evaluation, Move};
use tavern::game::util::{Player, Slot};

fn positions(board: &StandardBoard) -> Vec<State> {
    let mut out = Vec::new();
    for &(heights, to_move) in [(&[(5u8, 1u8)][..], 0i8), (&[(1, 2), (2, 3)][..], 1), (&[(23, 1), (22, 2), (21, 3)][..], 0), (&[][..], 1)].iter() {
        let mut state = State::initial();
        state = board.apply(Move::PlaceBuilders { a: Slot(0), b: Slot(1) }, &state);
        state = board.apply(Move::PlaceBuilders { a: Slot(23), b: Slot(24) }, &state);
        for &(slot, h) in heights {
            state.set_building_height(Slot(slot as i8), h);
        }
        state.to_move = Player(to_move);
        out.push(state);
    }
    out
}

fn color_of(state: &State) -> i16 {
    if state.to_move == Player(0) { 1 } else { -1 }
}

#[test]
fn negamax_agrees_with_minimax() {
    let board = StandardBoard::new(ZobristHash::new_unseeded());
    for state in positions(&board) {
        for depth in 1..3 {
            let mini = MiniMax::eval::<SimpleHeightHeuristic>(&board, &state, depth);
            let (nega, _) = NegaMax::eval::<SimpleHeightHeuristic>(&board, &state, depth, color_of(&state));
            assert_eq!(nega, mini * color_of(&state));
        }
    }
}

#[test]
fn alphabeta_with_full_window_agrees_with_negamax() {
    let board = StandardBoard::new(ZobristHash::new_unseeded());
    for state in positions(&board) {
        for depth in 1..3 {
            let c = color_of(&state);
            let (nega, all) = NegaMax::eval::<NeighbourHeuristic>(&board, &state, depth, c);
            let (ab, pruned) = NegaMaxAlphaBetaExp::eval::<NeighbourHeuristic>(&board, &state, depth, -32767, 32767, c);
            assert_eq!(ab, nega);
            assert!(pruned <= all);
        }
    }
}

#[test]
fn root_searches_pick_the_same_score() {
    let board = StandardBoard::new(ZobristHash::new_unseeded());
    for state in positions(&board) {
        for depth in 1..3 {
            let (a, _) = MiniMaxSearch::evaluate_moves_impl::<SimpleHeightHeuristic>(&mut (), &board, &state, depth);
            let (b, _) = NegaMaxSearch::evaluate_moves_impl::<SimpleHeightHeuristic>(&mut (), &board, &state, depth);
            let (c, _) = NegaMaxAlphaBeta::evaluate_moves_impl::<SimpleHeightHeuristic>(&mut (), &board, &state, depth);
            let (d, _) = MiniMaxAlphaBeta::evaluate_moves_impl::<SimpleHeightHeuristic>(&mut (), &board, &state, depth);
            let score = |r: Option<(Move, i16)>| r.map(|(_, s)| s);
            assert_eq!(score(a), score(b));
            assert_eq!(score(a), score(c));
            assert_eq!(score(d), score(a));
        }
    }
}

#[test]
fn evaluation_lists_moves_best_first() {
    let board = StandardBoard::new(ZobristHash::new_unseeded());
    for state in positions(&board) {
        let (moves, _) = <MiniMax as Evaluation<SimpleHeightHeuristic>>::evaluate(&board, &state, 2);
        assert!(!moves.is_empty());
        let keyed: Vec<i16> = moves.iter().map(|&(_, v)| if state.to_move == Player(0) { -v } else { v }).collect();
        assert!(keyed.windows(2).all(|w| w[0] <= w[1]));
    }
}

#[test]
fn sorting_keeps_ties_in_order() {
    let m = |a: i8| Move::PlaceBuilders { a: Slot(a), b: Slot(a + 1) };
    let scored = vec![(m(0), 1), (m(2), 3), (m(4), 1), (m(6), 3), (m(8), 2)];
    let best_first_for_0 = sort_by_score(scored.clone(), true);
    assert_eq!(best_first_for_0, vec![(m(2), 3), (m(6), 3), (m(8), 2), (m(0), 1), (m(4), 1)]);
    let best_first_for_1 = sort_by_score(scored, false);
    assert_eq!(best_first_for_1, vec![(m(0), 1), (m(4), 1), (m(8), 2), (m(2), 3), (m(6), 3)]);
}

#[test]
fn placements_and_steps_listed() {
    let board = StandardBoard::new(ZobristHash::new_unseeded());
    let mut all = Vec::new();
    board.next_moves_for_player(&State::initial(), &mut all);
    assert_eq!(all.len(), 600);
    let mut distinct = Vec::new();
    board.next_moves(&State::initial(), &mut distinct);
    assert!(distinct.len() < all.len());
    assert!(distinct.iter().all(|m| all.contains(m)));
    let state = positions(&board)[3];
    let mut steps = Vec::new();
    board.next_moves_for_player(&state, &mut steps);
    let mut listed = Vec::new();
    board.next_moves(&state, &mut listed);
    assert_eq!(steps.len(), listed.len());
    assert!(steps.iter().all(|m| listed.contains(m)));
}

#[test]
fn minimax_alphabeta_windows_bound_minimax() {
    let board = StandardBoard::new(ZobristHash::new_unseeded());
    for state in positions(&board) {
        for depth in 1..3 {
            let (v, all) = MiniMaxSearch::eval::<NeighbourHeuristic>(&board, &state, depth);
            let (full, pruned) = MiniMaxAlphaBeta::eval::<NeighbourHeuristic>(&board, &state, depth, -32767, 32767);
            assert_eq!(full, v);
            assert!(pruned <= all);
            for &(alpha, beta) in [(-32767, v), (v, 32767), (v - 5, v + 5), (v + 1, v + 40), (v - 40, v - 1)].iter() {
                if !(-32767 <= alpha && alpha < beta && beta <= 32767) {
                    continue;
                }
                let (r, n) = MiniMaxAlphaBeta::eval::<NeighbourHeuristic>(&board, &state, depth, alpha, beta);
                assert!(n <= all);
                if alpha < r && r < beta {
                    assert_eq!(r, v);
                }
                if r <= alpha {
                    assert!(v <= alpha);
                }
                if r >= beta {
                    assert!(v >= beta);
                }
            }
        }
    }
}

#[test]
fn negamax_alphabeta_windows_bound_negamax() {
    let board = StandardBoard::new(ZobristHash::new_unseeded());
    for state in positions(&board) {
        for depth in 1..3 {
            let c = color_of(&state);
            let (v, all) = NegaMaxSearch::eval::<SimpleHeightHeuristic>(&board, &state, depth, c);
            let (full, pruned) = NegaMaxAlphaBeta::eval::<SimpleHeightHeuristic>(&board, &state, depth, -32767, 32767, c);
            assert_eq!(full, v);
            assert!(pruned <= all);
            for &(alpha, beta) in [(-32767, v), (v, 32767), (v - 5, v + 5), (v + 1, v + 40), (v - 40, v - 1)].iter() {
                if !(-32767 <= alpha && alpha < beta && beta <= 32767) {
                    continue;
                }
                let (r, n) = NegaMaxAlphaBeta::eval::<SimpleHeightHeuristic>(&board, &state, depth, alpha, beta, c);
                assert!(n <= all);
                if alpha < v && v < beta {
                    assert_eq!(r, v);
                }
                if v <= alpha {
                    assert!(v <= r && r <= alpha);
                }
                if v >= beta {
                    assert!(beta <= r && r <= v);
                }
            }
        }
    }
}

#[test]
fn search_counts_against_perft() {
    let board = StandardBoard::new(ZobristHash::new_unseeded());
    let mut move_stack = MoveStack::new();
    for state in positions(&board) {
        for depth in 1..3u8 {
            let sequences = board.perft(&state, depth as usize, &mut move_stack);
            let (_, counted) = MiniMaxSearch::eval::<SimpleHeightHeuristic>(&board, &state, depth);
            assert!(counted as u64 <= sequences);
            let (_, every) = NegaMax::eval::<SimpleHeightHeuristic>(&board, &state, depth, color_of(&state));
            assert_eq!(every as u64, sequences);
        }
    }
}

#[test]
fn evaluation_heads_with_minimax_value() {
    let board = StandardBoard::new(ZobristHash::new_unseeded());
    for state in positions(&board) {
        for depth in 1..3 {
            let (moves, _) = <NegaMaxAlphaBetaExp as Evaluation<SimpleHeightHeuristic>>::evaluate(&board, &state, depth);
            let mut listed = Vec::new();
            board.next_moves(&state, &mut listed);
            assert_eq!(moves.len(), listed.len());
            assert!(listed.iter().all(|m| moves.iter().filter(|(x, _)| x == m).count() == 1));
            let best = MiniMax::eval::<SimpleHeightHeuristic>(&board, &state, depth);
            assert_eq!(moves[0].1, best);
            let keyed: Vec<i16> = moves.iter().map(|&(_, v)| if state.to_move == Player(0) { -v } else { v }).collect();
            assert!(keyed.windows(2).all(|w| w[0] <= w[1]));
        }
    }
}

#[test]
fn generator_lists_each_move_once() {
    let board = StandardBoard::new(ZobristHash::new_unseeded());
    let mut states = positions(&board);
    states.push(State::initial());
    for state in states {
        let mut listed = Vec::new();
        board.next_moves(&state, &mut listed);
        for (i, m) in listed.iter().enumerate() {
            assert!(!listed[i + 1..].contains(m));
        }
        let mut all = Vec::new();
        board.next_moves_for_player(&state, &mut all);
        for (i, m) in all.iter().enumerate() {
            assert!(!all[i + 1..].contains(m));
        }
        if state.builders[state.to_move.0 as usize].0 != 0 {
            assert_eq!(all.len(), listed.len());
            assert!(all.iter().all(|m| listed.contains(m)));
        }
    }
}

#[test]
fn lowest_bound_windows() {
    let board = StandardBoard::new(ZobristHash::new_unseeded());
    for state in positions(&board) {
        for depth in 1..3 {
            let (v, _) = MiniMaxSearch::eval::<NeighbourHeuristic>(&board, &state, depth);
            let (r, _) = MiniMaxAlphaBeta::eval::<NeighbourHeuristic>(&board, &state, depth, -32768, 32767);
            assert_eq!(r, v);
        }
        let leaf = NegaMaxAlphaBetaExp::eval::<NeighbourHeuristic>(&board, &state, 0, -32768, -32768, color_of(&state));
        let (plain, _) = NegaMax::eval::<NeighbourHeuristic>(&board, &state, 0, color_of(&state));
        assert_eq!(leaf, (plain, 1));
    }
}

#[test]
fn fresh_search_one_ply_is_minimax() {
    let board = StandardBoard::new(ZobristHash::new_unseeded());
    for state in positions(&board) {
        let mut ev = <TableSearch as Evaluator>::new_state();
        let (best, _) = TableSearch::evaluate_moves_impl::<SimpleHeightHeuristic>(&mut ev, &board, &state, 1);
        let (m, v) = best.unwrap();
        assert_eq!(v, MiniMax::eval::<SimpleHeightHeuristic>(&board, &state, 1));
        let (scored, _) = <MiniMax as Evaluation<SimpleHeightHeuristic>>::evaluate(&board, &state, 1);
        let first = scored.iter().find(|&&(_, s)| s == v).unwrap();
        assert!(scored.iter().any(|&(x, s)| x == m && s == v));
        let mut listed = Vec::new();
        board.next_moves(&state, &mut listed);
        let first_best = listed.iter().position(|x| scored.iter().any(|&(y, s)| y == *x && s == v)).unwrap();
        assert_eq!(listed[first_best], m);
        assert_eq!(first.1, v);
    }
}
