use tavern::game::santorini::board::StandardBoard;
use tavern::game::santorini::heuristic::{PLAYER_0_WIN, PLAYER_1_WIN};
use tavern::game::santorini::playout::{AIProfile, HeuristicName};
use tavern::game::santorini::state::State;
use tavern::game::santorini::transposition::ZobristHash;
use tavern::game::santorini::Move;
use tavern::game::util::{Player, Slot};
use tavern::service::ai::{analysis_step, winning_player};
use tavern::service::board_state::BoardState;
use tavern::service::game::{
    wins_to_pass_for_level, BoardWithMoves, HumanPlayer, MatchStatus, PlayerActual, PlayerState, Players, Progress, UIState,
};
use tavern::service::play::{AnyRunner, BigScorer, Runner, RunnerDescription, Scorer, ServiceState, SmallScorer};
use tavern::service::tentative::TentativeState;

fn steve() -> HumanPlayer {
    HumanPlayer { id: 12, name: "Steve".to_string() }
}

#[test]
fn wins_needed_per_level() {
    assert_eq!(wins_to_pass_for_level(0), 1);
    assert_eq!(wins_to_pass_for_level(3), 1);
    assert_eq!(wins_to_pass_for_level(4), 2);
    assert_eq!(wins_to_pass_for_level(6), 2);
    assert_eq!(wins_to_pass_for_level(7), 4);
    assert_eq!(wins_to_pass_for_level(40), 4);
}

#[test]
fn progress_moves_up_and_down() {
    let mut p = Progress { level: 2, wins: 0 };
    p.win();
    assert_eq!(p, Progress { level: 3, wins: 0 });
    p.win();
    assert_eq!(p, Progress { level: 4, wins: 0 });
    p.win();
    assert_eq!(p, Progress { level: 4, wins: 1 });
    p.loss();
    assert_eq!(p, Progress { level: 4, wins: 0 });
    p.loss();
    assert_eq!(p, Progress { level: 3, wins: 0 });
    p.loss();
    assert_eq!(p, Progress { level: 2, wins: 0 });
    p.loss();
    assert_eq!(p, Progress { level: 2, wins: 0 });
}

#[test]
fn loss_undoes_win() {
    for level in 2..10 {
        for wins in 0..wins_to_pass_for_level(level) {
            let start = Progress { level, wins };
            let mut p = start;
            p.win();
            p.loss();
            assert_eq!(p, start);
        }
    }
}

#[test]
fn win_undoes_loss_above_level_two() {
    let start = Progress { level: 5, wins: 0 };
    let mut p = start;
    p.loss();
    assert_eq!(p, Progress { level: 4, wins: 1 });
    p.win();
    assert_eq!(p, start);
}

#[test]
fn progress_players_take_turns_first() {
    let even = Progress { level: 3, wins: 0 }.players(&steve());
    assert_eq!(even.0.len(), 2);
    assert!(matches!(even.0[0].0, PlayerActual::AI(a) if a.depth == 3 && a.heuristic == HeuristicName::AdjustedNeighbour && a.time_limit == Some(15_000)));
    assert!(even.0[1].0.is_human(&steve()));
    let odd = Progress { level: 3, wins: 1 }.players(&steve());
    assert!(odd.0[0].0.is_human(&steve()));
    assert!(matches!(odd.0[1].0, PlayerActual::AI(_)));
    for (_, st) in odd.0.iter() {
        assert_eq!(*st, PlayerState::Connected(UIState::empty()));
    }
}

#[test]
fn players_lookups() {
    let ai = AIProfile { depth: 4, heuristic: HeuristicName::Simple, time_limit: None };
    let mut players = Players(vec![
        (PlayerActual::AI(ai), PlayerState::Disconnected),
        (PlayerActual::Human(steve()), PlayerState::Connected(UIState::empty())),
    ]);
    assert_eq!(players.index_of(&PlayerActual::AI(ai)), Some(0));
    assert_eq!(players.index_of(&PlayerActual::Human(steve())), Some(1));
    assert_eq!(players.index_of_human(&steve()), Some(1));
    assert_eq!(players.index_of_human(&HumanPlayer { id: 13, name: "Steve".to_string() }), None);
    assert_eq!(players.first_ai(), Some(ai));
    assert_eq!(*players.for_player(Player(1)), PlayerActual::Human(steve()));
    assert!(players.human_ui_state(&steve()).is_some());
    if let Some(ui) = players.mut_human_ui_state(&steve()) {
        ui.current_slots.push(Slot(4));
        ui.tentative_slot = Some(Slot(9));
    }
    let ui = players.human_ui_state(&steve()).unwrap().clone();
    assert_eq!(ui.current_slots, vec![Slot(4)]);
    assert_eq!(ui.tentative_slot, Some(Slot(9)));
    assert!(players.mut_ui_state(&PlayerActual::AI(ai)).is_none());
    let mut ui2 = ui.clone();
    ui2.clear();
    assert_eq!(ui2, UIState::empty());
}

#[test]
fn board_with_moves_plays_and_ends() {
    let board = StandardBoard::new(ZobristHash::new_unseeded());
    let mut game = BoardWithMoves::for_board(BoardState::new(State::initial()), &board);
    assert!(!game.legal_moves().is_empty());
    assert_eq!(game.match_status(&board), MatchStatus::ToMove(Player(0)));
    let first = Move::PlaceBuilders { a: Slot(0), b: Slot(1) };
    assert!(game.legal_moves().contains(&first));
    game.make_move(&board, first);
    assert_eq!(game.state().to_move, Player(1));
    assert_eq!(game.match_status(&board), MatchStatus::ToMove(Player(1)));
    game.make_move(&board, Move::PlaceBuilders { a: Slot(23), b: Slot(24) });
    // every move of player 0 steps one of its builders
    assert!(game.legal_moves().iter().all(|m| matches!(m, Move::Move { from, .. } if from.0 == 0 || from.0 == 1)));

    let mut state = State::initial();
    state = board.apply(Move::PlaceBuilders { a: Slot(0), b: Slot(1) }, &state);
    state = board.apply(Move::PlaceBuilders { a: Slot(23), b: Slot(24) }, &state);
    state.set_building_height(Slot(1), 2);
    state.set_building_height(Slot(2), 3);
    let mut climb = BoardWithMoves::for_board(BoardState::new(state), &board);
    let up = Move::Move { from: Slot(1), to: Slot(2), build: Slot(3) };
    assert!(climb.legal_moves().contains(&up));
    climb.make_move(&board, up);
    assert_eq!(climb.match_status(&board), MatchStatus::Won(Player(0)));
}

#[test]
fn tentative_from_board() {
    let board = StandardBoard::new(ZobristHash::new_unseeded());
    let game = BoardWithMoves::for_board(BoardState::new(State::initial()), &board);
    let ui = UIState { current_slots: vec![], tentative_slot: Some(Slot(0)) };
    let t = TentativeState::from(&game, &ui);
    let starting_at_0 = game.legal_moves().iter().filter(|m| m.to_slots()[0] == Slot(0)).count();
    assert_eq!(t.move_count, starting_at_0);
    assert!(t.move_count > 0);
    assert_eq!(t.proposed_state.builders[0].0, 1);
    let mut seen = t.matching_slots.clone();
    seen.sort();
    seen.dedup();
    assert_eq!(seen.len(), t.matching_slots.len());
    for m in game.legal_moves() {
        assert!(t.matching_slots.contains(&m.to_slots()[0]));
    }
    let nowhere = UIState { current_slots: vec![], tentative_slot: Some(Slot(31)) };
    let t2 = TentativeState::from(&game, &nowhere);
    assert_eq!(t2.move_count, 0);
    assert_eq!(t2.proposed_state, State::initial());
}

#[test]
fn winning_player_of_scores() {
    assert_eq!(winning_player(PLAYER_0_WIN), Some(Player(0)));
    assert_eq!(winning_player(PLAYER_1_WIN), Some(Player(1)));
    assert_eq!(winning_player(5), None);
}

#[test]
fn deepening_stops() {
    let state = State::initial();
    let m = Move::PlaceBuilders { a: Slot(0), b: Slot(1) };
    let (a, stop) = analysis_step(&state, 1, 4, Some((m, 3)), false);
    assert!(!stop && !a.terminal && !a.rollback);
    let (a, stop) = analysis_step(&state, 2, 4, Some((m, 3)), true);
    assert!(stop && a.terminal && !a.rollback);
    let (a, stop) = analysis_step(&state, 4, 4, Some((m, 3)), false);
    assert!(stop && a.terminal);
    let (a, stop) = analysis_step(&state, 1, 4, Some((m, PLAYER_1_WIN)), false);
    assert!(stop && a.terminal && a.rollback);
    let (a, stop) = analysis_step(&state, 1, 4, Some((m, PLAYER_0_WIN)), false);
    assert!(stop && a.terminal && !a.rollback);
    assert_eq!(a.depth, 1);
    assert_eq!(a.best_move, Some((m, PLAYER_0_WIN)));
}

#[test]
fn service_switches_runners() {
    let mut service = ServiceState::new(RunnerDescription::RunnerA);
    assert_eq!(service.runner.run("_mymsg1_".to_string()), "AAA _mymsg1_");
    service.reconfigure(RunnerDescription::RunnerB);
    assert_eq!(service.runner.run("_mymsg2_".to_string()), "BBBB _mymsg2_");
    service.reconfigure(RunnerDescription::RunnerB);
    assert_eq!(service.description, RunnerDescription::RunnerB);
    assert!(matches!(service.runner, AnyRunner::B(ref b) if b.count == 24));
    assert_eq!(BigScorer::score(), 24);
    assert_eq!(SmallScorer::score(), 12);
}
