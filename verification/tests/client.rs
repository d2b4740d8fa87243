use tavern::client::local::{human_input_step, player_type_for, reported_move, subtract, PlayerType};
use tavern::client::santorini::{ClientEffect, SantoriniClient, SoundCue};
use tavern::game::santorini::board::StandardBoard;
use tavern::game::santorini::move_builder::{completed_move, moves_continuing, BoardState, MatchStatus};
use tavern::game::santorini::state::State;
use tavern::game::santorini::transposition::ZobristHash;
use tavern::game::santorini::Move;
use tavern::game::util::{Player, Slot};
use tavern::service::ai::StateAnalysis;
use tavern::service::event::ClientLocalEvent;
use tavern::service::game::{InteractionState, PlayerActual, PlayerProfile, Progress};

fn person_first_client() -> SantoriniClient {
    let mut profile = SantoriniClient::new_profile();
    profile.progress = Progress { level: 4, wins: 1 };
    SantoriniClient::new(profile)
}

#[test]
fn new_client_waits_on_computer() {
    let client = SantoriniClient::new(SantoriniClient::new_profile());
    assert_eq!(client.profile.progress, Progress { level: 2, wins: 0 });
    assert!(client.game.waiting_on_ai());
    assert_eq!(client.effects.len(), 1);
    assert!(matches!(client.effects[0], ClientEffect::RequestAnalysis { state, ai_profile } if state == State::initial() && ai_profile.depth == 2));
}

#[test]
fn person_clicks_a_placement() {
    let mut client = person_first_client();
    assert!(!client.game.waiting_on_ai());
    assert!(client.effects.is_empty());
    client.process(ClientLocalEvent::UpdateTentativeSlot(Some(Slot(0))));
    let events = client.respond_to_human_input(true, false);
    assert_eq!(events.len(), 1);
    assert!(matches!(events[0], ClientLocalEvent::PushCurrentSlot(Slot(0))));
    client.process(events[0].clone());
    assert!(matches!(client.effects.last(), Some(ClientEffect::Sound(SoundCue::PlaceTile))));
    assert_eq!(client.game.tentative.as_ref().unwrap().proposed_state.builders[0].0, 1);
    client.process(ClientLocalEvent::UpdateTentativeSlot(Some(Slot(1))));
    let events = client.respond_to_human_input(true, false);
    client.process(events[0].clone());
    assert_eq!(client.game.board.state().to_move, Player(1));
    assert!(matches!(client.game.interactivity, InteractionState::AnimatingMove { elapsed: 0, winner: None, .. }));
    assert!(matches!(client.effects.last(), Some(ClientEffect::RequestAnalysis { .. })));
    assert!(client.time_passes_for_interaction_state(400).is_empty());
    let events = client.time_passes_for_interaction_state(600);
    assert_eq!(events.len(), 1);
    match &events[0] {
        ClientLocalEvent::NewInteractionState(InteractionState::AwaitingInput { player }) => {
            assert!(matches!(player, PlayerActual::AI(_)));
        }
        _ => panic!("expected the computer player to be awaited"),
    }
    client.process(events[0].clone());
    let analysis = StateAnalysis {
        state: *client.game.board.state(),
        depth: 2,
        best_move: Some((Move::PlaceBuilders { a: Slot(23), b: Slot(24) }, 0)),
        terminal: true,
        rollback: false,
    };
    client.process(ClientLocalEvent::NewAnalysis(analysis));
    let events = client.respond_to_human_input(false, false);
    assert_eq!(events.len(), 1);
    client.process(events[0].clone());
    assert_eq!(client.game.board.state().to_move, Player(0));
}

#[test]
fn right_click_takes_back() {
    let mut client = person_first_client();
    client.process(ClientLocalEvent::UpdateTentativeSlot(Some(Slot(7))));
    client.process(ClientLocalEvent::PushCurrentSlot(Slot(7)));
    let events = client.respond_to_human_input(false, true);
    assert_eq!(events.len(), 1);
    client.process(events[0].clone());
    assert!(matches!(client.effects.last(), Some(ClientEffect::Sound(SoundCue::Select))));
    assert!(client.respond_to_human_input(false, true).is_empty());
}

#[test]
fn victory_ends_game() {
    let mut client = person_first_client();
    client.process(ClientLocalEvent::NewInteractionState(InteractionState::WaitingVictory {
        player: PlayerActual::Human(client.profile.player.clone()),
        elapsed: 0,
    }));
    assert!(client.time_passes_for_interaction_state(4_999).is_empty());
    let events = client.time_passes_for_interaction_state(1);
    assert!(matches!(events[0], ClientLocalEvent::PlayerWin));
    client.process(events[0].clone());
    assert_eq!(client.profile.progress, Progress { level: 5, wins: 0 });
    assert!(client.effects.iter().any(|e| matches!(e, ClientEffect::SaveProfile)));
    assert!(client.effects.iter().any(|e| matches!(e, ClientEffect::ResetAi)));
    assert_eq!(*client.game.board.state(), State::initial());
    client.process(ClientLocalEvent::PlayerLoss);
    assert_eq!(client.profile.progress, Progress { level: 4, wins: 1 });
}

#[test]
fn play_move_reports_win() {
    let board = StandardBoard::new(ZobristHash::new_unseeded());
    let mut state = State::initial();
    state = board.apply(Move::PlaceBuilders { a: Slot(0), b: Slot(1) }, &state);
    state = board.apply(Move::PlaceBuilders { a: Slot(23), b: Slot(24) }, &state);
    state.set_building_height(Slot(1), 2);
    state.set_building_height(Slot(2), 3);
    let mut bs = BoardState::new(board, state);
    let status = bs.make_move(Move::Move { from: Slot(1), to: Slot(2), build: Slot(3) });
    assert_eq!(status, MatchStatus::Won(Player(0)));
    assert!(bs.next_moves.is_empty());
    assert_eq!(bs.moves.len(), 1);
}

#[test]
fn local_game_decisions() {
    let board = StandardBoard::new(ZobristHash::new_unseeded());
    let bs = BoardState::new(board, State::initial());
    assert_eq!(player_type_for(&bs.state, &vec![Player(1)]), PlayerType::Human);
    assert_eq!(player_type_for(&bs.state, &vec![Player(0)]), PlayerType::AI);
    let mut positions = Vec::new();
    let (pushed, popped, done) = human_input_step(&bs, &mut positions, Some(Slot(2)), true, false);
    assert!(pushed && !popped && done.is_none());
    assert_eq!(positions, vec![Slot(2)]);
    let (pushed, _, _) = human_input_step(&bs, &mut positions, Some(Slot(2)), true, false);
    assert!(!pushed);
    let (pushed, popped, done) = human_input_step(&bs, &mut positions, Some(Slot(3)), true, false);
    assert!(pushed && !popped);
    assert_eq!(done, Some(Move::PlaceBuilders { a: Slot(2), b: Slot(3) }));
    let (_, popped, _) = human_input_step(&bs, &mut positions, None, false, true);
    assert!(popped);
    assert_eq!(positions, vec![Slot(2)]);
    let report = Some(StateAnalysis {
        state: bs.state,
        depth: 3,
        best_move: Some((Move::PlaceBuilders { a: Slot(2), b: Slot(3) }, 1)),
        terminal: true,
        rollback: false,
    });
    assert_eq!(reported_move(&report, &bs.next_moves), Some(Move::PlaceBuilders { a: Slot(2), b: Slot(3) }));
    let unfinished = report.map(|mut a| { a.terminal = false; a });
    assert_eq!(reported_move(&unfinished, &bs.next_moves), None);
    let tentative = bs.tentative(&vec![Slot(2)], Some(Slot(3)));
    assert_eq!(tentative.move_count, 1);
    assert_eq!(tentative.proposed_state.builders[0].0, (1 << 2) | (1 << 3));
}

#[test]
fn subtract_lifts_stepping_builder() {
    let board = StandardBoard::new(ZobristHash::new_unseeded());
    let mut state = State::initial();
    state = board.apply(Move::PlaceBuilders { a: Slot(0), b: Slot(1) }, &state);
    let m = Move::Move { from: Slot(0), to: Slot(5), build: Slot(6) };
    let lifted = subtract(&state, m);
    assert_eq!(lifted.builders[0].0, 1 << 1);
    let same = subtract(&state, Move::PlaceBuilders { a: Slot(3), b: Slot(4) });
    assert_eq!(same, state);
}

#[test]
fn profile_of_new_person() {
    let p: PlayerProfile = SantoriniClient::new_profile();
    assert_eq!(p.player.id, 12);
    assert_eq!(p.player.name, "Steve");
}

#[test]
fn every_move_can_be_entered() {
    let board = StandardBoard::new(ZobristHash::new_unseeded());
    let mut state = State::initial();
    state = board.apply(Move::PlaceBuilders { a: Slot(6), b: Slot(12) }, &state);
    state = board.apply(Move::PlaceBuilders { a: Slot(0), b: Slot(24) }, &state);
    let bs = BoardState::new(board, state);
    assert!(!bs.next_moves.is_empty());
    for m in bs.next_moves.iter() {
        let slots = m.to_slots();
        for k in 0..slots.len() {
            let prefix: Vec<Slot> = slots[..k].to_vec();
            assert!(moves_continuing(&bs.next_moves, &prefix, Some(slots[k])) > 0);
        }
        assert_eq!(completed_move(&bs.next_moves, &slots), Some(*m));
    }
}

#[test]
fn pointer_off_the_board_is_harmless() {
    let mut client = person_first_client();
    client.process(ClientLocalEvent::UpdateTentativeSlot(Some(Slot(40))));
    let t = client.game.tentative.as_ref().unwrap();
    assert_eq!(t.move_count, 0);
    assert_eq!(t.proposed_state, State::initial());
    assert!(client.respond_to_human_input(true, false).is_empty());
}

#[test]
fn win_at_the_top_level_counts_without_passing() {
    let mut progress = Progress { level: usize::MAX, wins: 0 };
    progress.win();
    assert_eq!(progress, Progress { level: usize::MAX, wins: 1 });
}
