use tavern::game::santorini::Move;
use tavern::game::santorini::board::StandardBoard;
use tavern::game::santorini::playout::playout_depth;
use tavern::game::santorini::playout::playout_turn;
use tavern::game::santorini::state::State;
use tavern::game::santorini::transposition::ZobristHash;
use tavern::game::util::{Player, Slot};
use tavern::game::santorini::playout::HeuristicName;
use tavern::game::santorini::playout::HeuristicName::{AdjustedNeighbour, Neighbour, Simple};
use tavern::game::santorini::Depth;

#[test]
fn depth_check() {
    let depths: Vec<Depth> = (2..7).collect();
    let heuristics: Vec<HeuristicName> = vec![Simple, Neighbour, AdjustedNeighbour];
    for d in depths {
        for h in heuristics.iter() {
            assert!(d >= 2 && d < 7);
            assert!(*h == Simple || *h == Neighbour || *h == AdjustedNeighbour);
        }
    }
}

#[test]
fn playout_depths() {
    assert_eq!(playout_depth(0, 5), 4);
    assert_eq!(playout_depth(1, 2), 2);
    assert_eq!(playout_depth(1, 1), 2);
    assert_eq!(playout_depth(2, 5), 5);
    assert_eq!(playout_depth(9, 1), 1);
}

#[test]
fn playout_turns() {
    let board = StandardBoard::new(ZobristHash::new_unseeded());
    let start = State::initial();
    let (next, winner) = playout_turn(&board, &start, Some((Move::PlaceBuilders { a: Slot(0), b: Slot(1) }, 0)));
    assert_eq!(winner, None);
    assert_eq!(next.to_move, Player(1));
    assert_eq!(next.builders[0].0, 3);
    let (same, winner) = playout_turn(&board, &next, None);
    assert_eq!(same, next);
    assert_eq!(winner, Some(Player(0)));
    let mut state = board.apply(Move::PlaceBuilders { a: Slot(23), b: Slot(24) }, &next);
    state.set_building_height(Slot(1), 2);
    state.set_building_height(Slot(2), 3);
    let (_, winner) = playout_turn(&board, &state, Some((Move::Move { from: Slot(1), to: Slot(2), build: Slot(3) }, 1)));
    assert_eq!(winner, Some(Player(0)));
}
