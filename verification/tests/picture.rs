use tavern::game::santorini::board::StandardBoard;
use tavern::game::santorini::state::State;
use tavern::game::santorini::transposition::ZobristHash;
use tavern::game::santorini::Move;
use tavern::game::util::Slot;

#[test]
fn picture_of_initial_board() {
    let board = StandardBoard::new(ZobristHash::new_unseeded());
    let text = board.print(&State::initial());
    let row = "+---+---+---+---+---+\n|   |   |   |   |   |\n|   |   |   |   |   |\n|   |   |   |   |   |\n";
    let expected = format!(" === To move Player(0) === \n{}{}{}{}{}+---+---+---+---+---+\n", row, row, row, row, row);
    assert_eq!(text, expected);
}

#[test]
fn picture_shows_builders_and_buildings() {
    let board = StandardBoard::new(ZobristHash::new_unseeded());
    let mut state = board.apply(Move::PlaceBuilders { a: Slot(0), b: Slot(6) }, &State::initial());
    state.set_building_height(Slot(1), 2);
    state.build_at(Slot(2));
    state.set_building_height(Slot(3), 3);
    state.build_at(Slot(3));
    let text = board.print(&state);
    let lines: Vec<&str> = text.lines().collect();
    assert_eq!(lines[0], " === To move Player(1) === ");
    assert_eq!(lines[1], "+---+---+---+---+---+");
    assert_eq!(lines[2], "|   | 2 | 1 | D |   |");
    assert_eq!(lines[3], "|P0 |   |   |   |   |");
    assert_eq!(lines[7], "|   |P0 |   |   |   |");
}
