use std::mem;
use tavern::game::santorini::board::StandardBoard;
use tavern::game::santorini::state::State;
use tavern::game::santorini::transposition::{EntryType, StateHash, TranspositionEntry, TranspositionTable, ZobristHash};
use tavern::game::santorini::Move;
use tavern::game::util::Slot;
use tavern::game::santorini::evaluator::Evaluator;

#[test]
fn table() {
    let mut table = TranspositionTable::new(5);
    println!("ok we have a table, entry count -> {:?}, mask -> {:b}", table.entries.len(), table.bucket_mask);
    for i in 1..40 {
        let hash = StateHash(i);
        let (idx, found) = table.probe(hash);
        println!("state {:?} -> idx {:?} found {:?}", i, idx, found);
        table.store(idx, hash, 12, 4, EntryType::Exact, None);
        let (again, now_found) = table.probe(hash);
        assert!(now_found);
        assert_eq!(again, idx);
    }
}

#[test]
fn my_zobist() {
    let hsh = ZobristHash::new_unseeded();
    println!("hash -> {:?}", hsh);
    let board = StandardBoard::new(hsh);
    let state = State::initial();
    let a_state = board.apply(Move::PlaceBuilders { a: Slot(0), b: Slot(6) }, &state);
    let a_hash = board.hash(&a_state);
    let b_state = board.apply(Move::PlaceBuilders { a: Slot(0), b: Slot(7) }, &state);
    let b_hash = board.hash(&b_state);
    println!("a {:?} b {:?}", a_hash, b_hash);
    assert_ne!(a_hash, b_hash);
}

#[test]
fn sizes() {
    println!("State size -> {}", mem::size_of::<State>());
    println!("Move size -> {}", mem::size_of::<Move>());
    println!("Option<Move> size -> {}", mem::size_of::<Option<Move>>());
    println!("EntryType size -> {}", mem::size_of::<EntryType>());
    println!("TranspositionEntry size -> {}", mem::size_of::<TranspositionEntry>());
    println!("size of table -> {}", mem::size_of::<TranspositionTable>());
    println!("size of unit -> {}", mem::size_of::<()>())
}

fn play_moves(board: &StandardBoard, state: &State, moves: &Vec<Move>) -> State {
    let mut new_state = *state;
    for &mve in moves {
        new_state = board.apply(mve, &new_state);
    }
    new_state
}

fn play_moves_delta(board: &StandardBoard, state: &State, moves: &Vec<Move>, hash: StateHash) -> (State, StateHash) {
    println!("playing out -> {:?}", moves);
    let mut new_state = *state;
    let mut new_hash = hash;
    for &mve in moves {
        new_hash = new_hash ^ board.delta_hash(&new_state, mve);
        new_state = board.apply(mve, &new_state);
        println!("post {:?} hash is {:?}", mve, new_hash);
    }
    (new_state, new_hash)
}

#[test]
fn hasher() {
    let moves_a: Vec<Move> = vec![
        Move::PlaceBuilders { a: Slot(0), b: Slot(1) },
        Move::PlaceBuilders { a: Slot(23), b: Slot(24) },
        Move::Move { from: Slot(0), to: Slot(5), build: Slot(10) },
        Move::Move { from: Slot(24), to: Slot(19), build: Slot(14) },
        Move::Move { from: Slot(1), to: Slot(6), build: Slot(11) },
        Move::Move { from: Slot(23), to: Slot(18), build: Slot(13) },
    ];
    let moves_b: Vec<Move> = vec![
        Move::PlaceBuilders { a: Slot(0), b: Slot(1) },
        Move::PlaceBuilders { a: Slot(23), b: Slot(24) },
        Move::Move { from: Slot(1), to: Slot(6), build: Slot(11) },
        Move::Move { from: Slot(23), to: Slot(18), build: Slot(13) },
        Move::Move { from: Slot(0), to: Slot(5), build: Slot(10) },
        Move::Move { from: Slot(24), to: Slot(19), build: Slot(14) },
    ];
    let board = StandardBoard::new(ZobristHash::new_unseeded());
    let state = State::initial();
    let init_hash = board.hash(&state);

    let playout_a = play_moves(&board, &state, &moves_a);
    let a_hash = board.hash(&playout_a);
    let playout_b = play_moves(&board, &state, &moves_b);
    let b_hash = board.hash(&playout_b);

    assert_eq!(playout_b, playout_b);
    assert_eq!(a_hash, b_hash);
    println!("they ok!");

    let (playout_c, c_hash) = play_moves_delta(&board, &state, &moves_a, init_hash);
    let (playout_d, d_hash) = play_moves_delta(&board, &state, &moves_b, init_hash);

    assert_eq!(playout_a, playout_c);
    assert_eq!(playout_c, playout_d);

    assert_eq!(a_hash, c_hash);
    assert_eq!(c_hash, d_hash);
}

#[test]
fn table_size_counts_room_for_entries() {
    let table = TranspositionTable::new(5);
    assert_eq!(table.entries.len(), 32);
    assert!(table.size_bytes() >= 32 * mem::size_of::<TranspositionEntry>());
    assert_eq!(TranspositionTable::approx_size_bytes(10), 10 * mem::size_of::<TranspositionEntry>());
}

fn drawn<R: rand::Rng>(rng: &mut R, n: usize) -> Vec<u64> {
    (0..n).map(|_| rng.next_u64()).collect()
}

fn assert_made_of(z: &ZobristHash, keys: &[u64]) {
    assert_eq!(keys.len(), 177);
    for p in 0..2 {
        assert_eq!(z.to_move[p].0, keys[p]);
        for i in 0..25 {
            assert_eq!(z.builders[p][i].0, keys[2 + 25 * p + i]);
        }
    }
    for i in 0..25 {
        for h in 0..5 {
            assert_eq!(z.buildings[i][h].0, keys[52 + 5 * i + h]);
        }
    }
}

#[test]
fn unseeded_keys_are_the_generators_first_numbers() {
    let xorshift = drawn(&mut rand::XorShiftRng::new_unseeded(), 177);
    assert_made_of(&ZobristHash::new_unseeded(), &xorshift);
    let chacha = drawn(&mut rand::ChaChaRng::new_unseeded(), 177);
    assert_made_of(&ZobristHash::new_unseeded_secure(), &chacha);
    assert!(xorshift.iter().all(|&k| k != 0));
    assert_ne!(xorshift, chacha);
    assert_eq!(ZobristHash::new_unseeded().builders[1][24].0, ZobristHash::new_unseeded().builders[1][24].0);
}

#[test]
fn fresh_search_table_is_empty() {
    let st = tavern::game::santorini::evaluator::negamax_alphabeta_exp::NegaMaxAlphaBetaExp::new_state();
    assert_eq!(st.transposition.entries.len(), 1 << 22);
    assert_eq!(st.transposition.bucket_mask + 1, 1 << 20);
    assert_eq!(st.transposition.generation, 0);
    let (_, found) = st.transposition.probe(StateHash(12345));
    assert!(!found);
}
