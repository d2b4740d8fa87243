use tavern::game::santorini::board::StandardBoard;
use tavern::game::santorini::state::State;
use tavern::game::santorini::transposition::ZobristHash;
use tavern::game::santorini::{reflect_diag_a, reflect_x, rotate_180, rotate_270, rotate_90, Move};
use tavern::game::packed::Packed1;
use tavern::game::util::{pos, Slot};

#[test]
fn rotations_compose() {
    for x in 0..5 {
        for y in 0..5 {
            let p = pos(x, y);
            assert_eq!(rotate_90(rotate_90(p)), rotate_180(p));
            assert_eq!(rotate_90(rotate_180(p)), rotate_270(p));
            assert_eq!(rotate_90(rotate_270(p)), p);
            assert_eq!(reflect_x(reflect_x(p)), p);
            assert_eq!(reflect_diag_a(reflect_diag_a(p)), p);
        }
    }
    assert_eq!(rotate_90(pos(0, 0)), pos(4, 0));
}

#[test]
fn permutations_keep_builders_and_buildings() {
    let board = StandardBoard::new(ZobristHash::new_unseeded());
    let mut state = board.apply(Move::PlaceBuilders { a: Slot(0), b: Slot(7) }, &State::initial());
    state.set_building_height(Slot(12), 2);
    let mut images = Vec::new();
    board.permute(&state, &mut images);
    assert_eq!(images.len(), 7);
    for image in &images {
        assert_eq!(image.builders[0].count(), 2);
        assert_eq!(image.get_building_height(Slot(12)), 2);
        assert_eq!(image.to_move, state.to_move);
    }
    // the corner goes to each of the four corners
    let corners: Vec<bool> = [0i8, 4, 20, 24].iter().map(|&c| images.iter().any(|i| (i.builders[0].0 >> c) & 1 == 1)).collect();
    assert!(corners.iter().all(|&c| c));
}

#[test]
fn listed_placements_are_not_symmetric_images() {
    let board = StandardBoard::new(ZobristHash::new_unseeded());
    let mut listed = Vec::new();
    board.next_moves(&State::initial(), &mut listed);
    let masks: Vec<Packed1> = listed
        .iter()
        .map(|m| match m {
            Move::PlaceBuilders { a, b } => Packed1((1 << a.0) | (1 << b.0)),
            _ => panic!("only placements at the start"),
        })
        .collect();
    for i in 0..masks.len() {
        for j in (i + 1)..masks.len() {
            for t in board.transforms.iter() {
                assert_ne!(StandardBoard::transform_packed(t, masks[j]), masks[i]);
            }
        }
    }
    assert_eq!(masks.len(), 49);
}

#[test]
fn every_placement_has_a_listed_image() {
    let board = StandardBoard::new(ZobristHash::new_unseeded());
    let mut listed = Vec::new();
    board.next_moves(&State::initial(), &mut listed);
    let masks: Vec<Packed1> = listed
        .iter()
        .map(|m| match m {
            Move::PlaceBuilders { a, b } => Packed1((1 << a.0) | (1 << b.0)),
            _ => panic!("only placements at the start"),
        })
        .collect();
    for a in 0..25 {
        for b in (a + 1)..25 {
            let p = Packed1((1 << a) | (1 << b));
            let covered = masks.contains(&p) || board.transforms.iter().any(|t| masks.contains(&StandardBoard::transform_packed(t, p)));
            assert!(covered);
        }
    }
}

#[test]
fn symmetries_move_joins_and_keep_counts() {
    let board = StandardBoard::new(ZobristHash::new_unseeded());
    let masks = [0u32, 1, 0b1_0000_0000_0001_0010, 0x1ff_ffff, 0x15_5555, 1 << 24, 0b111 << 10];
    for t in board.transforms.iter() {
        for &a in masks.iter() {
            let moved = StandardBoard::transform_packed(t, Packed1(a));
            assert_eq!(moved.count(), Packed1(a).count());
            for &b in masks.iter() {
                let joined = StandardBoard::transform_packed(t, Packed1(a | b));
                let separate = StandardBoard::transform_packed(t, Packed1(b));
                assert_eq!(joined.0, moved.0 | separate.0);
            }
        }
    }
    let corner = StandardBoard::transform_packed(&board.transforms[0], Packed1(1));
    assert_eq!(corner.0, 1 << 4);
    assert_eq!(corner.count(), 1);
}
