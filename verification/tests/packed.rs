use tavern::game::packed::Packed1;
use tavern::game::util::{Packed, Packed2, Slot};

#[test]
fn grids_show_values_row_by_row() {
    let p = Packed1((1 << 0) | (1 << 6) | (1 << 24));
    assert_eq!(p.grid(), "Packed1(\n  10000\n  01000\n  00000\n  00000\n  00001\n)\n");
    let mut q = Packed2(0);
    q.set(Slot(4), 3);
    q.set(Slot(5), 2);
    assert_eq!(q.grid(), "Packed2(\n  00003\n  20000\n  00000\n  00000\n  00000\n)\n");
}

#[test]
fn assigning_operators() {
    let mut a = Packed1(0b1100);
    a &= Packed1(0b1010);
    assert_eq!(a, Packed1(0b1000));
    a |= Packed1(0b0001);
    assert_eq!(a, Packed1(0b1001));
    a ^= Packed1(0b1111);
    assert_eq!(a, Packed1(0b0110));
}
