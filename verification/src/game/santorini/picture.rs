//! A text picture of a position: per row, the buildings and the builders.
use vstd::prelude::*;
use pad::PadStr;
use crate::bits::bit;
use crate::game::util::{Slot, Position, Packed};
use crate::game::santorini::state::State;
use crate::game::santorini::board::{StandardBoard, spec_slot_of};

verus! {

/// Every character is printable ASCII, one column wide.
pub open spec fn printable_ascii(q: Seq<char>) -> bool {
    forall|i: int| 0 <= i < q.len() ==> 0x20 <= (#[trigger] q[i]) as int <= 0x7e
}

pub open spec fn spaces(n: nat) -> Seq<char> {
    Seq::new(n, |i: int| ' ')
}

/// `q` centred in `w` columns: half the missing columns before it (rounded down), the
/// rest after; `q` itself when it is at least `w` wide.
pub open spec fn centred(q: Seq<char>, w: int) -> Seq<char> {
    if q.len() >= w {
        q
    } else {
        let d = w - q.len();
        spaces((d / 2) as nat) + q + spaces((d - d / 2) as nat)
    }
}

/// `pad::PadStr::pad_to_width_with_alignment` with `pad::Alignment::Middle`: a string of
/// printable ASCII characters (each one column wide) centred in `width` columns, with
/// spaces. What it gives for other strings is not stated here.
#[verifier::external_body]
fn pad_middle(s: &str, width: usize) -> (r: String)
    ensures
        printable_ascii(s@) ==> r@ == centred(s@, width as int),
{
    s.pad_to_width_with_alignment(width, pad::Alignment::Middle)
}

/// The building on square `i`: `D` for a dome, else its height, blank at height 0.
pub open spec fn terrain_text(s: State, i: u32) -> Seq<char> {
    if bit(s.domes.0, i) {
        "D"@
    } else if s.height(i) == 1 {
        "1"@
    } else if s.height(i) == 2 {
        "2"@
    } else if s.height(i) == 3 {
        "3"@
    } else {
        " "@
    }
}

/// A square's cell in the picture is one character: `D` exactly when a dome stands
/// there; otherwise the digit of its building height, and blank at height 0.
pub proof fn lemma_terrain_text(s: State, i: u32)
    ensures
        terrain_text(s, i).len() == 1,
        terrain_text(s, i)[0] == 'D' <==> bit(s.domes.0, i),
        !bit(s.domes.0, i) && s.height(i) > 0 ==> terrain_text(s, i)[0] as u32 == '0' as u32 + s.height(i),
        !bit(s.domes.0, i) && s.height(i) == 0 ==> terrain_text(s, i)[0] == ' ',
{
    reveal_strlit("D");
    reveal_strlit("1");
    reveal_strlit("2");
    reveal_strlit("3");
    reveal_strlit(" ");
    assert(s.height(i) <= 3);
}

/// The builders on square `i`: `P0` for player 0's, `P1` for player 1's, blank if none.
pub open spec fn player_texts(s: State, i: u32) -> Seq<Seq<char>> {
    let p0: Seq<Seq<char>> = if bit(s.builders[0].0, i) { seq!["P0"@] } else { seq![] };
    let p1: Seq<Seq<char>> = if bit(s.builders[1].0, i) { seq!["P1"@] } else { seq![] };
    let none: Seq<Seq<char>> = if !bit(s.builders[0].0, i) && !bit(s.builders[1].0, i) { seq![" "@] } else { seq![] };
    p0 + p1 + none
}

/// The terrain cells of row `y`, for columns below `x`.
pub open spec fn terrain_cells(s: State, y: int, x: int) -> Seq<Seq<char>>
    decreases x,
{
    if x <= 0 { seq![] } else { terrain_cells(s, y, x - 1).push(terrain_text(s, (x - 1 + 5 * y) as u32)) }
}

/// The player cells of row `y`, for columns below `x`.
pub open spec fn player_cells(s: State, y: int, x: int) -> Seq<Seq<char>>
    decreases x,
{
    if x <= 0 { seq![] } else { player_cells(s, y, x - 1) + player_texts(s, (x - 1 + 5 * y) as u32) }
}

/// The cells, each centred in three columns, separated by `|`.
pub open spec fn joined(cells: Seq<Seq<char>>) -> Seq<char>
    decreases cells.len(),
{
    if cells.len() == 0 {
        seq![]
    } else {
        joined(cells.drop_last()) + (if cells.len() > 1 { "|"@ } else { seq![] }) + centred(cells.last(), 3)
    }
}

pub open spec fn divider() -> Seq<char> {
    "+---+---+---+---+---+\n"@
}

pub open spec fn empty_row() -> Seq<char> {
    "|   |   |   |   |   |\n"@
}

/// Row `y`: a divider, the terrain line, the builder line and a blank line.
pub open spec fn row_picture(s: State, y: int) -> Seq<char> {
    divider() + "|"@ + joined(terrain_cells(s, y, 5)) + "|\n"@ + "|"@ + joined(player_cells(s, y, 5)) + "|\n"@ + empty_row()
}

/// The rows below `y`.
pub open spec fn rows_picture(s: State, y: int) -> Seq<char>
    decreases y,
{
    if y <= 0 { seq![] } else { rows_picture(s, y - 1) + row_picture(s, y - 1) }
}

/// The whole picture: who is to move, the five rows and a closing divider.
pub open spec fn picture(s: State) -> Seq<char> {
    " === To move "@ + (if s.to_move.0 == 0 { "Player(0)"@ } else { "Player(1)"@ }) + " === \n"@ + rows_picture(s, 5) + divider()
}

fn terrain_cell(state: &State, slot: Slot) -> (r: &'static str)
    requires
        0 <= slot.0 < 25,
    ensures
        r@ == terrain_text(*state, slot.0 as u32),
        printable_ascii(r@),
{
    proof {
        reveal_strlit("D");
        reveal_strlit("1");
        reveal_strlit("2");
        reveal_strlit("3");
        reveal_strlit(" ");
    }
    if state.domes.get(slot) > 0 {
        "D"
    } else {
        let h = state.get_building_height(slot);
        if h == 1 {
            "1"
        } else if h == 2 {
            "2"
        } else if h == 3 {
            "3"
        } else {
            " "
        }
    }
}

/// Appends the cells, each centred in three columns, separated by `|`.
fn append_joined(out: &mut String, cells: &Vec<&str>)
    requires
        forall|i: int| 0 <= i < cells@.len() ==> printable_ascii((#[trigger] cells@[i])@),
    ensures
        final(out)@ == old(out)@ + joined(cells@.map_values(|c: &str| c@)),
{
    let ghost start = out@;
    let mut i: usize = 0;
    while i < cells.len()
        invariant
            0 <= i <= cells@.len(),
            forall|k: int| 0 <= k < cells@.len() ==> printable_ascii((#[trigger] cells@[k])@),
            out@ == start + joined(cells@.subrange(0, i as int).map_values(|c: &str| c@)),
        decreases cells@.len() - i,
    {
        let ghost prev = cells@.subrange(0, i as int).map_values(|c: &str| c@);
        let ghost next = cells@.subrange(0, i + 1).map_values(|c: &str| c@);
        assert(next.drop_last() =~= prev);
        assert(next.last() == cells@[i as int]@);
        if i > 0 {
            out.append("|");
        }
        let cell = pad_middle(cells[i], 3);
        out.append(cell.as_str());
        proof {
            assert(out@ =~= start + joined(next));
        }
        i = i + 1;
    }
    assert(cells@.subrange(0, cells@.len() as int) =~= cells@);
}

impl StandardBoard {
    /// A text picture of `state`.
    pub fn print(&self, state: &State) -> (r: String)
        requires
            state.wf(),
        ensures
            r@ == picture(*state),
    {
        let mut out = String::new();
        out.append(" === To move ");
        if state.to_move.0 == 0 {
            out.append("Player(0)");
        } else {
            out.append("Player(1)");
        }
        out.append(" === \n");
        let rule = "+---+---+---+---+---+\n";
        let empty = "|   |   |   |   |   |\n";
        let ghost head = out@;
        let mut y: i8 = 0;
        while y < 5
            invariant
                0 <= y <= 5,
                rule@ == divider(),
                empty@ == empty_row(),
                out@ == head + rows_picture(*state, y as int),
            decreases 5 - y,
        {
            out.append(rule);
            let mut terrain: Vec<&str> = Vec::new();
            let mut players: Vec<&str> = Vec::new();
            let mut x: i8 = 0;
            while x < 5
                invariant
                    0 <= x <= 5,
                    0 <= y < 5,
                    terrain@.map_values(|c: &str| c@) == terrain_cells(*state, y as int, x as int),
                    players@.map_values(|c: &str| c@) == player_cells(*state, y as int, x as int),
                    forall|i: int| 0 <= i < terrain@.len() ==> printable_ascii((#[trigger] terrain@[i])@),
                    forall|i: int| 0 <= i < players@.len() ==> printable_ascii((#[trigger] players@[i])@),
                decreases 5 - x,
            {
                proof {
                    reveal_strlit("P0");
                    reveal_strlit("P1");
                    reveal_strlit(" ");
                }
                let slot = Self::slot(Position { x: x, y: y });
                let ghost tp = terrain@;
                let ghost pp = players@;
                terrain.push(terrain_cell(state, slot));
                assert(terrain@.map_values(|c: &str| c@) =~= tp.map_values(|c: &str| c@).push(terrain_text(*state, slot.0 as u32)));
                let mut found = false;
                let mut i: usize = 0;
                while i < 2
                    invariant
                        0 <= i <= 2,
                        0 <= slot.0 < 25,
                        found == ((i > 0 && bit(state.builders[0].0, slot.0 as u32)) || (i > 1 && bit(state.builders[1].0, slot.0 as u32))),
                        players@.map_values(|c: &str| c@) == pp.map_values(|c: &str| c@)
                            + (if i > 0 && bit(state.builders[0].0, slot.0 as u32) { seq!["P0"@] } else { Seq::<Seq<char>>::empty() })
                            + (if i > 1 && bit(state.builders[1].0, slot.0 as u32) { seq!["P1"@] } else { Seq::<Seq<char>>::empty() }),
                        forall|k: int| 0 <= k < players@.len() ==> printable_ascii((#[trigger] players@[k])@),
                    decreases 2 - i,
                {
                    proof {
                        reveal_strlit("P0");
                        reveal_strlit("P1");
                    }
                    let ghost before = players@;
                    if state.builders[i].get(slot) == 1 {
                        players.push(if i == 0 { "P0" } else { "P1" });
                        found = true;
                    }
                    assert(players@.map_values(|c: &str| c@) =~= pp.map_values(|c: &str| c@)
                        + (if i + 1 > 0 && bit(state.builders[0].0, slot.0 as u32) { seq!["P0"@] } else { Seq::<Seq<char>>::empty() })
                        + (if i + 1 > 1 && bit(state.builders[1].0, slot.0 as u32) { seq!["P1"@] } else { Seq::<Seq<char>>::empty() }));
                    i = i + 1;
                }
                if !found {
                    let ghost before = players@;
                    players.push(" ");
                    assert(players@.map_values(|c: &str| c@) =~= before.map_values(|c: &str| c@).push(" "@));
                }
                proof {
                    assert(players@.map_values(|c: &str| c@) =~= pp.map_values(|c: &str| c@) + player_texts(*state, slot.0 as u32));
                }
                x = x + 1;
            }
            out.append("|");
            append_joined(&mut out, &terrain);
            out.append("|\n");
            out.append("|");
            append_joined(&mut out, &players);
            out.append("|\n");
            out.append(empty);
            proof {
                assert(out@ =~= head + rows_picture(*state, y as int + 1));
            }
            y = y + 1;
        }
        out.append(rule);
        out
    }
}

} // verus!
