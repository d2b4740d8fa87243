//! Who plays a game, the game itself, what each player sees, and a player's progress.
use vstd::prelude::*;
use crate::game::util::{Player, Slot};
use crate::game::santorini::{Move, Depth};
use crate::game::santorini::state::State;
use crate::game::santorini::board::{
    StandardBoard, spec_apply, spec_ascension, spec_next_moves, spec_player_moves, player_legal, move_on_board,
    lemma_next_moves_legal_steps, lemma_next_moves_len, lemma_apply_wf,
};
use crate::game::santorini::move_builder::{lemma_player_moves_legal, status_after};
use crate::game::santorini::playout::{AIProfile, HeuristicName, Milliseconds};
use crate::service::board_state::BoardState;
use crate::service::tentative::TentativeState;
use crate::service::ai::StateAnalysis;

pub use crate::game::santorini::move_builder::MatchStatus;

verus! {

/// A person who plays.
#[derive(Debug, Clone, PartialEq, Eq, Hash)]
pub struct HumanPlayer {
    pub id: u64,
    pub name: String,
}

impl HumanPlayer {
    /// The same person: same id and same name.
    pub open spec fn same(self, other: HumanPlayer) -> bool {
        self.id == other.id && self.name@ == other.name@
    }

    pub fn same_as(&self, other: &HumanPlayer) -> (r: bool)
        ensures
            r == self.same(*other),
    {
        self.id == other.id && self.name == other.name
    }

    /// A copy with the same id and name.
    pub fn duplicate(&self) -> (r: HumanPlayer)
        ensures
            r.same(*self),
    {
        HumanPlayer { id: self.id, name: self.name.clone() }
    }
}

/// Who sits at a place of the game: a person, or a computer player with its profile.
#[derive(Debug, Clone, PartialEq, Eq, Hash)]
pub enum PlayerActual {
    Human(HumanPlayer),
    AI(AIProfile),
}

impl PlayerActual {
    /// The same player: the same person, or computer players with the same profile.
    pub open spec fn same(self, other: PlayerActual) -> bool {
        match (self, other) {
            (PlayerActual::Human(a), PlayerActual::Human(b)) => a.same(b),
            (PlayerActual::AI(a), PlayerActual::AI(b)) => a == b,
            _ => false,
        }
    }

    /// This is the person `human`.
    pub open spec fn spec_is_human(self, human: HumanPlayer) -> bool {
        match self {
            PlayerActual::Human(p) => p.same(human),
            PlayerActual::AI(_) => false,
        }
    }

    pub fn is_human(&self, human: &HumanPlayer) -> (r: bool)
        ensures
            r == self.spec_is_human(*human),
    {
        match self {
            PlayerActual::Human(player) => player.same_as(human),
            PlayerActual::AI(_) => false,
        }
    }

    pub fn same_as(&self, other: &PlayerActual) -> (r: bool)
        ensures
            r == self.same(*other),
    {
        match (self, other) {
            (PlayerActual::Human(a), PlayerActual::Human(b)) => a.same_as(b),
            (PlayerActual::AI(a), PlayerActual::AI(b)) => a.depth == b.depth && a.heuristic == b.heuristic && a.time_limit == b.time_limit,
            _ => false,
        }
    }

    /// A copy: the same player.
    pub fn duplicate(&self) -> (r: PlayerActual)
        ensures
            r.same(*self),
    {
        match self {
            PlayerActual::Human(p) => PlayerActual::Human(p.duplicate()),
            PlayerActual::AI(a) => PlayerActual::AI(*a),
        }
    }
}

/// What a player has clicked and is pointing at while entering a move.
#[derive(Debug, Clone, PartialEq, Eq)]
pub struct UIState {
    /// The squares clicked so far.
    pub current_slots: Vec<Slot>,
    /// The square under the pointer.
    pub tentative_slot: Option<Slot>,
}

impl UIState {
    /// Nothing clicked, nothing pointed at.
    pub fn clear(&mut self)
        ensures
            final(self).current_slots@ == Seq::<Slot>::empty(),
            final(self).tentative_slot is None,
    {
        self.current_slots.clear();
        self.tentative_slot = None;
    }

    pub fn empty() -> (r: UIState)
        ensures
            r.current_slots@ == Seq::<Slot>::empty(),
            r.tentative_slot is None,
    {
        UIState { current_slots: Vec::new(), tentative_slot: None }
    }
}

/// Whether a player is connected, and what it sees if so.
#[derive(Debug, Clone, PartialEq, Eq)]
pub enum PlayerState {
    Disconnected,
    Connected(UIState),
}

/// The players of a game, in the order of their places.
#[derive(Debug, Clone, PartialEq, Eq)]
pub struct Players(pub Vec<(PlayerActual, PlayerState)>);

/// The first place of `ps` that holds a player `p` satisfies, if any.
pub open spec fn first_where(ps: Seq<(PlayerActual, PlayerState)>, p: spec_fn(PlayerActual) -> bool, r: Option<usize>) -> bool {
    match r {
        Some(i) => i < ps.len() && p(ps[i as int].0) && forall|j: int| 0 <= j < i ==> !p(#[trigger] ps[j].0),
        None => forall|j: int| 0 <= j < ps.len() ==> !p(#[trigger] ps[j].0),
    }
}

pub open spec fn is_player(player: PlayerActual) -> spec_fn(PlayerActual) -> bool {
    |q: PlayerActual| q.same(player)
}

pub open spec fn is_person(human: HumanPlayer) -> spec_fn(PlayerActual) -> bool {
    |q: PlayerActual| q.spec_is_human(human)
}

pub open spec fn is_computer() -> spec_fn(PlayerActual) -> bool {
    |q: PlayerActual| q is AI
}

impl Players {
    /// The player at the place of `player`.
    pub fn for_player(&self, player: Player) -> (r: &PlayerActual)
        requires
            0 <= player.0 < self.0@.len(),
        ensures
            *r == self.0@[player.0 as int].0,
    {
        &self.0[player.0 as usize].0
    }

    fn position_where_same(&self, player: &PlayerActual) -> (r: Option<usize>)
        ensures
            first_where(self.0@, is_player(*player), r),
    {
        let mut i: usize = 0;
        while i < self.0.len()
            invariant
                0 <= i <= self.0@.len(),
                forall|j: int| 0 <= j < i ==> !is_player(*player)(#[trigger] self.0@[j].0),
            decreases self.0@.len() - i,
        {
            if self.0[i].0.same_as(player) {
                return Some(i);
            }
            i = i + 1;
        }
        None
    }

    /// The first place of `player`.
    pub fn index_of(&self, player: &PlayerActual) -> (r: Option<usize>)
        ensures
            first_where(self.0@, is_player(*player), r),
    {
        self.position_where_same(player)
    }

    /// The profile of the first computer player.
    pub fn first_ai(&self) -> (r: Option<AIProfile>)
        ensures
            match r {
                Some(a) => exists|i: usize| #[trigger] first_where(self.0@, is_computer(), Some(i))
                    && self.0@[i as int].0 == PlayerActual::AI(a),
                None => first_where(self.0@, is_computer(), None),
            },
    {
        let mut i: usize = 0;
        while i < self.0.len()
            invariant
                0 <= i <= self.0@.len(),
                forall|j: int| 0 <= j < i ==> !is_computer()(#[trigger] self.0@[j].0),
            decreases self.0@.len() - i,
        {
            match &self.0[i].0 {
                PlayerActual::Human(_) => {},
                PlayerActual::AI(ai_profile) => {
                    assert(first_where(self.0@, is_computer(), Some(i)) && self.0@[i as int].0 == PlayerActual::AI(*ai_profile));
                    return Some(*ai_profile);
                },
            }
            i = i + 1;
        }
        None
    }

    /// The first place of the person `player`.
    pub fn index_of_human(&self, player: &HumanPlayer) -> (r: Option<usize>)
        ensures
            first_where(self.0@, is_person(*player), r),
    {
        let mut i: usize = 0;
        while i < self.0.len()
            invariant
                0 <= i <= self.0@.len(),
                forall|j: int| 0 <= j < i ==> !is_person(*player)(#[trigger] self.0@[j].0),
            decreases self.0@.len() - i,
        {
            if self.0[i].0.is_human(player) {
                return Some(i);
            }
            i = i + 1;
        }
        None
    }

    /// What the player at place `idx` sees, for changing, if it is connected.
    fn ui_state_at(&mut self, idx: usize) -> (r: Option<&mut UIState>)
        requires
            idx < old(self).0@.len(),
        ensures
            match r {
                Some(ui) => old(self).0@[idx as int].1 == PlayerState::Connected(*ui)
                    && final(self).0@ == old(self).0@.update(idx as int, (old(self).0@[idx as int].0, PlayerState::Connected(*final(ui)))),
                None => old(self).0@[idx as int].1 is Disconnected && final(self).0@ == old(self).0@,
            },
    {
        match &mut self.0[idx].1 {
            PlayerState::Connected(ui) => Some(ui),
            PlayerState::Disconnected => None,
        }
    }

    /// What the person `player` sees, for changing, if it has a place and is connected
    /// there (its first place).
    pub fn mut_human_ui_state(&mut self, player: &HumanPlayer) -> (r: Option<&mut UIState>)
        ensures
            match r {
                Some(ui) => exists|i: usize| #[trigger] first_where(old(self).0@, is_person(*player), Some(i))
                    && old(self).0@[i as int].1 == PlayerState::Connected(*ui)
                    && final(self).0@ == old(self).0@.update(i as int, (old(self).0@[i as int].0, PlayerState::Connected(*final(ui)))),
                None => final(self).0@ == old(self).0@ && forall|i: usize| #[trigger] first_where(old(self).0@, is_person(*player), Some(i))
                    ==> old(self).0@[i as int].1 is Disconnected,
            },
    {
        match self.index_of_human(player) {
            Some(idx) => self.ui_state_at(idx),
            None => None,
        }
    }

    /// What the player `player` sees, for changing, if it has a place and is connected
    /// there (its first place).
    pub fn mut_ui_state(&mut self, player: &PlayerActual) -> (r: Option<&mut UIState>)
        ensures
            match r {
                Some(ui) => exists|i: usize| #[trigger] first_where(old(self).0@, is_player(*player), Some(i))
                    && old(self).0@[i as int].1 == PlayerState::Connected(*ui)
                    && final(self).0@ == old(self).0@.update(i as int, (old(self).0@[i as int].0, PlayerState::Connected(*final(ui)))),
                None => final(self).0@ == old(self).0@ && forall|i: usize| #[trigger] first_where(old(self).0@, is_player(*player), Some(i))
                    ==> old(self).0@[i as int].1 is Disconnected,
            },
    {
        match self.index_of(player) {
            Some(idx) => self.ui_state_at(idx),
            None => None,
        }
    }

    /// What the person `player` sees, if it has a place and is connected there (its
    /// first place).
    pub fn human_ui_state(&self, player: &HumanPlayer) -> (r: Option<&UIState>)
        ensures
            match r {
                Some(ui) => exists|i: usize| #[trigger] first_where(self.0@, is_person(*player), Some(i))
                    && self.0@[i as int].1 == PlayerState::Connected(*ui),
                None => forall|i: usize| #[trigger] first_where(self.0@, is_person(*player), Some(i))
                    ==> self.0@[i as int].1 is Disconnected,
            },
    {
        match self.index_of_human(player) {
            Some(idx) => match &self.0[idx].1 {
                PlayerState::Connected(ui) => Some(ui),
                PlayerState::Disconnected => None,
            },
            None => None,
        }
    }
}

/// A game on a server: the board and who plays.
pub struct ServerGame {
    pub board: BoardWithMoves,
    pub players: Players,
}

/// A game as a client holds it: the board, the picture of the move being entered, who
/// plays, what is being shown, and the latest report of the computer player.
pub struct ClientGame {
    pub board: BoardWithMoves,
    pub tentative: Option<TentativeState>,
    pub players: Players,
    pub interactivity: InteractionState,
    pub analysis: Option<StateAnalysis>,
}

impl ClientGame {
    /// The player to move is a computer player.
    pub fn waiting_on_ai(&self) -> (r: bool)
        requires
            0 <= self.board@.1.to_move.0 < self.players.0@.len(),
        ensures
            r == (self.players.0@[self.board@.1.to_move.0 as int].0 is AI),
    {
        match self.players.for_player(self.board.state().to_move) {
            PlayerActual::AI(_) => true,
            PlayerActual::Human(_) => false,
        }
    }
}

/// A game's record with the moves on offer in its position.
pub struct BoardWithMoves {
    state: BoardState,
    legal_moves: Vec<Move>,
}

impl View for BoardWithMoves {
    /// The moves made, the position, and the moves on offer.
    type V = (Seq<Move>, State, Seq<Move>);

    closed spec fn view(&self) -> (Seq<Move>, State, Seq<Move>) {
        (self.state.moves@, self.state.state, self.legal_moves@)
    }
}

/// What a game's record says of its end: the player who made the last move has won if
/// that move stands on a third storey or nothing is on offer; else who is to move.
pub open spec fn spec_match_status(v: (Seq<Move>, State, Seq<Move>)) -> MatchStatus {
    if v.0.len() > 0 && spec_ascension(v.1, v.0.last()) {
        MatchStatus::Won(v.1.spec_next_player())
    } else if v.2.len() == 0 {
        MatchStatus::Won(v.1.spec_next_player())
    } else {
        MatchStatus::ToMove(v.1.to_move)
    }
}

/// Whom a game's status names: a player who has won is never the player to move, so a
/// player left without a move never wins, and a climb onto a third storey wins for the
/// player who made it; the game goes on only with moves on offer, naming the player to
/// move.
pub proof fn lemma_match_status_winner(v: (Seq<Move>, State, Seq<Move>))
    requires
        v.1.wf(),
    ensures
        v.2.len() == 0 ==> (spec_match_status(v) matches MatchStatus::Won(p) && p != v.1.to_move && (p.0 == 0 || p.0 == 1)),
        (v.0.len() > 0 && spec_ascension(v.1, v.0.last())) ==> (spec_match_status(v) matches MatchStatus::Won(p)
            && p != v.1.to_move && (p.0 == 0 || p.0 == 1)),
        spec_match_status(v) matches MatchStatus::Won(p) ==> p != v.1.to_move && (p.0 == 0 || p.0 == 1),
        spec_match_status(v) matches MatchStatus::ToMove(p) ==> p == v.1.to_move && v.2.len() > 0,
{
}

impl BoardWithMoves {
    /// A well-formed position, and only legal moves on offer.
    pub closed spec fn wf(&self) -> bool {
        &&& self.state.state.wf()
        &&& forall|k: int| 0 <= k < self.legal_moves@.len() ==> player_legal(self.state.state, #[trigger] self.legal_moves@[k])
    }

    /// What well-formedness says of the view: a well-formed position, legal moves only.
    pub proof fn lemma_wf(&self)
        requires
            self.wf(),
        ensures
            self@.1.wf(),
            forall|k: int| 0 <= k < self@.2.len() ==> player_legal(self@.1, #[trigger] self@.2[k]),
    {
    }

    pub fn state(&self) -> (r: &State)
        ensures
            *r == self@.1,
    {
        &self.state.state
    }

    pub fn legal_moves(&self) -> (r: &Vec<Move>)
        ensures
            r@ == self@.2,
    {
        &self.legal_moves
    }

    /// The record `board` with the moves `next_moves` lists for its position on offer.
    pub fn for_board(board: BoardState, standard_board: &StandardBoard) -> (r: BoardWithMoves)
        requires
            standard_board.wf(),
            board.state.wf(),
        ensures
            r.wf(),
            r@ == (board.moves@, board.state, spec_next_moves(*standard_board, board.state)),
    {
        let mut moves: Vec<Move> = Vec::new();
        proof {
            lemma_next_moves_len(*standard_board, board.state);
        }
        standard_board.next_moves(&board.state, &mut moves);
        proof {
            assert(moves@ =~= spec_next_moves(*standard_board, board.state));
            assert forall|k: int| 0 <= k < moves@.len() implies player_legal(board.state, #[trigger] moves@[k]) by {
                assert(spec_next_moves(*standard_board, board.state).contains(moves@[k]));
                lemma_next_moves_legal_steps(*standard_board, board.state, moves@[k]);
            }
        }
        BoardWithMoves { state: board, legal_moves: moves }
    }

    /// Makes `mve`, one of the moves on offer; then every legal move of the next player
    /// is on offer.
    pub fn make_move(&mut self, board: &StandardBoard, mve: Move)
        requires
            board.wf(),
            old(self).wf(),
            old(self)@.2.contains(mve),
        ensures
            final(self).wf(),
            final(self)@ == (old(self)@.0.push(mve), spec_apply(old(self)@.1, mve), spec_player_moves(spec_apply(old(self)@.1, mve))),
    {
        proof {
            let k = choose|k: int| 0 <= k < self.legal_moves@.len() && self.legal_moves@[k] == mve;
            assert(player_legal(self.state.state, self.legal_moves@[k]));
            assert(move_on_board(mve));
            lemma_apply_wf(self.state.state, mve);
        }
        self.state.moves.push(mve);
        self.state.state = board.apply(mve, &self.state.state);
        let mut next_moves: Vec<Move> = Vec::new();
        board.next_moves_for_player(&self.state.state, &mut next_moves);
        proof {
            lemma_player_moves_legal(self.state.state);
            assert(next_moves@ =~= spec_player_moves(self.state.state));
        }
        self.legal_moves = next_moves;
    }

    /// Who has won, or who is to move.
    pub fn match_status(&self, standard_board: &StandardBoard) -> (r: MatchStatus)
        requires
            self.wf(),
            self@.0.len() > 0 ==> (self@.0.last() matches Move::Move { to, .. } ==> 0 <= to.0 < 32),
        ensures
            r == spec_match_status(self@),
            r matches MatchStatus::Won(p) ==> p != self@.1.to_move,
            self@.2.len() == 0 ==> r is Won,
    {
        proof {
            self.lemma_wf();
            lemma_match_status_winner(self@);
        }
        let n = self.state.moves.len();
        if n > 0 {
            let last_move = self.state.moves[n - 1];
            if standard_board.ascension_winning_move(&self.state.state, last_move) {
                return MatchStatus::Won(self.state.state.next_player());
            }
        }
        if self.legal_moves.len() == 0 {
            return MatchStatus::Won(self.state.state.next_player());
        }
        MatchStatus::ToMove(self.state.state.to_move)
    }
}

/// What a client is showing: a move being animated (with the time spent on it and the
/// winner it leads to, if any), a player awaited, or a victory being shown.
#[derive(Debug, Clone, PartialEq, Eq)]
pub enum InteractionState {
    AnimatingMove { prior_state: State, mve: Move, player: PlayerActual, elapsed: Milliseconds, winner: Option<PlayerActual> },
    AwaitingInput { player: PlayerActual },
    WaitingVictory { player: PlayerActual, elapsed: Milliseconds },
}

impl InteractionState {
    /// Awaiting the player whose place is the one to move in `state`.
    pub fn awaiting_input(state: &State, players: &Players) -> (r: InteractionState)
        requires
            0 <= state.to_move.0 < players.0@.len(),
        ensures
            (r matches InteractionState::AwaitingInput { player } && player.same(players.0@[state.to_move.0 as int].0)),
    {
        let player_idx = state.to_move.0 as usize;
        let player_actual = players.0[player_idx].0.duplicate();
        InteractionState::AwaitingInput { player: player_actual }
    }
}

/// A person with its progress.
#[derive(Debug, Clone, PartialEq, Eq)]
pub struct PlayerProfile {
    pub player: HumanPlayer,
    pub progress: Progress,
}

/// A person's level (the depth its computer opponent searches) and its wins at that
/// level.
#[derive(Debug, Copy, Clone, PartialEq, Eq, Structural, Hash)]
pub struct Progress {
    pub level: usize,
    pub wins: usize,
}

/// Wins needed to pass a level: one up to level 3, two up to level 6, four above.
pub open spec fn spec_wins_to_pass(level: usize) -> usize {
    if level <= 3 { 1 } else if level <= 6 { 2 } else { 4 }
}

pub fn wins_to_pass_for_level(level: usize) -> (r: usize)
    ensures
        r == spec_wins_to_pass(level),
{
    if level <= 3 {
        1
    } else if level <= 6 {
        2
    } else {
        4
    }
}

/// The progress after a win: one more win, and the next level once the level's wins are
/// reached.
pub open spec fn spec_win(p: Progress) -> Progress {
    if p.wins + 1 == spec_wins_to_pass(p.level) {
        Progress { level: (p.level + 1) as usize, wins: 0 }
    } else {
        Progress { level: p.level, wins: (p.wins + 1) as usize }
    }
}

/// The progress after a loss: one win fewer; with none, the previous level with one win
/// short of passing it, but never below level 2.
pub open spec fn spec_loss(p: Progress) -> Progress {
    if p.wins == 0 {
        if p.level > 2 {
            Progress { level: (p.level - 1) as usize, wins: (spec_wins_to_pass((p.level - 1) as usize) - 1) as usize }
        } else {
            p
        }
    } else {
        Progress { level: p.level, wins: (p.wins - 1) as usize }
    }
}

/// Fewer wins than the level needs: no level is passed without moving up.
pub open spec fn progress_valid(p: Progress) -> bool {
    p.wins < spec_wins_to_pass(p.level)
}

/// The computer opponent of a level.
pub open spec fn opponent_for(level: usize) -> AIProfile {
    AIProfile { depth: level as Depth, heuristic: HeuristicName::AdjustedNeighbour, time_limit: Some(15_000) }
}

impl Progress {
    /// The players of the next game: the person and a computer opponent searching as
    /// deep as the level, both connected with nothing entered; the person moves first
    /// when its wins are odd.
    pub fn players(&self, client_player: &HumanPlayer) -> (r: Players)
        ensures
            r.0@.len() == 2,
            ({
                let (h, a) = if self.wins % 2 == 0 { (1int, 0int) } else { (0int, 1int) };
                &&& (r.0@[h].0 matches PlayerActual::Human(p) && p.same(*client_player))
                &&& r.0@[a].0 == PlayerActual::AI(opponent_for(self.level))
            }),
            forall|i: int| 0 <= i < 2 ==> ((#[trigger] r.0@[i]).1 matches PlayerState::Connected(ui)
                && ui.current_slots@.len() == 0 && ui.tentative_slot is None),
    {
        let human_player = PlayerActual::Human(client_player.duplicate());
        let cpu_opponent = PlayerActual::AI(AIProfile {
            depth: self.level as Depth,
            heuristic: HeuristicName::AdjustedNeighbour,
            time_limit: Some(15_000),
        });
        let mut players: Vec<(PlayerActual, PlayerState)> = Vec::new();
        if self.wins % 2 == 0 {
            players.push((cpu_opponent, PlayerState::Connected(UIState::empty())));
            players.push((human_player, PlayerState::Connected(UIState::empty())));
        } else {
            players.push((human_player, PlayerState::Connected(UIState::empty())));
            players.push((cpu_opponent, PlayerState::Connected(UIState::empty())));
        }
        Players(players)
    }

    /// Counts a win (see `spec_win`).
    pub fn win(&mut self)
        requires
            old(self).wins < usize::MAX,
            old(self).wins + 1 == spec_wins_to_pass(old(self).level) ==> old(self).level < usize::MAX,
        ensures
            *final(self) == spec_win(*old(self)),
    {
        self.wins = self.wins + 1;
        if self.wins == wins_to_pass_for_level(self.level) {
            self.level = self.level + 1;
            self.wins = 0;
        }
    }

    /// Counts a loss (see `spec_loss`).
    pub fn loss(&mut self)
        ensures
            *final(self) == spec_loss(*old(self)),
    {
        if self.wins == 0 {
            if self.level > 2 {
                self.level = self.level - 1;
                self.wins = wins_to_pass_for_level(self.level) - 1;
            }
        } else {
            self.wins = self.wins - 1;
        }
    }
}

/// A win and a loss keep a progress short of passing its level.
pub proof fn lemma_progress_stays_valid(p: Progress)
    requires
        progress_valid(p),
        p.level < usize::MAX,
    ensures
        progress_valid(spec_win(p)),
        progress_valid(spec_loss(p)),
{
}

/// A loss undoes a win, from level 2 up.
pub proof fn lemma_loss_undoes_win(p: Progress)
    requires
        progress_valid(p),
        p.level >= 2,
        p.level < usize::MAX,
    ensures
        spec_loss(spec_win(p)) == p,
{
}

/// A win undoes a loss, unless the loss was at level 2 or below with no win to take.
pub proof fn lemma_win_undoes_loss(p: Progress)
    requires
        progress_valid(p),
        p.wins > 0 || p.level > 2,
    ensures
        spec_win(spec_loss(p)) == p,
{
}

/// Losses never take a level below 2, and wins never lower the level.
pub proof fn lemma_level_bounds(p: Progress)
    requires
        p.level >= 2,
        p.level < usize::MAX,
    ensures
        spec_loss(p).level >= 2,
        spec_win(p).level >= p.level,
{
}

} // verus!
