//! The Santorini client of one person against a computer opponent.
use vstd::prelude::*;
use crate::game::util::{Player, Slot};
use crate::game::santorini::Move;
use crate::game::santorini::state::State;
use crate::game::santorini::board::{StandardBoard, spec_apply, spec_next_moves, spec_player_moves, player_legal, move_on_board};
use crate::game::santorini::transposition::ZobristHash;
use crate::game::santorini::playout::{AIProfile, Milliseconds};
use crate::game::santorini::move_builder::{lemma_continuing_square_on_board, contains_move, modify_ok, entered, tentative_count, spec_modify_state, moves_continuing, completed_move, first_completed};
use crate::service::game::{
    ClientGame, BoardWithMoves, Players, PlayerActual, PlayerState, UIState, InteractionState, PlayerProfile,
    Progress, HumanPlayer, MatchStatus, spec_match_status, spec_win, spec_loss, first_where, is_person, is_computer,
};
use crate::service::board_state::BoardState;
use crate::service::tentative::TentativeState;
use crate::service::event::ClientLocalEvent;

verus! {

/// How long a victory is shown before the next game.
pub const VICTORY_WAIT: Milliseconds = 5_000;

/// How long a move is animated.
pub const ANIMATION_WAIT: Milliseconds = 1_000;

/// Where a new person starts: level 2, no wins.
pub fn default_progress() -> (r: Progress)
    ensures
        r == (Progress { level: 2, wins: 0 }),
{
    Progress { level: 2, wins: 0 }
}

/// A sound the client plays.
#[derive(Debug, Copy, Clone, PartialEq, Eq, Structural)]
pub enum SoundCue {
    /// A square was clicked.
    PlaceTile,
    /// A clicked square was taken back.
    Select,
}

/// Something the client asks of its surroundings.
#[derive(Debug, Copy, Clone)]
pub enum ClientEffect {
    Sound(SoundCue),
    /// Search `state` as the computer player `ai_profile`.
    RequestAnalysis { state: State, ai_profile: AIProfile },
    /// Forget what the computer player kept from earlier searches.
    ResetAi,
    /// Store the person's profile.
    SaveProfile,
}

/// The squares a connected player has clicked are among the 32 of a board, with room
/// for one more.
pub open spec fn ui_ok(ui: UIState) -> bool {
    &&& forall|i: int| 0 <= i < ui.current_slots@.len() ==> 0 <= #[trigger] ui.current_slots@[i].0 < 32
    &&& ui.current_slots@.len() + 1 < usize::MAX
}

/// Two places, each connected player seeing squares of the board only.
pub open spec fn players_ok(ps: Seq<(PlayerActual, PlayerState)>) -> bool {
    &&& ps.len() == 2
    &&& forall|i: int| 0 <= i < 2 ==> ((#[trigger] ps[i]).1 matches PlayerState::Connected(ui) ==> ui_ok(ui))
}

/// The request for a search a position needs: one for the first computer player, if any.
pub open spec fn analysis_request(ps: Seq<(PlayerActual, PlayerState)>, s: State) -> Seq<ClientEffect> {
    if exists|i: usize| #[trigger] first_where(ps, is_computer(), Some(i)) {
        let i = choose|i: usize| #[trigger] first_where(ps, is_computer(), Some(i));
        match ps[i as int].0 {
            PlayerActual::AI(a) => seq![ClientEffect::RequestAnalysis { state: s, ai_profile: a }],
            PlayerActual::Human(_) => Seq::empty(),
        }
    } else {
        Seq::empty()
    }
}

/// Only one place is the first one a property holds of.
pub proof fn lemma_first_where_unique(ps: Seq<(PlayerActual, PlayerState)>, p: spec_fn(PlayerActual) -> bool, i: usize, j: usize)
    requires
        first_where(ps, p, Some(i)),
        first_where(ps, p, Some(j)),
    ensures
        i == j,
{
    if i < j {
        assert(!p(ps[i as int].0));
    } else if j < i {
        assert(!p(ps[j as int].0));
    }
}

/// A client: the person's profile, the game it shows, the board, and what it has asked
/// of its surroundings and not yet handed over.
pub struct SantoriniClient {
    pub profile: PlayerProfile,
    pub game: ClientGame,
    pub board: StandardBoard,
    pub effects: Vec<ClientEffect>,
}

/// A new game from the initial position with `players`, awaiting its first player.
pub fn game_for(standard_board: &StandardBoard, players: Players) -> (r: ClientGame)
    requires
        standard_board.wf(),
        players.0@.len() > 0,
    ensures
        r.board.wf(),
        r.board@ == (Seq::<Move>::empty(), State::spec_initial(), spec_next_moves(*standard_board, State::spec_initial())),
        r.players == players,
        (r.interactivity matches InteractionState::AwaitingInput { player } && player.same(players.0@[0].0)),
        r.tentative is None,
        r.analysis is None,
{
    let initial = State::initial();
    let board_with_moves = BoardWithMoves::for_board(BoardState::new(initial), standard_board);
    let interaction_state = InteractionState::awaiting_input(board_with_moves.state(), &players);
    ClientGame {
        board: board_with_moves,
        tentative: None,
        players: players,
        interactivity: interaction_state,
        analysis: None,
    }
}

/// `after` is `before` with what the person `h` sees at its first place cleared, if it is
/// connected there; every other place unchanged.
pub open spec fn cleared_for(before: Seq<(PlayerActual, PlayerState)>, after: Seq<(PlayerActual, PlayerState)>, h: HumanPlayer) -> bool {
    &&& after.len() == before.len()
    &&& forall|j: int| 0 <= j < before.len() ==> (#[trigger] after[j]).0 == before[j].0
    &&& forall|j: int| 0 <= j < before.len() ==> {
        if first_where(before, is_person(h), Some(j as usize)) && before[j].1 is Connected {
            (#[trigger] after[j]).1 matches PlayerState::Connected(ui) && ui.current_slots@.len() == 0 && ui.tentative_slot is None
        } else {
            after[j] == before[j]
        }
    }
}

/// The status a move leads to, as `play_move` records it on the way to the animation:
/// the winner's place holds the player named, when there is a winner.
pub open spec fn winner_of(r: MatchStatus, ps: Seq<(PlayerActual, PlayerState)>, winner: Option<PlayerActual>) -> bool {
    match r {
        MatchStatus::Won(p) => winner matches Some(w) && w.same(ps[p.0 as int].0),
        MatchStatus::ToMove(_) => winner is None,
    }
}

impl SantoriniClient {
    /// The board's tables, a well-formed game, two places, and squares of the board only
    /// in what the players see.
    pub open spec fn wf(&self) -> bool {
        &&& self.board.wf()
        &&& self.game.board.wf()
        &&& players_ok(self.game.players.0@)
    }

    /// The profile of a new person.
    pub fn new_profile() -> (r: PlayerProfile)
        ensures
            r.player.id == 12,
            r.player.name@ == "Steve"@,
            r.progress == (Progress { level: 2, wins: 0 }),
    {
        PlayerProfile {
            player: HumanPlayer { id: 12, name: String::from_str("Steve") },
            progress: default_progress(),
        }
    }

    /// Asks for a search of the position for the first computer player, if there is one.
    pub fn request_ai_analysis(&mut self)
        requires
            old(self).wf(),
        ensures
            final(self).profile == old(self).profile,
            final(self).game == old(self).game,
            final(self).board == old(self).board,
            final(self).effects@ == old(self).effects@ + analysis_request(old(self).game.players.0@, old(self).game.board@.1),
    {
        let ghost ps = self.game.players.0@;
        match self.game.players.first_ai() {
            Some(ai_profile) => {
                proof {
                    let i = choose|i: usize| #[trigger] first_where(ps, is_computer(), Some(i)) && ps[i as int].0 == PlayerActual::AI(ai_profile);
                    let k = choose|k: usize| #[trigger] first_where(ps, is_computer(), Some(k));
                    lemma_first_where_unique(ps, is_computer(), i, k);
                }
                let state = *self.game.board.state();
                self.effects.push(ClientEffect::RequestAnalysis { state: state, ai_profile: ai_profile });
            },
            None => {},
        }
    }

    /// A client of `profile`, showing a new game of its progress; if the computer moves
    /// first, a search is asked for.
    pub fn new(profile: PlayerProfile) -> (r: SantoriniClient)
        ensures
            r.wf(),
            r.profile == profile,
            r.game.board@ == (Seq::<Move>::empty(), State::spec_initial(), spec_next_moves(r.board, State::spec_initial())),
            r.game.players.0@.len() == 2,
            r.effects@ == (if r.game.players.0@[0].0 is AI { analysis_request(r.game.players.0@, State::spec_initial()) } else { Seq::empty() }),
    {
        let standard_board = StandardBoard::new(ZobristHash::new_unseeded());
        let game_players = profile.progress.players(&profile.player);
        let game = game_for(&standard_board, game_players);
        let mut client = SantoriniClient { profile: profile, game: game, board: standard_board, effects: Vec::new() };
        if client.game.waiting_on_ai() {
            client.request_ai_analysis();
        }
        client
    }
}

impl SantoriniClient {
    /// Clears what the person sees at its first place, if it is connected there.
    fn clear_human_ui(&mut self)
        requires
            old(self).wf(),
        ensures
            final(self).wf(),
            final(self).profile == old(self).profile,
            final(self).board == old(self).board,
            final(self).effects == old(self).effects,
            final(self).game.board == old(self).game.board,
            final(self).game.tentative == old(self).game.tentative,
            final(self).game.interactivity == old(self).game.interactivity,
            final(self).game.analysis == old(self).game.analysis,
            cleared_for(old(self).game.players.0@, final(self).game.players.0@, old(self).profile.player),
    {
        let ghost before = self.game.players.0@;
        let ghost h = self.profile.player;
        match self.game.players.mut_human_ui_state(&self.profile.player) {
            Some(ui) => {
                let ghost ui0 = *ui;
                ui.clear();
                proof {
                    let i = choose|i: usize| #[trigger] first_where(before, is_person(h), Some(i))
                        && before[i as int].1 == PlayerState::Connected(ui0)
                        && self.game.players.0@ == before.update(i as int, (before[i as int].0, PlayerState::Connected(*ui)));
                    assert forall|j: int| 0 <= j < before.len() implies {
                        if first_where(before, is_person(h), Some(j as usize)) && before[j].1 is Connected {
                            (#[trigger] self.game.players.0@[j]).1 matches PlayerState::Connected(u) && u.current_slots@.len() == 0 && u.tentative_slot is None
                        } else {
                            self.game.players.0@[j] == before[j]
                        }
                    } by {
                        if first_where(before, is_person(h), Some(j as usize)) {
                            lemma_first_where_unique(before, is_person(h), i, j as usize);
                        }
                    }
                }
            },
            None => {},
        }
    }

    /// Plays `mve`, one of the moves on offer: the game's record takes the move, the move
    /// is animated (with the winner it leads to, if any), what the person sees is
    /// cleared, the picture and the report are dropped, and a search is asked for when
    /// the computer player is to move next. Returns the game's status.
    pub fn play_move(&mut self, mve: Move) -> (r: MatchStatus)
        requires
            old(self).wf(),
            old(self).game.board@.2.contains(mve),
        ensures
            final(self).wf(),
            final(self).profile == old(self).profile,
            final(self).board == old(self).board,
            final(self).game.board@ == (old(self).game.board@.0.push(mve), spec_apply(old(self).game.board@.1, mve),
                spec_player_moves(spec_apply(old(self).game.board@.1, mve))),
            r == spec_match_status(final(self).game.board@),
            ({
                &&& final(self).game.interactivity matches InteractionState::AnimatingMove { prior_state, mve: m, player, elapsed, winner }
                &&& prior_state == old(self).game.board@.1
                &&& m == mve
                &&& player.same(old(self).game.players.0@[old(self).game.board@.1.to_move.0 as int].0)
                &&& elapsed == 0
                &&& winner_of(r, old(self).game.players.0@, winner)
            }),
            cleared_for(old(self).game.players.0@, final(self).game.players.0@, old(self).profile.player),
            final(self).game.tentative is None,
            final(self).game.analysis is None,
            final(self).effects@ == old(self).effects@ + (if final(self).game.players.0@[final(self).game.board@.1.to_move.0 as int].0 is AI {
                analysis_request(final(self).game.players.0@, final(self).game.board@.1)
            } else {
                Seq::empty()
            }),
    {
        proof {
            self.game.board.lemma_wf();
        }
        let prior_state = *self.game.board.state();
        let player_moving = self.game.players.for_player(prior_state.to_move).duplicate();
        self.game.board.make_move(&self.board, mve);
        proof {
            self.game.board.lemma_wf();
            let k = choose|k: int| 0 <= k < old(self).game.board@.2.len() && old(self).game.board@.2[k] == mve;
            assert(crate::game::santorini::board::player_legal(prior_state, old(self).game.board@.2[k]));
        }
        let match_status = self.game.board.match_status(&self.board);
        let winning_player: Option<PlayerActual> = match match_status {
            MatchStatus::Won(player) => Some(self.game.players.0[player.0 as usize].0.duplicate()),
            MatchStatus::ToMove(_) => None,
        };
        self.game.interactivity = InteractionState::AnimatingMove {
            prior_state: prior_state,
            mve: mve,
            player: player_moving,
            elapsed: 0,
            winner: winning_player,
        };
        self.clear_human_ui();
        self.game.tentative = None;
        self.game.analysis = None;
        proof {
            self.game.board.lemma_wf();
        }
        if self.game.waiting_on_ai() {
            self.request_ai_analysis();
        }
        match_status
    }

    /// Ends the game: counts a win or a loss, stores the profile, starts a new game of
    /// the new progress, makes the computer player forget its earlier searches, and asks
    /// for a search when the computer moves first.
    pub fn complete_game(&mut self, player_win: bool)
        requires
            old(self).wf(),
            player_win ==> old(self).profile.progress.wins < usize::MAX && old(self).profile.progress.level < usize::MAX,
        ensures
            final(self).wf(),
            final(self).board == old(self).board,
            final(self).profile.player == old(self).profile.player,
            final(self).profile.progress == (if player_win { spec_win(old(self).profile.progress) } else { spec_loss(old(self).profile.progress) }),
            final(self).game.board@ == (Seq::<Move>::empty(), State::spec_initial(), spec_next_moves(old(self).board, State::spec_initial())),
            final(self).game.analysis is None,
            final(self).effects@ == old(self).effects@ + seq![ClientEffect::SaveProfile, ClientEffect::ResetAi]
                + (if final(self).game.players.0@[0].0 is AI { analysis_request(final(self).game.players.0@, State::spec_initial()) } else { Seq::empty() }),
    {
        if player_win {
            self.profile.progress.win();
        } else {
            self.profile.progress.loss();
        }
        self.effects.push(ClientEffect::SaveProfile);
        let game_players = self.profile.progress.players(&self.profile.player);
        self.game = game_for(&self.board, game_players);
        self.effects.push(ClientEffect::ResetAi);
        let ghost mid = self.effects@;
        if self.game.waiting_on_ai() {
            self.request_ai_analysis();
        }
    }
}

/// The events time brings to what a client shows, after `delta` more milliseconds: a
/// victory shown long enough ends the game as a win or a loss of the person; a move
/// animated long enough gives way to its victory, or to awaiting the player to move.
pub open spec fn time_events(is: InteractionState, delta: Milliseconds, h: HumanPlayer, ps: Seq<(PlayerActual, PlayerState)>,
    s: State, r: Seq<ClientLocalEvent>) -> bool {
    match is {
        InteractionState::AwaitingInput { .. } => r.len() == 0,
        InteractionState::WaitingVictory { player, elapsed } => if elapsed + delta >= VICTORY_WAIT {
            r.len() == 1 && (if player.spec_is_human(h) { r[0] is PlayerWin } else { r[0] is PlayerLoss })
        } else {
            r.len() == 0
        },
        InteractionState::AnimatingMove { winner, elapsed, .. } => if elapsed + delta >= ANIMATION_WAIT {
            &&& r.len() == 1
            &&& r[0] matches ClientLocalEvent::NewInteractionState(next)
            &&& match winner {
                Some(w) => next matches InteractionState::WaitingVictory { player, elapsed } && player.same(w) && elapsed == 0,
                None => next matches InteractionState::AwaitingInput { player } && player.same(ps[s.to_move.0 as int].0),
            }
        } else {
            r.len() == 0
        },
    }
}

/// What is shown after `delta` more milliseconds: the time spent on a victory or an
/// animation grows by `delta`; awaiting stays as it is.
pub open spec fn time_passed(is: InteractionState, delta: Milliseconds) -> InteractionState {
    match is {
        InteractionState::AwaitingInput { player } => InteractionState::AwaitingInput { player },
        InteractionState::WaitingVictory { player, elapsed } => InteractionState::WaitingVictory { player, elapsed: (elapsed + delta) as u64 },
        InteractionState::AnimatingMove { prior_state, mve, player, elapsed, winner } =>
            InteractionState::AnimatingMove { prior_state, mve, player, elapsed: (elapsed + delta) as u64, winner },
    }
}

/// The time spent on what is shown can grow by `delta`.
pub open spec fn time_fits(is: InteractionState, delta: Milliseconds) -> bool {
    match is {
        InteractionState::AwaitingInput { .. } => true,
        InteractionState::WaitingVictory { elapsed, .. } => elapsed + delta <= u64::MAX,
        InteractionState::AnimatingMove { elapsed, .. } => elapsed + delta <= u64::MAX,
    }
}

impl SantoriniClient {
    /// Lets `delta` milliseconds pass on what is shown (see `time_passed`) and returns the
    /// events that brings (see `time_events`).
    pub fn time_passes_for_interaction_state(&mut self, delta: Milliseconds) -> (r: Vec<ClientLocalEvent>)
        requires
            old(self).wf(),
            time_fits(old(self).game.interactivity, delta),
        ensures
            final(self).profile == old(self).profile,
            final(self).board == old(self).board,
            final(self).effects == old(self).effects,
            final(self).game.board == old(self).game.board,
            final(self).game.players == old(self).game.players,
            final(self).game.tentative == old(self).game.tentative,
            final(self).game.analysis == old(self).game.analysis,
            final(self).game.interactivity == time_passed(old(self).game.interactivity, delta),
            time_events(old(self).game.interactivity, delta, old(self).profile.player, old(self).game.players.0@,
                old(self).game.board@.1, r@),
            final(self).wf(),
    {
        proof {
            self.game.board.lemma_wf();
        }
        let mut events: Vec<ClientLocalEvent> = Vec::new();
        match &mut self.game.interactivity {
            InteractionState::AwaitingInput { .. } => {},
            InteractionState::WaitingVictory { player, elapsed } => {
                *elapsed = *elapsed + delta;
                if *elapsed >= VICTORY_WAIT {
                    if player.is_human(&self.profile.player) {
                        events.push(ClientLocalEvent::PlayerWin);
                    } else {
                        events.push(ClientLocalEvent::PlayerLoss);
                    }
                }
            },
            InteractionState::AnimatingMove { elapsed, winner, .. } => {
                *elapsed = *elapsed + delta;
                if *elapsed >= ANIMATION_WAIT {
                    let is = match winner {
                        Some(player) => InteractionState::WaitingVictory { player: player.duplicate(), elapsed: 0 },
                        None => InteractionState::awaiting_input(self.game.board.state(), &self.game.players),
                    };
                    events.push(ClientLocalEvent::NewInteractionState(is));
                }
            },
        }
        events
    }
}

/// What the person `h` sees at its first place, if it is connected there.
pub open spec fn human_ui_of(ps: Seq<(PlayerActual, PlayerState)>, h: HumanPlayer) -> Option<UIState> {
    if exists|i: usize| #[trigger] first_where(ps, is_person(h), Some(i)) {
        let i = choose|i: usize| #[trigger] first_where(ps, is_person(h), Some(i));
        match ps[i as int].1 {
            PlayerState::Connected(ui) => Some(ui),
            PlayerState::Disconnected => None,
        }
    } else {
        None
    }
}

/// The events a click brings: when a computer player is awaited and its report is
/// final with a move on offer, that move; when the person is awaited, a left click on
/// a pointed square that some move goes on with clicks it, and otherwise a right click
/// takes back the last clicked square.
pub open spec fn input_events(g: ClientGame, h: HumanPlayer, left_released: bool, right_released: bool) -> Seq<ClientLocalEvent> {
    match g.interactivity {
        InteractionState::AwaitingInput { player } => match player {
            PlayerActual::AI(_) => match g.analysis {
                Some(a) => match a.best_move {
                    Some(b) => if a.terminal && g.board@.2.contains(b.0) {
                        seq![ClientLocalEvent::PlayMove(b.0, Some(b.1))]
                    } else {
                        Seq::empty()
                    },
                    None => Seq::empty(),
                },
                None => Seq::empty(),
            },
            PlayerActual::Human(_) => match human_ui_of(g.players.0@, h) {
                Some(ui) => if left_released {
                    match ui.tentative_slot {
                        Some(sl) => if tentative_count(g.board@.2, ui.current_slots@, Some(sl)) > 0 {
                            seq![ClientLocalEvent::PushCurrentSlot(sl)]
                        } else {
                            Seq::empty()
                        },
                        None => Seq::empty(),
                    }
                } else if right_released && ui.current_slots@.len() > 0 {
                    seq![ClientLocalEvent::PopCurrentSlot]
                } else {
                    Seq::empty()
                },
                None => Seq::empty(),
            },
        },
        _ => Seq::empty(),
    }
}

impl SantoriniClient {
    /// What the person sees at its first place, if connected there.
    fn human_ui(&self) -> (r: Option<&UIState>)
        requires
            self.wf(),
        ensures
            r matches Some(ui) ==> human_ui_of(self.game.players.0@, self.profile.player) == Some(*ui) && ui_ok(*ui),
            r is None ==> human_ui_of(self.game.players.0@, self.profile.player) is None,
    {
        let ghost ps = self.game.players.0@;
        let ghost h = self.profile.player;
        let r = self.game.players.human_ui_state(&self.profile.player);
        proof {
            if exists|i: usize| #[trigger] first_where(ps, is_person(h), Some(i)) {
                let i = choose|i: usize| #[trigger] first_where(ps, is_person(h), Some(i));
                match r {
                    Some(ui) => {
                        let k = choose|k: usize| #[trigger] first_where(ps, is_person(h), Some(k)) && ps[k as int].1 == PlayerState::Connected(*ui);
                        lemma_first_where_unique(ps, is_person(h), i, k);
                    },
                    None => {},
                }
            }
        }
        r
    }

    /// The events the clicks of this frame bring (see `input_events`).
    pub fn respond_to_human_input(&self, left_released: bool, right_released: bool) -> (r: Vec<ClientLocalEvent>)
        requires
            self.wf(),
        ensures
            r@ == input_events(self.game, self.profile.player, left_released, right_released),
    {
        let mut events: Vec<ClientLocalEvent> = Vec::new();
        match &self.game.interactivity {
            InteractionState::AwaitingInput { player: PlayerActual::AI(_) } => {
                if let Some(analysis) = &self.game.analysis {
                    if analysis.terminal {
                        if let Some((mve, h)) = analysis.best_move {
                            if contains_move(self.game.board.legal_moves(), mve) {
                                events.push(ClientLocalEvent::PlayMove(mve, Some(h)));
                            }
                        }
                    }
                }
            },
            InteractionState::AwaitingInput { player: PlayerActual::Human(_) } => {
                if let Some(ui) = self.human_ui() {
                    if left_released {
                        if let Some(sl) = ui.tentative_slot {
                            let move_count = moves_continuing(self.game.board.legal_moves(), &ui.current_slots, ui.tentative_slot);
                            if move_count > 0 {
                                events.push(ClientLocalEvent::PushCurrentSlot(sl));
                            }
                        }
                    } else if right_released && ui.current_slots.len() > 0 {
                        events.push(ClientLocalEvent::PopCurrentSlot);
                    }
                }
            },
            InteractionState::WaitingVictory { .. } => {},
            InteractionState::AnimatingMove { .. } => {},
        }
        assert(events@ =~= input_events(self.game, self.profile.player, left_released, right_released));
        events
    }
}

/// Each square of `slots` is one of the 32 of a board.
pub open spec fn slots_on_board(slots: Seq<Slot>) -> bool {
    forall|i: int| 0 <= i < slots.len() ==> 0 <= #[trigger] slots[i].0 < 32
}

/// Squares of the board only make the picture of a move well defined.
pub proof fn lemma_modify_ok_on_board(s: State, slots: Seq<Slot>)
    requires
        slots_on_board(slots),
    ensures
        modify_ok(s, slots),
{
    if slots.len() >= 2 {
        assert(0 <= slots[1].0 < 32);
    }
    if slots.len() >= 3 {
        assert(0 <= slots[2].0 < 32);
    }
}

/// The picture `t` is the one of the move the person enters in `g`: none when the person
/// is not connected at its first place, else that of its clicked and pointed squares.
pub open spec fn tentative_of(g: ClientGame, h: HumanPlayer, t: Option<TentativeState>) -> bool {
    match human_ui_of(g.players.0@, h) {
        Some(ui) => t matches Some(tt)
            && tt.move_count == tentative_count(g.board@.2, ui.current_slots@, ui.tentative_slot)
            && tt.proposed_state == spec_modify_state(g.board@.1, entered(g.board@.2, ui.current_slots@, ui.tentative_slot)),
        None => t is None,
    }
}

/// The report a client keeps, if any, is of the position it shows.
pub open spec fn analysis_of_board(g: ClientGame) -> bool {
    g.analysis matches Some(a) ==> a.state == g.board@.1
}

/// An event a client can take: a clicked square of the board with room to click it, a
/// move that is on offer, and a win that the progress can count.
pub open spec fn event_ok(c: SantoriniClient, ev: ClientLocalEvent) -> bool {
    match ev {
        ClientLocalEvent::PushCurrentSlot(slot) => 0 <= slot.0 < 32
            && (human_ui_of(c.game.players.0@, c.profile.player) matches Some(ui) ==> ui.current_slots@.len() + 2 < usize::MAX),
        ClientLocalEvent::PlayMove(m, _) => c.game.board@.2.contains(m),
        ClientLocalEvent::PlayerWin => c.profile.progress.wins < usize::MAX && c.profile.progress.level < usize::MAX,
        _ => true,
    }
}

impl SantoriniClient {
    /// Recomputes the picture of the move the person enters (see `tentative_of`).
    pub fn recalculate_tentative(&mut self)
        requires
            old(self).wf(),
        ensures
            final(self).wf(),
            final(self).profile == old(self).profile,
            final(self).board == old(self).board,
            final(self).effects == old(self).effects,
            final(self).game.board == old(self).game.board,
            final(self).game.players == old(self).game.players,
            final(self).game.interactivity == old(self).game.interactivity,
            final(self).game.analysis == old(self).game.analysis,
            tentative_of(final(self).game, final(self).profile.player, final(self).game.tentative),
    {
        proof {
            self.game.board.lemma_wf();
        }
        let t = match self.human_ui() {
            Some(ui) => {
                proof {
                    let e = entered(self.game.board@.2, ui.current_slots@, ui.tentative_slot);
                    assert(slots_on_board(e)) by {
                        if e.len() > ui.current_slots@.len() {
                            assert forall|k: int| 0 <= k < self.game.board@.2.len() implies move_on_board(#[trigger] self.game.board@.2[k]) by {
                                assert(player_legal(self.game.board@.1, self.game.board@.2[k]));
                            }
                            lemma_continuing_square_on_board(self.game.board@.2, ui.current_slots@, ui.tentative_slot->0);
                            assert forall|i: int| 0 <= i < e.len() implies 0 <= #[trigger] e[i].0 < 32 by {
                                if i < ui.current_slots@.len() {
                                    assert(e[i] == ui.current_slots@[i]);
                                }
                            }
                        } else {
                            assert(e == ui.current_slots@);
                        }
                    }
                    lemma_modify_ok_on_board(self.game.board@.1, e);
                }
                Some(TentativeState::from(&self.game.board, ui))
            },
            None => None,
        };
        self.game.tentative = t;
    }
}

/// `after` is `before` with the person `h` seeing, at its first place when connected
/// there, what `change` makes of what it saw; every other place unchanged.
pub open spec fn ui_changed(before: Seq<(PlayerActual, PlayerState)>, after: Seq<(PlayerActual, PlayerState)>, h: HumanPlayer,
    change: spec_fn(UIState, UIState) -> bool) -> bool {
    &&& after.len() == before.len()
    &&& forall|j: int| 0 <= j < before.len() ==> {
        if first_where(before, is_person(h), Some(j as usize)) && before[j].1 is Connected {
            &&& (#[trigger] after[j]).0 == before[j].0
            &&& after[j].1 matches PlayerState::Connected(ui2) && before[j].1 matches PlayerState::Connected(ui) && change(ui, ui2)
        } else {
            after[j] == before[j]
        }
    }
}

pub open spec fn set_pointed(slot: Option<Slot>) -> spec_fn(UIState, UIState) -> bool {
    |a: UIState, b: UIState| b.current_slots@ == a.current_slots@ && b.tentative_slot == slot
}

pub open spec fn clicked(slot: Slot) -> spec_fn(UIState, UIState) -> bool {
    |a: UIState, b: UIState| b.current_slots@ == a.current_slots@.push(slot) && b.tentative_slot == a.tentative_slot
}

pub open spec fn taken_back() -> spec_fn(UIState, UIState) -> bool {
    |a: UIState, b: UIState| b.current_slots@ == (if a.current_slots@.len() > 0 { a.current_slots@.drop_last() } else { a.current_slots@ })
        && b.tentative_slot == a.tentative_slot
}

/// The game's record after the move `m` from the record `v`.
pub open spec fn record_after(v: (Seq<Move>, State, Seq<Move>), m: Move) -> (Seq<Move>, State, Seq<Move>) {
    (v.0.push(m), spec_apply(v.1, m), spec_player_moves(spec_apply(v.1, m)))
}

impl SantoriniClient {
    /// Changes what the person sees at its first place, if connected there, by `change`.
    fn change_human_ui(&mut self, event: ClientLocalEvent) -> (r: Option<Move>)
        requires
            old(self).wf(),
            event_ok(*old(self), event),
            event is UpdateTentativeSlot || event is PushCurrentSlot || event is PopCurrentSlot,
        ensures
            final(self).wf(),
            final(self).profile == old(self).profile,
            final(self).board == old(self).board,
            final(self).game.board == old(self).game.board,
            final(self).game.tentative == old(self).game.tentative,
            final(self).game.interactivity == old(self).game.interactivity,
            final(self).game.analysis == old(self).game.analysis,
            match event {
                ClientLocalEvent::UpdateTentativeSlot(slot) => ui_changed(old(self).game.players.0@, final(self).game.players.0@,
                    old(self).profile.player, set_pointed(slot)) && final(self).effects == old(self).effects && r is None,
                ClientLocalEvent::PushCurrentSlot(slot) => ui_changed(old(self).game.players.0@, final(self).game.players.0@,
                    old(self).profile.player, clicked(slot)) && match human_ui_of(old(self).game.players.0@, old(self).profile.player) {
                        Some(ui) => final(self).effects@ == old(self).effects@.push(ClientEffect::Sound(SoundCue::PlaceTile))
                            && first_completed(old(self).game.board@.2, ui.current_slots@.push(slot), r),
                        None => final(self).effects == old(self).effects && r is None
                            && final(self).game.players.0@ == old(self).game.players.0@,
                    },
                ClientLocalEvent::PopCurrentSlot => ui_changed(old(self).game.players.0@, final(self).game.players.0@,
                    old(self).profile.player, taken_back()) && r is None && match human_ui_of(old(self).game.players.0@, old(self).profile.player) {
                        Some(ui) => final(self).effects@ == old(self).effects@.push(ClientEffect::Sound(SoundCue::Select)),
                        None => final(self).effects == old(self).effects,
                    },
                _ => true,
            },
    {
        let ghost before = self.game.players.0@;
        let ghost h = self.profile.player;
        let ghost hui = human_ui_of(before, h);
        let mut completed: Option<Move> = None;
        match self.game.players.mut_human_ui_state(&self.profile.player) {
            Some(ui) => {
                let ghost ui0 = *ui;
                proof {
                    let i = choose|i: usize| #[trigger] first_where(before, is_person(h), Some(i))
                        && before[i as int].1 == PlayerState::Connected(*ui);
                    let k = choose|k: usize| #[trigger] first_where(before, is_person(h), Some(k));
                    lemma_first_where_unique(before, is_person(h), i, k);
                    assert(hui == Some(ui0));
                    assert(ui_ok(ui0));
                }
                match event {
                    ClientLocalEvent::UpdateTentativeSlot(slot) => {
                        ui.tentative_slot = slot;
                    },
                    ClientLocalEvent::PushCurrentSlot(slot) => {
                        ui.current_slots.push(slot);
                        self.effects.push(ClientEffect::Sound(SoundCue::PlaceTile));
                        completed = completed_move(self.game.board.legal_moves(), &ui.current_slots);
                    },
                    _ => {
                        ui.current_slots.pop();
                        self.effects.push(ClientEffect::Sound(SoundCue::Select));
                    },
                }
                proof {
                    let i = choose|i: usize| #[trigger] first_where(before, is_person(h), Some(i))
                        && before[i as int].1 == PlayerState::Connected(ui0)
                        && self.game.players.0@ == before.update(i as int, (before[i as int].0, PlayerState::Connected(*ui)));
                    assert forall|j: int| 0 <= j < before.len() && #[trigger] first_where(before, is_person(h), Some(j as usize)) implies j == i by {
                        lemma_first_where_unique(before, is_person(h), i, j as usize);
                    }
                    assert(ui_ok(*ui)) by {
                        if ui.current_slots@.len() > 0 {
                            assert forall|x: int| 0 <= x < ui.current_slots@.len() implies 0 <= #[trigger] ui.current_slots@[x].0 < 32 by {
                                if x < ui0.current_slots@.len() {
                                    assert(ui.current_slots@[x] == ui0.current_slots@[x]);
                                }
                            }
                        }
                    }
                    assert(players_ok(self.game.players.0@)) by {
                        assert forall|j: int| 0 <= j < 2 implies ((#[trigger] self.game.players.0@[j]).1 matches PlayerState::Connected(u) ==> ui_ok(u)) by {
                            if j != i {
                                assert(self.game.players.0@[j] == before[j]);
                            }
                        }
                    }
                }
            },
            None => {},
        }
        completed
    }

    /// Takes an event, and then recomputes the picture of the move being entered. A click
    /// that completes a move plays it; a move is played as `play_move` says; a win or a
    /// loss ends the game as `complete_game` says; a report is kept when it is of the
    /// position shown.
    pub fn process(&mut self, event: ClientLocalEvent)
        requires
            old(self).wf(),
            event_ok(*old(self), event),
        ensures
            final(self).wf(),
            final(self).board == old(self).board,
            tentative_of(final(self).game, final(self).profile.player, final(self).game.tentative),
            analysis_of_board(old(self).game) ==> analysis_of_board(final(self).game),
            match event {
                ClientLocalEvent::UpdateTentativeSlot(slot) => final(self).profile == old(self).profile
                    && final(self).game.board == old(self).game.board && final(self).effects == old(self).effects
                    && ui_changed(old(self).game.players.0@, final(self).game.players.0@, old(self).profile.player, set_pointed(slot))
                    && final(self).game.analysis == old(self).game.analysis,
                ClientLocalEvent::PushCurrentSlot(slot) => final(self).profile == old(self).profile
                    && match human_ui_of(old(self).game.players.0@, old(self).profile.player) {
                        Some(ui) => final(self).effects@.len() > old(self).effects@.len()
                            && final(self).effects@.subrange(0, old(self).effects@.len() as int + 1) == old(self).effects@.push(ClientEffect::Sound(SoundCue::PlaceTile))
                            && (first_completed(old(self).game.board@.2, ui.current_slots@.push(slot), None) ==>
                                final(self).game.board == old(self).game.board
                                && final(self).game.analysis == old(self).game.analysis
                                && ui_changed(old(self).game.players.0@, final(self).game.players.0@, old(self).profile.player, clicked(slot)))
                            && forall|m: Move| #[trigger] first_completed(old(self).game.board@.2, ui.current_slots@.push(slot), Some(m)) ==>
                                final(self).game.board@ == record_after(old(self).game.board@, m) && final(self).game.analysis is None,
                        None => final(self).game.board == old(self).game.board && final(self).effects == old(self).effects
                            && final(self).game.players.0@ == old(self).game.players.0@
                            && final(self).game.analysis == old(self).game.analysis,
                    },
                ClientLocalEvent::PopCurrentSlot => final(self).profile == old(self).profile
                    && final(self).game.board == old(self).game.board
                    && ui_changed(old(self).game.players.0@, final(self).game.players.0@, old(self).profile.player, taken_back())
                    && final(self).effects@ == (if human_ui_of(old(self).game.players.0@, old(self).profile.player) is Some {
                        old(self).effects@.push(ClientEffect::Sound(SoundCue::Select))
                    } else {
                        old(self).effects@
                    })
                    && final(self).game.analysis == old(self).game.analysis,
                ClientLocalEvent::PlayMove(m, _) => final(self).profile == old(self).profile
                    && final(self).game.board@ == record_after(old(self).game.board@, m) && final(self).game.analysis is None,
                ClientLocalEvent::PlayerWin => final(self).profile.progress == spec_win(old(self).profile.progress)
                    && final(self).game.board@.0.len() == 0 && final(self).game.analysis is None,
                ClientLocalEvent::PlayerLoss => final(self).profile.progress == spec_loss(old(self).profile.progress)
                    && final(self).game.board@.0.len() == 0 && final(self).game.analysis is None,
                ClientLocalEvent::NewInteractionState(is) => final(self).profile == old(self).profile
                    && final(self).game.board == old(self).game.board && final(self).game.interactivity == is
                    && final(self).game.analysis == old(self).game.analysis,
                ClientLocalEvent::NewAnalysis(a) => final(self).profile == old(self).profile
                    && final(self).game.board == old(self).game.board
                    && final(self).game.analysis == (if a.state == old(self).game.board@.1 { Some(a) } else { old(self).game.analysis }),
            },
    {
        match event {
            ClientLocalEvent::UpdateTentativeSlot(_) => {
                self.change_human_ui(event);
            },
            ClientLocalEvent::PushCurrentSlot(_) => {
                let completed = self.change_human_ui(event);
                if let Some(mve) = completed {
                    proof {
                        assert(self.game.board@.2.contains(mve));
                    }
                    self.play_move(mve);
                }
            },
            ClientLocalEvent::PopCurrentSlot => {
                self.change_human_ui(event);
            },
            ClientLocalEvent::PlayMove(mve, _) => {
                self.play_move(mve);
            },
            ClientLocalEvent::NewInteractionState(is) => {
                self.game.interactivity = is;
            },
            ClientLocalEvent::PlayerLoss => {
                self.complete_game(false);
            },
            ClientLocalEvent::PlayerWin => {
                self.complete_game(true);
            },
            ClientLocalEvent::NewAnalysis(analysis) => {
                if analysis.state.same_as(self.game.board.state()) {
                    self.game.analysis = Some(analysis);
                }
            },
        }
        self.recalculate_tentative();
    }
}

/// The line a client shows about what is awaited: the computer's move, the person's
/// move, the person's victory or defeat, or a move being shown.
pub open spec fn spec_status_text(is: InteractionState) -> Seq<char> {
    match is {
        InteractionState::AwaitingInput { player: PlayerActual::AI(_) } => "Waiting on AI Opponent ..."@,
        InteractionState::AwaitingInput { player: PlayerActual::Human(_) } => "Your move."@,
        InteractionState::WaitingVictory { player: PlayerActual::Human(_), .. } => "Victory!"@,
        InteractionState::WaitingVictory { player: PlayerActual::AI(_), .. } => "Defeat!"@,
        InteractionState::AnimatingMove { .. } => "Moving ..."@,
    }
}

pub fn status_text(is: &InteractionState) -> (r: &'static str)
    ensures
        r@ == spec_status_text(*is),
{
    match is {
        InteractionState::AwaitingInput { player: PlayerActual::AI(_) } => "Waiting on AI Opponent ...",
        InteractionState::AwaitingInput { player: PlayerActual::Human(_) } => "Your move.",
        InteractionState::WaitingVictory { player: PlayerActual::Human(_), .. } => "Victory!",
        InteractionState::WaitingVictory { player: PlayerActual::AI(_), .. } => "Defeat!",
        InteractionState::AnimatingMove { .. } => "Moving ...",
    }
}

} // verus!
