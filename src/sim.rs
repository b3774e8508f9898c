use vstd::prelude::*;

use crate::card::{is_deck_of, Card, Deck};
use crate::game::{advanced, dealt_from_deck, GameState, GameStep, Player, StepCommand, OPENING_HAND};

verus! {

/// The command a one-character token names; any other input is invalid.
pub open spec fn command_of(s: Seq<char>) -> StepCommand {
    if s.len() != 1 {
        StepCommand::Invalid
    } else if s[0] == 's' {
        StepCommand::StepPhase
    } else if s[0] == 't' {
        StepCommand::StepTurn
    } else if s[0] == 'g' {
        StepCommand::RunGame
    } else if s[0] == 'd' {
        StepCommand::RunDeck
    } else if s[0] == 'r' {
        StepCommand::RunAll
    } else if s[0] == 'q' {
        StepCommand::Quit
    } else {
        StepCommand::Invalid
    }
}

/// Reads an operator command token (already trimmed of surrounding whitespace).
pub fn parse_command(input: &str) -> (r: StepCommand)
    ensures
        r == command_of(input@),
{
    let mut chars = input.chars();
    let first = chars.next();
    let second = chars.next();
    match (first, second) {
        (Some(c), None) => {
            if c == 's' {
                StepCommand::StepPhase
            } else if c == 't' {
                StepCommand::StepTurn
            } else if c == 'g' {
                StepCommand::RunGame
            } else if c == 'd' {
                StepCommand::RunDeck
            } else if c == 'r' {
                StepCommand::RunAll
            } else if c == 'q' {
                StepCommand::Quit
            } else {
                StepCommand::Invalid
            }
        },
        _ => StepCommand::Invalid,
    }
}


/// Cards left in all libraries of the match.
pub open spec fn library_total(ps: Seq<Player>) -> nat
    decreases ps.len(),
{
    if ps.len() == 0 {
        0
    } else {
        library_total(ps.drop_last()) + ps.last().zones.library@.len()
    }
}

/// Position of a phase counted down from the main phase to the draw step.
pub open spec fn phase_rank(st: GameStep) -> nat {
    match st {
        GameStep::Main => 7,
        GameStep::Combat => 6,
        GameStep::EndTurn => 5,
        GameStep::StartTurn => 4,
        GameStep::Untap => 3,
        GameStep::Upkeep => 2,
        GameStep::Draw => 1,
        GameStep::GameOver => 0,
    }
}

/// Whether the turn counter is still to be incremented before the next draw.
pub open spec fn turn_pending(st: GameStep) -> nat {
    match st {
        GameStep::Main | GameStep::Combat | GameStep::EndTurn | GameStep::StartTurn => 1,
        _ => 0,
    }
}

/// A measure that every transition out of a live state decreases.
pub open spec fn remaining_work(g: GameState) -> nat {
    8 * library_total(g.players@) + phase_rank(g.step)
}

/// The largest turn count the match can still reach: each further turn needs a card to draw.
pub open spec fn turn_budget(g: GameState) -> int {
    g.turns + library_total(g.players@) + turn_pending(g.step)
}

/// Phases left before the next turn starts.
pub open spec fn phases_to_turn_end(st: GameStep) -> nat {
    match st {
        GameStep::Untap => 6,
        GameStep::Upkeep => 5,
        GameStep::Draw => 4,
        GameStep::Main => 3,
        GameStep::Combat => 2,
        GameStep::EndTurn => 1,
        _ => 0,
    }
}

pub proof fn lemma_library_total_except(a: Seq<Player>, b: Seq<Player>, i: int)
    requires
        a.len() == b.len(),
        0 <= i < a.len(),
        forall|j: int| 0 <= j < a.len() && j != i ==> (#[trigger] a[j]).zones.library@.len() == b[j].zones.library@.len(),
    ensures
        library_total(b) + a[i].zones.library@.len() == library_total(a) + b[i].zones.library@.len(),
    decreases a.len(),
{
    if i < a.len() - 1 {
        assert forall|j: int| 0 <= j < a.drop_last().len() && j != i implies
            (#[trigger] a.drop_last()[j]).zones.library@.len() == b.drop_last()[j].zones.library@.len() by {
            assert(a.drop_last()[j] == a[j]);
            assert(b.drop_last()[j] == b[j]);
        }
        lemma_library_total_except(a.drop_last(), b.drop_last(), i);
    } else {
        lemma_library_total_same(a.drop_last(), b.drop_last());
    }
}

pub proof fn lemma_library_total_same(a: Seq<Player>, b: Seq<Player>)
    requires
        a.len() == b.len(),
        forall|j: int| 0 <= j < a.len() ==> (#[trigger] a[j]).zones.library@.len() == b[j].zones.library@.len(),
    ensures
        library_total(a) == library_total(b),
    decreases a.len(),
{
    if a.len() > 0 {
        assert forall|j: int| 0 <= j < a.drop_last().len() implies
            (#[trigger] a.drop_last()[j]).zones.library@.len() == b.drop_last()[j].zones.library@.len() by {
            assert(a.drop_last()[j] == a[j]);
            assert(b.drop_last()[j] == b[j]);
        }
        lemma_library_total_same(a.drop_last(), b.drop_last());
    }
}

/// Every transition out of a live state makes progress and stays within the turn budget.
pub proof fn lemma_step_progress(s: GameState, t: GameState)
    requires
        s.wf(),
        advanced(s, t),
        s.step != GameStep::GameOver,
    ensures
        remaining_work(t) < remaining_work(s),
        turn_budget(t) <= turn_budget(s),
        s.step != GameStep::StartTurn ==> phases_to_turn_end(t.step) < phases_to_turn_end(s.step),
{
    let i = s.current_player_index as int;
    match s.step {
        GameStep::StartTurn | GameStep::EndTurn => {},
        _ => {
            assert forall|j: int| 0 <= j < s.players@.len() && j != i implies
                (#[trigger] s.players@[j]).zones.library@.len() == t.players@[j].zones.library@.len() by {
                assert(t.players@[j].zones.library@ == s.players@[j].zones.library@);
            }
            lemma_library_total_except(s.players@, t.players@, i);
        },
    }
}


/// `tr` is a run of the engine: each state but the last is live and advances to the next.
pub open spec fn is_run(tr: Seq<GameState>) -> bool {
    &&& tr.len() >= 1
    &&& forall|i: int|
        0 <= i < tr.len() - 1 ==> (#[trigger] tr[i]).step != GameStep::GameOver && advanced(
            tr[i],
            tr[i + 1],
        )
}

/// `tr` is a run of at least one transition that passes no turn start on the way.
pub open spec fn is_turn_run(tr: Seq<GameState>) -> bool {
    &&& is_run(tr)
    &&& tr.len() >= 2
    &&& forall|i: int| 0 < i < tr.len() - 1 ==> (#[trigger] tr[i]).step != GameStep::StartTurn
}

proof fn lemma_extend_run(tr: Seq<GameState>, t: GameState)
    requires
        is_run(tr),
        tr.last().step != GameStep::GameOver,
        advanced(tr.last(), t),
    ensures
        is_run(tr.push(t)),
        tr.push(t)[0] == tr[0],
        tr.push(t).last() == t,
{
    assert forall|i: int| 0 <= i < tr.push(t).len() - 1 implies (#[trigger] tr.push(t)[i]).step
        != GameStep::GameOver && advanced(tr.push(t)[i], tr.push(t)[i + 1]) by {
        assert(tr.push(t)[i] == tr[i]);
        if i < tr.len() - 1 {
            assert(tr.push(t)[i + 1] == tr[i + 1]);
        }
    }
}

impl GameState {
    /// Advances phase by phase until the match is over.
    pub fn play_out(&mut self)
        requires
            old(self).wf(),
            turn_budget(*old(self)) <= u32::MAX,
        ensures
            final(self).wf(),
            final(self).step == GameStep::GameOver,
            exists|tr: Seq<GameState>|
                is_run(tr) && tr[0] == *old(self) && #[trigger] tr.last() == *final(self),
            old(self).turns <= final(self).turns <= turn_budget(*old(self)),
            old(self).step == GameStep::StartTurn ==> old(self).turns < final(self).turns,
            final(self).players@.len() == old(self).players@.len(),
    {
        let ghost s0 = *self;
        let ghost budget = turn_budget(*self);
        let ghost t0 = self.turns;
        let ghost n0 = self.players@.len();
        let ghost mut tr: Seq<GameState> = seq![*self];
        while !self.is_game_over()
            invariant
                self.wf(),
                self.players@.len() == n0,
                turn_budget(*self) <= budget,
                budget <= u32::MAX,
                t0 <= self.turns,
                t0 == s0.turns,
                s0.step == GameStep::StartTurn ==> t0 < self.turns || self.step == GameStep::StartTurn,
                is_run(tr),
                tr[0] == s0,
                tr.last() == *self,
            decreases remaining_work(*self),
        {
            let ghost before = *self;
            self.step();
            proof {
                lemma_step_progress(before, *self);
                lemma_extend_run(tr, *self);
                tr = tr.push(*self);
            }
        }
    }

    /// Advances at least one phase, and on until the next turn starts or the match is over.
    pub fn step_turn(&mut self)
        requires
            old(self).wf(),
            old(self).step != GameStep::GameOver,
            turn_budget(*old(self)) <= u32::MAX,
        ensures
            final(self).wf(),
            final(self).step == GameStep::StartTurn || final(self).step == GameStep::GameOver,
            exists|tr: Seq<GameState>|
                is_turn_run(tr) && tr[0] == *old(self) && #[trigger] tr.last() == *final(self),
            final(self).turns == old(self).turns + if old(self).step == GameStep::StartTurn {
                1int
            } else {
                0int
            },
            turn_budget(*final(self)) <= turn_budget(*old(self)),
            final(self).players@.len() == old(self).players@.len(),
    {
        let ghost budget = turn_budget(*self);
        let ghost n0 = self.players@.len();
        let ghost first = *self;
        self.step();
        let ghost mut tr: Seq<GameState> = seq![first, *self];
        proof {
            lemma_step_progress(first, *self);
        }
        while self.step != GameStep::StartTurn && self.step != GameStep::GameOver
            invariant
                self.wf(),
                self.players@.len() == n0,
                turn_budget(*self) <= budget,
                budget <= u32::MAX,
                self.turns == first.turns + if first.step == GameStep::StartTurn {
                    1int
                } else {
                    0int
                },
                is_turn_run(tr),
                tr[0] == first,
                tr.last() == *self,
            decreases phases_to_turn_end(self.step),
        {
            let ghost before = *self;
            self.step();
            proof {
                lemma_step_progress(before, *self);
                lemma_extend_run(tr, *self);
                assert forall|i: int| 0 < i < tr.push(*self).len() - 1 implies (#[trigger] tr.push(
                    *self,
                )[i]).step != GameStep::StartTurn by {
                    assert(tr.push(*self)[i] == tr[i]);
                }
                tr = tr.push(*self);
            }
        }
    }
}

/// What the driver does next.
#[derive(Clone, Copy, Debug, PartialEq, Eq, Structural)]
pub enum DriverAction {
    /// Stop driving this match.
    Finish,
    /// Advance one phase, show the state, then read a command.
    StepPhase,
    /// Advance one turn, show the state, then read a command.
    StepTurn,
    /// Play the match out, show the result, read a command, then stop.
    RunAndReport,
    /// Play the match out silently, then stop.
    RunSilently,
    /// Read a command without touching the match.
    Prompt,
}

pub open spec fn action_for(mode: StepCommand, game_over: bool) -> DriverAction {
    match mode {
        StepCommand::StepPhase => if game_over { DriverAction::Finish } else { DriverAction::StepPhase },
        StepCommand::StepTurn => if game_over { DriverAction::Finish } else { DriverAction::StepTurn },
        StepCommand::RunGame => DriverAction::RunAndReport,
        StepCommand::RunDeck | StepCommand::RunAll => DriverAction::RunSilently,
        StepCommand::Quit => DriverAction::Finish,
        StepCommand::Invalid => DriverAction::Prompt,
    }
}

/// The driver's decision for the current command mode and match state.
pub fn driver_action(mode: StepCommand, game_over: bool) -> (r: DriverAction)
    ensures
        r == action_for(mode, game_over),
{
    match mode {
        StepCommand::StepPhase => if game_over { DriverAction::Finish } else { DriverAction::StepPhase },
        StepCommand::StepTurn => if game_over { DriverAction::Finish } else { DriverAction::StepTurn },
        StepCommand::RunGame => DriverAction::RunAndReport,
        StepCommand::RunDeck | StepCommand::RunAll => DriverAction::RunSilently,
        StepCommand::Quit => DriverAction::Finish,
        StepCommand::Invalid => DriverAction::Prompt,
    }
}

/// Whether the evaluator starts another game: games remain and no quit has been seen.
pub fn should_continue(played: u32, planned: u32, mode: StepCommand) -> (r: bool)
    ensures
        r == (played < planned && mode != StepCommand::Quit),
{
    played < planned && !matches!(mode, StepCommand::Quit)
}

/// Turns-to-death summed over the games played so far.
#[derive(Clone, Copy, Debug, PartialEq, Eq, Structural)]
pub struct Tally {
    pub games: u32,
    pub total_turns: u64,
}

impl Tally {
    /// No sum can outgrow what the games counted could reach.
    pub open spec fn wf(&self) -> bool {
        self.total_turns <= self.games * (u32::MAX as int)
    }

    pub fn new() -> (r: Tally)
        ensures
            r.wf(),
            r.games == 0,
            r.total_turns == 0,
    {
        Tally { games: 0, total_turns: 0 }
    }

    /// Counts one more finished game.
    pub fn record(&mut self, turns: u32)
        requires
            old(self).wf(),
            old(self).games < u32::MAX,
        ensures
            final(self).wf(),
            final(self).games == old(self).games + 1,
            final(self).total_turns == old(self).total_turns + turns,
    {
        proof {
            assert(self.games * (u32::MAX as int) + u32::MAX <= (u32::MAX as int) * (u32::MAX as int))
                by (nonlinear_arith)
                requires
                    self.games < u32::MAX,
            ;
            assert((self.games + 1) * (u32::MAX as int) == self.games * (u32::MAX as int) + u32::MAX)
                by (nonlinear_arith);
        }
        self.games = self.games + 1;
        self.total_turns = self.total_turns + turns as u64;
    }
}

/// Most turns a fresh two-player match on a deck of `n` cards can last: each turn draws a card,
/// and the match ends at the first draw from an empty library.
pub open spec fn max_match_turns(n: nat) -> nat {
    (2 * (n - if n < OPENING_HAND { n } else { OPENING_HAND as nat }) + 1) as nat
}

/// Largest deck for which every turn count of a match fits a `u32`.
pub const MAX_DECK: usize = 2147483647;

/// `g` is a two-player match at the start of its first turn, each player dealt from some
/// ordering of `deck`.
pub open spec fn fresh_match(g: GameState, deck: Seq<Card>) -> bool {
    &&& g.wf()
    &&& g.players@.len() == 2
    &&& g.current_player_index == 0
    &&& g.turns == 0
    &&& g.step == GameStep::StartTurn
    &&& forall|j: int| 0 <= j < 2 ==> dealt_from_deck(#[trigger] g.players@[j], deck)
}

/// `t` is the turns-to-death of some match played out from a fresh two-player match on `deck`.
pub open spec fn match_outcome(deck: Seq<Card>, t: nat) -> bool {
    exists|tr: Seq<GameState>|
        is_run(tr) && fresh_match(tr[0], deck) && (#[trigger] tr.last()).step == GameStep::GameOver
            && tr.last().turns == t
}

/// Every entry of `ts` is the turns-to-death of a match played on `deck`.
pub open spec fn sampled(deck: Seq<Card>, ts: Seq<nat>) -> bool {
    forall|i: int| 0 <= i < ts.len() ==> match_outcome(deck, #[trigger] ts[i])
}

pub open spec fn turns_sum(ts: Seq<nat>) -> nat
    decreases ts.len(),
{
    if ts.len() == 0 {
        0
    } else {
        turns_sum(ts.drop_last()) + ts.last()
    }
}

/// Plays one two-player match with copies of `deck` shuffled with `rng` to the end, returning
/// its turns-to-death.
pub fn play_silent_game(deck: &Deck, rng: &mut rand::rngs::StdRng) -> (r: u32)
    requires
        deck.cards@.len() <= MAX_DECK,
    ensures
        match_outcome(deck.cards@, r as nat),
        1 <= r <= max_match_turns(deck.cards@.len()),
{
    let mut game = GameState::new_with_rng(2, deck, rng);
    let ghost g0 = game;
    assert(fresh_match(g0, deck.cards@));
    proof {
        let ps = game.players@;
        assert(ps.drop_last().drop_last() =~= Seq::<Player>::empty());
        assert(ps.drop_last().last() == ps[0]);
        assert(library_total(ps.drop_last().drop_last()) == 0);
        assert(library_total(ps.drop_last()) == ps[0].zones.library@.len());
        assert(library_total(ps) == ps[0].zones.library@.len() + ps[1].zones.library@.len());
    }
    game.play_out();
    proof {
        let tr = choose|tr: Seq<GameState>| is_run(tr) && tr[0] == g0 && #[trigger] tr.last() == game;
        assert(is_run(tr) && fresh_match(tr[0], deck.cards@) && tr.last().step == GameStep::GameOver
            && tr.last().turns == game.turns);
    }
    game.turns
}

/// Monte Carlo evaluation: plays `games` independent matches on a deck of `lands` forests and
/// `creatures` grizzly bears, each shuffled with `rng`, and sums their turns-to-death.
pub fn evaluate(lands: u32, creatures: u32, games: u32, rng: &mut rand::rngs::StdRng) -> (r: Tally)
    requires
        lands + creatures <= MAX_DECK,
    ensures
        r.wf(),
        r.games == games,
        games <= r.total_turns <= games * max_match_turns((lands + creatures) as nat),
        exists|d: Seq<Card>, ts: Seq<nat>|
            #[trigger] is_deck_of(d, lands as nat, creatures as nat) && #[trigger] sampled(d, ts)
                && ts.len() == games && turns_sum(ts) == r.total_turns,
{
    let deck = Deck::with_counts(lands, creatures);
    let ghost bound = max_match_turns((lands + creatures) as nat);
    let mut tally = Tally::new();
    let ghost mut ts: Seq<nat> = Seq::empty();
    while tally.games < games
        invariant
            is_deck_of(deck.cards@, lands as nat, creatures as nat),
            ts.len() == tally.games,
            turns_sum(ts) == tally.total_turns,
            sampled(deck.cards@, ts),
            tally.wf(),
            tally.games <= games,
            deck.cards@.len() == lands + creatures,
            lands + creatures <= MAX_DECK,
            bound == max_match_turns(deck.cards@.len()),
            tally.games <= tally.total_turns <= tally.games * bound,
        decreases games - tally.games,
    {
        let turns = play_silent_game(&deck, rng);
        proof {
            let next = ts.push(turns as nat);
            assert(next.drop_last() =~= ts);
            assert forall|k: int| 0 <= k < next.len() implies match_outcome(deck.cards@, #[trigger] next[k]) by {
                if k < ts.len() {
                    assert(next[k] == ts[k]);
                }
            }
            ts = next;
        }
        proof {
            assert((tally.games + 1) * bound == tally.games * bound + bound) by (nonlinear_arith);
        }
        tally.record(turns);
    }
    assert(is_deck_of(deck.cards@, lands as nat, creatures as nat) && sampled(deck.cards@, ts));
    tally
}

} // verus!
