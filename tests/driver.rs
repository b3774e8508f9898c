use engine::card::{forest, grizzly_bears, Deck};
use engine::game::{GameState, GameStep, Player, ProgramState, StepCommand, ZoneStore};
use rand::rngs::StdRng;
use rand::SeedableRng;
use engine::sim::{driver_action, evaluate, parse_command, play_silent_game, should_continue, DriverAction, Tally};

#[test]
fn commands_are_single_characters() {
    assert_eq!(parse_command("s"), StepCommand::StepPhase);
    assert_eq!(parse_command("t"), StepCommand::StepTurn);
    assert_eq!(parse_command("g"), StepCommand::RunGame);
    assert_eq!(parse_command("d"), StepCommand::RunDeck);
    assert_eq!(parse_command("r"), StepCommand::RunAll);
    assert_eq!(parse_command("q"), StepCommand::Quit);
    assert_eq!(parse_command("x"), StepCommand::Invalid);
    assert_eq!(parse_command(""), StepCommand::Invalid);
    assert_eq!(parse_command("ss"), StepCommand::Invalid);
    assert_eq!(ProgramState::new().step_mode, StepCommand::StepPhase);
}

#[test]
fn driver_decisions() {
    assert_eq!(driver_action(StepCommand::StepPhase, false), DriverAction::StepPhase);
    assert_eq!(driver_action(StepCommand::StepPhase, true), DriverAction::Finish);
    assert_eq!(driver_action(StepCommand::StepTurn, false), DriverAction::StepTurn);
    assert_eq!(driver_action(StepCommand::StepTurn, true), DriverAction::Finish);
    assert_eq!(driver_action(StepCommand::RunGame, false), DriverAction::RunAndReport);
    assert_eq!(driver_action(StepCommand::RunDeck, false), DriverAction::RunSilently);
    assert_eq!(driver_action(StepCommand::RunAll, true), DriverAction::RunSilently);
    assert_eq!(driver_action(StepCommand::Quit, false), DriverAction::Finish);
    assert_eq!(driver_action(StepCommand::Invalid, false), DriverAction::Prompt);
}

#[test]
fn quit_stops_the_evaluator() {
    assert!(should_continue(0, 3, StepCommand::RunDeck));
    assert!(!should_continue(3, 3, StepCommand::RunDeck));
    assert!(!should_continue(1, 3, StepCommand::Quit));
    let mut t = Tally::new();
    t.record(5);
    t.record(8);
    assert_eq!(t.games, 2);
    assert_eq!(t.total_turns, 13);
}

fn seat(library: Vec<engine::card::Card>) -> Player {
    Player {
        life: 20,
        zones: ZoneStore { library, hand: Vec::new(), battlefield: Vec::new(), graveyard: Vec::new(), exile: Vec::new() },
    }
}

#[test]
fn step_turn_stops_at_the_next_turn() {
    let mut gs = GameState {
        players: vec![seat(vec![forest()]), seat(vec![forest()])],
        current_player_index: 0,
        turns: 0,
        step: GameStep::StartTurn,
    };
    gs.step_turn();
    assert_eq!(gs.step, GameStep::StartTurn);
    assert_eq!(gs.current_player_index, 1);
    assert_eq!(gs.turns, 1);
    assert_eq!(gs.players[0].zones.battlefield.len(), 1);
}

#[test]
fn play_out_runs_to_deck_out() {
    let mut gs = GameState {
        players: vec![seat(vec![forest(), forest()]), seat(vec![forest()])],
        current_player_index: 0,
        turns: 0,
        step: GameStep::StartTurn,
    };
    gs.play_out();
    assert!(gs.is_game_over());
    // Turns 1-3 draw; on turn 4 the second player finds an empty library.
    assert_eq!(gs.turns, 4);
    assert_eq!(gs.current_player_index, 1);
}

#[test]
fn small_deck_ends_on_the_first_draw() {
    let deck = Deck { cards: vec![forest(), forest(), forest(), forest(), grizzly_bears(), grizzly_bears()] };
    assert_eq!(play_silent_game(&deck, &mut StdRng::seed_from_u64(1)), 1);
}

#[test]
fn evaluator_mean_is_bounded() {
    let t = evaluate(4, 2, 25, &mut StdRng::seed_from_u64(5));
    assert_eq!(t.games, 25);
    assert_eq!(t.total_turns, 25);

    let t = evaluate(17, 23, 30, &mut StdRng::seed_from_u64(5));
    assert_eq!(t.games, 30);
    let mean = t.total_turns as f64 / t.games as f64;
    assert!(mean.is_finite() && mean >= 0.0);
    assert!(mean < 40.0);
    assert!(t.total_turns <= 30 * 67);
}

#[test]
fn empty_deck_lasts_exactly_one_turn() {
    let deck = Deck { cards: Vec::new() };
    assert_eq!(play_silent_game(&deck, &mut StdRng::seed_from_u64(1)), 1);
}

#[test]
fn one_turn_of_a_fresh_match_counts_one() {
    let deck = Deck::example();
    let mut gs = GameState::new(2, &deck);
    gs.step_turn();
    assert_eq!(gs.turns, 1);
    assert_eq!(gs.step, GameStep::StartTurn);
    assert_eq!(gs.current_player_index, 1);
    assert_eq!(gs.players[0].zones.library.len(), 32);
}

#[test]
fn every_evaluated_game_lasts_at_least_a_turn() {
    let t = evaluate(40, 0, 3, &mut StdRng::seed_from_u64(5));
    assert_eq!(t.games, 3);
    // No creatures: each game ends when the first player draws from an empty library.
    assert_eq!(t.total_turns, 3 * 67);
}

#[test]
fn default_match_uses_the_example_deck() {
    let gs = GameState::new_default();
    for p in &gs.players {
        assert_eq!(p.life, 20);
        assert_eq!(p.zones.hand.len(), 7);
        assert_eq!(p.zones.library.len(), 33);
        let lands = p.zones.hand.iter().chain(p.zones.library.iter()).filter(|c| c.name == "Forest").count();
        assert_eq!(lands, 17);
    }
    let deck = Deck::with_counts(2, 1);
    assert_eq!(deck.cards[0].name, "Forest");
    assert_eq!(deck.cards[2].name, "Grizzly Bears");
    assert_eq!(deck.cards[2].stats.map(|s| (s.power, s.toughness)), Some((2, 2)));
}

#[test]
fn same_seed_gives_the_same_evaluation() {
    let a = evaluate(17, 23, 20, &mut StdRng::seed_from_u64(42));
    let b = evaluate(17, 23, 20, &mut StdRng::seed_from_u64(42));
    assert_eq!(a, b);
    let deck = Deck::example();
    let p = GameState::new_with_rng(2, &deck, &mut StdRng::seed_from_u64(9));
    let q = GameState::new_with_rng(2, &deck, &mut StdRng::seed_from_u64(9));
    let names = |g: &GameState| -> Vec<String> { g.players[0].zones.library.iter().map(|c| c.name.clone()).collect() };
    assert_eq!(names(&p), names(&q));
}
