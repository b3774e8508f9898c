use engine::card::{forest, grizzly_bears, Card, CardType};
use engine::game::{GameState, GameStep, Player, ZoneStore};

fn player(library: Vec<Card>, hand: Vec<Card>, battlefield: Vec<Card>) -> Player {
    Player {
        life: 20,
        zones: ZoneStore {
            library,
            hand,
            battlefield,
            graveyard: Vec::new(),
            exile: Vec::new(),
        },
    }
}

fn match_with(active: Player, opponent_library: Vec<Card>, step: GameStep) -> GameState {
    GameState {
        players: vec![active, player(opponent_library, Vec::new(), Vec::new())],
        current_player_index: 0,
        turns: 0,
        step,
    }
}

#[test]
fn creature_without_sickness_deals_damage() {
    let mut battlefield = Vec::new();
    let mut g = grizzly_bears();
    g.add_creature_fragment(2, 2);
    g.set_summoning_sickness(false);
    battlefield.push(g);

    let mut gs = match_with(player(Vec::new(), Vec::new(), battlefield), Vec::new(), GameStep::Combat);
    gs.step();
    assert_eq!(gs.players[1].life, 18);
}

#[test]
fn creature_with_sickness_does_not_deal_damage() {
    let mut battlefield = Vec::new();
    let mut g = grizzly_bears();
    g.set_summoning_sickness(true);
    battlefield.push(g);

    let mut gs = match_with(player(Vec::new(), Vec::new(), battlefield), Vec::new(), GameStep::Combat);
    gs.step();
    assert_eq!(gs.players[1].life, 20);
    assert_eq!(gs.step, GameStep::EndTurn);
}

#[test]
fn summoning_sickness_cleared_on_upkeep() {
    let mut battlefield = Vec::new();
    let mut g = grizzly_bears();
    g.set_summoning_sickness(true);
    battlefield.push(g);

    let mut gs = match_with(player(Vec::new(), Vec::new(), battlefield), Vec::new(), GameStep::Upkeep);
    gs.step();
    let bf = &gs.zones().battlefield;
    assert!(!bf[0].has_summoning_sickness());
    assert_eq!(gs.life(), 20);
}

#[test]
fn play_one_land_if_available() {
    let mut hand = Vec::new();
    hand.push(forest());

    let mut gs = match_with(player(Vec::new(), hand, Vec::new()), Vec::new(), GameStep::Main);
    gs.step();

    assert_eq!(gs.zones().battlefield.len(), 1);
}

#[test]
fn play_as_many_creatures_as_possible() {
    let mut hand = Vec::new();
    hand.push(grizzly_bears());
    hand.push(grizzly_bears());

    let mut battlefield = Vec::new();
    for _ in 0..4 {
        battlefield.push(forest());
    }

    let mut gs = match_with(player(Vec::new(), hand, battlefield), Vec::new(), GameStep::Main);
    gs.step();

    // Four lands pay for both creatures: each cast re-counts the untapped lands.
    let bf = &gs.zones().battlefield;
    assert_eq!(bf.len(), 6);
    assert_eq!(bf.iter().filter(|c| c.is_type(CardType::Land)).count(), 4);
    assert_eq!(gs.zones().hand.len(), 0);
}

#[test]
fn multi_turn_summoning_sickness_flow() {
    let mut hand = Vec::new();
    hand.push(forest());
    hand.push(forest());
    hand.push(grizzly_bears());

    let mut battlefield = Vec::new();
    battlefield.push(forest());

    let mut library = Vec::new();
    library.push(forest());
    library.push(forest());

    let opponent_library = vec![forest(), forest()];
    let mut gs = match_with(player(library, hand, battlefield), opponent_library, GameStep::StartTurn);

    gs.step(); // StartTurn -> Untap
    gs.step(); // Untap -> Upkeep
    gs.step(); // Upkeep -> Draw
    gs.step(); // Draw -> Main
    gs.step(); // Main -> Combat: a land is played and the bears are cast
    gs.step(); // Combat: the bears are sick and do not attack
    assert_eq!(gs.players[1].life, 20, "Creature with summoning sickness should not deal damage on the turn it was cast");

    // The opponent's turn passes, then the first player's next combat comes round.
    while !(gs.current_player_index == 0 && gs.step == GameStep::EndTurn && gs.turns == 3) {
        gs.step();
        assert_ne!(gs.step, GameStep::GameOver);
    }
    assert!(gs.players[1].life < 20, "Creature should deal damage after sickness cleared on upkeep");
}

#[test]
fn casting_taps_forests_used_for_payment() {
    let mut hand = Vec::new();
    hand.push(grizzly_bears());

    let mut battlefield = Vec::new();
    battlefield.push(forest());
    battlefield.push(forest());

    let mut gs = match_with(player(Vec::new(), hand, battlefield), Vec::new(), GameStep::Main);
    gs.step();

    let bf = &gs.zones().battlefield;
    assert_eq!(bf.iter().filter(|c| c.is_type(CardType::Land)).count(), 2);
    assert_eq!(bf.iter().filter(|c| c.is_type(CardType::Creature)).count(), 1);
    let tapped_lands = bf.iter().filter(|c| c.is_type(CardType::Land) && c.is_tapped()).count();
    assert_eq!(tapped_lands, 2, "Both forests used to pay should be tapped");
}

#[test]
fn untap_phase_clears_tapped_state() {
    let mut battlefield = Vec::new();
    let mut f = forest();
    f.set_tapped(true);
    battlefield.push(f);

    let mut gs = match_with(player(Vec::new(), Vec::new(), battlefield), Vec::new(), GameStep::Untap);
    gs.step();

    let bf = &gs.zones().battlefield;
    assert!(!bf[0].is_tapped());
}
