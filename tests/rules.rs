use engine::card::{forest, grizzly_bears, Card, CardType, CreatureStats, Deck};
use engine::game::{life_after_damage, GameState, GameStep, Player, Zone, ZoneStore, DAMAGE_CAP};

fn seat(life: i32, library: Vec<Card>, hand: Vec<Card>, battlefield: Vec<Card>) -> Player {
    Player {
        life,
        zones: ZoneStore { library, hand, battlefield, graveyard: Vec::new(), exile: Vec::new() },
    }
}

fn empty_seat() -> Player {
    seat(20, Vec::new(), Vec::new(), Vec::new())
}

fn state(players: Vec<Player>, step: GameStep) -> GameState {
    GameState { players, current_player_index: 0, turns: 0, step }
}

fn ready_bears() -> Card {
    grizzly_bears()
}

#[test]
fn start_turn_counts_a_turn() {
    let mut gs = state(vec![empty_seat(), empty_seat()], GameStep::StartTurn);
    gs.turns = 4;
    gs.step();
    assert_eq!(gs.turns, 5);
    assert_eq!(gs.step, GameStep::Untap);
    gs.step();
    assert_eq!(gs.turns, 5);
}

#[test]
fn draw_takes_the_top_card() {
    let library = vec![forest(), grizzly_bears()];
    let mut gs = state(vec![seat(20, library, vec![forest()], Vec::new()), empty_seat()], GameStep::Draw);
    gs.step();
    assert_eq!(gs.step, GameStep::Main);
    assert_eq!(gs.zones().hand.len(), 2);
    assert_eq!(gs.zones().library.len(), 1);
    assert!(gs.zones().hand[1].is_creature());
    assert!(gs.zones().library[0].is_type(CardType::Land));
}

#[test]
fn draw_from_empty_library_ends_the_game() {
    let mut gs = state(vec![seat(20, Vec::new(), vec![forest()], vec![forest()]), empty_seat()], GameStep::Draw);
    gs.step();
    assert_eq!(gs.step, GameStep::GameOver);
    assert_eq!(gs.zones().hand.len(), 1);
    assert_eq!(gs.zones().battlefield.len(), 1);
    assert_eq!(gs.zones().library.len(), 0);
}

#[test]
fn game_over_is_absorbing() {
    let mut gs = state(vec![seat(20, vec![forest()], Vec::new(), Vec::new()), empty_seat()], GameStep::GameOver);
    gs.turns = 9;
    for _ in 0..3 {
        gs.step();
    }
    assert_eq!(gs.step, GameStep::GameOver);
    assert_eq!(gs.turns, 9);
    assert_eq!(gs.zones().library.len(), 1);
    assert!(gs.is_game_over());
}

#[test]
fn end_turn_passes_to_the_next_player_cyclically() {
    let mut gs = state(vec![empty_seat(), empty_seat(), empty_seat()], GameStep::EndTurn);
    gs.current_player_index = 2;
    gs.step();
    assert_eq!(gs.current_player_index, 0);
    assert_eq!(gs.step, GameStep::StartTurn);
}

#[test]
fn main_phase_plays_only_one_land() {
    let hand = vec![forest(), forest(), forest()];
    let mut gs = state(vec![seat(20, Vec::new(), hand, Vec::new()), empty_seat()], GameStep::Main);
    gs.step();
    assert_eq!(gs.zones().battlefield.len(), 1);
    assert_eq!(gs.zones().hand.len(), 2);
    assert_eq!(gs.step, GameStep::Combat);
}

#[test]
fn casting_is_first_fit_and_skips_what_cannot_be_paid() {
    let mut cheap = grizzly_bears();
    cheap.name = String::from("Elf");
    cheap.cost = 1;
    let hand = vec![grizzly_bears(), cheap];
    let mut gs = state(vec![seat(20, Vec::new(), hand, vec![forest()]), empty_seat()], GameStep::Main);
    gs.step();
    let z = gs.zones();
    assert_eq!(z.hand.len(), 1);
    assert_eq!(z.hand[0].cost, 2);
    assert_eq!(z.battlefield.len(), 2);
    assert!(z.battlefield[0].is_tapped());
    assert_eq!(z.battlefield[1].name, "Elf");
    assert!(z.battlefield[1].has_summoning_sickness());
}

#[test]
fn land_played_this_turn_pays_for_a_creature() {
    let hand = vec![grizzly_bears(), forest()];
    let mut gs = state(vec![seat(20, Vec::new(), hand, vec![forest()]), empty_seat()], GameStep::Main);
    gs.step();
    let z = gs.zones();
    assert_eq!(z.hand.len(), 0);
    assert_eq!(z.battlefield.len(), 3);
    assert!(z.battlefield[0].is_tapped() && z.battlefield[1].is_tapped());
    assert!(!z.battlefield[2].is_tapped());
}

#[test]
fn four_lands_two_creatures_scenario() {
    let hand = vec![grizzly_bears(), grizzly_bears()];
    let lands = vec![forest(), forest(), forest(), forest()];
    let mut gs = state(vec![seat(20, Vec::new(), hand, lands), empty_seat()], GameStep::Main);
    gs.step();
    let z = gs.zones();
    assert_eq!(z.battlefield.iter().filter(|c| c.is_type(CardType::Land)).count(), 4);
    assert_eq!(z.battlefield.iter().filter(|c| c.is_type(CardType::Land) && c.is_tapped()).count(), 4);
    assert_eq!(z.battlefield.iter().filter(|c| c.is_creature() && c.has_summoning_sickness()).count(), 2);
}

#[test]
fn combat_hits_every_opponent_at_once() {
    let mut sick = grizzly_bears();
    sick.set_summoning_sickness(true);
    let mut big = grizzly_bears();
    big.add_creature_fragment(3, 3);
    let mut tapped = grizzly_bears();
    tapped.set_tapped(true);
    let bf = vec![ready_bears(), sick, big, tapped, forest()];
    let mut gs = state(vec![seat(20, Vec::new(), Vec::new(), bf), empty_seat(), empty_seat()], GameStep::Combat);
    gs.step();
    assert_eq!(gs.players[1].life, 15);
    assert_eq!(gs.players[2].life, 15);
    assert_eq!(gs.life(), 20);
    let z = gs.zones();
    assert!(z.battlefield[0].is_tapped());
    assert!(!z.battlefield[1].is_tapped());
    assert!(z.battlefield[2].is_tapped());
    assert!(!z.battlefield[4].is_tapped());
    assert_eq!(gs.step, GameStep::EndTurn);
}

#[test]
fn lethal_combat_ends_the_game() {
    let mut gs = state(
        vec![seat(20, Vec::new(), Vec::new(), vec![ready_bears()]), seat(2, Vec::new(), Vec::new(), Vec::new())],
        GameStep::Combat,
    );
    gs.step();
    assert_eq!(gs.players[1].life, 0);
    assert_eq!(gs.step, GameStep::GameOver);
}

#[test]
fn creature_without_stats_adds_no_damage() {
    let mut g = grizzly_bears();
    g.stats = None;
    let mut gs = state(vec![seat(20, Vec::new(), Vec::new(), vec![g]), empty_seat()], GameStep::Combat);
    gs.step();
    assert_eq!(gs.players[1].life, 20);
    assert!(gs.zones().battlefield[0].is_tapped());
}

#[test]
fn life_stops_at_its_floor() {
    assert_eq!(life_after_damage(20, 2), 18);
    assert_eq!(life_after_damage(1, 5), -4);
    assert_eq!(life_after_damage(i32::MIN + 1, 5), i32::MIN);
    assert_eq!(life_after_damage(i32::MAX, DAMAGE_CAP), i32::MIN);
    assert_eq!(life_after_damage(i32::MAX, 0), i32::MAX);
}

#[test]
fn upkeep_cures_creatures_only() {
    let mut g = grizzly_bears();
    g.set_summoning_sickness(true);
    g.set_tapped(true);
    let mut gs = state(vec![seat(20, Vec::new(), Vec::new(), vec![g]), empty_seat()], GameStep::Upkeep);
    gs.step();
    assert!(!gs.zones().battlefield[0].has_summoning_sickness());
    assert!(gs.zones().battlefield[0].is_tapped());
    assert_eq!(gs.step, GameStep::Draw);
}

#[test]
fn opening_hand_comes_from_the_top() {
    let mut library = Vec::new();
    for cost in 0..10u32 {
        let mut c = forest();
        c.cost = cost;
        library.push(c);
    }
    let p = Player::from_library(library);
    assert_eq!(p.life, 20);
    let hand: Vec<u32> = p.zones.hand.iter().map(|c| c.cost).collect();
    assert_eq!(hand, vec![9, 8, 7, 6, 5, 4, 3]);
    let rest: Vec<u32> = p.zones.library.iter().map(|c| c.cost).collect();
    assert_eq!(rest, vec![0, 1, 2]);
}

#[test]
fn short_library_is_dealt_whole() {
    let p = Player::from_library(vec![forest(), forest(), forest()]);
    assert_eq!(p.zones.hand.len(), 3);
    assert_eq!(p.zones.library.len(), 0);
    assert_eq!(p.zones.get(Zone::Exile).len(), 0);
}

#[test]
fn new_player_holds_a_shuffled_deck() {
    let deck = Deck::with_counts(20, 20);
    // Unshuffled, the top seven cards would all be creatures.
    let mut saw_land_in_hand = false;
    for _ in 0..8 {
        let p = Player::new(&deck);
        assert_eq!(p.zones.hand.len(), 7);
        assert_eq!(p.zones.library.len(), 33);
        let all: Vec<&Card> = p.zones.hand.iter().chain(p.zones.library.iter()).collect();
        assert_eq!(all.iter().filter(|c| c.land).count(), 20);
        if p.zones.hand.iter().any(|c| c.land) {
            saw_land_in_hand = true;
        }
    }
    assert!(saw_land_in_hand);
}

#[test]
fn new_match_has_at_least_two_players() {
    let deck = Deck::example();
    let gs = GameState::new(1, &deck);
    assert_eq!(gs.players.len(), 2);
    assert_eq!(gs.turns, 0);
    assert_eq!(gs.step, GameStep::StartTurn);
    let gs3 = GameState::new(3, &deck);
    assert_eq!(gs3.players.len(), 3);
    for p in &gs3.players {
        assert_eq!(p.life, 20);
        assert_eq!(p.zones.hand.len() + p.zones.library.len(), deck.cards.len());
    }
    let d = GameState::new_default();
    assert_eq!(d.players.len(), 2);
}

#[test]
fn player_accessors_follow_the_active_index() {
    let mut gs = state(vec![seat(20, Vec::new(), Vec::new(), Vec::new()), seat(7, Vec::new(), Vec::new(), Vec::new()), seat(9, Vec::new(), Vec::new(), Vec::new())], GameStep::Main);
    gs.current_player_index = 1;
    assert_eq!(gs.life(), 7);
    assert_eq!(gs.current_player().life, 7);
    let others: Vec<i32> = gs.other_players().iter().map(|p| p.life).collect();
    assert_eq!(others, vec![20, 9]);
    for p in gs.other_players_mut() {
        p.life -= 1;
    }
    assert_eq!(gs.players[0].life, 19);
    assert_eq!(gs.players[2].life, 8);
    gs.set_life(3);
    assert_eq!(gs.players[1].life, 3);
    gs.current_player_mut().life = 4;
    assert_eq!(gs.life(), 4);
    gs.zones_mut().exile.push(forest());
    assert_eq!(gs.players[1].zones.exile.len(), 1);
}

#[test]
fn card_helpers_read_and_write_flags() {
    let mut c = forest();
    assert!(c.is_type(CardType::Land));
    assert!(!c.is_type(CardType::Creature));
    assert_eq!(c.creature_stats(), None);
    c.set_tapped(true);
    assert!(c.is_tapped());
    c.add_creature_fragment(1, 4);
    assert_eq!(c.creature_stats(), Some(CreatureStats { power: 1, toughness: 4 }));
    let deck = Deck::with_counts(3, 2);
    assert_eq!(deck.cards.len(), 5);
    assert!(deck.cards[2].land && deck.cards[3].creature);
}
