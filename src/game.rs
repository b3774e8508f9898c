use vstd::prelude::*;

use crate::card::{is_deck_of, power_of, Card, Deck, EXAMPLE_CREATURES, EXAMPLE_LANDS};

verus! {

/// The phases of a turn, in order, plus the terminal state.
#[derive(Clone, Copy, Debug, PartialEq, Eq, Structural)]
pub enum GameStep {
    StartTurn,
    Untap,
    Upkeep,
    Draw,
    Main,
    Combat,
    EndTurn,
    GameOver,
}

/// The five places a player's cards can be.
#[derive(Clone, Copy, Debug, PartialEq, Eq, Hash, Structural)]
pub enum Zone {
    Library,
    Hand,
    Battlefield,
    Graveyard,
    Exile,
}

/// An operator command to the driver.
#[derive(Clone, Copy, Debug, PartialEq, Eq, Structural)]
pub enum StepCommand {
    StepPhase,
    StepTurn,
    RunGame,
    RunDeck,
    RunAll,
    Quit,
    Invalid,
}

/// The command mode carried from one driven game to the next.
pub struct ProgramState {
    pub step_mode: StepCommand,
}

impl ProgramState {
    pub fn new() -> (r: Self)
        ensures
            r.step_mode == StepCommand::StepPhase,
    {
        ProgramState { step_mode: StepCommand::StepPhase }
    }
}

// ---------------------------------------------------------------------------
// Card-level rules
pub open spec fn untapped_land(c: Card) -> bool {
    c.land && !c.tapped
}

pub open spec fn can_attack(c: Card) -> bool {
    c.creature && !c.tapped && !c.summoning_sick
}

pub open spec fn tap(c: Card) -> Card {
    Card { tapped: true, ..c }
}

pub open spec fn untap(c: Card) -> Card {
    Card { tapped: false, ..c }
}

/// Upkeep effect on one card: a creature loses summoning sickness.
pub open spec fn refresh(c: Card) -> Card {
    if c.creature {
        Card { summoning_sick: false, ..c }
    } else {
        c
    }
}

/// A freshly cast creature.
pub open spec fn sicken(c: Card) -> Card {
    Card { summoning_sick: true, ..c }
}

pub open spec fn untap_all(s: Seq<Card>) -> Seq<Card> {
    s.map_values(|c: Card| untap(c))
}

pub open spec fn refresh_all(s: Seq<Card>) -> Seq<Card> {
    s.map_values(|c: Card| refresh(c))
}

pub open spec fn is_land_card() -> spec_fn(Card) -> bool {
    |c: Card| c.land
}

/// A creature whose cost can be paid from `m` mana.
pub open spec fn castable(m: nat) -> spec_fn(Card) -> bool {
    |c: Card| c.creature && c.cost <= m
}

/// Untapped lands in `s`: the mana that can still be spent.
pub open spec fn mana(s: Seq<Card>) -> nat
    decreases s.len(),
{
    if s.len() == 0 {
        0
    } else {
        mana(s.drop_last()) + if untapped_land(s.last()) {
            1nat
        } else {
            0nat
        }
    }
}

/// Index of the first card of `s` that satisfies `p`, or `s.len()` if none does.
pub open spec fn first_where(s: Seq<Card>, p: spec_fn(Card) -> bool) -> int
    decreases s.len(),
{
    if s.len() == 0 {
        0
    } else if p(s[0]) {
        0
    } else {
        1 + first_where(s.drop_first(), p)
    }
}

/// Taps the first `n` untapped lands of `s`, in order, leaving every other card as it is.
pub open spec fn pay(s: Seq<Card>, n: nat) -> Seq<Card> {
    Seq::new(
        s.len(),
        |j: int|
            if untapped_land(s[j]) && mana(s.subrange(0, j)) < n {
                tap(s[j])
            } else {
                s[j]
            },
    )
}

/// Land step of the main phase: the first land of the hand, if any, goes to the battlefield.
pub open spec fn land_step(hand: Seq<Card>, bf: Seq<Card>) -> (Seq<Card>, Seq<Card>) {
    let i = first_where(hand, is_land_card());
    if 0 <= i < hand.len() {
        (hand.remove(i), bf.push(hand[i]))
    } else {
        (hand, bf)
    }
}

/// Casting loop of the main phase: cast the first affordable creature, pay for it, and repeat
/// until no creature in hand is affordable.
pub open spec fn cast_all(hand: Seq<Card>, bf: Seq<Card>) -> (Seq<Card>, Seq<Card>)
    decreases hand.len(),
{
    let i = first_where(hand, castable(mana(bf)));
    if 0 <= i < hand.len() {
        cast_all(hand.remove(i), pay(bf, hand[i].cost as nat).push(sicken(hand[i])))
    } else {
        (hand, bf)
    }
}

/// Hand and battlefield after a whole main phase.
pub open spec fn main_phase(hand: Seq<Card>, bf: Seq<Card>) -> (Seq<Card>, Seq<Card>) {
    let played = land_step(hand, bf);
    cast_all(played.0, played.1)
}

pub proof fn lemma_first_where_is(s: Seq<Card>, p: spec_fn(Card) -> bool, i: int)
    requires
        0 <= i <= s.len(),
        forall|j: int| 0 <= j < i ==> !p(#[trigger] s[j]),
        i == s.len() || p(s[i]),
    ensures
        first_where(s, p) == i,
    decreases s.len(),
{
    if s.len() > 0 && i > 0 {
        assert(!p(s[0]));
        assert forall|j: int| 0 <= j < i - 1 implies !p(#[trigger] s.drop_first()[j]) by {
            assert(s.drop_first()[j] == s[j + 1]);
        }
        lemma_first_where_is(s.drop_first(), p, i - 1);
    }
}

pub proof fn lemma_first_where_bounds(s: Seq<Card>, p: spec_fn(Card) -> bool)
    ensures
        0 <= first_where(s, p) <= s.len(),
        first_where(s, p) < s.len() ==> p(s[first_where(s, p)]),
        forall|j: int| 0 <= j < first_where(s, p) ==> !p(#[trigger] s[j]),
    decreases s.len(),
{
    if s.len() > 0 && !p(s[0]) {
        lemma_first_where_bounds(s.drop_first(), p);
        let r = first_where(s.drop_first(), p);
        assert forall|j: int| 0 <= j < first_where(s, p) implies !p(#[trigger] s[j]) by {
            if j > 0 {
                assert(s[j] == s.drop_first()[j - 1]);
            }
        }
    }
}

proof fn lemma_mana_prefix(s: Seq<Card>, i: int)
    requires
        0 <= i < s.len(),
    ensures
        mana(s.subrange(0, i + 1)) == mana(s.subrange(0, i)) + if untapped_land(s[i]) {
            1nat
        } else {
            0nat
        },
{
    assert(s.subrange(0, i + 1).drop_last() =~= s.subrange(0, i));
}

/// Total power of the creatures in `s` that can attack.
pub open spec fn attack_power(s: Seq<Card>) -> nat
    decreases s.len(),
{
    if s.len() == 0 {
        0
    } else {
        attack_power(s.drop_last()) + if can_attack(s.last()) {
            power_of(s.last())
        } else {
            0nat
        }
    }
}

/// Battlefield after attackers are declared: every creature able to attack becomes tapped.
pub open spec fn declare_attack(s: Seq<Card>) -> Seq<Card> {
    s.map_values(|c: Card| if can_attack(c) { tap(c) } else { c })
}

/// Life after losing `d`; it stops at the lowest value an `i32` holds instead of wrapping.
pub open spec fn after_damage(life: i32, d: int) -> i32 {
    if life - d < i32::MIN {
        i32::MIN
    } else {
        (life - d) as i32
    }
}

/// Damage beyond this already takes any life total to its floor.
pub const DAMAGE_CAP: u64 = 4294967296;

proof fn lemma_attack_prefix(s: Seq<Card>, i: int)
    requires
        0 <= i < s.len(),
    ensures
        attack_power(s.subrange(0, i + 1)) == attack_power(s.subrange(0, i)) + if can_attack(s[i]) {
            power_of(s[i])
        } else {
            0nat
        },
{
    assert(s.subrange(0, i + 1).drop_last() =~= s.subrange(0, i));
}

/// Applies capped damage to a life total.
pub fn life_after_damage(life: i32, damage: u64) -> (r: i32)
    requires
        damage <= DAMAGE_CAP,
    ensures
        r == after_damage(life, damage as int),
{
    let v: i64 = life as i64 - damage as i64;
    if v < i32::MIN as i64 {
        i32::MIN
    } else {
        v as i32
    }
}

// ---------------------------------------------------------------------------
// Zones and players

/// One ordered card sequence per zone; every zone always exists.
#[derive(Clone, Debug)]
pub struct ZoneStore {
    pub library: Vec<Card>,
    pub hand: Vec<Card>,
    pub battlefield: Vec<Card>,
    pub graveyard: Vec<Card>,
    pub exile: Vec<Card>,
}

/// The zones other than the battlefield hold the same cards in both stores.
pub open spec fn same_but_battlefield(a: ZoneStore, b: ZoneStore) -> bool {
    &&& a.library@ == b.library@
    &&& a.hand@ == b.hand@
    &&& a.graveyard@ == b.graveyard@
    &&& a.exile@ == b.exile@
}

impl ZoneStore {
    pub open spec fn zone(&self, z: Zone) -> Seq<Card> {
        match z {
            Zone::Library => self.library@,
            Zone::Hand => self.hand@,
            Zone::Battlefield => self.battlefield@,
            Zone::Graveyard => self.graveyard@,
            Zone::Exile => self.exile@,
        }
    }

    pub fn empty() -> (r: ZoneStore)
        ensures
            r.library@.len() == 0,
            r.hand@.len() == 0,
            r.battlefield@.len() == 0,
            r.graveyard@.len() == 0,
            r.exile@.len() == 0,
    {
        ZoneStore {
            library: Vec::new(),
            hand: Vec::new(),
            battlefield: Vec::new(),
            graveyard: Vec::new(),
            exile: Vec::new(),
        }
    }

    pub fn get(&self, z: Zone) -> (r: &Vec<Card>)
        ensures
            r@ == self.zone(z),
    {
        match z {
            Zone::Library => &self.library,
            Zone::Hand => &self.hand,
            Zone::Battlefield => &self.battlefield,
            Zone::Graveyard => &self.graveyard,
            Zone::Exile => &self.exile,
        }
    }

    /// Untap step: every battlefield card ends untapped.
    pub fn untap_all(&mut self)
        ensures
            final(self).battlefield@ == untap_all(old(self).battlefield@),
            same_but_battlefield(*final(self), *old(self)),
    {
        let ghost s0 = *self;
        let n = self.battlefield.len();
        let mut i: usize = 0;
        while i < n
            invariant
                n == s0.battlefield@.len(),
                i <= n,
                self.battlefield@.len() == n,
                same_but_battlefield(*self, s0),
                forall|k: int| 0 <= k < i ==> #[trigger] self.battlefield@[k] == untap(s0.battlefield@[k]),
                forall|k: int| i <= k < n ==> #[trigger] self.battlefield@[k] == s0.battlefield@[k],
            decreases n - i,
        {
            if self.battlefield[i].is_tapped() {
                self.battlefield[i].set_tapped(false);
            }
            i = i + 1;
        }
        assert(self.battlefield@ =~= untap_all(s0.battlefield@));
    }

    /// Upkeep step: every battlefield creature loses summoning sickness.
    pub fn refresh_all(&mut self)
        ensures
            final(self).battlefield@ == refresh_all(old(self).battlefield@),
            same_but_battlefield(*final(self), *old(self)),
    {
        let ghost s0 = *self;
        let n = self.battlefield.len();
        let mut i: usize = 0;
        while i < n
            invariant
                n == s0.battlefield@.len(),
                i <= n,
                self.battlefield@.len() == n,
                same_but_battlefield(*self, s0),
                forall|k: int| 0 <= k < i ==> #[trigger] self.battlefield@[k] == refresh(s0.battlefield@[k]),
                forall|k: int| i <= k < n ==> #[trigger] self.battlefield@[k] == s0.battlefield@[k],
            decreases n - i,
        {
            if self.battlefield[i].is_creature() {
                self.battlefield[i].set_summoning_sickness(false);
            }
            i = i + 1;
        }
        assert(self.battlefield@ =~= refresh_all(s0.battlefield@));
    }

    /// Mana available: the untapped lands on the battlefield.
    pub fn available_mana(&self) -> (r: usize)
        ensures
            r == mana(self.battlefield@),
    {
        let n = self.battlefield.len();
        let mut count: usize = 0;
        let mut i: usize = 0;
        while i < n
            invariant
                n == self.battlefield@.len(),
                i <= n,
                count <= i,
                count == mana(self.battlefield@.subrange(0, i as int)),
            decreases n - i,
        {
            proof {
                lemma_mana_prefix(self.battlefield@, i as int);
            }
            if self.battlefield[i].land && !self.battlefield[i].tapped {
                count = count + 1;
            }
            i = i + 1;
        }
        assert(self.battlefield@.subrange(0, n as int) =~= self.battlefield@);
        count
    }

    /// Taps the first `n` untapped lands on the battlefield.
    pub fn tap_lands(&mut self, n: usize)
        ensures
            final(self).battlefield@ == pay(old(self).battlefield@, n as nat),
            same_but_battlefield(*final(self), *old(self)),
    {
        let ghost s0 = *self;
        let ghost b0 = s0.battlefield@;
        let len = self.battlefield.len();
        let mut used: usize = 0;
        let mut i: usize = 0;
        while i < len
            invariant
                len == b0.len(),
                i <= len,
                self.battlefield@.len() == len,
                same_but_battlefield(*self, s0),
                used <= n,
                used == if mana(b0.subrange(0, i as int)) < n { mana(b0.subrange(0, i as int)) } else { n as nat },
                forall|k: int| 0 <= k < i ==> #[trigger] self.battlefield@[k] == pay(b0, n as nat)[k],
                forall|k: int| i <= k < len ==> #[trigger] self.battlefield@[k] == b0[k],
            decreases len - i,
        {
            proof {
                lemma_mana_prefix(b0, i as int);
            }
            if used < n && self.battlefield[i].land && !self.battlefield[i].tapped {
                self.battlefield[i].set_tapped(true);
                used = used + 1;
            }
            i = i + 1;
        }
        assert(self.battlefield@ =~= pay(b0, n as nat));
    }

    /// Land step: moves the first land in hand, if any, to the battlefield.
    pub fn play_land(&mut self)
        ensures
            (final(self).hand@, final(self).battlefield@) == land_step(old(self).hand@, old(self).battlefield@),
            final(self).library@ == old(self).library@,
            final(self).graveyard@ == old(self).graveyard@,
            final(self).exile@ == old(self).exile@,
    {
        let n = self.hand.len();
        let mut i: usize = 0;
        while i < n && !self.hand[i].land
            invariant
                n == self.hand@.len(),
                i <= n,
                forall|j: int| 0 <= j < i ==> !(#[trigger] self.hand@[j]).land,
            decreases n - i,
        {
            i = i + 1;
        }
        proof {
            lemma_first_where_is(self.hand@, is_land_card(), i as int);
        }
        if i < n {
            let card = self.hand.remove(i);
            self.battlefield.push(card);
        }
    }

    /// Casting loop: while some creature in hand is affordable, casts the first one, tapping
    /// lands to pay for it; it enters the battlefield summoning-sick.
    pub fn cast_creatures(&mut self)
        ensures
            (final(self).hand@, final(self).battlefield@) == cast_all(old(self).hand@, old(self).battlefield@),
            final(self).library@ == old(self).library@,
            final(self).graveyard@ == old(self).graveyard@,
            final(self).exile@ == old(self).exile@,
    {
        let ghost s0 = *self;
        loop
            invariant
                cast_all(self.hand@, self.battlefield@) == cast_all(s0.hand@, s0.battlefield@),
                self.library@ == s0.library@,
                self.graveyard@ == s0.graveyard@,
                self.exile@ == s0.exile@,
            ensures
                cast_all(s0.hand@, s0.battlefield@) == (self.hand@, self.battlefield@),
                self.library@ == s0.library@,
                self.graveyard@ == s0.graveyard@,
                self.exile@ == s0.exile@,
            decreases self.hand@.len(),
        {
            let m = self.available_mana();
            let n = self.hand.len();
            let mut i: usize = 0;
            while i < n && !(self.hand[i].creature && self.hand[i].cost as usize <= m)
                invariant
                    n == self.hand@.len(),
                    i <= n,
                    forall|j: int| 0 <= j < i ==> !castable(m as nat)(#[trigger] self.hand@[j]),
                decreases n - i,
            {
                i = i + 1;
            }
            proof {
                lemma_first_where_is(self.hand@, castable(m as nat), i as int);
            }
            if i == n {
                assert(cast_all(self.hand@, self.battlefield@) == (self.hand@, self.battlefield@));
                break;
            }
            let mut card = self.hand.remove(i);
            card.set_summoning_sickness(true);
            self.tap_lands(card.cost as usize);
            self.battlefield.push(card);
        }
    }
    /// Draw step: moves the top (last) card of the library to the hand; false if the library
    /// is empty, in which case nothing moves.
    pub fn draw(&mut self) -> (r: bool)
        ensures
            r == (old(self).library@.len() > 0),
            r ==> final(self).library@ == old(self).library@.drop_last(),
            r ==> final(self).hand@ == old(self).hand@.push(old(self).library@.last()),
            !r ==> final(self).library@ == old(self).library@ && final(self).hand@ == old(self).hand@,
            final(self).battlefield@ == old(self).battlefield@,
            final(self).graveyard@ == old(self).graveyard@,
            final(self).exile@ == old(self).exile@,
    {
        match self.library.pop() {
            Some(card) => {
                self.hand.push(card);
                true
            },
            None => false,
        }
    }

    /// Declares every creature able to attack as an attacker, tapping it, and returns their
    /// total power, capped at `DAMAGE_CAP`.
    pub fn attack(&mut self) -> (r: u64)
        ensures
            final(self).battlefield@ == declare_attack(old(self).battlefield@),
            same_but_battlefield(*final(self), *old(self)),
            r == if attack_power(old(self).battlefield@) < DAMAGE_CAP {
                attack_power(old(self).battlefield@)
            } else {
                DAMAGE_CAP as nat
            },
    {
        let ghost s0 = *self;
        let ghost b0 = s0.battlefield@;
        let n = self.battlefield.len();
        let mut damage: u64 = 0;
        let mut i: usize = 0;
        while i < n
            invariant
                n == b0.len(),
                i <= n,
                self.battlefield@.len() == n,
                same_but_battlefield(*self, s0),
                damage == if attack_power(b0.subrange(0, i as int)) < DAMAGE_CAP {
                    attack_power(b0.subrange(0, i as int))
                } else {
                    DAMAGE_CAP as nat
                },
                forall|k: int| 0 <= k < i ==> #[trigger] self.battlefield@[k] == declare_attack(b0)[k],
                forall|k: int| i <= k < n ==> #[trigger] self.battlefield@[k] == b0[k],
            decreases n - i,
        {
            proof {
                lemma_attack_prefix(b0, i as int);
            }
            let c = &self.battlefield[i];
            if c.creature && !c.summoning_sick && !c.tapped {
                let power: u64 = match c.stats {
                    Some(st) => st.power as u64,
                    None => 0,
                };
                damage = if damage + power < DAMAGE_CAP { damage + power } else { DAMAGE_CAP };
                self.battlefield[i].set_tapped(true);
            }
            i = i + 1;
        }
        assert(self.battlefield@ =~= declare_attack(b0));
        assert(b0.subrange(0, n as int) =~= b0);
        damage
    }
}

pub const STARTING_LIFE: i32 = 20;

pub const OPENING_HAND: usize = 7;

/// A match participant: a life total and the cards in each zone.
#[derive(Clone, Debug)]
pub struct Player {
    pub life: i32,
    pub zones: ZoneStore,
}

#[verifier::external_type_specification]
#[verifier::external_body]
pub struct ExStdRng(rand::rngs::StdRng);

/// Relies on rand's `SeedableRng::from_entropy` for `StdRng`: a generator seeded from the
/// operating system's entropy source.
#[verifier::external_body]
fn entropy_rng() -> rand::rngs::StdRng {
    rand::SeedableRng::from_entropy()
}

/// Relies on rand's `SliceRandom::shuffle`: it only swaps elements of the slice, so the
/// result is a permutation of the input, whatever the generator yields.
#[verifier::external_body]
fn shuffle_cards(cards: &mut Vec<Card>, rng: &mut rand::rngs::StdRng)
    ensures
        final(cards)@.to_multiset() == old(cards)@.to_multiset(),
        final(cards)@.len() == old(cards)@.len(),
{
    rand::seq::SliceRandom::shuffle(cards.as_mut_slice(), rng);
}

/// `p` is a fresh player dealt from `library`: starting life, an opening hand of up to seven
/// cards taken from the top (end) of the library, top card first, and nothing elsewhere.
pub open spec fn dealt(p: Player, library: Seq<Card>) -> bool {
    let n = library.len();
    let k = if n < OPENING_HAND { n } else { OPENING_HAND as nat };
    &&& p.life == STARTING_LIFE
    &&& p.zones.library@ == library.subrange(0, n - k)
    &&& p.zones.hand@ == Seq::new(k, |j: int| library[n - 1 - j])
    &&& p.zones.battlefield@.len() == 0
    &&& p.zones.graveyard@.len() == 0
    &&& p.zones.exile@.len() == 0
}

/// `p` was dealt from some ordering of the cards of `deck`.
pub open spec fn dealt_from_deck(p: Player, deck: Seq<Card>) -> bool {
    exists|l: Seq<Card>| #[trigger] dealt(p, l) && l.to_multiset() == deck.to_multiset()
}

/// `p` was dealt from some ordering of the example deck.
pub open spec fn dealt_from_example(p: Player) -> bool {
    exists|d: Seq<Card>|
        #[trigger] is_deck_of(d, EXAMPLE_LANDS as nat, EXAMPLE_CREATURES as nat) && dealt_from_deck(p, d)
}

impl Player {
    /// A player at starting life whose opening hand is dealt from the top (end) of `library`:
    /// up to seven cards, the top card first.
    pub fn from_library(library: Vec<Card>) -> (r: Player)
        ensures
            dealt(r, library@),
    {
        let ghost l0 = library@;
        let mut zones = ZoneStore::empty();
        zones.library = library;
        let mut dealt: usize = 0;
        assert(zones.hand@ =~= Seq::new(0nat, |j: int| l0[l0.len() - 1 - j]));
        assert(zones.library@ =~= l0.subrange(0, l0.len() as int));
        while dealt < OPENING_HAND && zones.library.len() > 0
            invariant
                dealt <= OPENING_HAND,
                dealt <= l0.len(),
                zones.library@ == l0.subrange(0, l0.len() - dealt),
                zones.hand@ == Seq::new(dealt as nat, |j: int| l0[l0.len() - 1 - j]),
                zones.battlefield@.len() == 0,
                zones.graveyard@.len() == 0,
                zones.exile@.len() == 0,
            decreases OPENING_HAND - dealt,
        {
            let card = zones.library.pop().unwrap();
            zones.hand.push(card);
            dealt = dealt + 1;
            assert(zones.hand@ =~= Seq::new(dealt as nat, |j: int| l0[l0.len() - 1 - j]));
            assert(zones.library@ =~= l0.subrange(0, l0.len() - dealt));
        }
        Player { life: STARTING_LIFE, zones }
    }

    /// A player whose library is a copy of the deck shuffled with `rng`, with the opening hand
    /// dealt.
    pub fn new_with_rng(deck: &Deck, rng: &mut rand::rngs::StdRng) -> (r: Player)
        ensures
            dealt_from_deck(r, deck.cards@),
            r.life == STARTING_LIFE,
            r.zones.library@.len() + r.zones.hand@.len() == deck.cards@.len(),
            r.zones.hand@.len() == if deck.cards@.len() < OPENING_HAND {
                deck.cards@.len()
            } else {
                OPENING_HAND as nat
            },
            r.zones.battlefield@.len() == 0,
            r.zones.graveyard@.len() == 0,
            r.zones.exile@.len() == 0,
    {
        let mut library = deck.copy_cards();
        shuffle_cards(&mut library, rng);
        let ghost l = library@;
        let r = Player::from_library(library);
        assert(l.to_multiset() == deck.cards@.to_multiset() && dealt(r, l));
        r
    }

    /// A player whose library is a shuffled copy of the deck, with the opening hand dealt.
    pub fn new(deck: &Deck) -> (r: Player)
        ensures
            dealt_from_deck(r, deck.cards@),
            r.life == STARTING_LIFE,
            r.zones.library@.len() + r.zones.hand@.len() == deck.cards@.len(),
            r.zones.hand@.len() == if deck.cards@.len() < OPENING_HAND {
                deck.cards@.len()
            } else {
                OPENING_HAND as nat
            },
            r.zones.battlefield@.len() == 0,
            r.zones.graveyard@.len() == 0,
            r.zones.exile@.len() == 0,
    {
        let mut rng = entropy_rng();
        Player::new_with_rng(deck, &mut rng)
    }
}

/// Appends a reference to each element of `s`, in order, to `r`.
fn push_each<'a>(s: &'a mut [Player], r: &mut Vec<&'a mut Player>)
    ensures
        final(r)@.len() == old(r)@.len() + old(s)@.len(),
        forall|k: int| 0 <= k < old(r)@.len() ==> #[trigger] final(r)@[k] == old(r)@[k],
        forall|k: int|
            0 <= k < old(s)@.len() ==> *#[trigger] final(r)@[old(r)@.len() + k] == old(s)@[k],
        final(s)@.len() == old(s)@.len(),
        forall|k: int|
            0 <= k < old(s)@.len() ==> #[trigger] final(s)@[k] == *final(final(r)@[old(r)@.len() + k]),
{
    let ghost s0 = s@;
    let ghost r0 = r@;
    let n = s.len();
    let mut rest = s;
    let mut done: usize = 0;
    while rest.len() > 0
        invariant
            n == s0.len(),
            done + rest@.len() == s0.len(),
            rest@ == s0.subrange(done as int, s0.len() as int),
            r@.len() == r0.len() + done,
            forall|k: int| 0 <= k < r0.len() ==> #[trigger] r@[k] == r0[k],
            forall|k: int| 0 <= k < done ==> *#[trigger] r@[r0.len() + k] == s0[k],
            final(s)@ == Seq::new(done as nat, |k: int| *final(r@[r0.len() + k])) + final(rest)@,
        decreases rest@.len(),
    {
        let ghost before = Seq::new(done as nat, |k: int| *final(r@[r0.len() + k]));
        let (head, tail) = rest.split_at_mut(1);
        let x = head.first_mut().unwrap();
        let ghost fx = *final(x);
        r.push(x);
        rest = tail;
        done = done + 1;
        assert(Seq::new(done as nat, |k: int| *final(r@[r0.len() + k])) =~= before.push(fx));
        assert(final(s)@ =~= Seq::new(done as nat, |k: int| *final(r@[r0.len() + k])) + final(rest)@);
    }
    assert(final(rest)@ == rest@);
}

/// The state of one match.
#[derive(Clone, Debug)]
pub struct GameState {
    pub players: Vec<Player>,
    pub current_player_index: usize,
    pub turns: u32,
    pub step: GameStep,
}

/// Only the active player may differ between the two states; turn, index and life agree.
pub open spec fn only_current_changed(s: GameState, t: GameState) -> bool {
    &&& t.players@.len() == s.players@.len()
    &&& t.current_player_index == s.current_player_index
    &&& t.turns == s.turns
    &&& forall|j: int|
        0 <= j < s.players@.len() && j != s.current_player_index ==> #[trigger] t.players@[j]
            == s.players@[j]
    &&& t.current().life == s.current().life
}

/// Some player's life is at or below zero.
pub open spec fn anyone_dead(ps: Seq<Player>) -> bool {
    exists|j: int| 0 <= j < ps.len() && (#[trigger] ps[j]).life <= 0
}

/// The effect of one phase transition from `s` to `t`.
pub open spec fn advanced(s: GameState, t: GameState) -> bool {
    let i = s.current_player_index as int;
    let z = s.current().zones;
    let tz = t.current().zones;
    match s.step {
        GameStep::StartTurn => {
            &&& t.players == s.players
            &&& t.current_player_index == s.current_player_index
            &&& t.turns == s.turns + 1
            &&& t.step == GameStep::Untap
        },
        GameStep::Untap => {
            &&& only_current_changed(s, t)
            &&& tz.battlefield@ == untap_all(z.battlefield@)
            &&& same_but_battlefield(tz, z)
            &&& t.step == GameStep::Upkeep
        },
        GameStep::Upkeep => {
            &&& only_current_changed(s, t)
            &&& tz.battlefield@ == refresh_all(z.battlefield@)
            &&& same_but_battlefield(tz, z)
            &&& t.step == GameStep::Draw
        },
        GameStep::Draw => {
            &&& only_current_changed(s, t)
            &&& tz.battlefield@ == z.battlefield@
            &&& tz.graveyard@ == z.graveyard@
            &&& tz.exile@ == z.exile@
            &&& if z.library@.len() > 0 {
                &&& tz.library@ == z.library@.drop_last()
                &&& tz.hand@ == z.hand@.push(z.library@.last())
                &&& t.step == GameStep::Main
            } else {
                &&& tz.library@ == z.library@
                &&& tz.hand@ == z.hand@
                &&& t.step == GameStep::GameOver
            }
        },
        GameStep::Main => {
            &&& only_current_changed(s, t)
            &&& (tz.hand@, tz.battlefield@) == main_phase(z.hand@, z.battlefield@)
            &&& tz.library@ == z.library@
            &&& tz.graveyard@ == z.graveyard@
            &&& tz.exile@ == z.exile@
            &&& t.step == GameStep::Combat
        },
        GameStep::Combat => {
            let d = attack_power(z.battlefield@) as int;
            &&& t.players@.len() == s.players@.len()
            &&& t.current_player_index == s.current_player_index
            &&& t.turns == s.turns
            &&& t.current().life == s.current().life
            &&& tz.battlefield@ == declare_attack(z.battlefield@)
            &&& same_but_battlefield(tz, z)
            &&& forall|j: int|
                0 <= j < s.players@.len() && j != i ==> (#[trigger] t.players@[j]).life
                    == after_damage(s.players@[j].life, d) && t.players@[j].zones
                    == s.players@[j].zones
            &&& t.step == if anyone_dead(t.players@) {
                GameStep::GameOver
            } else {
                GameStep::EndTurn
            }
        },
        GameStep::EndTurn => {
            &&& t.players == s.players
            &&& t.current_player_index == (s.current_player_index + 1) % (s.players@.len() as int)
            &&& t.turns == s.turns
            &&& t.step == GameStep::StartTurn
        },
        GameStep::GameOver => t == s,
    }
}

impl GameState {
    /// At least two players, and the active index points at one of them.
    pub open spec fn wf(&self) -> bool {
        &&& self.players@.len() >= 2
        &&& self.current_player_index < self.players@.len()
    }

    pub open spec fn current(&self) -> Player {
        self.players@[self.current_player_index as int]
    }

    /// A match at the start of the first turn, for `player_count` players (at least two),
    /// each with a copy of `deck` shuffled with `rng`.
    pub fn new_with_rng(player_count: usize, deck: &Deck, rng: &mut rand::rngs::StdRng) -> (r: GameState)
        ensures
            r.wf(),
            r.players@.len() == if player_count < 2 { 2 } else { player_count },
            r.current_player_index == 0,
            r.turns == 0,
            r.step == GameStep::StartTurn,
            forall|j: int|
                0 <= j < r.players@.len() ==> dealt_from_deck(#[trigger] r.players@[j], deck.cards@),
            forall|j: int|
                0 <= j < r.players@.len() ==> (#[trigger] r.players@[j]).life == STARTING_LIFE
                    && r.players@[j].zones.library@.len() + r.players@[j].zones.hand@.len()
                    == deck.cards@.len() && r.players@[j].zones.battlefield@.len() == 0
                    && r.players@[j].zones.hand@.len() == if deck.cards@.len() < OPENING_HAND {
                    deck.cards@.len()
                } else {
                    OPENING_HAND as nat
                },
    {
        let count = if player_count < 2 { 2 } else { player_count };
        let mut players: Vec<Player> = Vec::new();
        let mut k: usize = 0;
        while k < count
            invariant
                k <= count,
                players@.len() == k,
                forall|j: int|
                    0 <= j < k ==> dealt_from_deck(#[trigger] players@[j], deck.cards@),
                forall|j: int|
                    0 <= j < k ==> (#[trigger] players@[j]).life == STARTING_LIFE
                        && players@[j].zones.library@.len() + players@[j].zones.hand@.len()
                        == deck.cards@.len() && players@[j].zones.battlefield@.len() == 0
                        && players@[j].zones.hand@.len() == if deck.cards@.len() < OPENING_HAND {
                        deck.cards@.len()
                    } else {
                        OPENING_HAND as nat
                    },
            decreases count - k,
        {
            players.push(Player::new_with_rng(deck, rng));
            k = k + 1;
        }
        GameState { players, current_player_index: 0, turns: 0, step: GameStep::StartTurn }
    }

    /// A match at the start of the first turn, for `player_count` players (at least two),
    /// each with a freshly shuffled copy of `deck`.
    pub fn new(player_count: usize, deck: &Deck) -> (r: GameState)
        ensures
            r.wf(),
            r.players@.len() == if player_count < 2 { 2 } else { player_count },
            r.current_player_index == 0,
            r.turns == 0,
            r.step == GameStep::StartTurn,
            forall|j: int|
                0 <= j < r.players@.len() ==> dealt_from_deck(#[trigger] r.players@[j], deck.cards@),
            forall|j: int|
                0 <= j < r.players@.len() ==> (#[trigger] r.players@[j]).life == STARTING_LIFE
                    && r.players@[j].zones.library@.len() + r.players@[j].zones.hand@.len()
                    == deck.cards@.len() && r.players@[j].zones.battlefield@.len() == 0
                    && r.players@[j].zones.hand@.len() == if deck.cards@.len() < OPENING_HAND {
                    deck.cards@.len()
                } else {
                    OPENING_HAND as nat
                },
    {
        let mut rng = entropy_rng();
        GameState::new_with_rng(player_count, deck, &mut rng)
    }

    /// A two-player match with the example deck.
    pub fn new_default() -> (r: GameState)
        ensures
            r.wf(),
            r.players@.len() == 2,
            r.current_player_index == 0,
            r.turns == 0,
            r.step == GameStep::StartTurn,
            forall|j: int| 0 <= j < 2 ==> dealt_from_example(#[trigger] r.players@[j]),
            forall|j: int|
                0 <= j < 2 ==> (#[trigger] r.players@[j]).life == STARTING_LIFE
                    && r.players@[j].zones.hand@.len() == OPENING_HAND
                    && r.players@[j].zones.library@.len() == EXAMPLE_LANDS + EXAMPLE_CREATURES
                    - OPENING_HAND,
    {
        let deck = Deck::example();
        let r = GameState::new(2, &deck);
        assert forall|j: int| 0 <= j < 2 implies dealt_from_example(#[trigger] r.players@[j]) by {
            assert(is_deck_of(deck.cards@, EXAMPLE_LANDS as nat, EXAMPLE_CREATURES as nat)
                && dealt_from_deck(r.players@[j], deck.cards@));
        }
        r
    }

    pub fn current_player(&self) -> (r: &Player)
        requires
            self.wf(),
        ensures
            *r == self.current(),
    {
        &self.players[self.current_player_index]
    }

    pub fn current_player_mut(&mut self) -> (r: &mut Player)
        requires
            old(self).wf(),
        ensures
            *r == old(self).current(),
            final(self).players@ == old(self).players@.update(
                old(self).current_player_index as int,
                *final(r),
            ),
            final(self).current_player_index == old(self).current_player_index,
            final(self).turns == old(self).turns,
            final(self).step == old(self).step,
    {
        let i = self.current_player_index;
        &mut self.players[i]
    }

    /// Every player but the active one, in order.
    pub fn other_players(&self) -> (r: Vec<&Player>)
        requires
            self.wf(),
        ensures
            r@.len() == self.players@.len() - 1,
            forall|k: int|
                0 <= k < r@.len() ==> *#[trigger] r@[k] == self.players@[if k
                    < self.current_player_index {
                    k
                } else {
                    k + 1
                }],
    {
        let n = self.players.len();
        let c = self.current_player_index;
        let mut r: Vec<&Player> = Vec::new();
        let mut j: usize = 0;
        while j < n
            invariant
                n == self.players@.len(),
                c == self.current_player_index,
                c < n,
                j <= n,
                r@.len() == if j <= c { j as int } else { j - 1 },
                forall|k: int|
                    0 <= k < r@.len() ==> *#[trigger] r@[k] == self.players@[if k < c {
                        k
                    } else {
                        k + 1
                    }],
            decreases n - j,
        {
            if j != c {
                r.push(&self.players[j]);
            }
            j = j + 1;
        }
        r
    }

    /// Every player but the active one, in order, for changing them; nothing else of the match
    /// can change through them.
    pub fn other_players_mut(&mut self) -> (r: Vec<&mut Player>)
        requires
            old(self).wf(),
        ensures
            final(self).current_player_index == old(self).current_player_index,
            final(self).turns == old(self).turns,
            final(self).step == old(self).step,
            final(self).players@.len() == old(self).players@.len(),
            final(self).current() == old(self).current(),
            forall|k: int|
                0 <= k < r@.len() ==> final(self).players@[if k < old(self).current_player_index {
                    k
                } else {
                    k + 1
                }] == *final(#[trigger] r@[k]),
            r@.len() == old(self).players@.len() - 1,
            forall|k: int|
                0 <= k < r@.len() ==> *#[trigger] r@[k] == old(self).players@[if k
                    < old(self).current_player_index {
                    k
                } else {
                    k + 1
                }],
    {
        let c = self.current_player_index;
        let ghost p0 = self.players@;
        let (before, rest) = self.players.as_mut_slice().split_at_mut(c);
        let (mid, after) = rest.split_at_mut(1);
        assert(final(mid)@ == mid@);
        let ghost b0 = before@;
        let ghost a0 = after@;
        assert(b0 == p0.subrange(0, c as int));
        assert(a0 == p0.subrange(c + 1, p0.len() as int));
        let mut r: Vec<&mut Player> = Vec::new();
        push_each(before, &mut r);
        let ghost r1 = r@;
        push_each(after, &mut r);
        assert forall|k: int| 0 <= k < r@.len() implies after_borrow(self.players)@[if k < c {
            k
        } else {
            k + 1
        }] == *final(#[trigger] r@[k]) by {
            if k < c {
                assert(r@[k] == r1[k]);
            } else {
                assert(r@[k] == r@[b0.len() + (k - c)]);
            }
        }
        assert forall|k: int| 0 <= k < r@.len() implies *#[trigger] r@[k] == p0[if k < c {
            k
        } else {
            k + 1
        }] by {
            if k < c {
                assert(*r@[k] == *r1[k]);
                assert(*r1[0 + k] == b0[k]);
                assert(b0[k] == p0[k]);
            } else {
                assert(*r@[b0.len() + (k - c)] == a0[k - c]);
                assert(a0[k - c] == p0[k + 1]);
            }
        }
        r
    }

    /// The active player's zones.
    pub fn zones(&self) -> (r: &ZoneStore)
        requires
            self.wf(),
        ensures
            *r == self.current().zones,
    {
        &self.players[self.current_player_index].zones
    }

    pub fn zones_mut(&mut self) -> (r: &mut ZoneStore)
        requires
            old(self).wf(),
        ensures
            *r == old(self).current().zones,
            final(self).players@ == old(self).players@.update(
                old(self).current_player_index as int,
                Player { zones: *final(r), ..old(self).current() },
            ),
            final(self).current_player_index == old(self).current_player_index,
            final(self).turns == old(self).turns,
            final(self).step == old(self).step,
    {
        let i = self.current_player_index;
        &mut self.players[i].zones
    }

    /// The active player's life.
    pub fn life(&self) -> (r: i32)
        requires
            self.wf(),
        ensures
            r == self.current().life,
    {
        self.players[self.current_player_index].life
    }

    pub fn set_life(&mut self, life: i32)
        requires
            old(self).wf(),
        ensures
            final(self).players@ == old(self).players@.update(
                old(self).current_player_index as int,
                Player { life, ..old(self).current() },
            ),
            final(self).current_player_index == old(self).current_player_index,
            final(self).turns == old(self).turns,
            final(self).step == old(self).step,
    {
        let i = self.current_player_index;
        self.players[i].life = life;
    }

    /// Advances the match by exactly one phase, applying that phase's effects.
    pub fn step(&mut self)
        requires
            old(self).wf(),
            old(self).step == GameStep::StartTurn ==> old(self).turns < u32::MAX,
        ensures
            final(self).wf(),
            advanced(*old(self), *final(self)),
    {
        let i = self.current_player_index;
        match self.step {
            GameStep::StartTurn => {
                self.turns = self.turns + 1;
                self.step = GameStep::Untap;
            },
            GameStep::Untap => {
                self.players[i].zones.untap_all();
                self.step = GameStep::Upkeep;
            },
            GameStep::Upkeep => {
                self.players[i].zones.refresh_all();
                self.step = GameStep::Draw;
            },
            GameStep::Draw => {
                if self.players[i].zones.draw() {
                    self.step = GameStep::Main;
                } else {
                    self.step = GameStep::GameOver;
                }
            },
            GameStep::Main => {
                self.players[i].zones.play_land();
                self.players[i].zones.cast_creatures();
                self.step = GameStep::Combat;
            },
            GameStep::Combat => {
                self.resolve_combat();
            },
            GameStep::EndTurn => {
                let n = self.players.len();
                self.current_player_index = (i + 1) % n;
                self.step = GameStep::StartTurn;
            },
            GameStep::GameOver => {},
        }
    }

    /// Combat: the active player's able creatures attack together, every other player loses
    /// their total power at once, and the match ends if anyone's life is at or below zero.
    fn resolve_combat(&mut self)
        requires
            old(self).wf(),
            old(self).step == GameStep::Combat,
        ensures
            final(self).wf(),
            advanced(*old(self), *final(self)),
    {
        let ghost s0 = *self;
        let i = self.current_player_index;
        let damage = self.players[i].zones.attack();
        let ghost s1 = *self;
        let n = self.players.len();
        let mut j: usize = 0;
        while j < n
            invariant
                n == self.players@.len(),
                n == s0.players@.len(),
                n == s1.players@.len(),
                i < n,
                i == self.current_player_index,
                i == s0.current_player_index,
                j <= n,
                damage <= DAMAGE_CAP,
                damage == if attack_power(s0.current().zones.battlefield@) < DAMAGE_CAP {
                    attack_power(s0.current().zones.battlefield@)
                } else {
                    DAMAGE_CAP as nat
                },
                self.turns == s0.turns,
                self.step == s0.step,
                self.players@[i as int] == s1.players@[i as int],
                forall|k: int|
                    0 <= k < j && k != i ==> (#[trigger] self.players@[k]).life == after_damage(
                        s0.players@[k].life,
                        attack_power(s0.current().zones.battlefield@) as int,
                    ) && self.players@[k].zones == s0.players@[k].zones,
                forall|k: int| j <= k < n && k != i ==> #[trigger] self.players@[k] == s0.players@[k],
            decreases n - j,
        {
            if j != i {
                let life = self.players[j].life;
                self.players[j].life = life_after_damage(life, damage);
            }
            j = j + 1;
        }
        let mut dead = false;
        let mut k: usize = 0;
        while k < n
            invariant
                n == self.players@.len(),
                k <= n,
                dead == exists|m: int| 0 <= m < k && (#[trigger] self.players@[m]).life <= 0,
            decreases n - k,
        {
            if self.players[k].life <= 0 {
                dead = true;
            }
            k = k + 1;
        }
        if dead {
            self.step = GameStep::GameOver;
        } else {
            self.step = GameStep::EndTurn;
        }
    }

    pub fn is_game_over(&self) -> (r: bool)
        ensures
            r == (self.step == GameStep::GameOver),
    {
        match self.step {
            GameStep::GameOver => true,
            _ => false,
        }
    }
}

} // verus!
