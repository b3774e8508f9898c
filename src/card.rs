use vstd::prelude::*;

verus! {

/// The printed type tags a card may carry.
#[derive(Clone, Copy, Debug, PartialEq, Eq, Structural)]
pub enum CardType {
    Land,
    Creature,
}

/// Printed combat numbers of a creature.
#[derive(Clone, Copy, Debug, PartialEq, Eq, Structural)]
pub struct CreatureStats {
    pub power: u8,
    pub toughness: u8,
}

/// A card together with its transient flags, owned by the zone that holds it.
#[derive(Clone, Debug)]
pub struct Card {
    pub name: String,
    pub cost: u32,
    pub land: bool,
    pub creature: bool,
    pub stats: Option<CreatureStats>,
    pub tapped: bool,
    pub summoning_sick: bool,
}

/// An ordered collection of cards from which a library is dealt.
#[derive(Clone, Debug)]
pub struct Deck {
    pub cards: Vec<Card>,
}

pub open spec fn has_type(c: Card, t: CardType) -> bool {
    match t {
        CardType::Land => c.land,
        CardType::Creature => c.creature,
    }
}

/// The power a creature adds to an attack: its printed power, or nothing without stats.
pub open spec fn power_of(c: Card) -> nat {
    match c.stats {
        Some(s) => s.power as nat,
        None => 0,
    }
}

/// The basic land, untapped.
pub open spec fn is_forest(c: Card) -> bool {
    &&& c.name@ == "Forest"@
    &&& c.cost == 0
    &&& c.land
    &&& !c.creature
    &&& c.stats is None
    &&& !c.tapped
    &&& !c.summoning_sick
}

/// The two-mana 2/2 creature, untapped and ready.
pub open spec fn is_grizzly_bears(c: Card) -> bool {
    &&& c.name@ == "Grizzly Bears"@
    &&& c.cost == 2
    &&& !c.land
    &&& c.creature
    &&& c.stats == Some(CreatureStats { power: 2, toughness: 2 })
    &&& !c.tapped
    &&& !c.summoning_sick
}

/// `d` holds `lands` forests followed by `creatures` grizzly bears.
pub open spec fn is_deck_of(d: Seq<Card>, lands: nat, creatures: nat) -> bool {
    &&& d.len() == lands + creatures
    &&& forall|i: int| 0 <= i < lands ==> is_forest(#[trigger] d[i])
    &&& forall|i: int| lands <= i < lands + creatures ==> is_grizzly_bears(#[trigger] d[i])
}

impl Card {
    pub fn is_type(&self, t: CardType) -> (r: bool)
        ensures
            r == has_type(*self, t),
    {
        match t {
            CardType::Land => self.land,
            CardType::Creature => self.creature,
        }
    }

    pub fn is_creature(&self) -> (r: bool)
        ensures
            r == self.creature,
    {
        self.creature
    }

    pub fn is_tapped(&self) -> (r: bool)
        ensures
            r == self.tapped,
    {
        self.tapped
    }

    pub fn set_tapped(&mut self, tapped: bool)
        ensures
            *final(self) == (Card { tapped, ..*old(self) }),
    {
        self.tapped = tapped;
    }

    pub fn has_summoning_sickness(&self) -> (r: bool)
        ensures
            r == self.summoning_sick,
    {
        self.summoning_sick
    }

    pub fn set_summoning_sickness(&mut self, sick: bool)
        ensures
            *final(self) == (Card { summoning_sick: sick, ..*old(self) }),
    {
        self.summoning_sick = sick;
    }

    /// Combat numbers, present only on a creature that has them.
    pub fn creature_stats(&self) -> (r: Option<CreatureStats>)
        ensures
            r == (if self.creature { self.stats } else { None::<CreatureStats> }),
    {
        if self.creature {
            self.stats
        } else {
            None
        }
    }

    /// An identical copy of the card.
    pub fn duplicate(&self) -> (r: Card)
        ensures
            r == *self,
    {
        Card {
            name: self.name.clone(),
            cost: self.cost,
            land: self.land,
            creature: self.creature,
            stats: self.stats,
            tapped: self.tapped,
            summoning_sick: self.summoning_sick,
        }
    }

    /// Makes the card a creature with the given power and toughness.
    pub fn add_creature_fragment(&mut self, power: u8, toughness: u8)
        ensures
            *final(self) == (Card {
                creature: true,
                stats: Some(CreatureStats { power, toughness }),
                ..*old(self)
            }),
    {
        self.creature = true;
        self.stats = Some(CreatureStats { power, toughness });
    }
}

/// A basic land: costs nothing, produces one mana when tapped.
pub fn forest() -> (r: Card)
    ensures
        is_forest(r),
{
    Card {
        name: String::from_str("Forest"),
        cost: 0,
        land: true,
        creature: false,
        stats: None,
        tapped: false,
        summoning_sick: false,
    }
}

/// A vanilla two-mana 2/2 creature.
pub fn grizzly_bears() -> (r: Card)
    ensures
        is_grizzly_bears(r),
{
    Card {
        name: String::from_str("Grizzly Bears"),
        cost: 2,
        land: false,
        creature: true,
        stats: Some(CreatureStats { power: 2, toughness: 2 }),
        tapped: false,
        summoning_sick: false,
    }
}

pub const EXAMPLE_LANDS: u32 = 17;

pub const EXAMPLE_CREATURES: u32 = 23;

impl Deck {
    /// A deck of `lands` forests followed by `creatures` grizzly bears.
    pub fn with_counts(lands: u32, creatures: u32) -> (r: Deck)
        ensures
            is_deck_of(r.cards@, lands as nat, creatures as nat),
    {
        let mut cards: Vec<Card> = Vec::new();
        let mut i: u32 = 0;
        while i < lands
            invariant
                i <= lands,
                cards@.len() == i,
                forall|k: int| 0 <= k < i ==> is_forest(#[trigger] cards@[k]),
            decreases lands - i,
        {
            cards.push(forest());
            i = i + 1;
        }
        let mut j: u32 = 0;
        while j < creatures
            invariant
                i == lands,
                j <= creatures,
                cards@.len() == lands + j,
                forall|k: int| 0 <= k < lands ==> is_forest(#[trigger] cards@[k]),
                forall|k: int| lands <= k < lands + j ==> is_grizzly_bears(#[trigger] cards@[k]),
            decreases creatures - j,
        {
            cards.push(grizzly_bears());
            j = j + 1;
        }
        Deck { cards }
    }

    /// A copy of the deck's cards, in order.
    pub fn copy_cards(&self) -> (r: Vec<Card>)
        ensures
            r@ == self.cards@,
    {
        let n = self.cards.len();
        let mut r: Vec<Card> = Vec::new();
        let mut i: usize = 0;
        while i < n
            invariant
                n == self.cards@.len(),
                i <= n,
                r@ == self.cards@.subrange(0, i as int),
            decreases n - i,
        {
            r.push(self.cards[i].duplicate());
            i = i + 1;
            assert(r@ =~= self.cards@.subrange(0, i as int));
        }
        assert(self.cards@.subrange(0, n as int) =~= self.cards@);
        r
    }

    /// The deck used when no other is given.
    pub fn example() -> (r: Deck)
        ensures
            is_deck_of(r.cards@, EXAMPLE_LANDS as nat, EXAMPLE_CREATURES as nat),
    {
        Deck::with_counts(EXAMPLE_LANDS, EXAMPLE_CREATURES)
    }
}

} // verus!
