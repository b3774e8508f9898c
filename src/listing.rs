use vstd::prelude::*;

use crate::card::Card;

verus! {

/// Cards of `s` that satisfy `p`.
pub open spec fn count_where(s: Seq<Card>, p: spec_fn(Card) -> bool) -> nat
    decreases s.len(),
{
    if s.len() == 0 {
        0
    } else {
        count_where(s.drop_last(), p) + if p(s.last()) {
            1nat
        } else {
            0nat
        }
    }
}

pub open spec fn has_name(n: Seq<char>) -> spec_fn(Card) -> bool {
    |c: Card| c.name@ == n
}

/// Cards of `s` named `n`.
pub open spec fn name_count(s: Seq<Card>, n: Seq<char>) -> nat {
    count_where(s, has_name(n))
}

proof fn lemma_count_prefix(s: Seq<Card>, p: spec_fn(Card) -> bool, i: int)
    requires
        0 <= i < s.len(),
    ensures
        count_where(s.subrange(0, i + 1), p) == count_where(s.subrange(0, i), p) + if p(s[i]) {
            1nat
        } else {
            0nat
        },
{
    assert(s.subrange(0, i + 1).drop_last() =~= s.subrange(0, i));
}

proof fn lemma_count_none(s: Seq<Card>, p: spec_fn(Card) -> bool, i: int)
    requires
        0 <= i <= s.len(),
        forall|k: int| 0 <= k < i ==> !p(#[trigger] s[k]),
    ensures
        count_where(s.subrange(0, i), p) == 0,
    decreases i,
{
    if i > 0 {
        lemma_count_prefix(s, p, i - 1);
        lemma_count_none(s, p, i - 1);
    }
}

/// A name and how many cards carry it.
#[derive(Clone, Debug)]
pub struct NameCount {
    pub name: String,
    pub count: u32,
}

/// Some entry of `r` carries the name `n`.
pub open spec fn named_in(r: Seq<NameCount>, n: Seq<char>) -> bool {
    exists|i: int| 0 <= i < r.len() && (#[trigger] r[i]).name@ == n
}

/// Cards grouped by name: one entry per distinct name, with the
/// number of cards that carry it.
pub fn count_by_name(cards: &Vec<Card>) -> (r: Vec<NameCount>)
    requires
        cards@.len() <= u32::MAX,
    ensures
        forall|i: int, j: int| 0 <= i < j < r@.len() ==> r@[i].name@ != r@[j].name@,
        forall|k: int| 0 <= k < cards@.len() ==> named_in(r@, (#[trigger] cards@[k]).name@),
        forall|i: int|
            0 <= i < r@.len() ==> (#[trigger] r@[i]).count == name_count(cards@, r@[i].name@)
                && r@[i].count > 0,
{
    let n = cards.len();
    let mut r: Vec<NameCount> = Vec::new();
    let ghost mut home: Seq<int> = Seq::empty();
    let mut i: usize = 0;
    while i < n
        invariant
            n == cards@.len(),
            n <= u32::MAX,
            i <= n,
            home.len() == i,
            forall|a: int, b: int| 0 <= a < b < r@.len() ==> r@[a].name@ != r@[b].name@,
            forall|k: int|
                0 <= k < i ==> 0 <= #[trigger] home[k] < r@.len() && r@[home[k]].name@
                    == cards@[k].name@,
            forall|g: int|
                0 <= g < r@.len() ==> (#[trigger] r@[g]).count == name_count(
                    cards@.subrange(0, i as int),
                    r@[g].name@,
                ) && 0 < r@[g].count <= i,
        decreases n - i,
    {
        let ghost nm = cards@[i as int].name@;
        proof {
            assert forall|g: int| 0 <= g < r@.len() implies name_count(
                cards@.subrange(0, i + 1),
                #[trigger] r@[g].name@,
            ) == name_count(cards@.subrange(0, i as int), r@[g].name@) + if r@[g].name@ == nm {
                1nat
            } else {
                0nat
            } by {
                lemma_count_prefix(cards@, has_name(r@[g].name@), i as int);
            }
        }
        let len = r.len();
        let mut j: usize = 0;
        while j < len && !(r[j].name == cards[i].name)
            invariant
                len == r@.len(),
                j <= len,
                i < n,
                n == cards@.len(),
                nm == cards@[i as int].name@,
                forall|g: int| 0 <= g < j ==> (#[trigger] r@[g]).name@ != nm,
            decreases len - j,
        {
            j = j + 1;
        }
        if j < len {
            let c = r[j].count;
            r[j].count = c + 1;
            proof {
                home = home.push(j as int);
            }
        } else {
            proof {
                assert forall|k: int| 0 <= k < i implies !has_name(nm)(#[trigger] cards@[k]) by {
                    assert(r@[home[k]].name@ == cards@[k].name@);
                }
                lemma_count_none(cards@, has_name(nm), i as int);
                lemma_count_prefix(cards@, has_name(nm), i as int);
            }
            r.push(NameCount { name: cards[i].name.clone(), count: 1 });
            proof {
                home = home.push(len as int);
            }
        }
        i = i + 1;
    }
    proof {
        assert(cards@.subrange(0, n as int) =~= cards@);
        assert forall|k: int| 0 <= k < cards@.len() implies named_in(r@, (#[trigger] cards@[k]).name@) by {
            assert(r@[home[k]].name@ == cards@[k].name@);
        }
    }
    r
}


/// A creature listed as sick: the flag counts only on creatures.
pub open spec fn shows_sick(c: Card) -> bool {
    c.creature && c.summoning_sick
}

pub open spec fn has_key(n: Seq<char>, sick: bool) -> spec_fn(Card) -> bool {
    |c: Card| c.name@ == n && shows_sick(c) == sick
}

/// Cards of `s` named `n` whose listed sickness is `sick`.
pub open spec fn key_count(s: Seq<Card>, n: Seq<char>, sick: bool) -> nat {
    count_where(s, has_key(n, sick))
}

/// Power as listed: a creature's printed power, else zero.
pub open spec fn shown_power(c: Card) -> u8 {
    match c.stats {
        Some(st) => if c.creature { st.power } else { 0 },
        None => 0,
    }
}

/// Toughness as listed: a creature's printed toughness, else zero.
pub open spec fn shown_toughness(c: Card) -> u8 {
    match c.stats {
        Some(st) => if c.creature { st.toughness } else { 0 },
        None => 0,
    }
}

/// Battlefield cards that list alike: the same name and, for creatures, the same sickness.
#[derive(Clone, Debug)]
pub struct BattlefieldGroup {
    pub name: String,
    pub power: u8,
    pub toughness: u8,
    pub creature: bool,
    pub sick: bool,
    pub count: u32,
}

pub open spec fn group_sick(g: BattlefieldGroup) -> bool {
    g.creature && g.sick
}

/// The group's name, stats and flags are those of `c`.
pub open spec fn describes(g: BattlefieldGroup, c: Card) -> bool {
    &&& g.name@ == c.name@
    &&& g.power == shown_power(c)
    &&& g.toughness == shown_toughness(c)
    &&& g.creature == c.creature
    &&& g.sick == c.summoning_sick
}

/// Some group of `r` lists cards like `c`.
pub open spec fn grouped_in(r: Seq<BattlefieldGroup>, c: Card) -> bool {
    exists|i: int| 0 <= i < r.len() && (#[trigger] r[i]).name@ == c.name@ && group_sick(r[i]) == shows_sick(c)
}

/// `g` describes the first card of `s` that lists like it.
pub open spec fn from_first_card(s: Seq<Card>, g: BattlefieldGroup) -> bool {
    exists|k: int|
        0 <= k < s.len() && describes(g, #[trigger] s[k]) && forall|k2: int|
            0 <= k2 < k ==> !has_key(g.name@, group_sick(g))(#[trigger] s[k2])
}

/// Battlefield cards grouped by name and listed sickness, with a count per group and the
/// stats and flags of each group's first card.
pub fn battlefield_groups(cards: &Vec<Card>) -> (r: Vec<BattlefieldGroup>)
    requires
        cards@.len() <= u32::MAX,
    ensures
        forall|i: int, j: int|
            0 <= i < j < r@.len() ==> !(r@[i].name@ == r@[j].name@ && group_sick(r@[i]) == group_sick(
                r@[j],
            )),
        forall|k: int| 0 <= k < cards@.len() ==> grouped_in(r@, #[trigger] cards@[k]),
        forall|i: int|
            0 <= i < r@.len() ==> (#[trigger] r@[i]).count == key_count(
                cards@,
                r@[i].name@,
                group_sick(r@[i]),
            ) && r@[i].count > 0 && from_first_card(cards@, r@[i]),
{
    let n = cards.len();
    let mut r: Vec<BattlefieldGroup> = Vec::new();
    let ghost mut home: Seq<int> = Seq::empty();
    let ghost mut first: Seq<int> = Seq::empty();
    let mut i: usize = 0;
    while i < n
        invariant
            n == cards@.len(),
            n <= u32::MAX,
            i <= n,
            home.len() == i,
            first.len() == r@.len(),
            forall|a: int, b: int|
                0 <= a < b < r@.len() ==> !(r@[a].name@ == r@[b].name@ && group_sick(r@[a])
                    == group_sick(r@[b])),
            forall|k: int|
                0 <= k < i ==> 0 <= #[trigger] home[k] < r@.len() && r@[home[k]].name@
                    == cards@[k].name@ && group_sick(r@[home[k]]) == shows_sick(cards@[k]),
            forall|g: int|
                0 <= g < r@.len() ==> (#[trigger] r@[g]).count == key_count(
                    cards@.subrange(0, i as int),
                    r@[g].name@,
                    group_sick(r@[g]),
                ) && 0 < r@[g].count <= i,
            forall|g: int|
                0 <= g < r@.len() ==> 0 <= #[trigger] first[g] < i && describes(r@[g], cards@[first[g]])
                    && forall|k2: int|
                    0 <= k2 < first[g] ==> !has_key(r@[g].name@, group_sick(r@[g]))(
                        #[trigger] cards@[k2],
                    ),
        decreases n - i,
    {
        let ghost nm = cards@[i as int].name@;
        let ghost sk = shows_sick(cards@[i as int]);
        proof {
            assert forall|g: int| 0 <= g < r@.len() implies key_count(
                cards@.subrange(0, i + 1),
                #[trigger] r@[g].name@,
                group_sick(r@[g]),
            ) == key_count(cards@.subrange(0, i as int), r@[g].name@, group_sick(r@[g])) + if r@[g].name@
                == nm && group_sick(r@[g]) == sk {
                1nat
            } else {
                0nat
            } by {
                lemma_count_prefix(cards@, has_key(r@[g].name@, group_sick(r@[g])), i as int);
            }
        }
        let sick = cards[i].creature && cards[i].summoning_sick;
        let len = r.len();
        let mut j: usize = 0;
        while j < len && !(r[j].name == cards[i].name && (r[j].creature && r[j].sick) == sick)
            invariant
                len == r@.len(),
                j <= len,
                i < n,
                n == cards@.len(),
                nm == cards@[i as int].name@,
                sk == sick,
                forall|g: int| 0 <= g < j ==> !((#[trigger] r@[g]).name@ == nm && group_sick(r@[g]) == sk),
            decreases len - j,
        {
            j = j + 1;
        }
        if j < len {
            let c = r[j].count;
            r[j].count = c + 1;
            proof {
                home = home.push(j as int);
            }
        } else {
            proof {
                assert forall|k: int| 0 <= k < i implies !has_key(nm, sk)(#[trigger] cards@[k]) by {
                    assert(r@[home[k]].name@ == cards@[k].name@);
                }
                lemma_count_none(cards@, has_key(nm, sk), i as int);
                lemma_count_prefix(cards@, has_key(nm, sk), i as int);
            }
            let (power, toughness) = match cards[i].creature_stats() {
                Some(st) => (st.power, st.toughness),
                None => (0u8, 0u8),
            };
            r.push(
                BattlefieldGroup {
                    name: cards[i].name.clone(),
                    power,
                    toughness,
                    creature: cards[i].creature,
                    sick: cards[i].summoning_sick,
                    count: 1,
                },
            );
            proof {
                home = home.push(len as int);
                first = first.push(i as int);
            }
        }
        i = i + 1;
    }
    proof {
        assert(cards@.subrange(0, n as int) =~= cards@);
        assert forall|k: int| 0 <= k < cards@.len() implies grouped_in(r@, #[trigger] cards@[k]) by {
            assert(r@[home[k]].name@ == cards@[k].name@);
        }
        assert forall|g: int| 0 <= g < r@.len() implies from_first_card(cards@, #[trigger] r@[g]) by {
            assert(describes(r@[g], cards@[first[g]]));
        }
    }
    r
}

} // verus!
