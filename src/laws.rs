use vstd::prelude::*;

use crate::card::Card;
use crate::game::{
    advanced, after_damage, attack_power, can_attack, cast_all, castable, first_where, GameState,
    GameStep, land_step, lemma_first_where_bounds, mana, pay, sicken, tap,
    untapped_land,
};

verus! {

/// Land-tagged cards in `s`, tapped or not.
pub open spec fn land_count(s: Seq<Card>) -> nat
    decreases s.len(),
{
    if s.len() == 0 {
        0
    } else {
        land_count(s.drop_last()) + if s.last().land {
            1nat
        } else {
            0nat
        }
    }
}

/// No card of `s` is both a land and a creature.
pub open spec fn single_typed(s: Seq<Card>) -> bool {
    forall|k: int| 0 <= k < s.len() ==> !((#[trigger] s[k]).land && s[k].creature)
}

/// The turn counter never decreases, and changes only when a turn starts, by one.
pub proof fn lemma_turn_counter(s: GameState, t: GameState)
    requires
        advanced(s, t),
    ensures
        s.turns <= t.turns,
        t.turns != s.turns ==> s.step == GameStep::StartTurn && t.turns == s.turns + 1,
{
}

/// After the untap step no card on the active player's battlefield is tapped.
pub proof fn lemma_untap_clears(s: GameState, t: GameState)
    requires
        s.wf(),
        s.step == GameStep::Untap,
        advanced(s, t),
    ensures
        forall|k: int|
            0 <= k < t.current().zones.battlefield@.len() ==> !(
            #[trigger] t.current().zones.battlefield@[k]).tapped,
{
}

/// After upkeep no creature on the active player's battlefield is summoning-sick.
pub proof fn lemma_upkeep_cures(s: GameState, t: GameState)
    requires
        s.wf(),
        s.step == GameStep::Upkeep,
        advanced(s, t),
    ensures
        forall|k: int|
            0 <= k < t.current().zones.battlefield@.len() && (
            #[trigger] t.current().zones.battlefield@[k]).creature ==> !t.current().zones.battlefield@[k].summoning_sick,
{
}

/// A draw from a nonempty library moves one card from library to hand and leads to the main
/// phase; from an empty library it ends the match with every zone as it was.
pub proof fn lemma_draw(s: GameState, t: GameState)
    requires
        s.wf(),
        s.step == GameStep::Draw,
        advanced(s, t),
    ensures
        s.current().zones.library@.len() > 0 ==> {
            &&& t.current().zones.hand@.len() == s.current().zones.hand@.len() + 1
            &&& t.current().zones.library@.len() + 1 == s.current().zones.library@.len()
            &&& t.step == GameStep::Main
        },
        s.current().zones.library@.len() == 0 ==> {
            &&& t.step == GameStep::GameOver
            &&& t.current().zones.hand@.len() == s.current().zones.hand@.len()
            &&& t.current().zones.library@.len() == 0
            &&& t.current().zones.battlefield@.len() == s.current().zones.battlefield@.len()
        },
{
}

proof fn lemma_pay_shape(b: Seq<Card>, n: nat)
    requires
        b.len() > 0,
    ensures
        pay(b, n).drop_last() == pay(b.drop_last(), n),
        pay(b, n).last() == if untapped_land(b.last()) && mana(b.drop_last()) < n {
            tap(b.last())
        } else {
            b.last()
        },
{
    assert(b.subrange(0, b.len() - 1) =~= b.drop_last());
    assert forall|j: int| 0 <= j < b.len() - 1 implies b.subrange(0, j) =~= #[trigger] b.drop_last().subrange(0, j) by {}
    assert(pay(b, n).drop_last() =~= pay(b.drop_last(), n));
}

/// Paying taps lands only: the number of land cards stays the same.
pub proof fn lemma_pay_keeps_lands(b: Seq<Card>, n: nat)
    ensures
        land_count(pay(b, n)) == land_count(b),
    decreases b.len(),
{
    if b.len() > 0 {
        lemma_pay_shape(b, n);
        lemma_pay_keeps_lands(b.drop_last(), n);
    }
}

/// Paying `n` from the battlefield spends `n` mana, or all there is if that is less.
pub proof fn lemma_pay_mana(b: Seq<Card>, n: nat)
    ensures
        mana(pay(b, n)) == mana(b) - if n < mana(b) { n } else { mana(b) },
        pay(b, n).len() == b.len(),
    decreases b.len(),
{
    if b.len() > 0 {
        lemma_pay_shape(b, n);
        lemma_pay_mana(b.drop_last(), n);
    }
}

/// A creature is cast only when its cost is at most the untapped lands available at that
/// moment; paying for it taps exactly that many lands, each an untapped land before, and it
/// enters the battlefield summoning-sick.
pub proof fn lemma_cast_pays(h: Seq<Card>, b: Seq<Card>)
    requires
        0 <= first_where(h, castable(mana(b))) < h.len(),
    ensures
        ({
            let i = first_where(h, castable(mana(b)));
            let c = h[i];
            let paid = pay(b, c.cost as nat);
            &&& c.creature
            &&& c.cost <= mana(b)
            &&& mana(paid) == mana(b) - c.cost
            &&& paid.len() == b.len()
            &&& forall|j: int|
                0 <= j < b.len() ==> #[trigger] paid[j] == b[j] || (untapped_land(b[j]) && paid[j]
                    == tap(b[j]))
            &&& sicken(c).summoning_sick
            &&& cast_all(h, b) == cast_all(h.remove(i), paid.push(sicken(c)))
        }),
{
    lemma_first_where_bounds(h, castable(mana(b)));
    let i = first_where(h, castable(mana(b)));
    lemma_pay_mana(b, h[i].cost as nat);
}

proof fn lemma_cast_all_lands(h: Seq<Card>, b: Seq<Card>)
    requires
        single_typed(h),
    ensures
        land_count(cast_all(h, b).1) == land_count(b),
    decreases h.len(),
{
    let i = first_where(h, castable(mana(b)));
    lemma_first_where_bounds(h, castable(mana(b)));
    if 0 <= i < h.len() {
        let c = h[i];
        let paid = pay(b, c.cost as nat);
        lemma_pay_keeps_lands(b, c.cost as nat);
        assert(paid.push(sicken(c)).drop_last() =~= paid);
        lemma_single_typed_remove(h, i);
        lemma_cast_all_lands(h.remove(i), paid.push(sicken(c)));
    }
}

/// A main phase adds at most one land to the battlefield, however many the hand holds, when no
/// card in hand is both a land and a creature.
pub proof fn lemma_one_land_per_main(s: GameState, t: GameState)
    requires
        s.wf(),
        s.step == GameStep::Main,
        advanced(s, t),
        single_typed(s.current().zones.hand@),
    ensures
        land_count(t.current().zones.battlefield@) <= land_count(s.current().zones.battlefield@) + 1,
{
    let h = s.current().zones.hand@;
    let b = s.current().zones.battlefield@;
    let played = land_step(h, b);
    let i = first_where(h, crate::game::is_land_card());
    if 0 <= i < h.len() {
        assert(b.push(h[i]).drop_last() =~= b);
        lemma_single_typed_remove(h, i);
    }
    lemma_cast_all_lands(played.0, played.1);
}

/// The creatures the casting loop casts from `h` onto `b`, in casting order.
pub open spec fn cast_sequence(h: Seq<Card>, b: Seq<Card>) -> Seq<Card>
    decreases h.len(),
{
    let i = first_where(h, castable(mana(b)));
    if 0 <= i < h.len() {
        seq![h[i]] + cast_sequence(h.remove(i), pay(b, h[i].cost as nat).push(sicken(h[i])))
    } else {
        Seq::empty()
    }
}

/// Sum of the costs of the cards of `s`.
pub open spec fn total_cost(s: Seq<Card>) -> nat
    decreases s.len(),
{
    if s.len() == 0 {
        0
    } else {
        s[0].cost as nat + total_cost(s.drop_first())
    }
}

proof fn lemma_single_typed_remove(h: Seq<Card>, i: int)
    requires
        single_typed(h),
        0 <= i < h.len(),
    ensures
        single_typed(h.remove(i)),
{
    assert forall|k: int| 0 <= k < h.remove(i).len() implies !((#[trigger] h.remove(i)[k]).land
        && h.remove(i)[k].creature) by {
        if k < i {
            assert(h.remove(i)[k] == h[k]);
        } else {
            assert(h.remove(i)[k] == h[k + 1]);
        }
    }
}

proof fn lemma_mana_concat(a: Seq<Card>, b: Seq<Card>)
    ensures
        mana(a + b) == mana(a) + mana(b),
    decreases b.len(),
{
    if b.len() == 0 {
        assert(a + b =~= a);
    } else {
        assert((a + b).drop_last() =~= a + b.drop_last());
        lemma_mana_concat(a, b.drop_last());
    }
}

/// Over the whole casting loop, every card cast is a creature, and the mana balances: what the
/// battlefield had, plus what the cast cards themselves bring as untapped lands, equals what is
/// left plus the summed cost of the casts.
pub proof fn lemma_cast_all_spends_costs(h: Seq<Card>, b: Seq<Card>)
    ensures
        mana(b) + mana(cast_sequence(h, b)) == mana(cast_all(h, b).1) + total_cost(cast_sequence(h, b)),
        forall|k: int| 0 <= k < cast_sequence(h, b).len() ==> (#[trigger] cast_sequence(h, b)[k]).creature,
    decreases h.len(),
{
    let i = first_where(h, castable(mana(b)));
    lemma_first_where_bounds(h, castable(mana(b)));
    if 0 <= i < h.len() {
        let c = h[i];
        let paid = pay(b, c.cost as nat);
        let next = paid.push(sicken(c));
        lemma_pay_mana(b, c.cost as nat);
        assert(next.drop_last() =~= paid);
        lemma_cast_all_spends_costs(h.remove(i), next);
        let rest = cast_sequence(h.remove(i), next);
        assert((seq![c] + rest).drop_first() =~= rest);
        lemma_mana_concat(seq![c], rest);
        assert(seq![c].drop_last() =~= Seq::<Card>::empty());
        assert(seq![c].last() == c);
        assert(mana(seq![c].drop_last()) == 0);
        assert(mana(seq![c]) == if untapped_land(c) { 1nat } else { 0nat });
        assert(mana(next) == mana(paid) + if untapped_land(c) { 1nat } else { 0nat });
        assert(c.cost <= mana(b));
        assert(cast_sequence(h, b) == seq![c] + rest);
        assert(cast_all(h, b) == cast_all(h.remove(i), next));
        assert(total_cost(seq![c] + rest) == c.cost + total_cost(rest));
        assert forall|k: int| 0 <= k < (seq![c] + rest).len() implies (#[trigger] (seq![c] + rest)[k]).creature by {
            if k > 0 {
                assert((seq![c] + rest)[k] == rest[k - 1]);
            }
        }
    }
}

/// When no card cast is itself an untapped land, the casting loop spends exactly the summed cost
/// of the creatures it casts.
pub proof fn lemma_cast_all_spends_exactly(h: Seq<Card>, b: Seq<Card>)
    requires
        single_typed(h),
    ensures
        mana(b) == mana(cast_all(h, b).1) + total_cost(cast_sequence(h, b)),
{
    lemma_cast_all_spends_costs(h, b);
    lemma_cast_sequence_from_hand(h, b);
    lemma_no_land_no_mana(cast_sequence(h, b));
}

proof fn lemma_cast_sequence_from_hand(h: Seq<Card>, b: Seq<Card>)
    requires
        single_typed(h),
    ensures
        forall|k: int| 0 <= k < cast_sequence(h, b).len() ==> !(#[trigger] cast_sequence(h, b)[k]).land,
    decreases h.len(),
{
    lemma_cast_all_spends_costs(h, b);
    assert forall|k: int| 0 <= k < cast_sequence(h, b).len() implies !(#[trigger] cast_sequence(h, b)[k]).land by {
        let i = first_where(h, castable(mana(b)));
        lemma_first_where_bounds(h, castable(mana(b)));
        if 0 <= i < h.len() {
            let c = h[i];
            let next = pay(b, c.cost as nat).push(sicken(c));
            lemma_single_typed_remove(h, i);
            lemma_cast_sequence_from_hand(h.remove(i), next);
            let rest = cast_sequence(h.remove(i), next);
            if k > 0 {
                assert((seq![c] + rest)[k] == rest[k - 1]);
            }
        }
    }
}

proof fn lemma_no_land_no_mana(s: Seq<Card>)
    requires
        forall|k: int| 0 <= k < s.len() ==> !(#[trigger] s[k]).land,
    ensures
        mana(s) == 0,
    decreases s.len(),
{
    if s.len() > 0 {
        assert(!s[s.len() - 1].land);
        lemma_no_land_no_mana(s.drop_last());
    }
}

/// The casting loop of a main phase, for every hand: starting from the battlefield left by the
/// land step, each creature cast is the first one in hand affordable at its check, and the mana
/// spent balances with the summed cost of the casts.
pub proof fn lemma_main_casting(s: GameState, t: GameState)
    requires
        s.wf(),
        s.step == GameStep::Main,
        advanced(s, t),
    ensures
        ({
            let played = land_step(s.current().zones.hand@, s.current().zones.battlefield@);
            let cast = cast_sequence(played.0, played.1);
            &&& (t.current().zones.hand@, t.current().zones.battlefield@) == cast_all(played.0, played.1)
            &&& mana(played.1) + mana(cast) == mana(t.current().zones.battlefield@) + total_cost(cast)
            &&& forall|k: int| 0 <= k < cast.len() ==> (#[trigger] cast[k]).creature
        }),
{
    let played = land_step(s.current().zones.hand@, s.current().zones.battlefield@);
    lemma_cast_all_spends_costs(played.0, played.1);
}

/// Combat: exactly the creatures that are untapped and not summoning-sick attack and become
/// tapped, and every other player loses their total power at once.
pub proof fn lemma_combat(s: GameState, t: GameState)
    requires
        s.wf(),
        s.step == GameStep::Combat,
        advanced(s, t),
    ensures
        forall|k: int|
            0 <= k < s.current().zones.battlefield@.len() ==> (
            #[trigger] t.current().zones.battlefield@[k]).tapped == (
            s.current().zones.battlefield@[k].tapped || can_attack(
                s.current().zones.battlefield@[k],
            )),
        forall|j: int|
            0 <= j < s.players@.len() && j != s.current_player_index ==> (
            #[trigger] t.players@[j]).life == after_damage(
                s.players@[j].life,
                attack_power(s.current().zones.battlefield@) as int,
            ),
        t.current().life == s.current().life,
{
}

/// Once the match is over, advancing changes nothing, however often it is repeated.
pub proof fn lemma_game_over_absorbs(s: GameState, t: GameState)
    requires
        s.step == GameStep::GameOver,
        advanced(s, t),
    ensures
        t == s,
        t.step == GameStep::GameOver,
{
}

} // verus!
