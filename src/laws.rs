use crate::entities::{is_live_ant, Entity, Hill};
use crate::game::{
    apply_actions, harvest_step, harvest_upto, one_player, raze_scores, razed, razes, sat_add, sat_sub, Game,
    FinishedReason,
};
use crate::outside::{hex_digit, hex_digits, uuid_text};
use crate::grid::{ant_in, index_of, lemma_cell_index, scan, Board};
use vstd::prelude::*;

verus! {

/// However the cells are filled, no more ants live than there are cells.
pub proof fn law_live_ants_fit(b: Board)
    ensures
        scan(b.cells, b.width, b.cells.len() as int, |e: Entity| is_live_ant(e)).len() <= b.cells.len(),
{
    crate::game::lemma_scan_len(b.cells, b.width, b.cells.len() as int, |e: Entity| is_live_ant(e));
}

/// With no actions, every ant stays where it is.
pub proof fn law_no_actions_no_moves(b: Board)
    ensures
        apply_actions(b, seq![]) == b,
{
}

/// Razing records the razed hill under the razing ant, and nowhere else is
/// a cell changed but where an ant razes.
pub proof fn law_raze_is_recorded(b: Board, i: int)
    requires
        0 <= i < b.cells.len(),
    ensures
        razes(b.cells[i]) ==> b.after_raze()[i] == Some(
            Entity::Ant(razed(ant_in(b.cells[i]).unwrap())),
        ) && razed(ant_in(b.cells[i]).unwrap()).on_ant_hill == Some(
            Hill { player: ant_in(b.cells[i]).unwrap().on_ant_hill.unwrap().player, alive: false },
        ),
        !razes(b.cells[i]) ==> b.after_raze()[i] == b.cells[i],
{
}

/// A hill with no ant on it does not change.
pub proof fn law_lone_hill_not_razed(b: Board, i: int)
    requires
        0 <= i < b.cells.len(),
        b.cells[i] is Some,
        b.cells[i].unwrap() is Hill,
    ensures
        b.after_raze()[i] == b.cells[i],
{
}

/// A hill with an ant of its owner on it does not change.
pub proof fn law_own_ant_does_not_raze(b: Board, i: int)
    requires
        0 <= i < b.cells.len(),
        ant_in(b.cells[i]) matches Some(a) && a.on_ant_hill matches Some(h) && h.player == a.player,
    ensures
        b.after_raze()[i] == b.cells[i],
{
}

/// A hill with a dead enemy ant on it does not change.
pub proof fn law_dead_ant_does_not_raze(b: Board, i: int)
    requires
        0 <= i < b.cells.len(),
        ant_in(b.cells[i]) matches Some(a) && !a.alive,
    ensures
        b.after_raze()[i] == b.cells[i],
{
}

/// The scores that the cells from `k` on leave alone.
proof fn lemma_raze_scores_skip(
    scores: Seq<usize>,
    cells: Seq<Option<Entity>>,
    k: int,
    n: int,
    gain: usize,
    loss: usize,
)
    requires
        0 <= k <= n <= cells.len(),
        forall|j: int| k <= j < n ==> !razes(#[trigger] cells[j]),
    ensures
        raze_scores(scores, cells, n, gain, loss) == raze_scores(scores, cells, k, gain, loss),
    decreases n - k,
{
    if n > k {
        lemma_raze_scores_skip(scores, cells, k, n - 1, gain, loss);
    }
}

/// Where a single live ant stands on a live enemy hill, its player gains
/// `gain`, the hill's owner loses `loss`, and the hill under the ant is razed.
pub proof fn law_live_enemy_razes(b: Board, scores: Seq<usize>, i: int, gain: usize, loss: usize)
    requires
        0 <= i < b.cells.len(),
        razes(b.cells[i]),
        forall|j: int| 0 <= j < b.cells.len() && j != i ==> !razes(#[trigger] b.cells[j]),
        ant_in(b.cells[i]).unwrap().player < scores.len(),
        ant_in(b.cells[i]).unwrap().on_ant_hill.unwrap().player < scores.len(),
    ensures
        ({
            let a = ant_in(b.cells[i]).unwrap();
            let o = a.on_ant_hill.unwrap().player as int;
            let s1 = scores.update(a.player as int, sat_add(scores[a.player as int], gain));
            &&& raze_scores(scores, b.cells, b.cells.len() as int, gain, loss) == s1.update(
                o,
                sat_sub(s1[o], loss),
            )
            &&& b.after_raze()[i] == Some(Entity::Ant(razed(a)))
            &&& !razed(a).on_ant_hill.unwrap().alive
        }),
{
    lemma_raze_scores_skip(scores, b.cells, 0, i, gain, loss);
    lemma_raze_scores_skip(scores, b.cells, i + 1, b.cells.len() as int, gain, loss);
}

/// Food with no live ant within reach stays where it is.
pub proof fn law_unreached_food_stays(
    st: (Board, Seq<usize>, Seq<(usize, usize)>),
    f: (usize, usize),
    r2: usize,
)
    requires
        st.0.ants_near(f, r2).len() == 0,
    ensures
        harvest_step(st, f, r2) == st,
{
}

/// Food within reach of the ants of one player only goes, with one food more
/// in that player's hive, to an ant that has not eaten this turn; where every
/// such ant has eaten, the food stays.
pub proof fn law_single_player_harvests(
    st: (Board, Seq<usize>, Seq<(usize, usize)>),
    f: (usize, usize),
    r2: usize,
)
    requires
        st.0.ants_near(f, r2).len() > 0,
        one_player(st.0.ants_near(f, r2)),
    ensures
        ({
            let near = st.0.ants_near(f, r2);
            let after = harvest_step(st, f, r2);
            let p = near[0].2 as int;
            ||| after == st
            ||| exists|k: int|
                0 <= k < near.len() && !st.2.contains((near[k].0, near[k].1)) && after == (
                    st.0.cleared(f),
                    st.1.update(p, sat_add(st.1[p], 1)),
                    st.2.push((#[trigger] near[k].0, near[k].1)),
                )
        }),
{
    let near = st.0.ants_near(f, r2);
    match crate::game::first_fresh(near, st.2, near.len() as int) {
        Some(k) => {
            lemma_first_fresh_fresh(near, st.2, near.len() as int);
            assert(near[k].2 == near[0].2);
        },
        None => {},
    }
}

proof fn lemma_first_fresh_fresh(near: Seq<(usize, usize, usize)>, done: Seq<(usize, usize)>, k: int)
    requires
        0 <= k <= near.len(),
    ensures
        crate::game::first_fresh(near, done, k) matches Some(x) ==> 0 <= x < k && !done.contains(
            (near[x].0, near[x].1),
        ),
    decreases k,
{
    if k > 0 {
        lemma_first_fresh_fresh(near, done, k - 1);
    }
}

/// Food within reach of ants of several players is destroyed, and no hive
/// gains from it.
pub proof fn law_contested_food_destroyed(
    st: (Board, Seq<usize>, Seq<(usize, usize)>),
    f: (usize, usize),
    r2: usize,
)
    requires
        st.0.ants_near(f, r2).len() > 0,
        !one_player(st.0.ants_near(f, r2)),
    ensures
        harvest_step(st, f, r2) == (st.0.cleared(f), st.1, st.2),
{
}

/// Once food has been too plentiful for `cutoff_threshold` turns in a row,
/// the game ends for that reason.
pub proof fn law_too_much_food_ends(g: Game, food_turns: usize)
    requires
        food_turns >= g.cutoff_threshold,
    ensures
        g.end_reason(food_turns) == Some(FinishedReason::TooMuchFood),
{
}

/// Where one player alone has live ants (and food has not ended the game
/// first), that player is the lone survivor.
pub proof fn law_lone_survivor_ends(g: Game, food_turns: usize)
    requires
        food_turns < g.cutoff_threshold,
        g.map@.one_player_left(),
    ensures
        g.end_reason(food_turns) == Some(FinishedReason::LoneSurvivor),
{
}

/// Once the last turn is reached, the game ends, if nothing ended it first.
pub proof fn law_turn_limit_ends(g: Game, food_turns: usize)
    requires
        g.turn >= g.max_turns,
    ensures
        g.end_reason(food_turns).is_some(),
        food_turns < g.cutoff_threshold && !g.map@.one_player_left() && !crate::game::rank_stabilized_spec(
            g.scores@,
            g.map@.hill_counts(),
            g.points_for_razing_hill,
        ) ==> g.end_reason(food_turns) == Some(FinishedReason::TurnLimitReached),
{
}

/// Each cell of the grid has a slot of its own, which holds at most one
/// entity: two different cells never share a slot.
pub proof fn law_one_slot_per_cell(b: Board, r1: int, c1: int, r2: int, c2: int)
    requires
        b.wf(),
        b.in_bounds(r1, c1),
        b.in_bounds(r2, c2),
        r1 != r2 || c1 != c2,
    ensures
        index_of(b.width, r1, c1) != index_of(b.width, r2, c2),
        0 <= index_of(b.width, r1, c1) < b.cells.len(),
{
    lemma_cell_index(b.width, b.height, r1, c1);
    lemma_cell_index(b.width, b.height, r2, c2);
}

/// In a well-formed game no ant on the grid has the identifier that the next
/// new ant will get, and no two ants share one.
pub proof fn law_next_id_is_fresh(g: Game, i: int)
    requires
        g.wf(),
        0 <= i < g.map@.cells.len(),
        ant_in(g.map@.cells[i]).is_some(),
    ensures
        ant_in(g.map@.cells[i]).unwrap().id < g.next_id,
        forall|j: int|
            0 <= j < g.map@.cells.len() && j != i && (#[trigger] ant_in(g.map@.cells[j])).is_some()
                ==> ant_in(g.map@.cells[j]).unwrap().id != ant_in(g.map@.cells[i]).unwrap().id,
{
}

/// Over a whole harvest no ant eats twice: the cells of the ants that have
/// eaten never repeat, and each food eaten adds one such cell.
pub proof fn law_each_ant_eats_once(
    st: (Board, Seq<usize>, Seq<(usize, usize)>),
    foods: Seq<(usize, usize)>,
    r2: usize,
    k: int,
)
    requires
        st.2.no_duplicates(),
        0 <= k <= foods.len(),
    ensures
        harvest_upto(st, foods, r2, k).2.no_duplicates(),
        harvest_upto(st, foods, r2, k).2.len() >= st.2.len(),
        harvest_upto(st, foods, r2, k).2.subrange(0, st.2.len() as int) == st.2,
    decreases k,
{
    if k > 0 {
        law_each_ant_eats_once(st, foods, r2, k - 1);
        let prev = harvest_upto(st, foods, r2, k - 1);
        let near = prev.0.ants_near(foods[k - 1], r2);
        lemma_first_fresh_fresh(near, prev.2, near.len() as int);
        let next = harvest_upto(st, foods, r2, k);
        if next.2 != prev.2 {
            let x = crate::game::first_fresh(near, prev.2, near.len() as int).unwrap();
            assert(next.2 == prev.2.push((near[x].0, near[x].1)));
            assert forall|a: int, b: int| 0 <= a < next.2.len() && 0 <= b < next.2.len() && a != b implies next.2[a] != next.2[b] by {
                if a < prev.2.len() && b < prev.2.len() {
                } else if a < prev.2.len() {
                    assert(prev.2.contains(next.2[a]));
                } else {
                    assert(prev.2.contains(next.2[b]));
                }
            }
            assert(next.2.subrange(0, st.2.len() as int) =~= prev.2.subrange(0, st.2.len() as int));
        }
    }
}

proof fn lemma_hex_digit_injective(a: nat, b: nat)
    requires
        a < 16,
        b < 16,
        hex_digit(a) == hex_digit(b),
    ensures
        a == b,
{
}

proof fn lemma_hex_digits_injective(a: nat, b: nat, n: nat)
    requires
        hex_digits(a, n) == hex_digits(b, n),
    ensures
        hex_digits(a, n).len() == n,
        a % pow16(n) == b % pow16(n),
    decreases n,
{
    if n > 0 {
        let pa = hex_digits(a / 16, (n - 1) as nat);
        let pb = hex_digits(b / 16, (n - 1) as nat);
        assert(hex_digits(a, n) == pa.push(hex_digit(a % 16)));
        lemma_hex_len(a / 16, (n - 1) as nat);
        lemma_hex_len(b / 16, (n - 1) as nat);
        assert(hex_digits(a, n)[n - 1] == hex_digit(a % 16));
        assert(hex_digits(b, n)[n - 1] == hex_digit(b % 16));
        lemma_hex_digit_injective(a % 16, b % 16);
        assert(pa =~= hex_digits(a, n).drop_last());
        assert(pb =~= hex_digits(b, n).drop_last());
        lemma_hex_digits_injective(a / 16, b / 16, (n - 1) as nat);
        lemma_mod_split(a, (n - 1) as nat);
        lemma_mod_split(b, (n - 1) as nat);
    }
    lemma_hex_len(a, n);
}

proof fn lemma_hex_len(v: nat, n: nat)
    ensures
        hex_digits(v, n).len() == n,
    decreases n,
{
    if n > 0 {
        lemma_hex_len(v / 16, (n - 1) as nat);
    }
}

/// `16^n`.
pub open spec fn pow16(n: nat) -> nat
    decreases n,
{
    if n == 0 {
        1
    } else {
        16 * pow16((n - 1) as nat)
    }
}

proof fn lemma_pow16_pos(n: nat)
    ensures
        pow16(n) > 0,
    decreases n,
{
    if n > 0 {
        lemma_pow16_pos((n - 1) as nat);
    }
}

/// `v % 16^(k+1)` is made of `v % 16` and `(v / 16) % 16^k`.
proof fn lemma_mod_split(v: nat, k: nat)
    ensures
        v % pow16(k + 1) == 16 * ((v / 16) % pow16(k)) + v % 16,
{
    lemma_pow16_pos(k);
    let p = pow16(k) as int;
    assert(pow16(k + 1) == 16 * p);
    vstd::arithmetic::div_mod::lemma_breakdown(v as int, 16, p);
}

/// Ants with different identifiers are shown with different texts.
pub proof fn law_id_texts_differ(a: u64, b: u64)
    requires
        a != b,
    ensures
        uuid_text(a) != uuid_text(b),
{
    if uuid_text(a) == uuid_text(b) {
        let m: nat = 0x1_0000_0000_0000;
        let ha = hex_digits(a as nat / m, 4);
        let hb = hex_digits(b as nat / m, 4);
        let la = hex_digits(a as nat % m, 12);
        let lb = hex_digits(b as nat % m, 12);
        lemma_hex_len(a as nat / m, 4);
        lemma_hex_len(b as nat / m, 4);
        lemma_hex_len(a as nat % m, 12);
        lemma_hex_len(b as nat % m, 12);
        assert(ha =~= uuid_text(a).subrange(19, 23));
        assert(hb =~= uuid_text(b).subrange(19, 23));
        assert(la =~= uuid_text(a).subrange(24, 36));
        assert(lb =~= uuid_text(b).subrange(24, 36));
        lemma_hex_digits_injective(a as nat / m, b as nat / m, 4);
        lemma_hex_digits_injective(a as nat % m, b as nat % m, 12);
        reveal_with_fuel(pow16, 13);
        assert(pow16(4) == 0x1_0000);
        assert(pow16(12) == m);
        vstd::arithmetic::div_mod::lemma_fundamental_div_mod(a as int, m as int);
        vstd::arithmetic::div_mod::lemma_fundamental_div_mod(b as int, m as int);
        vstd::arithmetic::div_mod::lemma_small_mod((a as nat % m) as nat, m);
        vstd::arithmetic::div_mod::lemma_small_mod((b as nat % m) as nat, m);
        assert(a as nat / m < 0x1_0000) by {
            vstd::arithmetic::div_mod::lemma_div_by_multiple_is_strongly_ordered(a as int, 0x1_0000_0000_0000_0000int, 0x1_0000, m as int);
        }
        assert(false);
    }
}

} // verus!
