use crate::entities::{alive_of, kind_name, player_of, Ant, Entity, Food, Hill};
use crate::grid::{
    ant_in, index_of, killed, lemma_ids_kept, land_scan, left_behind, lemma_cell_index, lemma_fov_entries,
    lemma_land_distinct, lemma_land_entries, lemma_pos_in_bounds, lemma_scan_distinct,
    lemma_scan_entries, map_board, map_ok, map_text, of_kind, pos_of, positions, scan, Board, Grid, Kind, MapError,
};
use vstd::string::StringSliceAdditionalSpecFns;
use crate::outside::{id_text, sample_indices, seeded_rng, uuid_text};
use crate::replay::{create_replay_logger, Event, Replay, ReplayLogger};
use vstd::prelude::*;

verus! {

/// The direction of one step.
#[derive(Clone, Copy, Debug, PartialEq, Eq, Structural)]
pub enum Direction {
    North,
    East,
    South,
    West,
}

/// Why a game ended.
#[derive(Clone, Copy, Debug, PartialEq, Eq, Hash, Structural)]
pub enum FinishedReason {
    /// Only one player has live ants left.
    LoneSurvivor,
    /// No other player can overtake the leader any more.
    RankStabilized,
    /// Food has covered the map for too many turns in a row.
    TooMuchFood,
    /// The last turn has been played.
    TurnLimitReached,
}

/// An order for the ant at `(row, col)` to take one step.
#[derive(Clone, Copy, Debug, PartialEq, Eq, Structural)]
pub struct Action {
    pub row: usize,
    pub col: usize,
    pub direction: Direction,
}

impl Action {
    pub fn new(row: usize, col: usize, direction: Direction) -> (r: Action)
        ensures
            r == (Action { row, col, direction }),
    {
        Action { row, col, direction }
    }
}

/// The cell that an action aims at; a step off the grid's top or left edge
/// stays in place.
pub open spec fn target(a: Action) -> (usize, usize) {
    match a.direction {
        Direction::North => (if a.row > 0 { (a.row - 1) as usize } else { 0 }, a.col),
        Direction::East => (a.row, if a.col < usize::MAX { (a.col + 1) as usize } else { a.col }),
        Direction::South => (if a.row < usize::MAX { (a.row + 1) as usize } else { a.row }, a.col),
        Direction::West => (a.row, if a.col > 0 { (a.col - 1) as usize } else { 0 }),
    }
}

/// The board after one action: the move is made where it is allowed.
pub open spec fn step(b: Board, a: Action) -> Board {
    if b.valid_move((a.row, a.col), target(a)) {
        Board { cells: b.moved((a.row, a.col), target(a)), ..b }
    } else {
        b
    }
}

/// The board after the actions, applied one after the other.
pub open spec fn apply_actions(b: Board, acts: Seq<Action>) -> Board
    decreases acts.len(),
{
    if acts.len() == 0 {
        b
    } else {
        step(apply_actions(b, acts.drop_last()), acts.last())
    }
}

/// The cells of the live ants of players other than `p` among the first `k`
/// entries of `s`.
pub open spec fn enemies_in(s: Seq<(Entity, usize, usize)>, p: usize, k: int) -> Seq<(usize, usize)>
    decreases k,
{
    if k <= 0 {
        seq![]
    } else {
        let prev = enemies_in(s, p, k - 1);
        match s[k - 1].0 {
            Entity::Ant(a) => if a.alive && a.player != p {
                prev.push((s[k - 1].1, s[k - 1].2))
            } else {
                prev
            },
            _ => prev,
        }
    }
}

impl Board {
    /// The enemies of player `p` within attack range `r2` of `(r, c)`.
    pub open spec fn enemies(&self, r2: usize, r: usize, c: usize, p: usize) -> Seq<(usize, usize)> {
        let s = self.fov((r, c), r2);
        enemies_in(s, p, s.len() as int)
    }

    /// The number of enemies that the live ant at `(r, c)` faces; zero where
    /// there is no live ant.
    pub open spec fn focus(&self, r2: usize, r: usize, c: usize) -> int {
        if self.in_bounds(r as int, c as int) {
            match self.cell(r as int, c as int) {
                Some(Entity::Ant(a)) => if a.alive {
                    self.enemies(r2, r, c, a.player).len() as int
                } else {
                    0
                },
                _ => 0,
            }
        } else {
            0
        }
    }

    /// The live ant in cell `i` dies in combat: it faces an enemy, and one of
    /// its enemies faces no more enemies than it does.
    pub open spec fn dies(&self, r2: usize, i: int) -> bool {
        let (r, c) = pos_of(self.width, i);
        match self.cells[i] {
            Some(Entity::Ant(a)) => a.alive && {
                let es = self.enemies(r2, r, c, a.player);
                es.len() > 0 && exists|k: int|
                    0 <= k < es.len() && self.in_bounds(es[k].0 as int, es[k].1 as int) && #[trigger] self.focus(
                        r2,
                        es[k].0,
                        es[k].1,
                    ) <= es.len()
            },
            _ => false,
        }
    }

    /// The cells after combat: every ant that dies is marked dead in place.
    pub open spec fn after_attack(&self, r2: usize) -> Seq<Option<Entity>> {
        Seq::new(
            self.cells.len(),
            |i: int|
                if self.dies(r2, i) {
                    Some(Entity::Ant(killed(ant_in(self.cells[i]).unwrap())))
                } else {
                    self.cells[i]
                },
        )
    }
}

/// The Ants game: the world, the players' scores and hives, and the rules
/// that advance it by one turn.
pub struct Game {
    pub map: Grid,
    /// The world as the map's text describes it, before the game starts.
    pub initial: Grid,
    pub map_contents: String,
    pub fov_radius2: usize,
    pub attack_radius2: usize,
    pub food_radius2: usize,
    pub turn: usize,
    pub scores: Vec<usize>,
    pub hive: Vec<usize>,
    pub food_per_turn: usize,
    pub started: bool,
    pub finished: bool,
    pub finished_reason: Option<FinishedReason>,
    pub cutoff_threshold: usize,
    pub turns_with_too_much_food: usize,
    pub points_for_razing_hill: usize,
    pub points_for_losing_hill: usize,
    pub max_turns: usize,
    pub replay_logger: Replay,
    pub rng: rand::rngs::StdRng,
    pub seed: u64,
    /// The identifier that the next ant to be made will get.
    pub next_id: u64,
}

impl Game {
    /// The grid is well formed, there is one score and one hive per player,
    /// and no two ants share an identifier, all of them below `next_id`.
    pub open spec fn wf(&self) -> bool {
        &&& self.map.wf()
        &&& self.scores@.len() == self.map.players
        &&& self.hive@.len() == self.map.players
        &&& self.map@.ids_unique()
        &&& self.map@.ids_below(self.next_id as int)
        &&& self.initial.wf()
        &&& self.initial@.ids_unique()
        &&& self.initial@.ids_below(self.initial.grid@.len() as int)
        &&& self.initial.width == self.map.width
        &&& self.initial.height == self.map.height
        &&& self.initial.players == self.map.players
        &&& !self.finished ==> self.finished_reason.is_none()
    }

    /// The two games share their settings and the size of their world.
    pub open spec fn same_setup(&self, o: &Game) -> bool {
        &&& self.map.width == o.map.width
        &&& self.map.height == o.map.height
        &&& self.map.players == o.map.players
        &&& self.fov_radius2 == o.fov_radius2
        &&& self.attack_radius2 == o.attack_radius2
        &&& self.food_radius2 == o.food_radius2
        &&& self.food_per_turn == o.food_per_turn
        &&& self.cutoff_threshold == o.cutoff_threshold
        &&& self.points_for_razing_hill == o.points_for_razing_hill
        &&& self.points_for_losing_hill == o.points_for_losing_hill
        &&& self.max_turns == o.max_turns
        &&& self.seed == o.seed
        &&& self.map_contents@ == o.map_contents@
        &&& self.initial@ == o.initial@
    }

    /// The two games are in the same state; only what was logged may differ.
    pub open spec fn same_state(&self, o: &Game) -> bool {
        &&& self.same_setup(o)
        &&& self.map@ == o.map@
        &&& self.scores@ == o.scores@
        &&& self.hive@ == o.hive@
        &&& self.next_id == o.next_id
        &&& self.turn == o.turn
        &&& self.turns_with_too_much_food == o.turns_with_too_much_food
        &&& self.started == o.started
        &&& self.finished == o.finished
        &&& self.finished_reason == o.finished_reason
    }

    /// Hands an event of this turn to the replay sink.
    fn log(&mut self, event: Event)
        ensures
            final(self).same_state(old(self)),
    {
        let turn = self.turn;
        self.replay_logger.log_event(turn, event);
    }

    /// Carries out the actions in the order given. An action whose cell holds
    /// no live ant, or whose step is not allowed, changes nothing.
    pub fn move_ants(&mut self, actions: Vec<Action>)
        requires
            old(self).wf(),
        ensures
            final(self).wf(),
            final(self).same_setup(old(self)),
            final(self).map@ == apply_actions(old(self).map@, actions@),
            final(self).scores@ == old(self).scores@,
            final(self).hive@ == old(self).hive@,
            final(self).next_id == old(self).next_id,
            final(self).turn == old(self).turn,
            final(self).turns_with_too_much_food == old(self).turns_with_too_much_food,
            final(self).started == old(self).started,
            final(self).finished == old(self).finished,
            final(self).finished_reason == old(self).finished_reason,
    {
        let ghost b0 = self.map@;
        let mut k: usize = 0;
        while k < actions.len()
            invariant
                self.wf(),
                self.same_setup(old(self)),
                k <= actions@.len(),
                self.map@ == apply_actions(b0, actions@.subrange(0, k as int)),
                self.scores@ == old(self).scores@,
                self.hive@ == old(self).hive@,
                self.next_id == old(self).next_id,
                self.turn == old(self).turn,
                self.turns_with_too_much_food == old(self).turns_with_too_much_food,
                self.started == old(self).started,
                self.finished == old(self).finished,
                self.finished_reason == old(self).finished_reason,
            decreases actions@.len() - k,
        {
            let action = actions[k];
            let to = match action.direction {
                Direction::North => (action.row.saturating_sub(1), action.col),
                Direction::East => (action.row, action.col.saturating_add(1)),
                Direction::South => (action.row.saturating_add(1), action.col),
                Direction::West => (action.row, action.col.saturating_sub(1)),
            };
            let from = (action.row, action.col);
            let id = self.map.get(action.row, action.col);
            let did_move = self.map.move_entity(from, to);
            if did_move {
                if let Some(Entity::Ant(a)) = id {
                    self.replay_logger.log_event(self.turn, Event::move_ant(a.id, from, to));
                }
            }
            proof {
                assert(actions@.subrange(0, k + 1).drop_last() =~= actions@.subrange(0, k as int));
            }
            k = k + 1;
        }
        proof {
            assert(actions@.subrange(0, actions@.len() as int) =~= actions@);
        }
    }
}

impl Game {
    /// The cells of the live ants of players other than `player` within
    /// attack range of `(row, col)`.
    fn enemies(&self, row: usize, col: usize, player: usize) -> (r: Vec<(usize, usize)>)
        requires
            self.map.wf(),
            self.map@.in_bounds(row as int, col as int),
        ensures
            r@ == self.map@.enemies(self.attack_radius2, row, col, player),
    {
        let fov = self.map.field_of_vision((row, col), self.attack_radius2);
        let mut out: Vec<(usize, usize)> = Vec::new();
        let mut k: usize = 0;
        while k < fov.len()
            invariant
                k <= fov@.len(),
                out@ == enemies_in(fov@, player, k as int),
            decreases fov@.len() - k,
        {
            let (e, r, c) = fov[k];
            if let Entity::Ant(a) = e {
                if a.alive && a.player != player {
                    out.push((r, c));
                }
            }
            k = k + 1;
        }
        out
    }

    /// Combat. Every live ant that faces at least one enemy, and has an enemy
    /// facing no more enemies than it does, dies. All ants are judged on the
    /// world as it stood before anyone died; the dead stay on the grid.
    pub fn attack(&mut self)
        requires
            old(self).wf(),
        ensures
            final(self).wf(),
            final(self).same_setup(old(self)),
            final(self).map@.cells == old(self).map@.after_attack(old(self).attack_radius2),
            final(self).scores@ == old(self).scores@,
            final(self).hive@ == old(self).hive@,
            final(self).next_id == old(self).next_id,
            final(self).turn == old(self).turn,
            final(self).turns_with_too_much_food == old(self).turns_with_too_much_food,
            final(self).started == old(self).started,
            final(self).finished == old(self).finished,
            final(self).finished_reason == old(self).finished_reason,
    {
        let ghost b0 = self.map@;
        let r2 = self.attack_radius2;
        let n = self.map.grid.len();
        let w = self.map.width;
        // How many enemies each cell's live ant faces.
        let mut focus: Vec<usize> = Vec::new();
        let mut i: usize = 0;
        while i < n
            invariant
                self.map.wf(),
                self.map@ == b0,
                self.attack_radius2 == r2,
                n == b0.cells.len(),
                w == b0.width,
                i <= n,
                focus@.len() == i,
                forall|j: int| 0 <= j < i ==> focus@[j] == b0.focus(r2, #[trigger] pos_of(w, j).0, pos_of(w, j).1),
            decreases n - i,
        {
            proof {
                lemma_pos_in_bounds(w, self.map.height, i as int);
            }
            let (r, c) = (i / w, i % w);
            let f = match self.map.grid[i] {
                Some(Entity::Ant(a)) => if a.alive {
                    self.enemies(r, c, a.player).len()
                } else {
                    0
                },
                _ => 0,
            };
            focus.push(f);
            i = i + 1;
        }
        // Who dies, judged on the world as it stands.
        let mut kills: Vec<bool> = Vec::new();
        let mut attack_logs: Vec<((usize, usize), (usize, usize))> = Vec::new();
        i = 0;
        while i < n
            invariant
                self.map.wf(),
                self.map@ == b0,
                self.attack_radius2 == r2,
                n == b0.cells.len(),
                w == b0.width,
                i <= n,
                focus@.len() == n,
                forall|j: int| 0 <= j < n ==> focus@[j] == b0.focus(r2, #[trigger] pos_of(w, j).0, pos_of(w, j).1),
                kills@.len() == i,
                forall|j: int| 0 <= j < i ==> kills@[j] == #[trigger] b0.dies(r2, j),
            decreases n - i,
        {
            proof {
                lemma_pos_in_bounds(w, self.map.height, i as int);
            }
            let (r, c) = (i / w, i % w);
            let mut dies = false;
            if let Some(Entity::Ant(a)) = self.map.grid[i] {
                if a.alive {
                    let es = self.enemies(r, c, a.player);
                    let f = es.len();
                    let mut k: usize = 0;
                    while k < es.len()
                        invariant
                            self.map.wf(),
                            self.map@ == b0,
                            n == b0.cells.len(),
                            w == b0.width,
                            focus@.len() == n,
                            forall|j: int| 0 <= j < n ==> focus@[j] == b0.focus(r2, #[trigger] pos_of(w, j).0, pos_of(w, j).1),
                            k <= es@.len(),
                            f == es@.len(),
                            dies == exists|t: int|
                                0 <= t < k && b0.in_bounds(es@[t].0 as int, es@[t].1 as int) && #[trigger] b0.focus(
                                    r2,
                                    es@[t].0,
                                    es@[t].1,
                                ) <= f,
                        decreases es@.len() - k,
                    {
                        let (er, ec) = es[k];
                        if er < self.map.height && ec < w {
                            proof {
                                lemma_cell_index(w, self.map.height, er as int, ec as int);
                                assert(pos_of(w, index_of(w, er as int, ec as int)) == (er, ec));
                            }
                            if focus[er * w + ec] <= f {
                                dies = true;
                            }
                        }
                        k = k + 1;
                    }
                    if f == 0 {
                        dies = false;
                    }
                    if dies {
                        let mut k: usize = 0;
                        while k < es.len()
                            decreases es@.len() - k,
                        {
                            attack_logs.push((es[k], (r, c)));
                            k = k + 1;
                        }
                    }
                }
            }
            kills.push(dies);
            i = i + 1;
        }
        // Every ant marked above dies at once.
        i = 0;
        while i < n
            invariant
                self.wf(),
                self.same_setup(old(self)),
                self.scores@ == old(self).scores@,
                self.hive@ == old(self).hive@,
                self.next_id == old(self).next_id,
                self.turn == old(self).turn,
                self.turns_with_too_much_food == old(self).turns_with_too_much_food,
                self.started == old(self).started,
                self.finished == old(self).finished,
                self.finished_reason == old(self).finished_reason,
                n == b0.cells.len(),
                w == b0.width,
                b0 == old(self).map@,
                self.map.width == w,
                self.map.height == b0.height,
                i <= n,
                kills@.len() == n,
                forall|j: int| 0 <= j < n ==> kills@[j] == #[trigger] b0.dies(r2, j),
                self.map@.cells.len() == n,
                forall|j: int|
                    0 <= j < n ==> #[trigger] self.map@.cells[j] == if j < i && b0.dies(r2, j) {
                        Some(Entity::Ant(killed(ant_in(b0.cells[j]).unwrap())))
                    } else {
                        b0.cells[j]
                    },
            decreases n - i,
        {
            if kills[i] {
                proof {
                    lemma_pos_in_bounds(w, self.map.height, i as int);
                }
                let (r, c) = (i / w, i % w);
                proof {
                    assert(self.map@.cells[i as int] == b0.cells[i as int]);
                    assert(index_of(w, r as int, c as int) == i);
                }
                self.map.set_alive(r, c, false);
            }
            i = i + 1;
        }
        let ghost pre = *self;
        let mut k: usize = 0;
        while k < attack_logs.len()
            invariant
                self.same_state(&pre),
            decreases attack_logs@.len() - k,
        {
            let (from, to) = attack_logs[k];
            self.log(Event::attack(from, to));
            k = k + 1;
        }
        proof {
            assert(self.map@.cells =~= b0.after_attack(r2));
        }
    }
}

pub open spec fn sat_add(x: usize, y: usize) -> usize {
    if x + y <= usize::MAX {
        (x + y) as usize
    } else {
        usize::MAX
    }
}

pub open spec fn sat_sub(x: usize, y: usize) -> usize {
    if x >= y {
        (x - y) as usize
    } else {
        0
    }
}

/// The cell holds a live ant standing on a live hill of another player.
pub open spec fn razes(e: Option<Entity>) -> bool {
    match e {
        Some(Entity::Ant(a)) => a.alive && match a.on_ant_hill {
            Some(h) => h.player != a.player && h.alive,
            None => false,
        },
        _ => false,
    }
}

/// The ant, with the hill under it razed.
pub open spec fn razed(a: Ant) -> Ant {
    Ant {
        id: a.id,
        player: a.player,
        alive: a.alive,
        on_ant_hill: Some(Hill { player: a.on_ant_hill.unwrap().player, alive: false }),
    }
}

/// The scores after the razing ants among the first `n` cells, taken in
/// order, each added `gain` to its player and took `loss` from the hill's
/// owner (neither going past the bounds of `usize`).
pub open spec fn raze_scores(scores: Seq<usize>, cells: Seq<Option<Entity>>, n: int, gain: usize, loss: usize) -> Seq<usize>
    decreases n,
{
    if n <= 0 {
        scores
    } else {
        let s = raze_scores(scores, cells, n - 1, gain, loss);
        if razes(cells[n - 1]) {
            let a = ant_in(cells[n - 1]).unwrap();
            let o = a.on_ant_hill.unwrap().player;
            let s1 = s.update(a.player as int, sat_add(s[a.player as int], gain));
            s1.update(o as int, sat_sub(s1[o as int], loss))
        } else {
            s
        }
    }
}

impl Board {
    /// The cells once every razing ant has razed the hill under it.
    pub open spec fn after_raze(&self) -> Seq<Option<Entity>> {
        Seq::new(
            self.cells.len(),
            |i: int|
                if razes(self.cells[i]) {
                    Some(Entity::Ant(razed(ant_in(self.cells[i]).unwrap())))
                } else {
                    self.cells[i]
                },
        )
    }

    /// The cells once every dead ant has been taken away, leaving behind the
    /// hill it stood on, if any.
    pub open spec fn without_dead(&self) -> Seq<Option<Entity>> {
        Seq::new(
            self.cells.len(),
            |i: int|
                match self.cells[i] {
                    Some(Entity::Ant(a)) => if a.alive {
                        self.cells[i]
                    } else {
                        left_behind(a)
                    },
                    _ => self.cells[i],
                },
        )
    }
}

impl Game {
    /// Every live ant on a live hill of another player razes it: its player
    /// gains `points_for_razing_hill`, the hill's owner loses
    /// `points_for_losing_hill`, and the hill under the ant is marked razed.
    pub fn raze_hills(&mut self)
        requires
            old(self).wf(),
        ensures
            final(self).wf(),
            final(self).same_setup(old(self)),
            final(self).map@.cells == old(self).map@.after_raze(),
            final(self).scores@ == raze_scores(
                old(self).scores@,
                old(self).map@.cells,
                old(self).map@.cells.len() as int,
                old(self).points_for_razing_hill,
                old(self).points_for_losing_hill,
            ),
            final(self).hive@ == old(self).hive@,
            final(self).next_id == old(self).next_id,
            final(self).turn == old(self).turn,
            final(self).turns_with_too_much_food == old(self).turns_with_too_much_food,
            final(self).started == old(self).started,
            final(self).finished == old(self).finished,
            final(self).finished_reason == old(self).finished_reason,
    {
        let ghost b0 = self.map@;
        let n = self.map.grid.len();
        let w = self.map.width;
        let gain = self.points_for_razing_hill;
        let loss = self.points_for_losing_hill;
        let mut i: usize = 0;
        while i < n
            invariant
                self.wf(),
                self.same_setup(old(self)),
                b0 == old(self).map@,
                self.hive@ == old(self).hive@,
                self.next_id == old(self).next_id,
                self.turn == old(self).turn,
                self.turns_with_too_much_food == old(self).turns_with_too_much_food,
                self.started == old(self).started,
                self.finished == old(self).finished,
                self.finished_reason == old(self).finished_reason,
                gain == self.points_for_razing_hill,
                loss == self.points_for_losing_hill,
                n == b0.cells.len(),
                w == b0.width,
                self.map.width == w,
                self.map.height == b0.height,
                i <= n,
                self.map@.cells.len() == n,
                forall|j: int|
                    0 <= j < n ==> #[trigger] self.map@.cells[j] == if j < i && razes(b0.cells[j]) {
                        Some(Entity::Ant(razed(ant_in(b0.cells[j]).unwrap())))
                    } else {
                        b0.cells[j]
                    },
                self.scores@ == raze_scores(old(self).scores@, b0.cells, i as int, gain, loss),
            decreases n - i,
        {
            let cell = self.map.grid[i];
            assert(cell == b0.cells[i as int]);
            if let Some(Entity::Ant(a)) = cell {
                if let Some(h) = a.on_ant_hill {
                    if a.alive && h.player != a.player && h.alive {
                        proof {
                            lemma_pos_in_bounds(w, self.map.height, i as int);
                            assert(crate::grid::entity_players_ok(b0.cells[i as int], b0.players));
                        }
                        let (r, c) = (i / w, i % w);
                        let s = self.scores[a.player].saturating_add(gain);
                        self.scores.set(a.player, s);
                        let s = self.scores[h.player].saturating_sub(loss);
                        self.scores.set(h.player, s);
                        let ghost before = self.map@;
                        self.map.set(
                            r,
                            c,
                            Entity::Ant(Ant { on_ant_hill: Some(Hill { player: h.player, alive: false }), ..a }),
                        );
                        proof {
                            assert forall|j: int| 0 <= j < n && #[trigger] ant_in(self.map@.cells[j]).is_some() implies
                                ant_in(before.cells[j]).is_some() && ant_in(self.map@.cells[j]).unwrap().id == ant_in(before.cells[j]).unwrap().id by {}
                            lemma_ids_kept(before, self.map@);
                        }
                        self.log(Event::remove_hill((r, c)));
                    }
                }
            }
            proof {
                assert(self.scores@ =~= raze_scores(old(self).scores@, b0.cells, i + 1, gain, loss));
            }
            i = i + 1;
        }
        proof {
            assert(self.map@.cells =~= b0.after_raze());
        }
    }

    /// Takes every dead ant off the grid; where it stood on a hill, the hill
    /// takes its cell back as the ant last knew it.
    pub fn remove_dead_ants(&mut self)
        requires
            old(self).wf(),
        ensures
            final(self).wf(),
            final(self).same_setup(old(self)),
            final(self).map@.cells == old(self).map@.without_dead(),
            final(self).scores@ == old(self).scores@,
            final(self).hive@ == old(self).hive@,
            final(self).next_id == old(self).next_id,
            final(self).turn == old(self).turn,
            final(self).turns_with_too_much_food == old(self).turns_with_too_much_food,
            final(self).started == old(self).started,
            final(self).finished == old(self).finished,
            final(self).finished_reason == old(self).finished_reason,
    {
        let ghost b0 = self.map@;
        let n = self.map.grid.len();
        let w = self.map.width;
        let mut i: usize = 0;
        while i < n
            invariant
                self.wf(),
                self.same_setup(old(self)),
                b0 == old(self).map@,
                self.scores@ == old(self).scores@,
                self.hive@ == old(self).hive@,
                self.next_id == old(self).next_id,
                self.turn == old(self).turn,
                self.turns_with_too_much_food == old(self).turns_with_too_much_food,
                self.started == old(self).started,
                self.finished == old(self).finished,
                self.finished_reason == old(self).finished_reason,
                n == b0.cells.len(),
                w == b0.width,
                self.map.width == w,
                self.map.height == b0.height,
                i <= n,
                self.map@.cells.len() == n,
                forall|j: int|
                    0 <= j < n ==> #[trigger] self.map@.cells[j] == if j < i {
                        b0.without_dead()[j]
                    } else {
                        b0.cells[j]
                    },
            decreases n - i,
        {
            let cell = self.map.grid[i];
            assert(cell == b0.cells[i as int]);
            if let Some(Entity::Ant(a)) = cell {
                if !a.alive {
                    proof {
                        lemma_pos_in_bounds(w, self.map.height, i as int);
                        assert(crate::grid::entity_players_ok(b0.cells[i as int], b0.players));
                    }
                    let (r, c) = (i / w, i % w);
                    let ghost before = self.map@;
                    match a.on_ant_hill {
                        Some(h) => self.map.set(r, c, Entity::Hill(h)),
                        None => self.map.remove(r, c),
                    }
                    proof {
                        assert forall|j: int| 0 <= j < n && #[trigger] ant_in(self.map@.cells[j]).is_some() implies
                            ant_in(before.cells[j]).is_some() && ant_in(self.map@.cells[j]).unwrap().id == ant_in(before.cells[j]).unwrap().id by {}
                        lemma_ids_kept(before, self.map@);
                    }
                    self.log(Event::remove_ant(a.id));
                }
            }
            i = i + 1;
        }
        proof {
            assert(self.map@.cells =~= b0.without_dead());
        }
    }
}

/// The entity is a live hill of player `p`.
pub open spec fn live_hill_of(p: usize) -> spec_fn(Entity) -> bool {
    |e: Entity|
        match e {
            Entity::Hill(h) => h.alive && h.player == p,
            _ => false,
        }
}

/// The scan of the first `n` cells finds at most `n` entities.
pub proof fn lemma_scan_len(g: Seq<Option<Entity>>, w: usize, n: int, p: spec_fn(Entity) -> bool)
    requires
        0 <= n,
    ensures
        scan(g, w, n, p).len() <= n,
    decreases n,
{
    if n > 0 {
        lemma_scan_len(g, w, n - 1, p);
    }
}

impl Board {
    /// The number of live hills of player `p`.
    pub open spec fn hill_count(&self, p: usize) -> int {
        scan(self.cells, self.width, self.cells.len() as int, live_hill_of(p)).len() as int
    }

    /// The number of live hills of each player.
    pub open spec fn hill_counts(&self) -> Seq<usize> {
        Seq::new(self.players as nat, |p: int| self.hill_count(p as usize) as usize)
    }

    /// A live ant stands in cell `i`.
    pub open spec fn live_ant_at(&self, i: int) -> bool {
        match self.cells[i] {
            Some(Entity::Ant(a)) => a.alive,
            _ => false,
        }
    }

    /// Some ant lives, and every live ant belongs to one player.
    pub open spec fn one_player_left(&self) -> bool {
        &&& exists|i: int| 0 <= i < self.cells.len() && #[trigger] self.live_ant_at(i)
        &&& forall|i: int, j: int|
            0 <= i < self.cells.len() && 0 <= j < self.cells.len() && #[trigger] self.live_ant_at(i)
                && #[trigger] self.live_ant_at(j) ==> ant_in(self.cells[i]).unwrap().player == ant_in(
                self.cells[j],
            ).unwrap().player
    }

    /// Food makes up at least 85% of the food and ants, dead or alive, on
    /// the grid.
    pub open spec fn too_much_food(&self) -> bool {
        let f = scan(self.cells, self.width, self.cells.len() as int, of_kind(Kind::Food)).len();
        let a = scan(self.cells, self.width, self.cells.len() as int, of_kind(Kind::Ant)).len();
        f + a > 0 && 100 * f >= 85 * (f + a)
    }
}

/// The sum of `h[q]` over the first `k` players `q` other than `p`.
pub open spec fn others_sum(h: Seq<usize>, p: int, k: int) -> int
    decreases k,
{
    if k <= 0 {
        0
    } else {
        others_sum(h, p, k - 1) + if k - 1 == p {
            0
        } else {
            h[k - 1] as int
        }
    }
}

pub proof fn lemma_others_sum_grows(h: Seq<usize>, p: int, k: int, m: int)
    requires
        0 <= k <= m,
    ensures
        others_sum(h, p, k) <= others_sum(h, p, m),
    decreases m - k,
{
    if k < m {
        lemma_others_sum_grows(h, p, k, m - 1);
    }
}

/// The leading player among the first `n`: the last one with the highest
/// score.
pub open spec fn leader(s: Seq<usize>, n: int) -> int
    decreases n,
{
    if n <= 1 {
        0
    } else {
        let l = leader(s, n - 1);
        if s[n - 1] >= s[l] {
            n - 1
        } else {
            l
        }
    }
}

/// The ranking is settled: not all scores are equal, and no player other than
/// the leader could get past the leader's score even by razing every live
/// hill of every other player, `gain` points each.
pub open spec fn rank_stabilized_spec(scores: Seq<usize>, hills: Seq<usize>, gain: usize) -> bool {
    let n = scores.len() as int;
    let l = leader(scores, n);
    &&& n > 0
    &&& exists|i: int| 0 <= i < n && #[trigger] scores[i] != scores[0]
    &&& forall|p: int|
        0 <= p < n && p != l ==> scores[p] + gain * others_sum(hills, p, n) <= scores[l]
}

impl Game {
    /// The number of live hills of each player.
    pub fn live_ant_hills_per_player(&self) -> (r: Vec<usize>)
        requires
            self.map.wf(),
        ensures
            r@ == self.map@.hill_counts(),
    {
        let players = self.map.players;
        let mut counts: Vec<usize> = Vec::new();
        while counts.len() < players
            invariant
                counts@.len() <= players,
                forall|q: int| 0 <= q < counts@.len() ==> counts@[q] == 0,
            decreases players - counts@.len(),
        {
            counts.push(0);
        }
        let ghost b = self.map@;
        let n = self.map.grid.len();
        let mut i: usize = 0;
        while i < n
            invariant
                self.map.wf(),
                b == self.map@,
                n == b.cells.len(),
                players == b.players,
                i <= n,
                counts@.len() == players,
                forall|q: int|
                    0 <= q < players ==> #[trigger] counts@[q] == scan(b.cells, b.width, i as int, live_hill_of(q as usize)).len(),
            decreases n - i,
        {
            if let Some(Entity::Hill(h)) = self.map.grid[i] {
                if h.alive {
                    proof {
                        assert(crate::grid::entity_players_ok(b.cells[i as int], b.players));
                        lemma_scan_len(b.cells, b.width, i as int, live_hill_of(h.player));
                    }
                    let c = counts[h.player] + 1;
                    counts.set(h.player, c);
                }
            }
            proof {
                assert forall|q: int| 0 <= q < players implies #[trigger] counts@[q] == scan(b.cells, b.width, i + 1, live_hill_of(q as usize)).len() by {
                }
            }
            i = i + 1;
        }
        proof {
            assert(counts@ =~= b.hill_counts());
        }
        counts
    }

    /// Whether the ranking is settled (see `rank_stabilized_spec`).
    pub fn rank_stabilized(&self) -> (r: bool)
        requires
            self.wf(),
        ensures
            r == rank_stabilized_spec(self.scores@, self.map@.hill_counts(), self.points_for_razing_hill),
    {
        let hills = self.live_ant_hills_per_player();
        let scores = &self.scores;
        let n = scores.len();
        let gain = self.points_for_razing_hill;
        if n == 0 {
            return false;
        }
        let mut i: usize = 1;
        let mut all_equal = true;
        while i < n
            invariant
                1 <= i <= n,
                n == scores@.len(),
                all_equal == forall|j: int| 0 <= j < i ==> #[trigger] scores@[j] == scores@[0],
            decreases n - i,
        {
            if scores[i] != scores[0] {
                all_equal = false;
            }
            i = i + 1;
        }
        if all_equal {
            return false;
        }
        // The leader: the last player with the highest score.
        let mut l: usize = 0;
        i = 1;
        while i < n
            invariant
                1 <= i <= n,
                n == scores@.len(),
                l as int == leader(scores@, i as int),
                l < i,
                forall|j: int| 0 <= j < i ==> #[trigger] scores@[j] <= scores@[l as int],
            decreases n - i,
        {
            if scores[i] >= scores[l] {
                l = i;
            }
            i = i + 1;
        }
        let top = scores[l] as u128;
        let mut p: usize = 0;
        while p < n
            invariant
                p <= n,
                n == scores@.len(),
                hills@.len() == n,
                l as int == leader(scores@, n as int),
                top == scores@[l as int],
                forall|q: int| 0 <= q < p && q != l ==> scores@[q] + gain * others_sum(hills@, q, n as int) <= top,
                l < n,
                forall|j: int| 0 <= j < n ==> #[trigger] scores@[j] <= scores@[l as int],
                hills@ == self.map@.hill_counts(),
                scores@ == self.scores@,
                gain == self.points_for_razing_hill,
            decreases n - p,
        {
            if p != l {
                let mut val: u128 = scores[p] as u128;
                let mut k: usize = 0;
                while k < n
                    invariant
                        k <= n,
                        n == hills@.len(),
                        val == scores@[p as int] + gain * others_sum(hills@, p as int, k as int),
                        val <= top,
                        top <= usize::MAX,
                        hills@ == self.map@.hill_counts(),
                        scores@ == self.scores@,
                        gain == self.points_for_razing_hill,
                        l as int == leader(scores@, n as int),
                        p < n,
                        l < n,
                        p != l,
                        n == scores@.len(),
                        top == scores@[l as int],
                    decreases n - k,
                {
                    if k != p {
                        assert(gain * hills@[k as int] <= 0xffff_ffff_ffff_fffe_0000_0000_0000_0001u128) by (nonlinear_arith)
                            requires
                                gain <= usize::MAX,
                                hills@[k as int] <= usize::MAX,
                        ;
                        val = val + gain as u128 * hills[k] as u128;
                        assert(gain * others_sum(hills@, p as int, k + 1) == gain * others_sum(hills@, p as int, k as int) + gain * hills@[k as int]) by (nonlinear_arith)
                            requires
                                others_sum(hills@, p as int, k + 1) == others_sum(hills@, p as int, k as int) + hills@[k as int],
                        ;
                    }
                    if val > top {
                        proof {
                            lemma_others_sum_grows(hills@, p as int, k + 1, n as int);
                            assert(gain * others_sum(hills@, p as int, k + 1) <= gain * others_sum(hills@, p as int, n as int)) by (nonlinear_arith)
                                requires
                                    others_sum(hills@, p as int, k + 1) <= others_sum(hills@, p as int, n as int),
                            ;
                            assert(!(scores@[p as int] + gain * others_sum(hills@, p as int, n as int) <= scores@[l as int]));
                            assert(hills@ == self.map@.hill_counts());
                            assert(scores@ == self.scores@);
                            assert(self.scores@.len() as int == n as int);
                            assert(!rank_stabilized_spec(self.scores@, self.map@.hill_counts(), gain));
                        }
                        return false;
                    }
                    k = k + 1;
                }
            }
            p = p + 1;
        }
        true
    }
}

/// Which ending, if any, a world with these scores at this turn calls for,
/// given the count of turns with too much food: the first that holds of too
/// much food for `cutoff` turns, one player left, a settled ranking, and the
/// last turn.
pub open spec fn end_reason_of(
    b: Board,
    scores: Seq<usize>,
    turn: int,
    max_turns: usize,
    cutoff: usize,
    gain: usize,
    food_turns: usize,
) -> Option<FinishedReason> {
    if food_turns >= cutoff {
        Some(FinishedReason::TooMuchFood)
    } else if b.one_player_left() {
        Some(FinishedReason::LoneSurvivor)
    } else if rank_stabilized_spec(scores, b.hill_counts(), gain) {
        Some(FinishedReason::RankStabilized)
    } else if turn >= max_turns {
        Some(FinishedReason::TurnLimitReached)
    } else {
        None
    }
}

impl Game {
    /// Whether exactly one player has live ants.
    pub fn single_player_left(&self) -> (r: bool)
        requires
            self.map.wf(),
        ensures
            r == self.map@.one_player_left(),
    {
        let ghost b = self.map@;
        let n = self.map.grid.len();
        let mut first: Option<usize> = None;
        let mut first_at: usize = 0;
        let mut same = true;
        let mut i: usize = 0;
        while i < n
            invariant
                b == self.map@,
                n == b.cells.len(),
                i <= n,
                first.is_none() ==> same,
                first.is_none() ==> forall|j: int| 0 <= j < i ==> !#[trigger] b.live_ant_at(j),
                first matches Some(p) ==> first_at < i && b.live_ant_at(first_at as int) && ant_in(
                    b.cells[first_at as int],
                ).unwrap().player == p,
                first matches Some(p) ==> (same ==> forall|j: int|
                    0 <= j < i && #[trigger] b.live_ant_at(j) ==> ant_in(b.cells[j]).unwrap().player
                        == p),
                first matches Some(p) ==> (!same ==> exists|j: int|
                    0 <= j < i && #[trigger] b.live_ant_at(j) && ant_in(b.cells[j]).unwrap().player
                        != p),
            decreases n - i,
        {
            if let Some(Entity::Ant(a)) = self.map.grid[i] {
                if a.alive {
                    match first {
                        None => {
                            first = Some(a.player);
                            first_at = i;
                        },
                        Some(p) => {
                            if a.player != p {
                                same = false;
                                assert(b.live_ant_at(i as int));
                            }
                        },
                    }
                }
            }
            proof {
                if let Some(p) = first {
                    if same {
                        assert forall|j: int|
                            0 <= j < i + 1 && #[trigger] b.live_ant_at(j) implies ant_in(b.cells[j]).unwrap().player == p by {
                            if j == i as int {
                                assert(b.cells[j] == self.map.grid@[j]);
                            }
                        }
                    }
                }
            }
            i = i + 1;
        }
        match first {
            None => false,
            Some(p) => {
                proof {
                    if !same {
                        let j = choose|j: int|
                            0 <= j < n && #[trigger] b.live_ant_at(j) && ant_in(b.cells[j]).unwrap().player
                                != p;
                        assert(b.live_ant_at(first_at as int));
                    }
                }
                same
            },
        }
    }

    /// Whether food makes up at least 85% of the food and ants on the grid.
    pub fn too_much_food(&self) -> (r: bool)
        requires
            self.map.wf(),
        ensures
            r == self.map@.too_much_food(),
    {
        let food = self.map.food().len() as u128;
        let ants = self.map.ants().len() as u128;
        proof {
            let b = self.map@;
            assert(crate::grid::positions(scan(b.cells, b.width, b.cells.len() as int, of_kind(Kind::Food))).len()
                == scan(b.cells, b.width, b.cells.len() as int, of_kind(Kind::Food)).len());
        }
        food + ants > 0 && 100 * food >= 85 * (food + ants)
    }

    /// Which ending, if any, the state calls for, given the updated count of
    /// turns with too much food: the first that holds of too much food for
    /// `cutoff_threshold` turns, one player left, a settled ranking, and the
    /// last turn.
    pub open spec fn end_reason(&self, food_turns: usize) -> Option<FinishedReason> {
        end_reason_of(
            self.map@,
            self.scores@,
            self.turn as int,
            self.max_turns,
            self.cutoff_threshold,
            self.points_for_razing_hill,
            food_turns,
        )
    }

    /// Counts a turn with too much food (or starts the count over), then ends
    /// the game for the first reason that holds, if any.
    pub fn check_for_endgame(&mut self)
        requires
            old(self).wf(),
        ensures
            final(self).wf(),
            final(self).same_setup(old(self)),
            final(self).map@ == old(self).map@,
            final(self).scores@ == old(self).scores@,
            final(self).hive@ == old(self).hive@,
            final(self).next_id == old(self).next_id,
            final(self).turn == old(self).turn,
            final(self).started == old(self).started,
            final(self).turns_with_too_much_food == if old(self).map@.too_much_food() {
                sat_add(old(self).turns_with_too_much_food, 1)
            } else {
                0
            },
            old(self).end_reason(final(self).turns_with_too_much_food) matches Some(why) ==> final(self).finished
                && final(self).finished_reason == Some(why),
            old(self).end_reason(final(self).turns_with_too_much_food).is_none() ==> final(self).finished
                == old(self).finished && final(self).finished_reason == old(self).finished_reason,
    {
        if self.too_much_food() {
            self.turns_with_too_much_food = self.turns_with_too_much_food.saturating_add(1);
        } else {
            self.turns_with_too_much_food = 0;
        }
        if self.turns_with_too_much_food >= self.cutoff_threshold {
            self.finished = true;
            self.finished_reason = Some(FinishedReason::TooMuchFood);
            return;
        }
        if self.single_player_left() {
            self.finished = true;
            self.finished_reason = Some(FinishedReason::LoneSurvivor);
            return;
        }
        if self.rank_stabilized() {
            self.finished = true;
            self.finished_reason = Some(FinishedReason::RankStabilized);
            return;
        }
        if self.turn >= self.max_turns {
            self.finished = true;
            self.finished_reason = Some(FinishedReason::TurnLimitReached);
        }
    }

    /// Each player starts with one point per live hill.
    pub fn compute_initial_scores(&mut self)
        requires
            old(self).wf(),
        ensures
            final(self).wf(),
            final(self).same_setup(old(self)),
            final(self).map@ == old(self).map@,
            final(self).scores@ == old(self).map@.hill_counts(),
            final(self).hive@ == old(self).hive@,
            final(self).next_id == old(self).next_id,
            final(self).turn == old(self).turn,
            final(self).turns_with_too_much_food == old(self).turns_with_too_much_food,
            final(self).started == old(self).started,
            final(self).finished == old(self).finished,
            final(self).finished_reason == old(self).finished_reason,
    {
        self.scores = self.live_ant_hills_per_player();
    }
}

/// The live ants among the first `k` entries of `s`: cell and player.
pub open spec fn live_ants_in(s: Seq<(Entity, usize, usize)>, k: int) -> Seq<(usize, usize, usize)>
    decreases k,
{
    if k <= 0 {
        seq![]
    } else {
        let prev = live_ants_in(s, k - 1);
        match s[k - 1].0 {
            Entity::Ant(a) => if a.alive {
                prev.push((s[k - 1].1, s[k - 1].2, a.player))
            } else {
                prev
            },
            _ => prev,
        }
    }
}

/// The first of the first `k` ants of `near` whose cell is not in `done`.
pub open spec fn first_fresh(near: Seq<(usize, usize, usize)>, done: Seq<(usize, usize)>, k: int) -> Option<int>
    decreases k,
{
    if k <= 0 {
        None
    } else {
        match first_fresh(near, done, k - 1) {
            Some(i) => Some(i),
            None => if !done.contains((near[k - 1].0, near[k - 1].1)) {
                Some(k - 1)
            } else {
                None
            },
        }
    }
}

/// All ants of `near` belong to one player.
pub open spec fn one_player(near: Seq<(usize, usize, usize)>) -> bool {
    forall|k: int| 0 <= k < near.len() ==> #[trigger] near[k].2 == near[0].2
}

impl Board {
    /// The live ants within `r2` of the food at `f`.
    pub open spec fn ants_near(&self, f: (usize, usize), r2: usize) -> Seq<(usize, usize, usize)> {
        let s = self.fov(f, r2);
        live_ants_in(s, s.len() as int)
    }

    /// The board with the cell `f` emptied.
    pub open spec fn cleared(&self, f: (usize, usize)) -> Board {
        Board { cells: self.cells.update(index_of(self.width, f.0 as int, f.1 as int), None), ..*self }
    }
}

/// The board, the hives and the cells of the ants that have eaten this turn,
/// after the food at `f` is dealt with: untouched with no live ant near;
/// eaten by the first near ant that has not eaten yet where all near ants
/// belong to one player (untouched if every one of them has eaten); destroyed
/// where players meet.
pub open spec fn harvest_step(
    st: (Board, Seq<usize>, Seq<(usize, usize)>),
    f: (usize, usize),
    r2: usize,
) -> (Board, Seq<usize>, Seq<(usize, usize)>) {
    let (b, hive, done) = st;
    let near = b.ants_near(f, r2);
    if near.len() == 0 {
        st
    } else if one_player(near) {
        match first_fresh(near, done, near.len() as int) {
            Some(k) => {
                let p = near[k].2 as int;
                (b.cleared(f), hive.update(p, sat_add(hive[p], 1)), done.push((near[k].0, near[k].1)))
            },
            None => st,
        }
    } else {
        (b.cleared(f), hive, done)
    }
}

/// The state after the first `k` foods of `foods` are dealt with in order.
pub open spec fn harvest_upto(
    st: (Board, Seq<usize>, Seq<(usize, usize)>),
    foods: Seq<(usize, usize)>,
    r2: usize,
    k: int,
) -> (Board, Seq<usize>, Seq<(usize, usize)>)
    decreases k,
{
    if k <= 0 {
        st
    } else {
        harvest_step(harvest_upto(st, foods, r2, k - 1), foods[k - 1], r2)
    }
}

impl Game {
    /// The live ants within food range of `f`: cell and player.
    fn ants_near(&self, f: (usize, usize)) -> (r: Vec<(usize, usize, usize)>)
        requires
            self.map.wf(),
            self.map@.in_bounds(f.0 as int, f.1 as int),
        ensures
            r@ == self.map@.ants_near(f, self.food_radius2),
            forall|k: int| 0 <= k < r@.len() ==> #[trigger] r@[k].2 < self.map.players,
    {
        let fov = self.map.field_of_vision(f, self.food_radius2);
        proof {
            lemma_fov_entries(self.map@, f, self.food_radius2);
        }
        let mut out: Vec<(usize, usize, usize)> = Vec::new();
        let mut k: usize = 0;
        while k < fov.len()
            invariant
                k <= fov@.len(),
                fov@ == self.map@.fov(f, self.food_radius2),
                forall|t: int| 0 <= t < fov@.len() ==> self.map@.entry_ok(#[trigger] fov@[t]),
                out@ == live_ants_in(fov@, k as int),
                forall|t: int| 0 <= t < out@.len() ==> #[trigger] out@[t].2 < self.map.players,
            decreases fov@.len() - k,
        {
            let (e, r, c) = fov[k];
            assert(self.map@.entry_ok(fov@[k as int]));
            if let Entity::Ant(a) = e {
                if a.alive {
                    out.push((r, c, a.player));
                }
            }
            k = k + 1;
        }
        out
    }

    /// Deals with every food on the grid, in row-major order (see
    /// `harvest_step`). No ant eats more than one food in a turn.
    pub fn harvest_food(&mut self)
        requires
            old(self).wf(),
        ensures
            final(self).wf(),
            final(self).same_setup(old(self)),
            ({
                let foods = positions(
                    scan(old(self).map@.cells, old(self).map@.width, old(self).map@.cells.len() as int, of_kind(Kind::Food)),
                );
                let st = harvest_upto((old(self).map@, old(self).hive@, seq![]), foods, old(self).food_radius2, foods.len() as int);
                final(self).map@ == st.0 && final(self).hive@ == st.1
            }),
            final(self).scores@ == old(self).scores@,
            final(self).next_id == old(self).next_id,
            final(self).turn == old(self).turn,
            final(self).turns_with_too_much_food == old(self).turns_with_too_much_food,
            final(self).started == old(self).started,
            final(self).finished == old(self).finished,
            final(self).finished_reason == old(self).finished_reason,
    {
        let ghost b0 = self.map@;
        let food = self.map.food();
        proof {
            let sc = scan(b0.cells, b0.width, b0.cells.len() as int, of_kind(Kind::Food));
            lemma_scan_entries(b0, b0.cells.len() as int, of_kind(Kind::Food));
            assert forall|t: int| 0 <= t < food@.len() implies b0.in_bounds(#[trigger] food@[t].0 as int, food@[t].1 as int) by {
                assert(b0.entry_ok(sc[t]));
            }
        }
        let mut done: Vec<(usize, usize)> = Vec::new();
        let mut k: usize = 0;
        while k < food.len()
            invariant
                self.wf(),
                self.same_setup(old(self)),
                b0 == old(self).map@,
                food@ == positions(scan(b0.cells, b0.width, b0.cells.len() as int, of_kind(Kind::Food))),
                forall|t: int|
                    0 <= t < food@.len() ==> b0.in_bounds(#[trigger] food@[t].0 as int, food@[t].1 as int),
                k <= food@.len(),
                (self.map@, self.hive@, done@) == harvest_upto((b0, old(self).hive@, seq![]), food@, self.food_radius2, k as int),
                self.scores@ == old(self).scores@,
                self.next_id == old(self).next_id,
                self.turn == old(self).turn,
                self.turns_with_too_much_food == old(self).turns_with_too_much_food,
                self.started == old(self).started,
                self.finished == old(self).finished,
                self.finished_reason == old(self).finished_reason,
            decreases food@.len() - k,
        {
            let f = food[k];
            let ghost st = (self.map@, self.hive@, done@);
            let near = self.ants_near(f);
            if near.len() > 0 {
                let mut same = true;
                let mut j: usize = 0;
                while j < near.len()
                    invariant
                        j <= near@.len(),
                        near@.len() > 0,
                        same == forall|t: int| 0 <= t < j ==> #[trigger] near@[t].2 == near@[0].2,
                    decreases near@.len() - j,
                {
                    if near[j].2 != near[0].2 {
                        same = false;
                    }
                    j = j + 1;
                }
                if same {
                    // The first near ant that has not eaten yet.
                    let mut found: Option<usize> = None;
                    j = 0;
                    while j < near.len() && found.is_none()
                        invariant
                            j <= near@.len(),
                            found.is_none() ==> first_fresh(near@, done@, j as int).is_none(),
                            found matches Some(x) ==> first_fresh(near@, done@, near@.len() as int) == Some(x as int) && x < near@.len(),
                        decreases near@.len() - j,
                    {
                        let cell = (near[j].0, near[j].1);
                        let mut eaten = false;
                        let mut d: usize = 0;
                        while d < done.len()
                            invariant
                                d <= done@.len(),
                                eaten == exists|t: int| 0 <= t < d && #[trigger] done@[t] == cell,
                            decreases done@.len() - d,
                        {
                            if done[d].0 == cell.0 && done[d].1 == cell.1 {
                                eaten = true;
                            }
                            d = d + 1;
                        }
                        proof {
                            if eaten {
                                let t = choose|t: int| 0 <= t < done@.len() && #[trigger] done@[t] == cell;
                                assert(done@.contains(cell));
                            } else {
                                assert(!done@.contains(cell));
                            }
                        }
                        if !eaten {
                            found = Some(j);
                            proof {
                                lemma_first_fresh_stays(near@, done@, j as int + 1, near@.len() as int);
                            }
                        }
                        j = j + 1;
                    }
                    if let Some(x) = found {
                        let (r, c, p) = near[x];
                        let h = self.hive[p].saturating_add(1);
                        self.hive.set(p, h);
                        done.push((r, c));
                        self.clear_cell(f);
                    } else {
                        proof {
                            assert(first_fresh(near@, done@, near@.len() as int).is_none());
                        }
                    }
                } else {
                    self.clear_cell(f);
                }
            }
            proof {
                assert(food@.subrange(0, k as int + 1).len() == k + 1);
            }
            k = k + 1;
        }
    }

    /// Takes the food at `f` off the grid.
    fn clear_cell(&mut self, f: (usize, usize))
        requires
            old(self).wf(),
            old(self).map@.in_bounds(f.0 as int, f.1 as int),
        ensures
            final(self).wf(),
            final(self).same_setup(old(self)),
            final(self).map@ == old(self).map@.cleared(f),
            final(self).scores@ == old(self).scores@,
            final(self).hive@ == old(self).hive@,
            final(self).next_id == old(self).next_id,
            final(self).turn == old(self).turn,
            final(self).turns_with_too_much_food == old(self).turns_with_too_much_food,
            final(self).started == old(self).started,
            final(self).finished == old(self).finished,
            final(self).finished_reason == old(self).finished_reason,
    {
        let ghost before = self.map@;
        self.map.remove(f.0, f.1);
        proof {
            lemma_cell_index(before.width, before.height, f.0 as int, f.1 as int);
            let n = before.cells.len();
            assert forall|j: int| 0 <= j < n && #[trigger] ant_in(self.map@.cells[j]).is_some() implies
                ant_in(before.cells[j]).is_some() && ant_in(self.map@.cells[j]).unwrap().id == ant_in(before.cells[j]).unwrap().id by {}
            lemma_ids_kept(before, self.map@);
            assert(self.map@ =~= before.cleared(f));
        }
        self.log(Event::remove_food(f));
    }
}

pub proof fn lemma_first_fresh_stays(near: Seq<(usize, usize, usize)>, done: Seq<(usize, usize)>, k: int, m: int)
    requires
        0 <= k <= m,
        first_fresh(near, done, k).is_some(),
    ensures
        first_fresh(near, done, m) == first_fresh(near, done, k),
    decreases m - k,
{
    if k < m {
        lemma_first_fresh_stays(near, done, k, m - 1);
    }
}

/// The cell holds what it held, or food where it was empty.
pub open spec fn food_added(before: Option<Entity>, after: Option<Entity>) -> bool {
    after == before || (before.is_none() && after == Some(Entity::Food(Food)))
}

/// The cell holds what it held, or a live hill has given way to a new live
/// ant of its owner (identifier at least `first_id`) standing on it.
pub open spec fn ant_spawned(before: Option<Entity>, after: Option<Entity>, first_id: u64) -> bool {
    after == before || match (before, after) {
        (Some(Entity::Hill(h)), Some(Entity::Ant(a))) => h.alive && a.id >= first_id && a.player
            == h.player && a.alive && a.on_ant_hill == Some(Hill { player: h.player, alive: true }),
        _ => false,
    }
}

/// The cells of `chosen` are distinct, were empty, and now hold food; no
/// other cell changed.
pub open spec fn food_placed(before: Board, after: Board, chosen: Seq<(usize, usize)>) -> bool {
    &&& chosen.no_duplicates()
    &&& forall|j: int|
        0 <= j < before.cells.len() && #[trigger] after.cells[j] != before.cells[j] ==> chosen.contains(
            pos_of(before.width, j),
        )
    &&& forall|k: int|
        0 <= k < chosen.len() ==> before.in_bounds(#[trigger] chosen[k].0 as int, chosen[k].1 as int)
            && before.cell(chosen[k].0 as int, chosen[k].1 as int).is_none() && after.cell(
            chosen[k].0 as int,
            chosen[k].1 as int,
        ) == Some(Entity::Food(Food))
}

impl Board {
    /// The number of cells that hold food.
    pub open spec fn food_count(&self) -> int {
        scan(self.cells, self.width, self.cells.len() as int, of_kind(Kind::Food)).len() as int
    }
}

/// The cell holds a live ant of `p` with an identifier at least `first_id`.
pub open spec fn fresh_ant_of(e: Option<Entity>, p: usize, first_id: u64) -> bool {
    match e {
        Some(Entity::Ant(a)) => a.player == p && a.alive && a.id >= first_id,
        _ => false,
    }
}

/// The cells of `chosen` are distinct live hills of `p` that now carry new
/// live ants of `p`; no other hill of `p` changed.
pub open spec fn ants_placed(before: Board, after: Board, chosen: Seq<(usize, usize)>, p: usize, first_id: u64) -> bool {
    &&& chosen.no_duplicates()
    &&& forall|j: int|
        0 <= j < before.cells.len() && before.cells[j] == Some(Entity::Hill(Hill { player: p, alive: true }))
            && #[trigger] after.cells[j] != before.cells[j] ==> chosen.contains(pos_of(before.width, j))
    &&& forall|k: int|
        0 <= k < chosen.len() ==> before.in_bounds(#[trigger] chosen[k].0 as int, chosen[k].1 as int)
            && before.cell(chosen[k].0 as int, chosen[k].1 as int) == Some(Entity::Hill(Hill { player: p, alive: true }))
            && fresh_ant_of(after.cell(chosen[k].0 as int, chosen[k].1 as int), p, first_id)
}

/// Player `q` got new ants on as many distinct live hills of its own as its
/// hive held food, or on all of them, where it held more.
pub open spec fn hive_spawned(before: Board, after: Board, hive: Seq<usize>, q: usize, first_id: u64) -> bool {
    exists|chosen: Seq<(usize, usize)>|
        #[trigger] ants_placed(before, after, chosen, q, first_id) && chosen.len() == min(
            hive[q as int] as int,
            before.hill_count(q),
        )
}

/// Each of the first `p` players got its new ants, as `hive_spawned` says,
/// on the cells that `all` lists for it.
pub open spec fn placed_so_far(
    before: Board,
    after: Board,
    all: Seq<Seq<(usize, usize)>>,
    hive: Seq<usize>,
    first_id: u64,
    p: int,
) -> bool {
    forall|q: int|
        0 <= q < p ==> #[trigger] ants_placed(before, after, all[q], q as usize, first_id) && all[q].len()
            == min(hive[q] as int, before.hill_count(q as usize))
}

/// A live hill has given way to a new live ant of its owner (identifier at
/// least `first_id`) standing on it.
pub open spec fn new_ant_on_hill(before: Option<Entity>, after: Option<Entity>, first_id: u64) -> bool {
    match (before, after) {
        (Some(Entity::Hill(h)), Some(Entity::Ant(a))) => h.alive && a.id >= first_id && a.player
            == h.player && a.alive && a.on_ant_hill == Some(Hill { player: h.player, alive: true }),
        _ => false,
    }
}

impl Board {
    /// The empty cells next to the cell with flat index `i`.
    pub open spec fn around(&self, i: int) -> Seq<(usize, usize)> {
        self.land_around_upto(pos_of(self.width, i).0 as int, pos_of(self.width, i).1 as int, 9)
    }

    /// Cell `i` holds a live hill.
    pub open spec fn live_hill_at(&self, i: int) -> bool {
        self.cells[i] matches Some(Entity::Hill(h)) && h.alive
    }
}

/// `chosen` is a draw without repetition, of three cells or all of them,
/// from the empty cells next to the live hill in cell `i`.
pub open spec fn fed_cells(before: Board, chosen: Seq<(usize, usize)>, i: int) -> bool {
    &&& chosen.no_duplicates()
    &&& chosen.len() == min(3, before.around(i).len() as int)
    &&& forall|k: int| 0 <= k < chosen.len() ==> before.around(i).contains(#[trigger] chosen[k])
}

/// Each cell of `chosen` holds food.
pub open spec fn food_lies_on(after: Board, chosen: Seq<(usize, usize)>) -> bool {
    forall|k: int| 0 <= k < chosen.len() ==> after.cell(#[trigger] chosen[k].0 as int, chosen[k].1 as int) == Some(Entity::Food(Food))
}

/// For each live hill among the first `i` cells, `chosen_of` holds a draw
/// next to it, every cell of which `spots` lists.
pub open spec fn fed_so_far(
    before: Board,
    chosen_of: Seq<Seq<(usize, usize)>>,
    spots: Seq<(usize, usize)>,
    i: int,
) -> bool {
    forall|x: int|
        0 <= x < i && before.live_hill_at(x) ==> #[trigger] fed_cells(before, chosen_of[x], x) && forall|k: int|
            0 <= k < chosen_of[x].len() ==> spots.contains(#[trigger] chosen_of[x][k])
}

/// Food lies on a draw of cells next to the live hill in cell `i`.
pub open spec fn hill_fed(before: Board, after: Board, i: int) -> bool {
    exists|chosen: Seq<(usize, usize)>| #[trigger] fed_cells(before, chosen, i) && food_lies_on(after, chosen)
}

/// The cell is next to a live hill and empty there.
pub open spec fn near_fed_hill(before: Board, pos: (usize, usize)) -> bool {
    exists|i: int| 0 <= i < before.cells.len() && #[trigger] before.live_hill_at(i) && before.around(i).contains(pos)
}

/// The board and hives after spawning from the hives (see
/// `spawn_ants_from_hive`), whatever hills were drawn.
pub open spec fn respawned(b: Board, b2: Board, hive: Seq<usize>, hive2: Seq<usize>, first_id: u64) -> bool {
    &&& b2.width == b.width && b2.height == b.height && b2.players == b.players
    &&& b2.cells.len() == b.cells.len()
    &&& hive2.len() == hive.len()
    &&& forall|q: int|
        0 <= q < b.players ==> #[trigger] hive2[q] == hive[q] - min(hive[q] as int, b.hill_count(q as usize))
    &&& forall|j: int| 0 <= j < b.cells.len() ==> ant_spawned(b.cells[j], #[trigger] b2.cells[j], first_id)
    &&& first_id + b.players * b.cells.len() < u64::MAX ==> forall|q: int|
        0 <= q < b.players ==> #[trigger] hive_spawned(b, b2, hive, q as usize, first_id)
}

/// The board after food is topped up to `food_per_turn` (see
/// `spawn_food_randomly`), whatever cells were drawn.
pub open spec fn replenished(b: Board, b2: Board, food_per_turn: usize) -> bool {
    &&& b2.width == b.width && b2.height == b.height && b2.players == b.players
    &&& b2.cells.len() == b.cells.len()
    &&& forall|j: int| 0 <= j < b.cells.len() ==> food_added(b.cells[j], #[trigger] b2.cells[j])
    &&& b.food_count() >= food_per_turn ==> b2 == b
    &&& b.food_count() < food_per_turn ==> exists|chosen: Seq<(usize, usize)>|
        #[trigger] food_placed(b, b2, chosen) && chosen.len() == min(
            food_per_turn - b.food_count(),
            land_scan(b.cells, b.width, b.cells.len() as int).len() as int,
        )
}

/// The board and hives after the harvest (see `harvest_food`).
pub open spec fn harvested(b: Board, hive: Seq<usize>, r2: usize) -> (Board, Seq<usize>) {
    let foods = positions(scan(b.cells, b.width, b.cells.len() as int, of_kind(Kind::Food)));
    let st = harvest_upto((b, hive, seq![]), foods, r2, foods.len() as int);
    (st.0, st.1)
}

/// The steps of a turn after razing, through the drawn outcomes `spawned`,
/// `hive` and `fed`: spawning from the hives, the harvest, new food, the
/// check for the end, the observation `r` of the world before the dead are
/// taken away, and the game `fin` that is left.
pub open spec fn turn_steps(
    old: Game,
    razed: Board,
    scores: Seq<usize>,
    spawned: Board,
    hive: Seq<usize>,
    fed: Board,
    fin: Game,
    r: GameState,
) -> bool {
    let h = harvested(spawned, hive, old.food_radius2);
    let counter = if fed.too_much_food() {
        sat_add(old.turns_with_too_much_food, 1)
    } else {
        0
    };
    let why = end_reason_of(
        fed,
        scores,
        old.turn + 1,
        old.max_turns,
        old.cutoff_threshold,
        old.points_for_razing_hill,
        counter,
    );
    &&& respawned(razed, spawned, old.hive@, hive, old.next_id)
    &&& replenished(h.0, fed, old.food_per_turn)
    &&& fin.hive@ == h.1
    &&& fin.scores@ == scores
    &&& observes(r, fed, old.fov_radius2)
    &&& fin.map@.cells == fed.without_dead()
    &&& fin.turns_with_too_much_food == counter
    &&& fin.finished_reason == why
    &&& fin.finished == why is Some
}

/// One turn of `old` with the actions `acts` leaves `fin` and shows `r`:
/// the moves, combat and razing as their phases say, then `turn_steps` for
/// some drawn outcome.
pub open spec fn played(old: Game, acts: Seq<Action>, fin: Game, r: GameState) -> bool {
    let moved = apply_actions(old.map@, acts);
    let fought = Board { cells: moved.after_attack(old.attack_radius2), ..moved };
    let razed = Board { cells: fought.after_raze(), ..fought };
    let scores = raze_scores(
        old.scores@,
        fought.cells,
        fought.cells.len() as int,
        old.points_for_razing_hill,
        old.points_for_losing_hill,
    );
    exists|spawned: Board, hive: Seq<usize>, fed: Board|
        #[trigger] turn_steps(old, razed, scores, spawned, hive, fed, fin, r)
}

/// The board after food is put next to the live hills (see
/// `spawn_food_around_hills`), whatever cells were drawn.
pub open spec fn fed_around(b: Board, b2: Board) -> bool {
    &&& b2.width == b.width && b2.height == b.height && b2.players == b.players
    &&& b2.cells.len() == b.cells.len()
    &&& forall|j: int| 0 <= j < b.cells.len() ==> food_added(b.cells[j], #[trigger] b2.cells[j])
    &&& forall|i: int| 0 <= i < b.cells.len() && b.live_hill_at(i) ==> #[trigger] hill_fed(b, b2, i)
    &&& forall|j: int|
        0 <= j < b.cells.len() && #[trigger] b2.cells[j] != b.cells[j] ==> near_fed_hill(b, pos_of(b.width, j))
}

/// The board after an ant is put on every live hill (see
/// `spawn_ants_all_hills`).
pub open spec fn ants_on_hills(b: Board, b2: Board, first_id: u64) -> bool {
    &&& b2.width == b.width && b2.height == b.height && b2.players == b.players
    &&& b2.cells.len() == b.cells.len()
    &&& forall|j: int| 0 <= j < b.cells.len() ==> ant_spawned(b.cells[j], #[trigger] b2.cells[j], first_id)
    &&& first_id + b.cells.len() < u64::MAX ==> forall|j: int|
        0 <= j < b.cells.len() && (b.cells[j] matches Some(Entity::Hill(h)) && h.alive) ==> new_ant_on_hill(
            b.cells[j],
            #[trigger] b2.cells[j],
            first_id,
        )
}

pub open spec fn min(a: int, b: int) -> int {
    if a <= b {
        a
    } else {
        b
    }
}

impl Game {
    /// Puts food into a cell.
    fn put_food(&mut self, f: (usize, usize))
        requires
            old(self).wf(),
            old(self).map@.in_bounds(f.0 as int, f.1 as int),
        ensures
            final(self).wf(),
            final(self).same_setup(old(self)),
            final(self).map@.cells == old(self).map@.cells.update(
                index_of(old(self).map.width, f.0 as int, f.1 as int),
                Some(Entity::Food(Food)),
            ),
            final(self).scores@ == old(self).scores@,
            final(self).hive@ == old(self).hive@,
            final(self).next_id == old(self).next_id,
            final(self).turn == old(self).turn,
            final(self).turns_with_too_much_food == old(self).turns_with_too_much_food,
            final(self).started == old(self).started,
            final(self).finished == old(self).finished,
            final(self).finished_reason == old(self).finished_reason,
    {
        let ghost before = self.map@;
        self.map.set(f.0, f.1, Entity::Food(Food));
        proof {
            lemma_cell_index(before.width, before.height, f.0 as int, f.1 as int);
            let n = before.cells.len();
            assert forall|j: int| 0 <= j < n && #[trigger] ant_in(self.map@.cells[j]).is_some() implies
                ant_in(before.cells[j]).is_some() && ant_in(self.map@.cells[j]).unwrap().id == ant_in(before.cells[j]).unwrap().id by {}
            lemma_ids_kept(before, self.map@);
        }
        self.log(Event::spawn_food(f));
    }

    /// Puts a new live ant of `player`, standing on a live hill of its own,
    /// into a cell; it gets the next identifier.
    fn spawn_ant(&mut self, player: usize, f: (usize, usize))
        requires
            old(self).wf(),
            old(self).map@.in_bounds(f.0 as int, f.1 as int),
            player < old(self).map.players,
            old(self).next_id < u64::MAX,
        ensures
            final(self).wf(),
            final(self).same_setup(old(self)),
            final(self).map@.cells == old(self).map@.cells.update(
                index_of(old(self).map.width, f.0 as int, f.1 as int),
                Some(
                    Entity::Ant(
                        Ant {
                            id: old(self).next_id,
                            player,
                            alive: true,
                            on_ant_hill: Some(Hill { player, alive: true }),
                        },
                    ),
                ),
            ),
            final(self).next_id == old(self).next_id + 1,
            final(self).scores@ == old(self).scores@,
            final(self).hive@ == old(self).hive@,
            final(self).turn == old(self).turn,
            final(self).turns_with_too_much_food == old(self).turns_with_too_much_food,
            final(self).started == old(self).started,
            final(self).finished == old(self).finished,
            final(self).finished_reason == old(self).finished_reason,
    {
        let ghost before = self.map@;
        let id = self.next_id;
        let ant = Ant::from_ant_hill(id, player, Hill::new(player, true));
        self.map.set(f.0, f.1, Entity::Ant(ant));
        self.next_id = id + 1;
        proof {
            lemma_cell_index(before.width, before.height, f.0 as int, f.1 as int);
            let k = index_of(before.width, f.0 as int, f.1 as int);
            let n = before.cells.len();
            assert(self.map@.ids_unique()) by {
                assert forall|x: int, y: int|
                    0 <= x < n && 0 <= y < n && x != y && (#[trigger] ant_in(self.map@.cells[x])).is_some()
                        && (#[trigger] ant_in(self.map@.cells[y])).is_some() implies ant_in(
                        self.map@.cells[x],
                    ).unwrap().id != ant_in(self.map@.cells[y]).unwrap().id by {
                    if x != k {
                        assert(ant_in(before.cells[x]).is_some());
                    }
                    if y != k {
                        assert(ant_in(before.cells[y]).is_some());
                    }
                }
            }
            assert(self.map@.ids_below(self.next_id as int)) by {
                assert forall|x: int| 0 <= x < n && (#[trigger] ant_in(self.map@.cells[x])).is_some()
                    implies ant_in(self.map@.cells[x]).unwrap().id < self.next_id by {
                    if x != k {
                        assert(ant_in(before.cells[x]).is_some());
                    }
                }
            }
        }
        self.log(Event::spawn_ant(id, player, f));
    }

    /// The cells of the live hills of `player`, in row-major order.
    fn live_hills_of(&self, player: usize) -> (r: Vec<(usize, usize)>)
        requires
            self.map.wf(),
        ensures
            r@ == positions(scan(self.map@.cells, self.map.width, self.map@.cells.len() as int, live_hill_of(player))),
    {
        let ghost b = self.map@;
        let n = self.map.grid.len();
        let w = self.map.width;
        let mut out: Vec<(usize, usize)> = Vec::new();
        let mut i: usize = 0;
        while i < n
            invariant
                self.map.wf(),
                b == self.map@,
                n == b.cells.len(),
                w == b.width,
                i <= n,
                out@ == positions(scan(b.cells, w, i as int, live_hill_of(player))),
            decreases n - i,
        {
            if let Some(Entity::Hill(h)) = self.map.grid[i] {
                if h.alive && h.player == player {
                    proof {
                        lemma_pos_in_bounds(w, self.map.height, i as int);
                    }
                    out.push((i / w, i % w));
                }
            }
            proof {
                assert(out@ =~= positions(scan(b.cells, w, i + 1, live_hill_of(player))));
            }
            i = i + 1;
        }
        out
    }

    /// Each player with food in the hive turns it into new ants, one per live
    /// hill at most: as many hills as the hive holds food, or all of them, are
    /// picked at random, each gets a new ant, and the hive pays one food per
    /// ant.
    pub fn spawn_ants_from_hive(&mut self)
        requires
            old(self).wf(),
        ensures
            final(self).wf(),
            final(self).same_setup(old(self)),
            forall|q: int|
                0 <= q < old(self).map.players ==> #[trigger] final(self).hive@[q] == old(self).hive@[q]
                    - min(old(self).hive@[q] as int, old(self).map@.hill_count(q as usize)),
            final(self).map@.cells.len() == old(self).map@.cells.len(),
            forall|j: int|
                0 <= j < old(self).map@.cells.len() ==> ant_spawned(
                    old(self).map@.cells[j],
                    #[trigger] final(self).map@.cells[j],
                    old(self).next_id,
                ),
            final(self).next_id >= old(self).next_id,
            old(self).next_id + old(self).map.players * old(self).map@.cells.len() < u64::MAX ==> forall|q: int|
                0 <= q < old(self).map.players ==> #[trigger] hive_spawned(
                    old(self).map@,
                    final(self).map@,
                    old(self).hive@,
                    q as usize,
                    old(self).next_id,
                ),
            respawned(old(self).map@, final(self).map@, old(self).hive@, final(self).hive@, old(self).next_id),
            final(self).scores@ == old(self).scores@,
            final(self).turn == old(self).turn,
            final(self).turns_with_too_much_food == old(self).turns_with_too_much_food,
            final(self).started == old(self).started,
            final(self).finished == old(self).finished,
            final(self).finished_reason == old(self).finished_reason,
    {
        let ghost b0 = self.map@;
        let ghost n0 = self.next_id;
        let ghost room = n0 + b0.players * b0.cells.len() < u64::MAX;
        let players = self.map.players;
        let mut lists: Vec<Vec<(usize, usize)>> = Vec::new();
        let mut p: usize = 0;
        while p < players
            invariant
                self.map.wf(),
                b0 == self.map@,
                players == b0.players,
                p <= players,
                lists@.len() == p,
                forall|q: int|
                    0 <= q < p ==> (#[trigger] lists@[q])@ == positions(
                        scan(b0.cells, b0.width, b0.cells.len() as int, live_hill_of(q as usize)),
                    ),
            decreases players - p,
        {
            lists.push(self.live_hills_of(p));
            p = p + 1;
        }
        let ghost mut all: Seq<Seq<(usize, usize)>> = seq![];
        p = 0;
        while p < players
            invariant
                self.wf(),
                self.same_setup(old(self)),
                b0 == old(self).map@,
                b0.wf(),
                n0 == old(self).next_id,
                room == (n0 + b0.players * b0.cells.len() < u64::MAX),
                players == b0.players,
                p <= players,
                lists@.len() == players,
                forall|q: int|
                    0 <= q < players ==> (#[trigger] lists@[q])@ == positions(
                        scan(b0.cells, b0.width, b0.cells.len() as int, live_hill_of(q as usize)),
                    ),
                forall|q: int|
                    0 <= q < players ==> #[trigger] self.hive@[q] == if q < p {
                        old(self).hive@[q] - min(old(self).hive@[q] as int, b0.hill_count(q as usize))
                    } else {
                        old(self).hive@[q] as int
                    },
                self.map@.cells.len() == b0.cells.len(),
                forall|j: int|
                    0 <= j < b0.cells.len() ==> ant_spawned(b0.cells[j], #[trigger] self.map@.cells[j], n0),
                self.next_id >= n0,
                room ==> self.next_id <= n0 + p * b0.cells.len(),
                all.len() == p,
                room ==> placed_so_far(b0, self.map@, all, old(self).hive@, n0, p as int),
                forall|j: int|
                    0 <= j < b0.cells.len() && (b0.cells[j] matches Some(Entity::Hill(h)) && h.player >= p)
                        ==> #[trigger] self.map@.cells[j] == b0.cells[j],
                self.scores@ == old(self).scores@,
                self.turn == old(self).turn,
                self.turns_with_too_much_food == old(self).turns_with_too_much_food,
                self.started == old(self).started,
                self.finished == old(self).finished,
                self.finished_reason == old(self).finished_reason,
            decreases players - p,
        {
            let avail = self.hive[p];
            let hills = &lists[p];
            let ghost sc = scan(b0.cells, b0.width, b0.cells.len() as int, live_hill_of(p));
            proof {
                lemma_scan_entries(b0, b0.cells.len() as int, live_hill_of(p));
                lemma_scan_len(b0.cells, b0.width, b0.cells.len() as int, live_hill_of(p));
                lemma_scan_distinct(b0, b0.cells.len() as int, live_hill_of(p));
            }
            let amount = if avail < hills.len() { avail } else { hills.len() };
            let idx = if amount > 0 {
                sample_indices(&mut self.rng, hills.len(), amount)
            } else {
                Vec::new()
            };
            self.hive.set(p, avail - amount);
            let ghost h1 = self.hive@;
            let ghost chosen = idx@.map_values(|k: usize| hills@[k as int]);
            let ghost id0 = self.next_id;
            let ghost before_player = self.map@;
            proof {
                assert(hills@.len() == sc.len());
                assert(amount as int == min(avail as int, b0.hill_count(p)));
                assert forall|x: int, y: int| 0 <= x < chosen.len() && 0 <= y < chosen.len() && x != y implies chosen[x] != chosen[y] by {
                    assert(idx@[x] != idx@[y]);
                    assert(positions(sc)[idx@[x] as int] == (sc[idx@[x] as int].1, sc[idx@[x] as int].2));
                    assert(positions(sc)[idx@[y] as int] == (sc[idx@[y] as int].1, sc[idx@[y] as int].2));
                }
            }
            let mut t: usize = 0;
            while t < idx.len()
                invariant
                    self.wf(),
                    self.same_setup(old(self)),
                    b0 == old(self).map@,
                    b0.wf(),
                    n0 == old(self).next_id,
                    players == b0.players,
                    p < players,
                    hills@ == positions(sc),
                    sc == scan(b0.cells, b0.width, b0.cells.len() as int, live_hill_of(p)),
                    forall|k: int| 0 <= k < sc.len() ==> b0.entry_ok(#[trigger] sc[k]),
                    forall|k: int| 0 <= k < sc.len() ==> b0.cell(#[trigger] sc[k].1 as int, sc[k].2 as int) == Some(sc[k].0) && live_hill_of(p)(sc[k].0),
                    forall|k: int| 0 <= k < idx@.len() ==> #[trigger] idx@[k] < hills@.len(),
                    idx@.len() <= b0.cells.len(),
                    chosen == idx@.map_values(|k: usize| hills@[k as int]),
                    t <= idx@.len(),
                    self.hive@ == h1,
                    self.map@.cells.len() == b0.cells.len(),
                    forall|j: int|
                        0 <= j < b0.cells.len() ==> ant_spawned(b0.cells[j], #[trigger] self.map@.cells[j], n0),
                    id0 >= n0,
                    room == (n0 + b0.players * b0.cells.len() < u64::MAX),
                    self.next_id >= id0,
                    room ==> id0 <= n0 + p * b0.cells.len(),
                    room ==> self.next_id == id0 + t,
                    forall|x: int| 0 <= x < t ==> b0.in_bounds(#[trigger] chosen[x].0 as int, chosen[x].1 as int),
                    room ==> forall|x: int| 0 <= x < t ==> fresh_ant_of(self.map@.cell(#[trigger] chosen[x].0 as int, chosen[x].1 as int), p, n0),
                    forall|j: int|
                        0 <= j < b0.cells.len() && (b0.cells[j] matches Some(Entity::Hill(h)) && h.player != p) ==> #[trigger] self.map@.cells[j] == before_player.cells[j],
                    forall|j: int|
                        0 <= j < b0.cells.len() && (b0.cells[j] matches Some(Entity::Hill(h)) && h.player >= p)
                            ==> #[trigger] before_player.cells[j] == b0.cells[j],
                    self.map.width == b0.width,
                    forall|j: int|
                        0 <= j < b0.cells.len() && b0.cells[j] == Some(Entity::Hill(Hill { player: p, alive: true }))
                            && #[trigger] self.map@.cells[j] != b0.cells[j] ==> chosen.subrange(0, t as int).contains(pos_of(b0.width, j)),
                    self.scores@ == old(self).scores@,
                    self.turn == old(self).turn,
                    self.turns_with_too_much_food == old(self).turns_with_too_much_food,
                    self.started == old(self).started,
                    self.finished == old(self).finished,
                    self.finished_reason == old(self).finished_reason,
                decreases idx@.len() - t,
            {
                let (r, c) = hills[idx[t]];
                let ghost k = idx@[t as int] as int;
                proof {
                    assert(b0.entry_ok(sc[k]));
                    assert(b0.cell(sc[k].1 as int, sc[k].2 as int) == Some(sc[k].0));
                    assert(chosen[t as int] == (r, c));
                    lemma_cell_index(b0.width, b0.height, r as int, c as int);
                    if room {
                        assert(self.next_id < u64::MAX) by (nonlinear_arith)
                            requires
                                self.next_id == id0 + t,
                                id0 <= n0 + p * b0.cells.len(),
                                t < idx@.len(),
                                idx@.len() <= b0.cells.len(),
                                p < b0.players,
                                n0 + b0.players * b0.cells.len() < u64::MAX,
                        ;
                    }
                }
                if self.next_id < u64::MAX {
                    let ghost before = self.map@;
                    self.spawn_ant(p, (r, c));
                    proof {
                        assert forall|x: int| 0 <= x < t + 1 implies b0.in_bounds(#[trigger] chosen[x].0 as int, chosen[x].1 as int) by {
                            if x == t as int {
                                assert(chosen[x] == (r, c));
                            }
                        }
                        if room {
                            assert forall|x: int| 0 <= x < t + 1 implies fresh_ant_of(self.map@.cell(#[trigger] chosen[x].0 as int, chosen[x].1 as int), p, n0) by {
                                lemma_cell_index(b0.width, b0.height, chosen[x].0 as int, chosen[x].1 as int);
                                if x < t {
                                    assert(fresh_ant_of(before.cell(chosen[x].0 as int, chosen[x].1 as int), p, n0));
                                } else {
                                    assert(chosen[x] == (r, c));
                                }
                            }
                        }
                        let fi = index_of(b0.width, r as int, c as int);
                        assert(b0.cells[fi] == Some(sc[k].0));
                        assert(pos_of(b0.width, fi) == (r, c));
                        assert(chosen.subrange(0, t + 1)[t as int] == (r, c));
                        assert forall|j: int|
                            0 <= j < b0.cells.len() && b0.cells[j] == Some(Entity::Hill(Hill { player: p, alive: true }))
                                && #[trigger] self.map@.cells[j] != b0.cells[j] implies chosen.subrange(0, t + 1).contains(pos_of(b0.width, j)) by {
                            if j != fi {
                                assert(self.map@.cells[j] == before.cells[j]);
                                let y = choose|y: int| 0 <= y < t && chosen.subrange(0, t as int)[y] == pos_of(b0.width, j);
                                assert(chosen.subrange(0, t + 1)[y] == pos_of(b0.width, j));
                            }
                        }
                        assert forall|j: int|
                            0 <= j < b0.cells.len() && (b0.cells[j] matches Some(Entity::Hill(h)) && h.player != p) implies #[trigger] self.map@.cells[j] == before_player.cells[j] by {
                            assert(j != fi);
                        }
                    }
                } else {
                    proof {
                        assert forall|x: int| 0 <= x < t + 1 implies b0.in_bounds(#[trigger] chosen[x].0 as int, chosen[x].1 as int) by {
                            if x == t as int {
                                assert(chosen[x] == (r, c));
                            }
                        }
                        assert forall|j: int|
                            0 <= j < b0.cells.len() && b0.cells[j] == Some(Entity::Hill(Hill { player: p, alive: true }))
                                && #[trigger] self.map@.cells[j] != b0.cells[j] implies chosen.subrange(0, t + 1).contains(pos_of(b0.width, j)) by {
                            let y = choose|y: int| 0 <= y < t && chosen.subrange(0, t as int)[y] == pos_of(b0.width, j);
                            assert(chosen.subrange(0, t + 1)[y] == pos_of(b0.width, j));
                        }
                    }
                }
                t = t + 1;
            }
            proof {
                if room {
                    assert(self.next_id <= n0 + (p + 1) * b0.cells.len()) by (nonlinear_arith)
                        requires
                            self.next_id == id0 + idx@.len(),
                            id0 <= n0 + p * b0.cells.len(),
                            idx@.len() <= b0.cells.len(),
                    ;
                    assert(ants_placed(b0, self.map@, chosen, p, n0)) by {
                        assert forall|k: int| 0 <= k < chosen.len() implies b0.in_bounds(#[trigger] chosen[k].0 as int, chosen[k].1 as int)
                            && b0.cell(chosen[k].0 as int, chosen[k].1 as int) == Some(Entity::Hill(Hill { player: p, alive: true }))
                            && fresh_ant_of(self.map@.cell(chosen[k].0 as int, chosen[k].1 as int), p, n0) by {
                            let kk = idx@[k] as int;
                            assert(chosen[k] == (sc[kk].1, sc[kk].2));
                            assert(b0.cell(sc[kk].1 as int, sc[kk].2 as int) == Some(sc[kk].0) && live_hill_of(p)(sc[kk].0));
                        }
                    }
                    assert forall|q: int| 0 <= q < p implies #[trigger] ants_placed(b0, self.map@, all[q], q as usize, n0) by {
                        assert(placed_so_far(b0, before_player, all, old(self).hive@, n0, p as int));
                        assert(ants_placed(b0, before_player, all[q], q as usize, n0));
                        assert forall|k: int| 0 <= k < all[q].len() implies fresh_ant_of(self.map@.cell(#[trigger] all[q][k].0 as int, all[q][k].1 as int), q as usize, n0) by {
                            lemma_cell_index(b0.width, b0.height, all[q][k].0 as int, all[q][k].1 as int);
                            let j = index_of(b0.width, all[q][k].0 as int, all[q][k].1 as int);
                            assert(b0.cells[j] == Some(Entity::Hill(Hill { player: q as usize, alive: true })));
                        }
                    }
                }
                let ghost old_all = all;
                all = all.push(chosen);
                if room {
                    assert(chosen.len() == idx@.len());
                    assert forall|q: int| 0 <= q < p + 1 implies #[trigger] ants_placed(b0, self.map@, all[q], q as usize, n0) && all[q].len()
                        == min(old(self).hive@[q] as int, b0.hill_count(q as usize)) by {
                        if q < p {
                            assert(all[q] == old_all[q]);
                            assert(placed_so_far(b0, before_player, old_all, old(self).hive@, n0, p as int));
                            assert(ants_placed(b0, before_player, old_all[q], q as usize, n0));
                            assert(ants_placed(b0, self.map@, all[q], q as usize, n0));
                            assert(all[q].len() == min(old(self).hive@[q] as int, b0.hill_count(q as usize)));
                        } else {
                            assert(all[q] == chosen);
                            assert(ants_placed(b0, self.map@, chosen, p, n0));
                            assert(avail == old(self).hive@[q]);
                            assert(chosen.len() == min(old(self).hive@[q] as int, b0.hill_count(q as usize)));
                        }
                    }
                }
            }
            assert(room ==> placed_so_far(b0, self.map@, all, old(self).hive@, n0, p + 1));
            p = p + 1;
        }
        proof {
            if room {
                assert forall|q: int| 0 <= q < players implies #[trigger] hive_spawned(b0, self.map@, old(self).hive@, q as usize, n0) by {
                    assert(placed_so_far(b0, self.map@, all, old(self).hive@, n0, players as int));
                    assert(ants_placed(b0, self.map@, all[q], q as usize, n0));
                }
            }
        }
    }
}

impl Game {
    /// Tops the food up to `food_per_turn`: where there is less, food is put
    /// on as many empty cells, picked at random, as are missing (or on all of
    /// them, where there are fewer).
    pub fn spawn_food_randomly(&mut self)
        requires
            old(self).wf(),
        ensures
            final(self).wf(),
            final(self).same_setup(old(self)),
            final(self).scores@ == old(self).scores@,
            final(self).hive@ == old(self).hive@,
            final(self).next_id == old(self).next_id,
            final(self).turn == old(self).turn,
            final(self).turns_with_too_much_food == old(self).turns_with_too_much_food,
            final(self).started == old(self).started,
            final(self).finished == old(self).finished,
            final(self).finished_reason == old(self).finished_reason,
            final(self).map@.cells.len() == old(self).map@.cells.len(),
            forall|j: int|
                0 <= j < old(self).map@.cells.len() ==> food_added(
                    old(self).map@.cells[j],
                    #[trigger] final(self).map@.cells[j],
                ),
            old(self).map@.food_count() >= old(self).food_per_turn ==> final(self).map@ == old(self).map@,
            old(self).map@.food_count() < old(self).food_per_turn ==> exists|chosen: Seq<(usize, usize)>|
                #[trigger] food_placed(old(self).map@, final(self).map@, chosen) && chosen.len() == min(
                    old(self).food_per_turn - old(self).map@.food_count(),
                    land_scan(old(self).map@.cells, old(self).map.width, old(self).map@.cells.len() as int).len() as int,
                ),
            replenished(old(self).map@, final(self).map@, old(self).food_per_turn),
    {
        let ghost b0 = self.map@;
        let current = self.map.food().len();
        if current >= self.food_per_turn {
            return;
        }
        let land = self.map.land();
        proof {
            lemma_land_entries(b0, b0.cells.len() as int);
        }
        let missing = self.food_per_turn - current;
        let amount = if missing < land.len() { missing } else { land.len() };
        let idx = sample_indices(&mut self.rng, land.len(), amount);
        let ghost chosen = idx@.map_values(|k: usize| land@[k as int]);
        proof {
            lemma_land_distinct(b0, b0.cells.len() as int);
            assert forall|x: int, y: int| 0 <= x < chosen.len() && 0 <= y < chosen.len() && x != y implies chosen[x] != chosen[y] by {
                assert(idx@[x] != idx@[y]);
            }
        }
        let mut t: usize = 0;
        while t < idx.len()
            invariant
                chosen == idx@.map_values(|k: usize| land@[k as int]),
                forall|x: int| 0 <= x < t ==> self.map@.cell(#[trigger] chosen[x].0 as int, chosen[x].1 as int) == Some(Entity::Food(Food)),
                forall|j: int|
                    0 <= j < b0.cells.len() && #[trigger] self.map@.cells[j] != b0.cells[j] ==> chosen.subrange(0, t as int).contains(
                        pos_of(b0.width, j),
                    ),
                self.map.width == b0.width,
                self.wf(),
                self.same_setup(old(self)),
                b0 == old(self).map@,
                b0.wf(),
                self.map@.cells.len() == b0.cells.len(),
                self.scores@ == old(self).scores@,
                self.hive@ == old(self).hive@,
                self.next_id == old(self).next_id,
                self.turn == old(self).turn,
                self.turns_with_too_much_food == old(self).turns_with_too_much_food,
                self.started == old(self).started,
                self.finished == old(self).finished,
                self.finished_reason == old(self).finished_reason,
                land@ == land_scan(b0.cells, b0.width, b0.cells.len() as int),
                forall|k: int|
                    0 <= k < land@.len() ==> b0.in_bounds(#[trigger] land@[k].0 as int, land@[k].1 as int)
                        && b0.cell(land@[k].0 as int, land@[k].1 as int).is_none(),
                forall|k: int| 0 <= k < idx@.len() ==> #[trigger] idx@[k] < land@.len(),
                t <= idx@.len(),
                forall|j: int|
                    0 <= j < b0.cells.len() ==> food_added(b0.cells[j], #[trigger] self.map@.cells[j]),
            decreases idx@.len() - t,
        {
            let f = land[idx[t]];
            proof {
                assert(b0.in_bounds(f.0 as int, f.1 as int));
                lemma_cell_index(b0.width, b0.height, f.0 as int, f.1 as int);
            }
            let ghost before = self.map@;
            self.put_food(f);
            proof {
                assert forall|x: int| 0 <= x < t + 1 implies self.map@.cell(#[trigger] chosen[x].0 as int, chosen[x].1 as int) == Some(Entity::Food(Food)) by {
                    lemma_cell_index(b0.width, b0.height, chosen[x].0 as int, chosen[x].1 as int);
                    if x < t {
                        assert(before.cell(chosen[x].0 as int, chosen[x].1 as int) == Some(Entity::Food(Food)));
                    } else {
                        assert(chosen[x] == f);
                    }
                }
                let fi = index_of(b0.width, f.0 as int, f.1 as int);
                assert(pos_of(b0.width, fi) == f);
                assert(chosen.subrange(0, t + 1)[t as int] == f);
                assert forall|j: int|
                    0 <= j < b0.cells.len() && #[trigger] self.map@.cells[j] != b0.cells[j] implies chosen.subrange(0, t + 1).contains(
                        pos_of(b0.width, j),
                    ) by {
                    if j != fi {
                        assert(self.map@.cells[j] == before.cells[j]);
                        let y = choose|y: int| 0 <= y < t && chosen.subrange(0, t as int)[y] == pos_of(b0.width, j);
                        assert(chosen.subrange(0, t + 1)[y] == pos_of(b0.width, j));
                    }
                }
            }
            t = t + 1;
        }
        proof {
            assert(chosen.subrange(0, idx@.len() as int) =~= chosen);
            assert(food_placed(b0, self.map@, chosen));
        }
    }

    /// Puts food on up to three empty cells, picked at random, next to each
    /// live hill.
    pub fn spawn_food_around_hills(&mut self)
        requires
            old(self).wf(),
        ensures
            final(self).wf(),
            final(self).same_setup(old(self)),
            final(self).scores@ == old(self).scores@,
            final(self).hive@ == old(self).hive@,
            final(self).next_id == old(self).next_id,
            final(self).turn == old(self).turn,
            final(self).turns_with_too_much_food == old(self).turns_with_too_much_food,
            final(self).started == old(self).started,
            final(self).finished == old(self).finished,
            final(self).finished_reason == old(self).finished_reason,
            final(self).map@.cells.len() == old(self).map@.cells.len(),
            forall|j: int|
                0 <= j < old(self).map@.cells.len() ==> food_added(
                    old(self).map@.cells[j],
                    #[trigger] final(self).map@.cells[j],
                ),
            forall|i: int|
                0 <= i < old(self).map@.cells.len() && old(self).map@.live_hill_at(i) ==> #[trigger] hill_fed(
                    old(self).map@,
                    final(self).map@,
                    i,
                ),
            forall|j: int|
                0 <= j < old(self).map@.cells.len() && #[trigger] final(self).map@.cells[j] != old(self).map@.cells[j]
                    ==> near_fed_hill(old(self).map@, pos_of(old(self).map.width, j)),
            fed_around(old(self).map@, final(self).map@),
    {
        let ghost b0 = self.map@;
        let n = self.map.grid.len();
        let w = self.map.width;
        let mut spots: Vec<(usize, usize)> = Vec::new();
        let ghost mut chosen_of: Seq<Seq<(usize, usize)>> = seq![];
        let mut i: usize = 0;
        while i < n
            invariant
                self.wf(),
                self.same_setup(old(self)),
                b0 == self.map@,
                b0 == old(self).map@,
                b0.wf(),
                n == b0.cells.len(),
                w == b0.width,
                i <= n,
                chosen_of.len() == i,
                fed_so_far(b0, chosen_of, spots@, i as int),
                forall|t: int|
                    0 <= t < spots@.len() ==> b0.in_bounds(#[trigger] spots@[t].0 as int, spots@[t].1 as int)
                        && b0.cell(spots@[t].0 as int, spots@[t].1 as int).is_none()
                        && near_fed_hill(b0, spots@[t]),
                self.scores@ == old(self).scores@,
                self.hive@ == old(self).hive@,
                self.next_id == old(self).next_id,
                self.turn == old(self).turn,
                self.turns_with_too_much_food == old(self).turns_with_too_much_food,
                self.started == old(self).started,
                self.finished == old(self).finished,
                self.finished_reason == old(self).finished_reason,
            decreases n - i,
        {
            let ghost mut here: Seq<(usize, usize)> = seq![];
            let ghost spots0 = spots@;
            if let Some(Entity::Hill(h)) = self.map.grid[i] {
                if h.alive {
                    proof {
                        lemma_pos_in_bounds(w, self.map.height, i as int);
                    }
                    let (r, c) = (i / w, i % w);
                    let lands = self.map.land_around(r, c);
                    proof {
                        b0.lemma_land_around_entries(r as int, c as int, 9);
                        b0.lemma_land_around_distinct(r as int, c as int, 9);
                        assert(lands@ == b0.around(i as int));
                    }
                    let amount = if lands.len() < 3 { lands.len() } else { 3 };
                    let idx = sample_indices(&mut self.rng, lands.len(), amount);
                    proof {
                        here = idx@.map_values(|k: usize| lands@[k as int]);
                        assert forall|x: int, y: int| 0 <= x < here.len() && 0 <= y < here.len() && x != y implies here[x] != here[y] by {
                            assert(idx@[x] != idx@[y]);
                        }
                        assert forall|k: int| 0 <= k < here.len() implies b0.around(i as int).contains(#[trigger] here[k]) by {
                            assert(lands@[idx@[k] as int] == here[k]);
                        }
                    }
                    let mut t: usize = 0;
                    while t < idx.len()
                        invariant
                            b0.wf(),
                            b0.live_hill_at(i as int),
                            i < n,
                            n == b0.cells.len(),
                            t <= idx@.len(),
                            here == idx@.map_values(|k: usize| lands@[k as int]),
                            lands@ == b0.around(i as int),
                            forall|x: int| 0 <= x < idx@.len() ==> #[trigger] idx@[x] < lands@.len(),
                            forall|x: int|
                                0 <= x < lands@.len() ==> b0.in_bounds(#[trigger] lands@[x].0 as int, lands@[x].1 as int)
                                    && b0.cell(lands@[x].0 as int, lands@[x].1 as int).is_none(),
                            spots@.len() == spots0.len() + t,
                            spots@.subrange(0, spots0.len() as int) == spots0,
                            forall|x: int| 0 <= x < t ==> spots@[spots0.len() + x] == #[trigger] here[x],
                            forall|x: int|
                                0 <= x < spots@.len() ==> b0.in_bounds(#[trigger] spots@[x].0 as int, spots@[x].1 as int)
                                    && b0.cell(spots@[x].0 as int, spots@[x].1 as int).is_none()
                                    && near_fed_hill(b0, spots@[x]),
                        decreases idx@.len() - t,
                    {
                        let spot = lands[idx[t]];
                        proof {
                            assert(b0.around(i as int).contains(spot)) by {
                                assert(lands@[idx@[t as int] as int] == spot);
                            }
                            assert(near_fed_hill(b0, spot));
                        }
                        spots.push(spot);
                        proof {
                            assert(spots@.subrange(0, spots0.len() as int) =~= spots0);
                        }
                        t = t + 1;
                    }
                    proof {
                        assert forall|k: int| 0 <= k < here.len() implies spots@.contains(#[trigger] here[k]) by {
                            assert(spots@[spots0.len() + k] == here[k]);
                        }
                        assert forall|k: int| 0 <= k < here.len() implies b0.around(i as int).contains(#[trigger] here[k]) by {
                            assert(lands@[idx@[k] as int] == here[k]);
                        }
                        assert(here.len() == amount);
                        assert(fed_cells(b0, here, i as int));
                    }
                }
            }
            proof {
                assert(fed_so_far(b0, chosen_of, spots0, i as int));
                assert forall|x: int|
                    0 <= x < i && b0.live_hill_at(x) implies #[trigger] fed_cells(b0, chosen_of[x], x)
                        && forall|k: int| 0 <= k < chosen_of[x].len() ==> spots@.contains(#[trigger] chosen_of[x][k]) by {
                    assert(fed_cells(b0, chosen_of[x], x));
                    assert forall|k: int| 0 <= k < chosen_of[x].len() implies spots@.contains(#[trigger] chosen_of[x][k]) by {
                        assert(spots0.contains(chosen_of[x][k]));
                        let t = choose|t: int| 0 <= t < spots0.len() && spots0[t] == chosen_of[x][k];
                        assert(spots@.subrange(0, spots0.len() as int)[t] == spots@[t]);
                    }
                }
                assert(fed_so_far(b0, chosen_of, spots0, i as int));
                let old_chosen = chosen_of;
                chosen_of = chosen_of.push(here);
                assert forall|x: int|
                    0 <= x < i + 1 && b0.live_hill_at(x) implies #[trigger] fed_cells(b0, chosen_of[x], x)
                        && forall|k: int| 0 <= k < chosen_of[x].len() ==> spots@.contains(#[trigger] chosen_of[x][k]) by {
                    if x < i {
                        assert(chosen_of[x] == old_chosen[x]);
                    } else {
                        assert(chosen_of[x] == here);
                        assert(self.map.grid@[x] == b0.cells[x]);
                    }
                }
                assert(fed_so_far(b0, chosen_of, spots@, i + 1));
            }
            i = i + 1;
        }
        let mut k: usize = 0;
        while k < spots.len()
            invariant
                self.wf(),
                self.same_setup(old(self)),
                b0 == old(self).map@,
                b0.wf(),
                self.map@.cells.len() == b0.cells.len(),
                self.map.width == b0.width,
                self.scores@ == old(self).scores@,
                self.hive@ == old(self).hive@,
                self.next_id == old(self).next_id,
                self.turn == old(self).turn,
                self.turns_with_too_much_food == old(self).turns_with_too_much_food,
                self.started == old(self).started,
                self.finished == old(self).finished,
                self.finished_reason == old(self).finished_reason,
                k <= spots@.len(),
                forall|t: int|
                    0 <= t < spots@.len() ==> b0.in_bounds(#[trigger] spots@[t].0 as int, spots@[t].1 as int)
                        && b0.cell(spots@[t].0 as int, spots@[t].1 as int).is_none()
                        && near_fed_hill(b0, spots@[t]),
                forall|t: int| 0 <= t < k ==> self.map@.cell(#[trigger] spots@[t].0 as int, spots@[t].1 as int) == Some(Entity::Food(Food)),
                forall|j: int|
                    0 <= j < b0.cells.len() ==> food_added(b0.cells[j], #[trigger] self.map@.cells[j]),
                forall|j: int|
                    0 <= j < b0.cells.len() && #[trigger] self.map@.cells[j] != b0.cells[j]
                        ==> near_fed_hill(b0, pos_of(b0.width, j)),
            decreases spots@.len() - k,
        {
            let f = spots[k];
            let ghost before = self.map@;
            proof {
                lemma_cell_index(b0.width, b0.height, f.0 as int, f.1 as int);
            }
            self.put_food(f);
            proof {
                assert forall|t: int| 0 <= t < k + 1 implies self.map@.cell(#[trigger] spots@[t].0 as int, spots@[t].1 as int) == Some(Entity::Food(Food)) by {
                    lemma_cell_index(b0.width, b0.height, spots@[t].0 as int, spots@[t].1 as int);
                    if t < k {
                        assert(before.cell(spots@[t].0 as int, spots@[t].1 as int) == Some(Entity::Food(Food)));
                    }
                }
                assert(pos_of(b0.width, index_of(b0.width, f.0 as int, f.1 as int)) == f);
            }
            k = k + 1;
        }
        proof {
            assert forall|x: int| 0 <= x < n && b0.live_hill_at(x) implies #[trigger] hill_fed(b0, self.map@, x) by {
                assert(fed_so_far(b0, chosen_of, spots@, n as int));
                assert(fed_cells(b0, chosen_of[x], x));
                assert forall|t: int| 0 <= t < chosen_of[x].len() implies self.map@.cell(#[trigger] chosen_of[x][t].0 as int, chosen_of[x][t].1 as int) == Some(Entity::Food(Food)) by {
                    assert(spots@.contains(chosen_of[x][t]));
                    let u = choose|u: int| 0 <= u < spots@.len() && spots@[u] == chosen_of[x][t];
                    assert(self.map@.cell(spots@[u].0 as int, spots@[u].1 as int) == Some(Entity::Food(Food)));
                }
                assert(food_lies_on(self.map@, chosen_of[x]));
            }
        }
    }

    /// Puts a new live ant of its owner on every live hill (as long as
    /// identifiers remain).
    pub fn spawn_ants_all_hills(&mut self)
        requires
            old(self).wf(),
        ensures
            final(self).wf(),
            final(self).same_setup(old(self)),
            final(self).map@.cells.len() == old(self).map@.cells.len(),
            forall|j: int|
                0 <= j < old(self).map@.cells.len() ==> ant_spawned(
                    old(self).map@.cells[j],
                    #[trigger] final(self).map@.cells[j],
                    old(self).next_id,
                ),
            old(self).next_id + old(self).map@.cells.len() < u64::MAX ==> forall|j: int|
                0 <= j < old(self).map@.cells.len() && (old(self).map@.cells[j] matches Some(Entity::Hill(h)) && h.alive)
                    ==> new_ant_on_hill(old(self).map@.cells[j], #[trigger] final(self).map@.cells[j], old(self).next_id),
            ants_on_hills(old(self).map@, final(self).map@, old(self).next_id),
            final(self).next_id >= old(self).next_id,
            final(self).scores@ == old(self).scores@,
            final(self).hive@ == old(self).hive@,
            final(self).turn == old(self).turn,
            final(self).turns_with_too_much_food == old(self).turns_with_too_much_food,
            final(self).started == old(self).started,
            final(self).finished == old(self).finished,
            final(self).finished_reason == old(self).finished_reason,
    {
        let ghost b0 = self.map@;
        let ghost n0 = self.next_id;
        let ghost room = n0 + b0.cells.len() < u64::MAX;
        let n = self.map.grid.len();
        let w = self.map.width;
        let mut i: usize = 0;
        while i < n
            invariant
                self.wf(),
                self.same_setup(old(self)),
                b0 == old(self).map@,
                b0.wf(),
                n0 == old(self).next_id,
                room == (n0 + b0.cells.len() < u64::MAX),
                n == b0.cells.len(),
                w == b0.width,
                self.map.width == w,
                i <= n,
                self.map@.cells.len() == b0.cells.len(),
                forall|j: int|
                    0 <= j < b0.cells.len() ==> ant_spawned(b0.cells[j], #[trigger] self.map@.cells[j], n0),
                forall|j: int| i <= j < n ==> #[trigger] self.map@.cells[j] == b0.cells[j],
                room ==> forall|j: int|
                    0 <= j < i && (b0.cells[j] matches Some(Entity::Hill(h)) && h.alive)
                        ==> new_ant_on_hill(b0.cells[j], #[trigger] self.map@.cells[j], n0),
                self.next_id >= n0,
                room ==> self.next_id <= n0 + i,
                self.scores@ == old(self).scores@,
                self.hive@ == old(self).hive@,
                self.turn == old(self).turn,
                self.turns_with_too_much_food == old(self).turns_with_too_much_food,
                self.started == old(self).started,
                self.finished == old(self).finished,
                self.finished_reason == old(self).finished_reason,
            decreases n - i,
        {
            if let Some(Entity::Hill(h)) = self.map.grid[i] {
                if h.alive && self.next_id < u64::MAX {
                    proof {
                        lemma_pos_in_bounds(w, self.map.height, i as int);
                        assert(crate::grid::entity_players_ok(b0.cells[i as int], b0.players));
                    }
                    let ghost before = self.map@;
                    self.spawn_ant(h.player, (i / w, i % w));
                    proof {
                        assert forall|j: int| i < j < n implies #[trigger] self.map@.cells[j] == b0.cells[j] by {
                            assert(self.map@.cells[j] == before.cells[j]);
                        }
                    }
                }
            }
            i = i + 1;
        }
    }
}

/// An entity in an ant's field of vision.
#[derive(Clone, Debug)]
pub struct StateEntity {
    /// "Ant", "Hill", "Food" or "Water".
    pub name: String,
    pub row: usize,
    pub col: usize,
    /// The owner, for an ant or a hill.
    pub player: Option<usize>,
    /// Whether an ant lives, or a hill stands unrazed.
    pub alive: Option<bool>,
}

/// A live ant, as its player sees it.
#[derive(Clone, Debug)]
pub struct PlayerAnt {
    pub id: String,
    pub row: usize,
    pub col: usize,
    pub player: usize,
    pub alive: bool,
    pub field_of_vision: Vec<StateEntity>,
}

/// What the players see after a turn.
#[derive(Clone, Debug)]
pub struct GameState {
    pub turn: usize,
    pub scores: Vec<usize>,
    /// The live ants of each player, in row-major order.
    pub ants: Vec<Vec<PlayerAnt>>,
    pub finished: bool,
    pub finished_reason: Option<FinishedReason>,
}

/// The entity is a live ant of player `p`.
pub open spec fn live_ant_of(p: usize) -> spec_fn(Entity) -> bool {
    |e: Entity|
        match e {
            Entity::Ant(a) => a.alive && a.player == p,
            _ => false,
        }
}

/// The state entity shows the entry of a field of vision.
pub open spec fn shows(se: StateEntity, t: (Entity, usize, usize)) -> bool {
    &&& se.name@ == kind_name(t.0)
    &&& se.row == t.1
    &&& se.col == t.2
    &&& se.player == player_of(t.0)
    &&& se.alive == alive_of(t.0)
}

/// The list shows the field of vision entry by entry.
pub open spec fn shows_all(v: Seq<StateEntity>, s: Seq<(Entity, usize, usize)>) -> bool {
    v.len() == s.len() && forall|k: int| 0 <= k < s.len() ==> shows(#[trigger] v[k], s[k])
}

impl Board {
    /// The live ants of player `p`, in row-major order, with their cells.
    pub open spec fn live_ants_of(&self, p: usize) -> Seq<(Entity, usize, usize)> {
        scan(self.cells, self.width, self.cells.len() as int, live_ant_of(p))
    }
}

/// The player's view of the live ant of entry `t`, seeing within `r2`.
pub open spec fn describes(pa: PlayerAnt, b: Board, r2: usize, t: (Entity, usize, usize)) -> bool {
    let a = ant_in(Some(t.0)).unwrap();
    &&& pa.id@ == uuid_text(a.id)
    &&& pa.row == t.1
    &&& pa.col == t.2
    &&& pa.player == a.player
    &&& pa.alive == a.alive
    &&& shows_all(pa.field_of_vision@, b.fov((t.1, t.2), r2))
}

/// The observation shows, for each player of the board, each of its live
/// ants with what it sees within `r2`.
pub open spec fn observes(r: GameState, b: Board, r2: usize) -> bool {
    &&& r.ants@.len() == b.players
    &&& forall|p: int|
        0 <= p < b.players ==> (#[trigger] r.ants@[p])@.len() == b.live_ants_of(p as usize).len()
            && forall|k: int|
            0 <= k < r.ants@[p]@.len() ==> describes(
                #[trigger] r.ants@[p]@[k],
                b,
                r2,
                b.live_ants_of(p as usize)[k],
            )
}

impl Game {
    /// The live ants of `player`, in row-major order, with their cells.
    fn live_ants_of(&self, player: usize) -> (r: Vec<(Entity, usize, usize)>)
        requires
            self.map.wf(),
        ensures
            r@ == self.map@.live_ants_of(player),
    {
        let ghost b = self.map@;
        let n = self.map.grid.len();
        let w = self.map.width;
        let mut out: Vec<(Entity, usize, usize)> = Vec::new();
        let mut i: usize = 0;
        while i < n
            invariant
                self.map.wf(),
                b == self.map@,
                n == b.cells.len(),
                w == b.width,
                i <= n,
                out@ == scan(b.cells, w, i as int, live_ant_of(player)),
            decreases n - i,
        {
            if let Some(Entity::Ant(a)) = self.map.grid[i] {
                if a.alive && a.player == player {
                    proof {
                        lemma_pos_in_bounds(w, self.map.height, i as int);
                    }
                    out.push((Entity::Ant(a), i / w, i % w));
                }
            }
            i = i + 1;
        }
        out
    }

    /// The number of live ants of each player.
    pub fn live_ants_per_player_count(&self) -> (r: Vec<usize>)
        requires
            self.map.wf(),
        ensures
            r@.len() == self.map.players,
            forall|p: int| 0 <= p < r@.len() ==> #[trigger] r@[p] == self.map@.live_ants_of(p as usize).len(),
    {
        let mut out: Vec<usize> = Vec::new();
        let mut p: usize = 0;
        while p < self.map.players
            invariant
                self.map.wf(),
                p <= self.map.players,
                out@.len() == p,
                forall|q: int| 0 <= q < p ==> #[trigger] out@[q] == self.map@.live_ants_of(q as usize).len(),
            decreases self.map.players - p,
        {
            out.push(self.live_ants_of(p).len());
            p = p + 1;
        }
        out
    }

    /// How an observer sees an entity at a cell.
    pub fn to_state_entity(entity: &Entity, row: usize, col: usize) -> (r: StateEntity)
        ensures
            shows(r, (*entity, row, col)),
    {
        StateEntity {
            name: entity.name().to_owned(),
            row,
            col,
            player: entity.player(),
            alive: entity.alive(),
        }
    }

    /// The scores of all players.
    fn scores_copy(&self) -> (r: Vec<usize>)
        ensures
            r@ == self.scores@,
    {
        let mut out: Vec<usize> = Vec::new();
        let mut k: usize = 0;
        while k < self.scores.len()
            invariant
                k <= self.scores@.len(),
                out@ == self.scores@.subrange(0, k as int),
            decreases self.scores@.len() - k,
        {
            out.push(self.scores[k]);
            proof {
                assert(out@ =~= self.scores@.subrange(0, k + 1));
            }
            k = k + 1;
        }
        proof {
            assert(out@ =~= self.scores@);
        }
        out
    }

    /// The observation: for each player, each of its live ants with what it
    /// sees within `fov_radius2`; the turn, the scores and how the game stands.
    pub fn game_state(&self) -> (r: GameState)
        requires
            self.wf(),
        ensures
            r.turn == self.turn,
            r.scores@ == self.scores@,
            r.finished == self.finished,
            r.finished_reason == self.finished_reason,
            observes(r, self.map@, self.fov_radius2),
    {
        let players = self.map.players;
        let mut ants: Vec<Vec<PlayerAnt>> = Vec::new();
        let mut p: usize = 0;
        while p < players
            invariant
                self.wf(),
                players == self.map.players,
                p <= players,
                ants@.len() == p,
                forall|q: int|
                    0 <= q < p ==> (#[trigger] ants@[q])@.len() == self.map@.live_ants_of(q as usize).len()
                        && forall|k: int|
                        0 <= k < ants@[q]@.len() ==> describes(
                            #[trigger] ants@[q]@[k],
                            self.map@,
                            self.fov_radius2,
                            self.map@.live_ants_of(q as usize)[k],
                        ),
            decreases players - p,
        {
            let mine = self.live_ants_of(p);
            proof {
                lemma_scan_entries(self.map@, self.map@.cells.len() as int, live_ant_of(p));
            }
            let mut list: Vec<PlayerAnt> = Vec::new();
            let mut k: usize = 0;
            while k < mine.len()
                invariant
                    self.wf(),
                    mine@ == self.map@.live_ants_of(p),
                    forall|t: int| 0 <= t < mine@.len() ==> self.map@.entry_ok(#[trigger] mine@[t]),
                    forall|t: int| 0 <= t < mine@.len() ==> live_ant_of(p)(#[trigger] mine@[t].0),
                    k <= mine@.len(),
                    list@.len() == k,
                    forall|t: int|
                        0 <= t < k ==> describes(#[trigger] list@[t], self.map@, self.fov_radius2, mine@[t]),
                decreases mine@.len() - k,
            {
                let (e, r, c) = mine[k];
                proof {
                    assert(self.map@.entry_ok(mine@[k as int]));
                    assert(live_ant_of(p)(mine@[k as int].0));
                }
                if let Entity::Ant(a) = e {
                    let fov = self.map.field_of_vision((r, c), self.fov_radius2);
                    let mut seen: Vec<StateEntity> = Vec::new();
                    let mut t: usize = 0;
                    while t < fov.len()
                        invariant
                            t <= fov@.len(),
                            seen@.len() == t,
                            forall|x: int| 0 <= x < t ==> shows(#[trigger] seen@[x], fov@[x]),
                        decreases fov@.len() - t,
                    {
                        let (fe, fr, fc) = fov[t];
                        seen.push(Self::to_state_entity(&fe, fr, fc));
                        t = t + 1;
                    }
                    list.push(
                        PlayerAnt {
                            id: id_text(a.id),
                            row: r,
                            col: c,
                            player: a.player,
                            alive: a.alive,
                            field_of_vision: seen,
                        },
                    );
                }
                k = k + 1;
            }
            ants.push(list);
            p = p + 1;
        }
        GameState {
            turn: self.turn,
            scores: self.scores_copy(),
            ants,
            finished: self.finished,
            finished_reason: self.finished_reason,
        }
    }
}

/// One zero per player.
fn zeros(n: usize) -> (r: Vec<usize>)
    ensures
        r@.len() == n,
        forall|k: int| 0 <= k < n ==> #[trigger] r@[k] == 0,
{
    let mut out: Vec<usize> = Vec::new();
    while out.len() < n
        invariant
            out@.len() <= n,
            forall|k: int| 0 <= k < out@.len() ==> #[trigger] out@[k] == 0,
        decreases n - out@.len(),
    {
        out.push(0);
    }
    out
}

impl Game {
    /// A game on the map that `map_contents` describes. `fov_radius2`,
    /// `attack_radius2` and `food_radius2` are squared radii; `food_rate` is
    /// the food kept on the map per player; `seed` drives every random
    /// choice. With a `replay_filename` the game is recorded for a JSON
    /// replay. Fails where the map's text cannot be read.
    pub fn new(
        map_contents: &str,
        fov_radius2: usize,
        attack_radius2: usize,
        food_radius2: usize,
        food_rate: usize,
        max_turns: usize,
        seed: u64,
        replay_filename: Option<String>,
    ) -> (r: Result<Game, MapError>)
        ensures
            match r {
                Ok(g) => map_text(map_contents.spec_bytes()) == Ok::<Board, MapError>(g.initial@),
                Err(e) => map_text(map_contents.spec_bytes()) == Err::<Board, MapError>(e),
            },
            r is Ok <==> map_ok(map_contents.spec_bytes()),
            r matches Ok(g) ==> g.initial@ == map_board(map_contents.spec_bytes()),
            r matches Ok(g) ==> {
                &&& g.wf()
                &&& !g.started
                &&& !g.finished
                &&& g.finished_reason.is_none()
                &&& g.turn == 0
                &&& g.map@ == g.initial@
                &&& g.map_contents@ == map_contents@
                &&& g.fov_radius2 == fov_radius2
                &&& g.attack_radius2 == attack_radius2
                &&& g.food_radius2 == food_radius2
                &&& g.food_per_turn == if food_rate * g.map.players <= usize::MAX {
                    food_rate * g.map.players
                } else {
                    usize::MAX as int
                }
                &&& g.max_turns == max_turns
                &&& g.seed == seed
                &&& g.cutoff_threshold == 150
                &&& g.points_for_razing_hill == 2
                &&& g.points_for_losing_hill == 1
                &&& g.turns_with_too_much_food == 0
                &&& forall|p: int| 0 <= p < g.map.players ==> #[trigger] g.scores@[p] == 0 && g.hive@[p] == 0
            },
    {
        let map = match Grid::parse(map_contents) {
            Ok(m) => m,
            Err(e) => return Err(e),
        };
        let initial = map.copy();
        let players = map.players;
        let width = map.width;
        let height = map.height;
        let next_id = map.grid.len() as u64;
        assert(food_rate * players <= 0xffff_ffff_ffff_fffe_0000_0000_0000_0001u128) by (nonlinear_arith)
            requires
                food_rate <= usize::MAX,
                players <= usize::MAX,
        ;
        let product = food_rate as u128 * players as u128;
        let food_per_turn = if product > usize::MAX as u128 {
            usize::MAX
        } else {
            product as usize
        };
        Ok(
            Game {
                map,
                initial,
                map_contents: map_contents.to_owned(),
                fov_radius2,
                attack_radius2,
                food_radius2,
                turn: 0,
                scores: zeros(players),
                hive: zeros(players),
                food_per_turn,
                started: false,
                finished: false,
                finished_reason: None,
                cutoff_threshold: 150,
                turns_with_too_much_food: 0,
                points_for_razing_hill: 2,
                points_for_losing_hill: 1,
                max_turns,
                replay_logger: create_replay_logger(
                    replay_filename,
                    players,
                    width,
                    height,
                    map_contents.to_owned(),
                ),
                rng: seeded_rng(seed),
                seed,
                next_id,
            },
        )
    }

    /// Starts the game over from the map: turn 0, scores of one point per
    /// live hill, empty hives, food around the hills, an ant on every live
    /// hill, and the random choices drawn again from the seed. Returns the
    /// first observation.
    pub fn start(&mut self) -> (r: GameState)
        requires
            old(self).wf(),
        ensures
            final(self).wf(),
            final(self).same_setup(old(self)),
            final(self).started,
            !final(self).finished,
            final(self).finished_reason.is_none(),
            final(self).turn == 0,
            final(self).turns_with_too_much_food == 0,
            final(self).scores@ == old(self).initial@.hill_counts(),
            forall|p: int| 0 <= p < final(self).map.players ==> #[trigger] final(self).hive@[p] == 0,
            r.turn == 0,
            r.scores@ == final(self).scores@,
            !r.finished,
            r.finished_reason.is_none(),
            observes(r, final(self).map@, final(self).fov_radius2),
            final(self).next_id >= old(self).initial@.cells.len(),
            exists|fed: Board|
                #[trigger] fed_around(old(self).initial@, fed) && ants_on_hills(
                    fed,
                    final(self).map@,
                    old(self).initial@.cells.len() as u64,
                ),
    {
        self.turn = 0;
        self.started = true;
        self.finished = false;
        self.finished_reason = None;
        self.turns_with_too_much_food = 0;
        self.hive = zeros(self.map.players);
        self.map = self.initial.copy();
        self.next_id = self.map.grid.len() as u64;
        self.rng = seeded_rng(self.seed);
        self.replay_logger.clear();
        self.compute_initial_scores();
        self.spawn_food_around_hills();
        let ghost fed = self.map@;
        self.spawn_ants_all_hills();
        let ghost after = self.map@;
        proof {
            assert(fed_around(old(self).initial@, fed));
        }
        let counts = self.live_ants_per_player_count();
        let hive = zeros(self.map.players);
        let scores = self.scores_copy();
        self.replay_logger.log_turn(self.turn, counts, hive, scores);
        proof {
            assert(self.map@ == after);
            assert(fed_around(old(self).initial@, fed) && ants_on_hills(fed, self.map@, old(self).initial@.cells.len() as u64));
        }
        self.game_state()
    }

    /// Plays one turn: the actions are carried out, then combat, razing,
    /// spawning from the hives, harvest, new food and the check for the end.
    /// The observation is taken before the dead are taken off the grid, so
    /// that the players see who died.
    pub fn update(&mut self, actions: Vec<Action>) -> (r: GameState)
        requires
            old(self).wf(),
            old(self).started,
            !old(self).finished,
            old(self).turn < usize::MAX,
        ensures
            final(self).wf(),
            final(self).same_setup(old(self)),
            final(self).started,
            final(self).turn == old(self).turn + 1,
            final(self).next_id >= old(self).next_id,
            ({
                let moved = apply_actions(old(self).map@, actions@);
                let fought = Board { cells: moved.after_attack(old(self).attack_radius2), ..moved };
                final(self).scores@ == raze_scores(
                    old(self).scores@,
                    fought.cells,
                    fought.cells.len() as int,
                    old(self).points_for_razing_hill,
                    old(self).points_for_losing_hill,
                )
            }),
            r.turn == final(self).turn,
            r.scores@ == final(self).scores@,
            r.finished == final(self).finished,
            r.finished_reason == final(self).finished_reason,
            r.ants@.len() == final(self).map.players,
            final(self).finished ==> final(self).finished_reason.is_some(),
            played(*old(self), actions@, *final(self), r),
    {
        let ghost acts = actions@;
        self.turn = self.turn + 1;
        self.move_ants(actions);
        let ghost moved = self.map@;
        self.attack();
        let ghost fought = self.map@;
        proof {
            assert(self.map@ == Board { cells: moved.after_attack(self.attack_radius2), ..moved });
        }
        self.raze_hills();
        let ghost razed = self.map@;
        let ghost razed_scores = self.scores@;
        proof {
            assert(razed == Board { cells: fought.after_raze(), ..fought });
        }
        self.spawn_ants_from_hive();
        let ghost spawned = self.map@;
        let ghost hive4 = self.hive@;
        self.harvest_food();
        proof {
            assert((self.map@, self.hive@) == harvested(spawned, hive4, self.food_radius2));
        }
        self.spawn_food_randomly();
        let ghost fed = self.map@;
        self.check_for_endgame();
        let state = self.game_state();
        self.remove_dead_ants();
        let ghost after = *self;
        let counts = self.live_ants_per_player_count();
        let hive = self.hive_copy();
        let scores = self.scores_copy();
        self.replay_logger.log_turn(self.turn, counts, hive, scores);
        if let Some(reason) = self.finished_reason {
            self.replay_logger.log_end_game(reason.name().to_owned());
        }
        proof {
            assert(self.map@ == after.map@ && self.hive@ == after.hive@ && self.scores@ == after.scores@);
            assert(turn_steps(*old(self), razed, razed_scores, spawned, hive4, fed, *self, state));
            assert(played(*old(self), acts, *self, state));
        }
        state
    }

    /// The hives of all players.
    fn hive_copy(&self) -> (r: Vec<usize>)
        ensures
            r@ == self.hive@,
    {
        let mut out: Vec<usize> = Vec::new();
        let mut k: usize = 0;
        while k < self.hive.len()
            invariant
                k <= self.hive@.len(),
                out@ == self.hive@.subrange(0, k as int),
            decreases self.hive@.len() - k,
        {
            out.push(self.hive[k]);
            proof {
                assert(out@ =~= self.hive@.subrange(0, k + 1));
            }
            k = k + 1;
        }
        proof {
            assert(out@ =~= self.hive@);
        }
        out
    }
}

impl FinishedReason {
    /// The reason's name.
    pub fn name(&self) -> (r: &'static str)
        ensures
            r@ == match *self {
                FinishedReason::LoneSurvivor => "LoneSurvivor"@,
                FinishedReason::RankStabilized => "RankStabilized"@,
                FinishedReason::TooMuchFood => "TooMuchFood"@,
                FinishedReason::TurnLimitReached => "TurnLimitReached"@,
            },
    {
        match self {
            FinishedReason::LoneSurvivor => "LoneSurvivor",
            FinishedReason::RankStabilized => "RankStabilized",
            FinishedReason::TooMuchFood => "TooMuchFood",
            FinishedReason::TurnLimitReached => "TurnLimitReached",
        }
    }
}

} // verus!
