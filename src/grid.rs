use crate::entities::{from_char, from_char_spec, Ant, Entity, Hill};
use vstd::prelude::*;
use vstd::string::StringSliceAdditionalSpecFns;

verus! {

/// The grid: `height` rows of `width` cells, stored row after row, each cell
/// holding at most one entity.
pub struct Grid {
    pub width: usize,
    pub height: usize,
    pub players: usize,
    pub grid: Vec<Option<Entity>>,
}

/// The flat index of a cell.
pub open spec fn index_of(w: usize, r: int, c: int) -> int {
    r * w + c
}

/// The cell that a flat index stands for.
pub open spec fn pos_of(w: usize, i: int) -> (usize, usize) {
    ((i / w as int) as usize, (i % w as int) as usize)
}

/// Every player that the entity names is one of the map's players.
pub open spec fn entity_players_ok(e: Option<Entity>, players: usize) -> bool {
    match e {
        Some(Entity::Ant(a)) => a.player < players && match a.on_ant_hill {
            Some(h) => h.player < players,
            None => true,
        },
        Some(Entity::Hill(h)) => h.player < players,
        _ => true,
    }
}

/// The entities that satisfy `p` among the first `n` cells, in row-major order,
/// each with its row and column.
pub open spec fn scan(g: Seq<Option<Entity>>, w: usize, n: int, p: spec_fn(Entity) -> bool) -> Seq<
    (Entity, usize, usize),
>
    decreases n,
{
    if n <= 0 {
        seq![]
    } else {
        let prev = scan(g, w, n - 1, p);
        match g[n - 1] {
            Some(e) => if p(e) {
                prev.push((e, pos_of(w, n - 1).0, pos_of(w, n - 1).1))
            } else {
                prev
            },
            None => prev,
        }
    }
}

/// The empty cells among the first `n`, in row-major order.
pub open spec fn land_scan(g: Seq<Option<Entity>>, w: usize, n: int) -> Seq<(usize, usize)>
    decreases n,
{
    if n <= 0 {
        seq![]
    } else {
        let prev = land_scan(g, w, n - 1);
        if g[n - 1].is_none() {
            prev.push(pos_of(w, n - 1))
        } else {
            prev
        }
    }
}

/// The kinds of entity that a scan of the grid can look for.
#[derive(Clone, Copy, Debug, PartialEq, Eq, Structural)]
pub enum Kind {
    Ant,
    Hill,
    Food,
}

pub open spec fn of_kind(k: Kind) -> spec_fn(Entity) -> bool {
    |e: Entity|
        match k {
            Kind::Ant => e is Ant,
            Kind::Hill => e is Hill,
            Kind::Food => e is Food,
        }
}

pub open spec fn positions(s: Seq<(Entity, usize, usize)>) -> Seq<(usize, usize)> {
    s.map_values(|t: (Entity, usize, usize)| (t.1, t.2))
}

pub proof fn lemma_cell_index(w: usize, h: usize, r: int, c: int)
    requires
        0 <= r < h,
        0 <= c < w,
    ensures
        0 <= r * w + c < w * h,
        (r * w + c) / (w as int) == r,
        (r * w + c) % (w as int) == c,
{
    assert(0 <= r * w + c < w * h) by (nonlinear_arith)
        requires
            0 <= r < h,
            0 <= c < w,
    ;
    vstd::arithmetic::div_mod::lemma_fundamental_div_mod_converse(
        r * w + c,
        w as int,
        r,
        c,
    );
}

pub proof fn lemma_pos_in_bounds(w: usize, h: usize, i: int)
    requires
        0 <= i < w * h,
    ensures
        pos_of(w, i).0 < h,
        pos_of(w, i).1 < w,
        index_of(w, pos_of(w, i).0 as int, pos_of(w, i).1 as int) == i,
{
    assert(w > 0) by (nonlinear_arith)
        requires
            0 <= i < w * h,
    ;
    vstd::arithmetic::div_mod::lemma_fundamental_div_mod(i, w as int);
    vstd::arithmetic::div_mod::lemma_mod_pos_bound(i, w as int);
    vstd::arithmetic::div_mod::lemma_div_pos_is_pos(i, w as int);
    assert((i / w as int) < h) by (nonlinear_arith)
        requires
            i == (w as int) * (i / w as int) + i % (w as int),
            0 <= i % (w as int),
            0 <= i < w * h,
            w > 0,
    ;
    vstd::arithmetic::mul::lemma_mul_is_commutative(w as int, i / w as int);
}

/// The grid as a mathematical value: its size and what each cell holds, row
/// after row.
pub ghost struct Board {
    pub width: usize,
    pub height: usize,
    pub players: usize,
    pub cells: Seq<Option<Entity>>,
}

impl View for Grid {
    type V = Board;

    open spec fn view(&self) -> Board {
        Board { width: self.width, height: self.height, players: self.players, cells: self.grid@ }
    }
}

impl Board {
    /// The grid has one slot per cell and names only the map's players.
    pub open spec fn wf(&self) -> bool {
        &&& self.cells.len() == self.width * self.height
        &&& self.width * self.height <= usize::MAX
        &&& forall|i: int|
            0 <= i < self.cells.len() ==> entity_players_ok(#[trigger] self.cells[i], self.players)
    }

    pub open spec fn in_bounds(&self, r: int, c: int) -> bool {
        0 <= r < self.height && 0 <= c < self.width
    }

    /// What the cell at row `r`, column `c` holds.
    pub open spec fn cell(&self, r: int, c: int) -> Option<Entity> {
        self.cells[index_of(self.width, r, c)]
    }

    /// A move from `from` to `to` is allowed: the cells differ and lie on the
    /// grid, `from` holds a live ant, and `to` holds no water, no food and no
    /// dead ant.
    pub open spec fn valid_move(&self, from: (usize, usize), to: (usize, usize)) -> bool {
        &&& from != to
        &&& self.in_bounds(from.0 as int, from.1 as int)
        &&& self.in_bounds(to.0 as int, to.1 as int)
        &&& match self.cell(from.0 as int, from.1 as int) {
            Some(Entity::Ant(a)) => a.alive,
            _ => false,
        }
        &&& match self.cell(to.0 as int, to.1 as int) {
            Some(Entity::Water(_)) => false,
            Some(Entity::Food(_)) => false,
            Some(Entity::Ant(b)) => b.alive,
            _ => true,
        }
    }

    /// The grid after an allowed move: two live ants that meet both die in
    /// place; otherwise the ant moves, taking along the hill it arrives on and
    /// leaving behind the hill it stood on.
    pub open spec fn moved(&self, from: (usize, usize), to: (usize, usize)) -> Seq<Option<Entity>> {
        let fi = index_of(self.width, from.0 as int, from.1 as int);
        let ti = index_of(self.width, to.0 as int, to.1 as int);
        let src = self.cell(from.0 as int, from.1 as int);
        let dst = self.cell(to.0 as int, to.1 as int);
        match (src, dst) {
            (Some(Entity::Ant(a)), Some(Entity::Ant(b))) => self.cells.update(
                fi,
                Some(Entity::Ant(killed(a))),
            ).update(ti, Some(Entity::Ant(killed(b)))),
            (Some(Entity::Ant(a)), _) => self.cells.update(
                ti,
                Some(Entity::Ant(arrived(a, dst))),
            ).update(fi, left_behind(a)),
            _ => self.cells,
        }
    }


    /// What the cell at row `i`, column `j` adds to the field of vision around
    /// `center`: nothing beyond `r2`; else the hill under an ant, then the
    /// entity itself, unless it stands on the center.
    pub open spec fn seen_at(&self, center: (usize, usize), r2: usize, i: int, j: int) -> Seq<
        (Entity, usize, usize),
    > {
        if dist2(center, i, j) <= r2 {
            match self.cell(i, j) {
                None => seq![],
                Some(e) => {
                    let under = match e {
                        Entity::Ant(a) => match a.on_ant_hill {
                            Some(h) => seq![(Entity::Hill(h), i as usize, j as usize)],
                            None => seq![],
                        },
                        _ => seq![],
                    };
                    if i == center.0 && j == center.1 {
                        under
                    } else {
                        under.push((e, i as usize, j as usize))
                    }
                },
            }
        } else {
            seq![]
        }
    }

    /// What the cells of row `i` from column `c0` up to `j`, excluded, add.
    pub open spec fn seen_in_row(
        &self,
        center: (usize, usize),
        r2: usize,
        i: int,
        c0: int,
        j: int,
    ) -> Seq<(Entity, usize, usize)>
        decreases j - c0,
    {
        if j <= c0 {
            seq![]
        } else {
            self.seen_in_row(center, r2, i, c0, j - 1) + self.seen_at(center, r2, i, j - 1)
        }
    }

    /// What the rows from `r0` up to `i`, excluded, add, over columns `c0..=c1`.
    pub open spec fn seen_in_rows(
        &self,
        center: (usize, usize),
        r2: usize,
        r0: int,
        c0: int,
        c1: int,
        i: int,
    ) -> Seq<(Entity, usize, usize)>
        decreases i - r0,
    {
        if i <= r0 {
            seq![]
        } else {
            self.seen_in_rows(center, r2, r0, c0, c1, i - 1) + self.seen_in_row(
                center,
                r2,
                i - 1,
                c0,
                c1 + 1,
            )
        }
    }

    /// The field of vision: over the square of side `2 * root(r2) + 1` around
    /// `center`, clipped to the grid, row by row, what each cell within `r2`
    /// of the center shows.
    pub open spec fn fov(&self, center: (usize, usize), r2: usize) -> Seq<(Entity, usize, usize)> {
        let rad = root(r2 as int);
        let r0 = if center.0 >= rad { center.0 - rad } else { 0 };
        let c0 = if center.1 >= rad { center.1 - rad } else { 0 };
        let r1 = if center.0 + rad <= self.height - 1 { center.0 + rad } else { self.height - 1 };
        let c1 = if center.1 + rad <= self.width - 1 { center.1 + rad } else { self.width - 1 };
        self.seen_in_rows(center, r2, r0, c0, c1, r1 + 1)
    }

    /// The empty cells among the first `k` of the 3x3 block around `(r, c)`,
    /// taken row by row, leaving out `(r, c)` itself and cells off the grid.
    pub open spec fn land_around_upto(&self, r: int, c: int, k: int) -> Seq<(usize, usize)>
        decreases k,
    {
        if k <= 0 {
            seq![]
        } else {
            let prev = self.land_around_upto(r, c, k - 1);
            let i = r + (k - 1) / 3 - 1;
            let j = c + (k - 1) % 3 - 1;
            if !(i == r && j == c) && self.in_bounds(i, j) && self.cell(i, j).is_none() {
                prev.push((i as usize, j as usize))
            } else {
                prev
            }
        }
    }

    /// Ant identifiers are all below `n`.
    pub open spec fn ids_below(&self, n: int) -> bool {
        forall|i: int|
            0 <= i < self.cells.len() && (#[trigger] ant_in(self.cells[i])).is_some() ==> ant_in(
                self.cells[i],
            ).unwrap().id < n
    }

    /// No two ants share an identifier.
    pub open spec fn ids_unique(&self) -> bool {
        forall|i: int, j: int|
            0 <= i < self.cells.len() && 0 <= j < self.cells.len() && i != j && (#[trigger] ant_in(
                self.cells[i],
            )).is_some() && (#[trigger] ant_in(self.cells[j])).is_some() ==> ant_in(
                self.cells[i],
            ).unwrap().id != ant_in(self.cells[j]).unwrap().id
    }
}

impl Grid {
    /// The grid has one slot per cell and names only the map's players.
    pub open spec fn wf(&self) -> bool {
        self@.wf()
    }

    /// An empty map.
    pub fn new(width: usize, height: usize, players: usize) -> (r: Grid)
        requires
            width * height <= usize::MAX,
        ensures
            r.wf(),
            r.width == width,
            r.height == height,
            r.players == players,
            forall|i: int| 0 <= i < r.grid@.len() ==> r.grid@[i].is_none(),
    {
        let n: usize = width * height;
        let mut grid: Vec<Option<Entity>> = Vec::new();
        let mut i: usize = 0;
        while i < n
            invariant
                i <= n,
                grid@.len() == i,
                forall|j: int| 0 <= j < i ==> grid@[j].is_none(),
            decreases n - i,
        {
            grid.push(None);
            i = i + 1;
        }
        Grid { width, height, players, grid }
    }

    pub fn width(&self) -> (r: usize)
        ensures
            r == self.width,
    {
        self.width
    }

    pub fn height(&self) -> (r: usize)
        ensures
            r == self.height,
    {
        self.height
    }

    pub fn players(&self) -> (r: usize)
        ensures
            r == self.players,
    {
        self.players
    }

    /// The entity at a cell; `None` for an empty cell or one out of bounds.
    pub fn get(&self, row: usize, col: usize) -> (r: Option<Entity>)
        requires
            self.wf(),
        ensures
            self@.in_bounds(row as int, col as int) ==> r == self@.cell(row as int, col as int),
            !self@.in_bounds(row as int, col as int) ==> r.is_none(),
    {
        if row < self.height && col < self.width {
            proof {
                lemma_cell_index(self.width, self.height, row as int, col as int);
            }
            self.grid[row * self.width + col]
        } else {
            None
        }
    }

    /// Puts an entity into a cell, in place of what it held.
    pub fn set(&mut self, row: usize, col: usize, value: Entity)
        requires
            old(self).wf(),
            old(self)@.in_bounds(row as int, col as int),
            entity_players_ok(Some(value), old(self).players),
        ensures
            final(self).wf(),
            final(self).width == old(self).width,
            final(self).height == old(self).height,
            final(self).players == old(self).players,
            final(self).grid@ == old(self).grid@.update(
                index_of(old(self).width, row as int, col as int),
                Some(value),
            ),
    {
        proof {
            lemma_cell_index(self.width, self.height, row as int, col as int);
        }
        let i = row * self.width + col;
        self.grid.set(i, Some(value));
    }

    /// Empties a cell.
    pub fn remove(&mut self, row: usize, col: usize)
        requires
            old(self).wf(),
            old(self)@.in_bounds(row as int, col as int),
        ensures
            final(self).wf(),
            final(self).width == old(self).width,
            final(self).height == old(self).height,
            final(self).players == old(self).players,
            final(self).grid@ == old(self).grid@.update(
                index_of(old(self).width, row as int, col as int),
                None,
            ),
    {
        proof {
            lemma_cell_index(self.width, self.height, row as int, col as int);
        }
        let i = row * self.width + col;
        self.grid.set(i, None);
    }
}

impl Grid {
    /// The entities of one kind, in row-major order, with their cells.
    fn all(&self, kind: Kind) -> (r: Vec<(Entity, usize, usize)>)
        requires
            self.wf(),
        ensures
            r@ == scan(self.grid@, self.width, self.grid@.len() as int, of_kind(kind)),
    {
        let mut out: Vec<(Entity, usize, usize)> = Vec::new();
        let n = self.grid.len();
        let mut i: usize = 0;
        while i < n
            invariant
                self.wf(),
                n == self.grid@.len(),
                i <= n,
                out@ == scan(self.grid@, self.width, i as int, of_kind(kind)),
            decreases n - i,
        {
            if let Some(e) = self.grid[i] {
                let keep = match (kind, e) {
                    (Kind::Ant, Entity::Ant(_)) => true,
                    (Kind::Hill, Entity::Hill(_)) => true,
                    (Kind::Food, Entity::Food(_)) => true,
                    _ => false,
                };
                if keep {
                    proof {
                        lemma_pos_in_bounds(self.width, self.height, i as int);
                    }
                    out.push((e, i / self.width, i % self.width));
                }
            }
            i = i + 1;
        }
        out
    }

    /// The hills, in row-major order, with their cells.
    pub fn ant_hills(&self) -> (r: Vec<(Entity, usize, usize)>)
        requires
            self.wf(),
        ensures
            r@ == scan(self.grid@, self.width, self.grid@.len() as int, of_kind(Kind::Hill)),
    {
        self.all(Kind::Hill)
    }

    /// The ants, dead or alive, in row-major order, with their cells.
    pub fn ants(&self) -> (r: Vec<(Entity, usize, usize)>)
        requires
            self.wf(),
        ensures
            r@ == scan(self.grid@, self.width, self.grid@.len() as int, of_kind(Kind::Ant)),
    {
        self.all(Kind::Ant)
    }

    /// The cells that hold food, in row-major order.
    pub fn food(&self) -> (r: Vec<(usize, usize)>)
        requires
            self.wf(),
        ensures
            r@ == positions(
                scan(self.grid@, self.width, self.grid@.len() as int, of_kind(Kind::Food)),
            ),
    {
        let all = self.all(Kind::Food);
        let mut out: Vec<(usize, usize)> = Vec::new();
        let mut i: usize = 0;
        while i < all.len()
            invariant
                i <= all@.len(),
                out@ == positions(all@.subrange(0, i as int)),
            decreases all@.len() - i,
        {
            let (_, r, c) = all[i];
            out.push((r, c));
            proof {
                assert(all@.subrange(0, i + 1) == all@.subrange(0, i as int).push(all@[i as int]));
            }
            i = i + 1;
        }
        proof {
            assert(all@.subrange(0, all@.len() as int) == all@);
        }
        out
    }

    /// The empty cells, in row-major order.
    pub fn land(&self) -> (r: Vec<(usize, usize)>)
        requires
            self.wf(),
        ensures
            r@ == land_scan(self.grid@, self.width, self.grid@.len() as int),
    {
        let mut out: Vec<(usize, usize)> = Vec::new();
        let n = self.grid.len();
        let mut i: usize = 0;
        while i < n
            invariant
                self.wf(),
                n == self.grid@.len(),
                i <= n,
                out@ == land_scan(self.grid@, self.width, i as int),
            decreases n - i,
        {
            if self.grid[i].is_none() {
                proof {
                    lemma_pos_in_bounds(self.width, self.height, i as int);
                }
                out.push((i / self.width, i % self.width));
            }
            i = i + 1;
        }
        out
    }
}

/// The ant, marked dead.
pub open spec fn killed(a: Ant) -> Ant {
    Ant { id: a.id, player: a.player, alive: false, on_ant_hill: a.on_ant_hill }
}

/// What a cell holds once the ant on it leaves or is taken away: the hill it
/// stood on, as the ant last knew it, or nothing.
pub open spec fn left_behind(a: Ant) -> Option<Entity> {
    match a.on_ant_hill {
        Some(h) => Some(Entity::Hill(h)),
        None => None,
    }
}

/// The hill that a cell holds, if any.
pub open spec fn hill_in(e: Option<Entity>) -> Option<Hill> {
    match e {
        Some(Entity::Hill(h)) => Some(h),
        _ => None,
    }
}

/// The ant after it moved onto a cell that held `dest`.
pub open spec fn arrived(a: Ant, dest: Option<Entity>) -> Ant {
    Ant { id: a.id, player: a.player, alive: a.alive, on_ant_hill: hill_in(dest) }
}

impl Grid {
    pub fn is_valid_move(&self, from: (usize, usize), to: (usize, usize)) -> (r: bool)
        requires
            self.wf(),
        ensures
            r == self@.valid_move(from, to),
    {
        if from.0 == to.0 && from.1 == to.1 {
            return false;
        }
        if from.0 >= self.height || from.1 >= self.width || to.0 >= self.height || to.1
            >= self.width {
            return false;
        }
        let src_ok = match self.get(from.0, from.1) {
            Some(Entity::Ant(a)) => a.alive,
            _ => false,
        };
        if !src_ok {
            return false;
        }
        match self.get(to.0, to.1) {
            Some(Entity::Water(_)) => false,
            Some(Entity::Food(_)) => false,
            Some(Entity::Ant(b)) => b.alive,
            _ => true,
        }
    }

    /// Moves the ant at `from` one step to `to`. Returns whether the move was
    /// allowed; a move that is not changes nothing.
    pub fn move_entity(&mut self, from: (usize, usize), to: (usize, usize)) -> (r: bool)
        requires
            old(self).wf(),
        ensures
            r == old(self)@.valid_move(from, to),
            final(self).wf(),
            final(self).width == old(self).width,
            final(self).height == old(self).height,
            final(self).players == old(self).players,
            r ==> final(self).grid@ == old(self)@.moved(from, to),
            !r ==> final(self).grid@ == old(self).grid@,
            old(self)@.ids_unique() ==> final(self)@.ids_unique(),
            forall|n: int| old(self)@.ids_below(n) ==> #[trigger] final(self)@.ids_below(n),
    {
        if !self.is_valid_move(from, to) {
            return false;
        }
        let src = self.get(from.0, from.1);
        let dst = self.get(to.0, to.1);
        proof {
            lemma_cell_index(self.width, self.height, from.0 as int, from.1 as int);
            lemma_cell_index(self.width, self.height, to.0 as int, to.1 as int);
        }
        match (src, dst) {
            (Some(Entity::Ant(a)), Some(Entity::Ant(b))) => {
                let ghost before = self.grid@;
                self.set(from.0, from.1, Entity::Ant(Ant { alive: false, ..a }));
                self.set(to.0, to.1, Entity::Ant(Ant { alive: false, ..b }));
                proof {
                    let b0 = Board { width: self.width, height: self.height, players: self.players, cells: before };
                    assert forall|i: int| 0 <= i < before.len() implies (#[trigger] ant_in(self.grid@[i])).is_some() == ant_in(before[i]).is_some()
                        && (ant_in(self.grid@[i]).is_some() ==> ant_in(self.grid@[i]).unwrap().id == ant_in(before[i]).unwrap().id) by {}
                    lemma_ids_kept(b0, self@);
                }
                true
            },
            (Some(Entity::Ant(a)), _) => {
                let ghost before = self.grid@;
                let hill = match dst {
                    Some(Entity::Hill(h)) => Some(h),
                    _ => None,
                };
                self.set(to.0, to.1, Entity::Ant(Ant { on_ant_hill: hill, ..a }));
                match a.on_ant_hill {
                    Some(h) => self.set(from.0, from.1, Entity::Hill(h)),
                    None => self.remove(from.0, from.1),
                }
                proof {
                    let fi = index_of(self.width, from.0 as int, from.1 as int);
                    let ti = index_of(self.width, to.0 as int, to.1 as int);
                    assert(fi != ti);
                    let b0 = Board { width: self.width, height: self.height, players: self.players, cells: before };
                    assert(ant_in(before[fi]) == Some(a));
                    if b0.ids_unique() {
                        assert forall|i: int, j: int|
                            0 <= i < self.grid@.len() && 0 <= j < self.grid@.len() && i != j
                                && (#[trigger] ant_in(self.grid@[i])).is_some() && (#[trigger] ant_in(
                                self.grid@[j],
                            )).is_some() implies ant_in(self.grid@[i]).unwrap().id != ant_in(
                            self.grid@[j],
                        ).unwrap().id by {
                            let oi = if i == ti { fi } else { i };
                            let oj = if j == ti { fi } else { j };
                            assert(ant_in(before[oi]).is_some());
                            assert(ant_in(before[oj]).is_some());
                        }
                    }
                    assert forall|n: int| b0.ids_below(n) implies #[trigger] self@.ids_below(n) by {
                        assert forall|i: int|
                            0 <= i < self.grid@.len() && (#[trigger] ant_in(self.grid@[i])).is_some()
                                implies ant_in(self.grid@[i]).unwrap().id < n by {
                            let oi = if i == ti { fi } else { i };
                            assert(ant_in(before[oi]).is_some());
                        }
                    }
                }
                true
            },
            _ => false,
        }
    }

    /// Marks the ant or hill at a cell dead or alive (a hill that is not alive
    /// has been razed); other cells are left as they are.
    pub fn set_alive(&mut self, row: usize, col: usize, alive: bool)
        requires
            old(self).wf(),
        ensures
            final(self).wf(),
            final(self).width == old(self).width,
            final(self).height == old(self).height,
            final(self).players == old(self).players,
            final(self).grid@ == (if old(self)@.in_bounds(row as int, col as int) {
                match old(self)@.cell(row as int, col as int) {
                    Some(Entity::Ant(a)) => old(self).grid@.update(
                        index_of(old(self).width, row as int, col as int),
                        Some(Entity::Ant(Ant { alive, ..a })),
                    ),
                    Some(Entity::Hill(h)) => old(self).grid@.update(
                        index_of(old(self).width, row as int, col as int),
                        Some(Entity::Hill(Hill { alive, ..h })),
                    ),
                    _ => old(self).grid@,
                }
            } else {
                old(self).grid@
            }),
            old(self)@.ids_unique() ==> final(self)@.ids_unique(),
            forall|n: int| old(self)@.ids_below(n) ==> #[trigger] final(self)@.ids_below(n),
    {
        if let Some(Entity::Hill(h)) = self.get(row, col) {
            proof {
                lemma_cell_index(self.width, self.height, row as int, col as int);
                assert(entity_players_ok(self.grid@[index_of(self.width, row as int, col as int)], self.players));
            }
            let ghost before = self.grid@;
            self.set(row, col, Entity::Hill(Hill { alive, ..h }));
            proof {
                let b0 = Board { width: self.width, height: self.height, players: self.players, cells: before };
                assert forall|i: int| 0 <= i < before.len() implies (#[trigger] ant_in(self.grid@[i])).is_some() == ant_in(before[i]).is_some()
                    && (ant_in(self.grid@[i]).is_some() ==> ant_in(self.grid@[i]).unwrap().id == ant_in(before[i]).unwrap().id) by {}
                lemma_ids_kept(b0, self@);
            }
        }
        if let Some(Entity::Ant(a)) = self.get(row, col) {
            proof {
                lemma_cell_index(self.width, self.height, row as int, col as int);
                assert(entity_players_ok(self.grid@[index_of(self.width, row as int, col as int)], self.players));
            }
            let ghost before = self.grid@;
            self.set(row, col, Entity::Ant(Ant { alive, ..a }));
            proof {
                let b0 = Board { width: self.width, height: self.height, players: self.players, cells: before };
                assert forall|i: int| 0 <= i < before.len() implies (#[trigger] ant_in(self.grid@[i])).is_some() == ant_in(before[i]).is_some()
                    && (ant_in(self.grid@[i]).is_some() ==> ant_in(self.grid@[i]).unwrap().id == ant_in(before[i]).unwrap().id) by {}
                lemma_ids_kept(b0, self@);
            }
        }
    }

}

/// `k` is the integer square root of `n`.
pub open spec fn is_root(n: int, k: int) -> bool {
    0 <= k && k * k <= n < (k + 1) * (k + 1)
}

/// The integer square root of `n`.
pub open spec fn root(n: int) -> int {
    choose|k: int| is_root(n, k)
}

pub proof fn lemma_root_unique(n: int, k: int)
    requires
        is_root(n, k),
    ensures
        root(n) == k,
{
    let k2 = root(n);
    assert(is_root(n, k2));
    if k2 < k {
        assert((k2 + 1) * (k2 + 1) <= k * k) by (nonlinear_arith)
            requires
                0 <= k2 < k,
        ;
    } else if k < k2 {
        assert((k + 1) * (k + 1) <= k2 * k2) by (nonlinear_arith)
            requires
                0 <= k < k2,
        ;
    }
}

/// The integer square root: the largest `k` with `k * k <= n`.
pub fn isqrt(n: usize) -> (k: usize)
    ensures
        is_root(n as int, k as int),
        k as int == root(n as int),
{
    let mut k: u128 = 0;
    loop
        invariant
            k * k <= n,
            k <= n,
            k < 0x1_0000_0000,
            n <= usize::MAX,
        ensures
            k * k <= n < (k + 1) * (k + 1),
        decreases n - k,
    {
        assert((k + 1) * (k + 1) <= 0x1_0000_0001_0000_0000_0000_0001u128) by (nonlinear_arith)
            requires
                k < 0x1_0000_0000u128,
        ;
        let next = k + 1;
        if next * next > n as u128 {
            break;
        }
        assert(k + 1 <= (k + 1) * (k + 1)) by (nonlinear_arith);
        k = next;
        assert(k < 0x1_0000_0000) by (nonlinear_arith)
            requires
                k * k <= n,
                n <= 0xffff_ffff_ffff_ffffu128,
        ;
    }
    proof {
        lemma_root_unique(n as int, k as int);
    }
    k as usize
}

/// The squared distance between two cells.
pub open spec fn dist2(a: (usize, usize), r: int, c: int) -> int {
    (r - a.0) * (r - a.0) + (c - a.1) * (c - a.1)
}

impl Grid {
    /// Whether the cell at `(i, j)` lies within `r2` of `center`.
    fn within(center: (usize, usize), r2: usize, i: usize, j: usize) -> (r: bool)
        ensures
            r == (dist2(center, i as int, j as int) <= r2),
    {
        let dr: u128 = if i >= center.0 { (i - center.0) as u128 } else { (center.0 - i) as u128 };
        let dc: u128 = if j >= center.1 { (j - center.1) as u128 } else { (center.1 - j) as u128 };
        assert(dr * dr <= 0xffff_ffff_ffff_ffff_ffff_ffff_ffff_ffffu128) by (nonlinear_arith)
            requires
                dr <= 0xffff_ffff_ffff_ffffu128,
        ;
        assert(dc * dc <= 0xffff_ffff_ffff_ffff_ffff_ffff_ffff_ffffu128) by (nonlinear_arith)
            requires
                dc <= 0xffff_ffff_ffff_ffffu128,
        ;
        let dr2 = dr * dr;
        let dc2 = dc * dc;
        proof {
            assert(dr2 == (i - center.0) * (i - center.0)) by (nonlinear_arith)
                requires
                    dr2 == dr * dr,
                    dr == i - center.0 || dr == center.0 - i,
            ;
            assert(dc2 == (j - center.1) * (j - center.1)) by (nonlinear_arith)
                requires
                    dc2 == dc * dc,
                    dc == j - center.1 || dc == center.1 - j,
            ;
        }
        dr2 <= r2 as u128 && dc2 <= r2 as u128 - dr2
    }

    /// Every entity within squared distance `radius2` of `center`, row by row.
    /// An ant standing on a hill shows the hill first; the ant at the center
    /// itself is left out, but not the hill under it.
    pub fn field_of_vision(&self, center: (usize, usize), radius2: usize) -> (r: Vec<
        (Entity, usize, usize),
    >)
        requires
            self.wf(),
            self@.in_bounds(center.0 as int, center.1 as int),
        ensures
            r@ == self@.fov(center, radius2),
    {
        let (row, col) = center;
        let rad = isqrt(radius2);
        let r0 = row.saturating_sub(rad);
        let c0 = col.saturating_sub(rad);
        let r1 = if row.saturating_add(rad) <= self.height - 1 {
            row.saturating_add(rad)
        } else {
            self.height - 1
        };
        let c1 = if col.saturating_add(rad) <= self.width - 1 {
            col.saturating_add(rad)
        } else {
            self.width - 1
        };
        let ghost g_r0 = r0 as int;
        let mut out: Vec<(Entity, usize, usize)> = Vec::new();
        let mut i = r0;
        while i <= r1
            invariant
                self.wf(),
                self@.in_bounds(center.0 as int, center.1 as int),
                row == center.0 && col == center.1,
                r0 <= i <= r1 + 1,
                c0 <= c1 < self.width,
                r1 < self.height,
                out@ == self@.seen_in_rows(center, radius2, r0 as int, c0 as int, c1 as int, i as int),
            decreases r1 + 1 - i,
        {
            let ghost before = out@;
            let mut j = c0;
            while j <= c1
                invariant
                    self.wf(),
                    row == center.0 && col == center.1,
                    r0 <= i <= r1,
                    c0 <= j <= c1 + 1,
                    c1 < self.width,
                    r1 < self.height,
                    out@ == before + self@.seen_in_row(center, radius2, i as int, c0 as int, j as int),
                decreases c1 + 1 - j,
            {
                let ghost mid = out@;
                let near = Self::within(center, radius2, i, j);
                let cell = self.get(i, j);
                assert(cell == self@.cell(i as int, j as int));
                if near {
                    if let Some(e) = cell {
                        if let Entity::Ant(a) = e {
                            if let Some(h) = a.on_ant_hill {
                                out.push((Entity::Hill(h), i, j));
                            }
                        }
                        if !(i == row && j == col) {
                            out.push((e, i, j));
                        }
                    }
                }
                proof {
                    assert(out@ =~= mid + self@.seen_at(center, radius2, i as int, j as int));
                    assert(before + self@.seen_in_row(center, radius2, i as int, c0 as int, j + 1)
                        =~= before + self@.seen_in_row(center, radius2, i as int, c0 as int, j as int)
                        + self@.seen_at(center, radius2, i as int, j as int));
                }
                j = j + 1;
            }
            proof {
                assert(out@ =~= self@.seen_in_rows(center, radius2, r0 as int, c0 as int, c1 as int, i + 1));
            }
            i = i + 1;
        }
        proof {
            lemma_root_unique(radius2 as int, rad as int);
        }
        out
    }
}

impl Grid {
    /// The empty cells next to `(row, col)`, in any of the eight directions,
    /// row by row.
    pub fn land_around(&self, row: usize, col: usize) -> (r: Vec<(usize, usize)>)
        requires
            self.wf(),
            self@.in_bounds(row as int, col as int),
        ensures
            r@ == self@.land_around_upto(row as int, col as int, 9),
    {
        let mut lands: Vec<(usize, usize)> = Vec::new();
        let mut k: usize = 0;
        while k < 9
            invariant
                self.wf(),
                self@.in_bounds(row as int, col as int),
                k <= 9,
                lands@ == self@.land_around_upto(row as int, col as int, k as int),
            decreases 9 - k,
        {
            let di = k / 3;
            let dj = k % 3;
            let keep = if k == 4 || (di == 0 && row == 0) || (dj == 0 && col == 0) {
                false
            } else {
                let i = if di == 0 { row - 1 } else { row + (di - 1) };
                let j = if dj == 0 { col - 1 } else { col + (dj - 1) };
                i < self.height && j < self.width && self.get(i, j).is_none()
            };
            if keep {
                let i = if di == 0 { row - 1 } else { row + (di - 1) };
                let j = if dj == 0 { col - 1 } else { col + (dj - 1) };
                lands.push((i, j));
            }
            k = k + 1;
        }
        lands
    }
}

/// Why the text of a map could not be read.
#[derive(Clone, Copy, Debug, PartialEq, Eq, Structural)]
pub enum MapError {
    /// The `rows`, `cols` or `players` line is missing or holds no number.
    MissingHeader,
    /// The grid would have more cells than memory can index.
    TooLarge,
    /// A row of the grid lies beyond `rows`, or runs past `cols`.
    OutOfBounds,
    /// A character outside the map's alphabet.
    InvalidCharacter,
    /// An ant or hill of a player that the map does not have.
    InvalidPlayer,
}

/// The ant that a cell holds, if any.
pub open spec fn ant_in(e: Option<Entity>) -> Option<Ant> {
    match e {
        Some(Entity::Ant(a)) => Some(a),
        _ => None,
    }
}

pub open spec fn is_space(b: u8) -> bool {
    b == 32 || b == 9 || b == 13
}

/// The first line break at or after `p`, or the end of the text.
pub open spec fn next_break(b: Seq<u8>, p: int) -> int
    decreases b.len() - p,
{
    if p >= b.len() || p < 0 || b[p] == 10 {
        p
    } else {
        next_break(b, p + 1)
    }
}

/// Where the line after the one that ends at `end` starts.
pub open spec fn next_line(b: Seq<u8>, p: int, end: int) -> int {
    if end < p || end >= b.len() {
        b.len() as int
    } else {
        end + 1
    }
}

/// The first index at or after `p`, before `end`, that holds no blank.
pub open spec fn skip_sp(b: Seq<u8>, p: int, end: int) -> int
    decreases end - p,
{
    if p >= end || p < 0 || !is_space(b[p]) {
        p
    } else {
        skip_sp(b, p + 1, end)
    }
}

/// `end`, moved back over the blanks that end the bytes from `lo` on.
pub open spec fn trim_back(b: Seq<u8>, lo: int, end: int) -> int
    decreases end - lo,
{
    if end <= lo || end > b.len() || !is_space(b[end - 1]) {
        end
    } else {
        trim_back(b, lo, end - 1)
    }
}

/// The bytes from `p` on, before `end`, start with `w`.
pub open spec fn starts(b: Seq<u8>, p: int, end: int, w: Seq<u8>) -> bool {
    0 <= p && p + w.len() <= end && end <= b.len() && b.subrange(p, p + w.len()) == w
}

/// The end of the run of decimal digits that starts at `p`.
pub open spec fn digits_end(b: Seq<u8>, p: int, end: int) -> int
    decreases end - p,
{
    if p >= end || p < 0 || !(48 <= b[p] <= 57) {
        p
    } else {
        digits_end(b, p + 1, end)
    }
}

/// The value of the decimal digits from `p` up to `q`.
pub open spec fn decimal(b: Seq<u8>, p: int, q: int) -> nat
    decreases q - p,
{
    if q <= p {
        0
    } else {
        decimal(b, p, q - 1) * 10 + (b[q - 1] - 48) as nat
    }
}

/// The decimal number at `p`; `None` without a digit or beyond `usize`.
pub open spec fn number_at(b: Seq<u8>, p: int, end: int) -> Option<nat> {
    let q = digits_end(b, p, end);
    if q == p || decimal(b, p, q) > usize::MAX {
        None
    } else {
        Some(decimal(b, p, q))
    }
}

/// The value of the last line, from `p` on, made of blanks, `w` and a
/// number; `cur` where there is none.
pub open spec fn header_from(b: Seq<u8>, p: int, w: Seq<u8>, cur: Option<nat>) -> Option<nat>
    decreases b.len() - p,
{
    if p >= b.len() || p < 0 {
        cur
    } else {
        let end = next_break(b, p);
        let q = skip_sp(b, p, end);
        let v = if starts(b, q, end, w) {
            number_at(b, q + w.len(), end)
        } else {
            None
        };
        header_from(b, next_line(b, p, end), w, if v is Some { v } else { cur })
    }
}

pub open spec fn rows_word() -> Seq<u8> {
    seq![114u8, 111u8, 119u8, 115u8, 32u8]
}

pub open spec fn cols_word() -> Seq<u8> {
    seq![99u8, 111u8, 108u8, 115u8, 32u8]
}

pub open spec fn players_word() -> Seq<u8> {
    seq![112u8, 108u8, 97u8, 121u8, 101u8, 114u8, 115u8, 32u8]
}

pub open spec fn row_word() -> Seq<u8> {
    seq![109u8, 32u8]
}

/// The entity names only players below `pl`.
pub open spec fn player_ok(e: Entity, pl: int) -> bool {
    match e {
        Entity::Ant(a) => a.player < pl,
        Entity::Hill(h) => h.player < pl,
        _ => true,
    }
}

/// The cells after the characters from `first + col` up to `last` are put
/// into row `row` from column `col` on; or the first error they hold.
pub open spec fn fill_row(
    b: Seq<u8>,
    first: int,
    last: int,
    row: int,
    col: int,
    g: Seq<Option<Entity>>,
    w: int,
    pl: int,
) -> Result<Seq<Option<Entity>>, MapError>
    decreases last - first - col,
{
    if first + col >= last || col < 0 {
        Ok(g)
    } else {
        match from_char_spec(b[first + col] as char, (row * w + col) as u64) {
            None => Err(MapError::InvalidCharacter),
            Some(None) => fill_row(b, first, last, row, col + 1, g, w, pl),
            Some(Some(e)) => if player_ok(e, pl) {
                fill_row(b, first, last, row, col + 1, g.update(row * w + col, Some(e)), w, pl)
            } else {
                Err(MapError::InvalidPlayer)
            },
        }
    }
}

/// The cells after the `m` lines from `p` on are read, the next of them
/// being row `row`; or the first error they hold. A line `m` with nothing
/// after it fills no row.
pub open spec fn rows_from(
    b: Seq<u8>,
    p: int,
    row: int,
    g: Seq<Option<Entity>>,
    h: int,
    w: int,
    pl: int,
) -> Result<Seq<Option<Entity>>, MapError>
    decreases b.len() - p,
{
    if p >= b.len() || p < 0 {
        Ok(g)
    } else {
        let end = next_break(b, p);
        let np = next_line(b, p, end);
        let q = skip_sp(b, p, end);
        if starts(b, q, end, row_word()) {
            let last = trim_back(b, q + 2, end);
            let first = skip_sp(b, q + 2, last);
            if last > first && row >= h {
                Err(MapError::OutOfBounds)
            } else if last - first > w {
                Err(MapError::OutOfBounds)
            } else {
                match fill_row(b, first, last, row, 0, g, w, pl) {
                    Err(e) => Err(e),
                    Ok(g2) => rows_from(b, np, if last > first { row + 1 } else { row }, g2, h, w, pl),
                }
            }
        } else {
            rows_from(b, np, row, g, h, w, pl)
        }
    }
}

/// What the text of a map describes: lines `rows <H>`, `cols <W>` and
/// `players <P>` (the last of each counts) give the size, and the lines
/// `m <cells>`, in order, give the rows, each character read by
/// `from_char_spec` with the flat index of its cell as identifier. Blanks
/// around a line are ignored.
pub open spec fn map_text(b: Seq<u8>) -> Result<Board, MapError> {
    let hh = header_from(b, 0, rows_word(), None);
    let ww = header_from(b, 0, cols_word(), None);
    let pp = header_from(b, 0, players_word(), None);
    if hh is None || ww is None || pp is None {
        Err(MapError::MissingHeader)
    } else {
        let h = hh.unwrap();
        let w = ww.unwrap();
        let pl = pp.unwrap();
        if w * h > usize::MAX {
            Err(MapError::TooLarge)
        } else {
            match rows_from(b, 0, 0, Seq::new(w * h, |i: int| None), h as int, w as int, pl as int) {
                Err(e) => Err(e),
                Ok(cells) => Ok(Board { width: w as usize, height: h as usize, players: pl as usize, cells }),
            }
        }
    }
}

/// The board that the rows read into give, or their error.
pub open spec fn board_of(r: Result<Seq<Option<Entity>>, MapError>, w: usize, h: usize, pl: usize) -> Result<Board, MapError> {
    match r {
        Err(e) => Err(e),
        Ok(cells) => Ok(Board { width: w, height: h, players: pl, cells }),
    }
}

/// The text describes a map.
pub open spec fn map_ok(b: Seq<u8>) -> bool {
    map_text(b) is Ok
}

/// The map that the text describes.
pub open spec fn map_board(b: Seq<u8>) -> Board {
    map_text(b)->Ok_0
}

pub open spec fn as_nat(o: Option<usize>) -> Option<nat> {
    match o {
        Some(v) => Some(v as nat),
        None => None,
    }
}

/// The index of the first line break at or after `p`, or the end.
fn line_end(b: &[u8], p: usize) -> (r: usize)
    requires
        p <= b@.len(),
    ensures
        p <= r <= b@.len(),
        r == next_break(b@, p as int),
{
    let mut q = p;
    while q < b.len() && b[q] != 10
        invariant
            p <= q <= b@.len(),
            next_break(b@, p as int) == next_break(b@, q as int),
        decreases b@.len() - q,
    {
        q = q + 1;
    }
    q
}

/// The first index at or after `p`, before `end`, that holds no blank.
fn skip_blanks(b: &[u8], p: usize, end: usize) -> (r: usize)
    requires
        p <= end <= b@.len(),
    ensures
        p <= r <= end,
        r == skip_sp(b@, p as int, end as int),
{
    let mut q = p;
    while q < end && (b[q] == 32 || b[q] == 9 || b[q] == 13)
        invariant
            p <= q <= end <= b@.len(),
            skip_sp(b@, p as int, end as int) == skip_sp(b@, q as int, end as int),
        decreases end - q,
    {
        q = q + 1;
    }
    q
}

/// `end`, moved back over the blanks that end the bytes from `lo` on.
fn trim_blanks(b: &[u8], lo: usize, end: usize) -> (r: usize)
    requires
        lo <= end <= b@.len(),
    ensures
        lo <= r <= end,
        r == trim_back(b@, lo as int, end as int),
{
    let mut last = end;
    while last > lo && (b[last - 1] == 32 || b[last - 1] == 9 || b[last - 1] == 13)
        invariant
            lo <= last <= end <= b@.len(),
            trim_back(b@, lo as int, end as int) == trim_back(b@, lo as int, last as int),
        decreases last,
    {
        last = last - 1;
    }
    last
}

/// Whether the bytes from `p` on, before `end`, start with `word`.
fn starts_with(b: &[u8], p: usize, end: usize, word: &[u8]) -> (r: bool)
    requires
        p <= end <= b@.len(),
    ensures
        r == starts(b@, p as int, end as int, word@),
{
    if end - p < word.len() {
        return false;
    }
    let mut k: usize = 0;
    while k < word.len()
        invariant
            p + word@.len() <= end <= b@.len(),
            k <= word@.len(),
            forall|t: int| 0 <= t < k ==> b@[p + t] == word@[t],
        decreases word@.len() - k,
    {
        if b[p + k] != word[k] {
            assert(b@.subrange(p as int, p + word@.len())[k as int] != word@[k as int]);
            return false;
        }
        k = k + 1;
    }
    assert(b@.subrange(p as int, p + word@.len()) =~= word@);
    true
}

proof fn lemma_decimal_grows(b: Seq<u8>, p: int, q: int, q2: int)
    requires
        p <= q <= q2,
        forall|k: int| p <= k < q2 ==> 48 <= #[trigger] b[k] <= 57,
    ensures
        decimal(b, p, q) <= decimal(b, p, q2),
    decreases q2 - q,
{
    if q < q2 {
        lemma_decimal_grows(b, p, q, q2 - 1);
    }
}

/// The decimal number at `p`, made of every digit up to the first other byte
/// or `end`; `None` where there is no digit or the number does not fit.
fn read_number(b: &[u8], p: usize, end: usize) -> (r: Option<usize>)
    requires
        p <= end <= b@.len(),
    ensures
        as_nat(r) == number_at(b@, p as int, end as int),
{
    let mut q = p;
    let mut value: usize = 0;
    while q < end && 48 <= b[q] && b[q] <= 57
        invariant
            p <= q <= end <= b@.len(),
            digits_end(b@, p as int, end as int) == digits_end(b@, q as int, end as int),
            forall|k: int| p <= k < q ==> 48 <= #[trigger] b@[k] <= 57,
            value == decimal(b@, p as int, q as int),
        decreases end - q,
    {
        let digit = (b[q] - 48) as usize;
        if value > (usize::MAX - digit) / 10 {
            proof {
                assert(decimal(b@, p as int, q + 1) > usize::MAX) by (nonlinear_arith)
                    requires
                        decimal(b@, p as int, q + 1) == value * 10 + digit,
                        value > (usize::MAX - digit) / 10,
                        digit <= 9,
                ;
                lemma_digits_end_bound(b@, q + 1, end as int);
                assert(digits_end(b@, q as int, end as int) == digits_end(b@, q + 1, end as int));
                lemma_digits_run(b@, p as int, q as int, end as int);
                lemma_decimal_grows(b@, p as int, q + 1, digits_end(b@, p as int, end as int));
            }
            return None;
        }
        assert(value * 10 + digit <= usize::MAX) by (nonlinear_arith)
            requires
                value <= (usize::MAX - digit) / 10,
                digit <= 9,
        ;
        value = value * 10 + digit;
        q = q + 1;
    }
    if q == p {
        None
    } else {
        Some(value)
    }
}

proof fn lemma_digits_end_bound(b: Seq<u8>, p: int, end: int)
    requires
        0 <= p <= end,
    ensures
        p <= digits_end(b, p, end) <= end,
    decreases end - p,
{
    if p < end && 48 <= b[p] <= 57 {
        lemma_digits_end_bound(b, p + 1, end);
    }
}

/// Every byte from `p` up to where the digits end is a digit.
proof fn lemma_digits_run(b: Seq<u8>, p: int, q: int, end: int)
    requires
        0 <= p <= q <= end,
        digits_end(b, p, end) == digits_end(b, q, end),
        forall|k: int| p <= k < q ==> 48 <= #[trigger] b[k] <= 57,
    ensures
        forall|k: int| p <= k < digits_end(b, p, end) ==> 48 <= #[trigger] b[k] <= 57,
    decreases end - q,
{
    if q < end && 48 <= b[q] <= 57 {
        lemma_digits_run(b, p, q + 1, end);
    }
}

impl Grid {
    /// Reads a map from its text (see `map_text`): the grid that the text
    /// describes, or the first error in it.
    pub fn parse(map_contents: &str) -> (r: Result<Grid, MapError>)
        ensures
            match r {
                Ok(g) => map_text(map_contents.spec_bytes()) == Ok::<Board, MapError>(g@),
                Err(e) => map_text(map_contents.spec_bytes()) == Err::<Board, MapError>(e),
            },
            r is Ok <==> map_ok(map_contents.spec_bytes()),
            r matches Ok(g) ==> g@ == map_board(map_contents.spec_bytes()),
            r matches Ok(g) ==> g.wf() && g@.ids_unique() && g@.ids_below(g.grid@.len() as int),
    {
        let b = map_contents.as_bytes();
        let ghost bs = b@;
        let mut height: Option<usize> = None;
        let mut width: Option<usize> = None;
        let mut players: Option<usize> = None;
        let rows_w: [u8; 5] = [114, 111, 119, 115, 32];
        let cols_w: [u8; 5] = [99, 111, 108, 115, 32];
        let players_w: [u8; 8] = [112, 108, 97, 121, 101, 114, 115, 32];
        let row_w: [u8; 2] = [109, 32];
        assert(rows_w@ =~= rows_word());
        assert(cols_w@ =~= cols_word());
        assert(players_w@ =~= players_word());
        assert(row_w@ =~= row_word());
        let mut p: usize = 0;
        // First pass: the header.
        while p < b.len()
            invariant
                p <= b@.len(),
                bs == b@,
                rows_w@ == rows_word(),
                cols_w@ == cols_word(),
                players_w@ == players_word(),
                header_from(bs, 0, rows_word(), None) == header_from(bs, p as int, rows_word(), as_nat(height)),
                header_from(bs, 0, cols_word(), None) == header_from(bs, p as int, cols_word(), as_nat(width)),
                header_from(bs, 0, players_word(), None) == header_from(bs, p as int, players_word(), as_nat(players)),
            decreases b@.len() - p,
        {
            let end = line_end(b, p);
            let q = skip_blanks(b, p, end);
            if starts_with(b, q, end, rows_w.as_slice()) {
                let n = read_number(b, q + 5, end);
                if n.is_some() {
                    height = n;
                }
            }
            if starts_with(b, q, end, cols_w.as_slice()) {
                let n = read_number(b, q + 5, end);
                if n.is_some() {
                    width = n;
                }
            }
            if starts_with(b, q, end, players_w.as_slice()) {
                let n = read_number(b, q + 8, end);
                if n.is_some() {
                    players = n;
                }
            }
            p = if end < b.len() { end + 1 } else { end };
        }
        let (height, width, players) = match (height, width, players) {
            (Some(h), Some(w), Some(n)) => (h, w, n),
            _ => return Err(MapError::MissingHeader),
        };
        if height != 0 && width > usize::MAX / height {
            proof {
                let m = usize::MAX as int;
                let h = height as int;
                vstd::arithmetic::div_mod::lemma_fundamental_div_mod(m, h);
                vstd::arithmetic::div_mod::lemma_mod_pos_bound(m, h);
                let d = m / h;
                vstd::arithmetic::mul::lemma_mul_inequality(d + 1, width as int, h);
                vstd::arithmetic::mul::lemma_mul_is_distributive_add_other_way(h, d, 1);
                vstd::arithmetic::mul::lemma_mul_is_commutative(h, d);
                assert(width * height > usize::MAX);
            }
            return Err(MapError::TooLarge);
        }
        proof {
            if height != 0 {
                let m = usize::MAX as int;
                let h = height as int;
                vstd::arithmetic::div_mod::lemma_fundamental_div_mod(m, h);
                vstd::arithmetic::div_mod::lemma_mod_pos_bound(m, h);
                vstd::arithmetic::mul::lemma_mul_inequality(width as int, m / h, h);
                vstd::arithmetic::mul::lemma_mul_is_commutative(h, m / h);
                assert(width * height <= usize::MAX);
            } else {
                assert(width * height == 0) by (nonlinear_arith)
                    requires
                        height == 0,
                ;
            }
        }
        let mut grid = Grid::new(width, height, players);
        let ghost start = rows_from(bs, 0, 0, grid.grid@, height as int, width as int, players as int);
        proof {
            assert(grid.grid@ =~= Seq::new((width * height) as nat, |i: int| None::<Entity>));
            assert(map_text(bs) == board_of(start, width, height, players));
        }
        // Second pass: the rows.
        let mut row: usize = 0;
        p = 0;
        while p < b.len()
            invariant
                p <= b@.len(),
                bs == b@,
                row_w@ == row_word(),
                grid.wf(),
                grid.width == width,
                grid.height == height,
                grid.players == players,
                grid@.ids_unique(),
                forall|i: int|
                    0 <= i < grid.grid@.len() && (#[trigger] ant_in(grid.grid@[i])).is_some()
                        ==> ant_in(grid.grid@[i]).unwrap().id == i,
                start == rows_from(bs, p as int, row as int, grid.grid@, height as int, width as int, players as int),
                map_text(bs) == board_of(start, width, height, players),
                bs == map_contents.spec_bytes(),
            decreases b@.len() - p,
        {
            let end = line_end(b, p);
            let q = skip_blanks(b, p, end);
            if starts_with(b, q, end, row_w.as_slice()) {
                // The row's cells, without the blanks around them.
                let last = trim_blanks(b, q + 2, end);
                let first = skip_blanks(b, q + 2, last);
                if last > first && row >= height {
                    proof {
                        assert(start == Err::<Seq<Option<Entity>>, MapError>(MapError::OutOfBounds));
                    }
                    return Err(MapError::OutOfBounds);
                }
                if last - first > width {
                    proof {
                        assert(start == Err::<Seq<Option<Entity>>, MapError>(MapError::OutOfBounds));
                    }
                    return Err(MapError::OutOfBounds);
                }
                let ghost g_line = grid.grid@;
                let mut col: usize = 0;
                while first + col < last
                    invariant
                        first + col <= last <= b@.len(),
                        bs == b@,
                        last - first <= width,
                        last > first ==> row < height,
                        grid.wf(),
                        grid.width == width,
                        grid.height == height,
                        grid.players == players,
                        grid@.ids_unique(),
                        forall|i: int|
                            0 <= i < grid.grid@.len() && (#[trigger] ant_in(grid.grid@[i])).is_some()
                                ==> ant_in(grid.grid@[i]).unwrap().id == i,
                        fill_row(bs, first as int, last as int, row as int, 0, g_line, width as int, players as int)
                            == fill_row(bs, first as int, last as int, row as int, col as int, grid.grid@, width as int, players as int),
                        p < bs.len(),
                        row_w@ == row_word(),
                        end == next_break(bs, p as int),
                        q == skip_sp(bs, p as int, end as int),
                        starts(bs, q as int, end as int, row_word()),
                        last == trim_back(bs, q + 2, end as int),
                        first == skip_sp(bs, q + 2, last as int),
                        !(last > first && row >= height),
                        !(last - first > width),
                        start == rows_from(bs, p as int, row as int, g_line, height as int, width as int, players as int),
                        map_text(bs) == board_of(start, width, height, players),
                bs == map_contents.spec_bytes(),
                    decreases last - first - col,
                {
                    proof {
                        lemma_cell_index(width, height, row as int, col as int);
                    }
                    let id = (row * width + col) as u64;
                    let value = b[first + col];
                    match from_char(value as char, id) {
                        None => {
                            proof {
                                assert(fill_row(bs, first as int, last as int, row as int, col as int, grid.grid@, width as int, players as int)
                                    == Err::<Seq<Option<Entity>>, MapError>(MapError::InvalidCharacter));
                                assert(start == Err::<Seq<Option<Entity>>, MapError>(MapError::InvalidCharacter));
                            }
                            return Err(MapError::InvalidCharacter);
                        },
                        Some(None) => {},
                        Some(Some(e)) => {
                            let ok = match e {
                                Entity::Ant(a) => a.player < players,
                                Entity::Hill(h) => h.player < players,
                                _ => true,
                            };
                            if !ok {
                                proof {
                                    assert(fill_row(bs, first as int, last as int, row as int, col as int, grid.grid@, width as int, players as int)
                                        == Err::<Seq<Option<Entity>>, MapError>(MapError::InvalidPlayer));
                                    assert(start == Err::<Seq<Option<Entity>>, MapError>(MapError::InvalidPlayer));
                                }
                                return Err(MapError::InvalidPlayer);
                            }
                            let ghost before = grid.grid@;
                            grid.set(row, col, e);
                            proof {
                                let k = index_of(width, row as int, col as int);
                                assert forall|i: int|
                                    0 <= i < grid.grid@.len() && (#[trigger] ant_in(
                                        grid.grid@[i],
                                    )).is_some() implies ant_in(grid.grid@[i]).unwrap().id
                                    == i by {
                                    if i != k {
                                        assert(grid.grid@[i] == before[i]);
                                    }
                                }
                            }
                        },
                    }
                    col = col + 1;
                }
                if last > first {
                    row = row + 1;
                }
            }
            p = if end < b.len() { end + 1 } else { end };
        }
        proof {
            assert(map_text(bs) == Ok::<Board, MapError>(grid@));
        }
        Ok(grid)
    }
}

impl Board {
    /// The entry names a cell of the grid and only players of the map.
    pub open spec fn entry_ok(&self, t: (Entity, usize, usize)) -> bool {
        self.in_bounds(t.1 as int, t.2 as int) && entity_players_ok(Some(t.0), self.players)
    }
}

pub proof fn lemma_scan_entries(b: Board, n: int, p: spec_fn(Entity) -> bool)
    requires
        b.wf(),
        0 <= n <= b.cells.len(),
    ensures
        forall|k: int|
            0 <= k < scan(b.cells, b.width, n, p).len() ==> b.entry_ok(
                #[trigger] scan(b.cells, b.width, n, p)[k],
            ),
        forall|k: int|
            0 <= k < scan(b.cells, b.width, n, p).len() ==> b.cell(
                #[trigger] scan(b.cells, b.width, n, p)[k].1 as int,
                scan(b.cells, b.width, n, p)[k].2 as int,
            ) == Some(scan(b.cells, b.width, n, p)[k].0) && p(scan(b.cells, b.width, n, p)[k].0),
    decreases n,
{
    if n > 0 {
        lemma_scan_entries(b, n - 1, p);
        lemma_pos_in_bounds(b.width, b.height, n - 1);
        assert(entity_players_ok(b.cells[n - 1], b.players));
        let prev = scan(b.cells, b.width, n - 1, p);
        let cur = scan(b.cells, b.width, n, p);
        assert forall|k: int| 0 <= k < cur.len() implies #[trigger] b.entry_ok(cur[k]) by {
            if k < prev.len() {
                assert(cur[k] == prev[k]);
            }
        }
        assert forall|k: int| 0 <= k < cur.len() implies b.cell(#[trigger] cur[k].1 as int, cur[k].2 as int) == Some(cur[k].0) && p(cur[k].0) by {
            if k < prev.len() {
                assert(cur[k] == prev[k]);
            }
        }
    }
}

pub proof fn lemma_seen_in_row(b: Board, center: (usize, usize), r2: usize, i: int, c0: int, j: int)
    requires
        b.wf(),
        0 <= i < b.height,
        0 <= c0,
        j <= b.width,
    ensures
        forall|k: int|
            0 <= k < b.seen_in_row(center, r2, i, c0, j).len() ==> b.entry_ok(
                #[trigger] b.seen_in_row(center, r2, i, c0, j)[k],
            ),
    decreases j - c0,
{
    if j > c0 {
        lemma_seen_in_row(b, center, r2, i, c0, j - 1);
        lemma_cell_index(b.width, b.height, i, j - 1);
        assert(entity_players_ok(b.cells[index_of(b.width, i, j - 1)], b.players));
        let prev = b.seen_in_row(center, r2, i, c0, j - 1);
        let here = b.seen_at(center, r2, i, j - 1);
        assert forall|k: int| 0 <= k < here.len() implies #[trigger] b.entry_ok(here[k]) by {}
        assert forall|k: int| 0 <= k < (prev + here).len() implies #[trigger] b.entry_ok((prev + here)[k]) by {
            if k < prev.len() {
                assert((prev + here)[k] == prev[k]);
            } else {
                assert((prev + here)[k] == here[k - prev.len()]);
            }
        }
    }
}

pub proof fn lemma_seen_in_rows(
    b: Board,
    center: (usize, usize),
    r2: usize,
    r0: int,
    c0: int,
    c1: int,
    i: int,
)
    requires
        b.wf(),
        0 <= r0,
        i <= b.height,
        0 <= c0,
        c1 < b.width,
    ensures
        forall|k: int|
            0 <= k < b.seen_in_rows(center, r2, r0, c0, c1, i).len() ==> b.entry_ok(
                #[trigger] b.seen_in_rows(center, r2, r0, c0, c1, i)[k],
            ),
    decreases i - r0,
{
    if i > r0 {
        lemma_seen_in_rows(b, center, r2, r0, c0, c1, i - 1);
        lemma_seen_in_row(b, center, r2, i - 1, c0, c1 + 1);
        let prev = b.seen_in_rows(center, r2, r0, c0, c1, i - 1);
        let here = b.seen_in_row(center, r2, i - 1, c0, c1 + 1);
        assert forall|k: int| 0 <= k < (prev + here).len() implies #[trigger] b.entry_ok((prev + here)[k]) by {
            if k < prev.len() {
                assert((prev + here)[k] == prev[k]);
            } else {
                assert(here[k - prev.len()] == (prev + here)[k]);
            }
        }
    }
}

/// Every entry of a field of vision names a cell of the grid and only the
/// map's players.
pub proof fn lemma_fov_entries(b: Board, center: (usize, usize), r2: usize)
    requires
        b.wf(),
        b.in_bounds(center.0 as int, center.1 as int),
    ensures
        forall|k: int| 0 <= k < b.fov(center, r2).len() ==> b.entry_ok(#[trigger] b.fov(center, r2)[k]),
{
    let rad = root(r2 as int);
    let r0 = if center.0 >= rad { center.0 - rad } else { 0 };
    let c0 = if center.1 >= rad { center.1 - rad } else { 0 };
    let r1 = if center.0 + rad <= b.height - 1 { center.0 + rad } else { b.height - 1 };
    let c1 = if center.1 + rad <= b.width - 1 { center.1 + rad } else { b.width - 1 };
    lemma_seen_in_rows(b, center, r2, r0, c0, c1, r1 + 1);
}

/// Every cell that `land` lists is empty and on the grid.
pub proof fn lemma_land_entries(b: Board, n: int)
    requires
        b.wf(),
        0 <= n <= b.cells.len(),
    ensures
        forall|k: int|
            0 <= k < land_scan(b.cells, b.width, n).len() ==> b.in_bounds(
                #[trigger] land_scan(b.cells, b.width, n)[k].0 as int,
                land_scan(b.cells, b.width, n)[k].1 as int,
            ) && b.cell(land_scan(b.cells, b.width, n)[k].0 as int, land_scan(b.cells, b.width, n)[k].1 as int).is_none(),
    decreases n,
{
    if n > 0 {
        lemma_land_entries(b, n - 1);
        lemma_pos_in_bounds(b.width, b.height, n - 1);
        let prev = land_scan(b.cells, b.width, n - 1);
        let cur = land_scan(b.cells, b.width, n);
        assert forall|k: int| 0 <= k < cur.len() implies b.in_bounds(#[trigger] cur[k].0 as int, cur[k].1 as int)
            && b.cell(cur[k].0 as int, cur[k].1 as int).is_none() by {
            if k < prev.len() {
                assert(cur[k] == prev[k]);
            }
        }
    }
}

impl Board {
    /// The cells that `land_around` lists are empty and on the grid.
    pub proof fn lemma_land_around_entries(&self, r: int, c: int, k: int)
        requires
            self.wf(),
            k <= 9,
        ensures
            forall|t: int|
                0 <= t < self.land_around_upto(r, c, k).len() ==> self.in_bounds(
                    #[trigger] self.land_around_upto(r, c, k)[t].0 as int,
                    self.land_around_upto(r, c, k)[t].1 as int,
                ) && self.cell(self.land_around_upto(r, c, k)[t].0 as int, self.land_around_upto(r, c, k)[t].1 as int).is_none()
                    && r - 1 <= self.land_around_upto(r, c, k)[t].0 <= r + 1
                    && c - 1 <= self.land_around_upto(r, c, k)[t].1 <= c + 1,
        decreases k,
    {
        if k > 0 {
            self.lemma_land_around_entries(r, c, k - 1);
            let prev = self.land_around_upto(r, c, k - 1);
            let cur = self.land_around_upto(r, c, k);
            assert forall|t: int| 0 <= t < cur.len() implies self.in_bounds(#[trigger] cur[t].0 as int, cur[t].1 as int)
                && self.cell(cur[t].0 as int, cur[t].1 as int).is_none()
                && r - 1 <= cur[t].0 <= r + 1 && c - 1 <= cur[t].1 <= c + 1 by {
                if t < prev.len() {
                    assert(cur[t] == prev[t]);
                }
            }
        }
    }
}

impl Grid {
    /// A copy of the grid.
    pub fn copy(&self) -> (r: Grid)
        ensures
            r@ == self@,
    {
        let mut grid: Vec<Option<Entity>> = Vec::new();
        let mut k: usize = 0;
        while k < self.grid.len()
            invariant
                k <= self.grid@.len(),
                grid@ == self.grid@.subrange(0, k as int),
            decreases self.grid@.len() - k,
        {
            grid.push(self.grid[k]);
            proof {
                assert(grid@ =~= self.grid@.subrange(0, k + 1));
            }
            k = k + 1;
        }
        proof {
            assert(grid@ =~= self.grid@);
        }
        Grid { width: self.width, height: self.height, players: self.players, grid }
    }
}

/// `land` lists each empty cell once.
pub proof fn lemma_land_distinct(b: Board, n: int)
    requires
        b.wf(),
        0 <= n <= b.cells.len(),
    ensures
        forall|k: int|
            0 <= k < land_scan(b.cells, b.width, n).len() ==> 0 <= index_of(
                b.width,
                #[trigger] land_scan(b.cells, b.width, n)[k].0 as int,
                land_scan(b.cells, b.width, n)[k].1 as int,
            ) < n,
        land_scan(b.cells, b.width, n).no_duplicates(),
    decreases n,
{
    if n > 0 {
        lemma_land_distinct(b, n - 1);
        lemma_pos_in_bounds(b.width, b.height, n - 1);
        let prev = land_scan(b.cells, b.width, n - 1);
        let cur = land_scan(b.cells, b.width, n);
        assert forall|k: int| 0 <= k < cur.len() implies 0 <= index_of(b.width, #[trigger] cur[k].0 as int, cur[k].1 as int) < n by {
            if k < prev.len() {
                assert(cur[k] == prev[k]);
            }
        }
        assert forall|k: int, l: int| 0 <= k < cur.len() && 0 <= l < cur.len() && k != l implies cur[k] != cur[l] by {
            if k < prev.len() && l < prev.len() {
                assert(cur[k] == prev[k]);
                assert(cur[l] == prev[l]);
            } else if k < prev.len() {
                assert(cur[k] == prev[k]);
                assert(0 <= index_of(b.width, prev[k].0 as int, prev[k].1 as int) < n - 1);
            } else {
                assert(cur[l] == prev[l]);
                assert(0 <= index_of(b.width, prev[l].0 as int, prev[l].1 as int) < n - 1);
            }
        }
    }
}

/// A scan lists each cell at most once.
pub proof fn lemma_scan_distinct(b: Board, n: int, p: spec_fn(Entity) -> bool)
    requires
        b.wf(),
        0 <= n <= b.cells.len(),
    ensures
        forall|k: int|
            0 <= k < scan(b.cells, b.width, n, p).len() ==> 0 <= index_of(
                b.width,
                #[trigger] scan(b.cells, b.width, n, p)[k].1 as int,
                scan(b.cells, b.width, n, p)[k].2 as int,
            ) < n,
        positions(scan(b.cells, b.width, n, p)).no_duplicates(),
    decreases n,
{
    if n > 0 {
        lemma_scan_distinct(b, n - 1, p);
        lemma_pos_in_bounds(b.width, b.height, n - 1);
        let prev = scan(b.cells, b.width, n - 1, p);
        let cur = scan(b.cells, b.width, n, p);
        assert forall|k: int| 0 <= k < cur.len() implies 0 <= index_of(b.width, #[trigger] cur[k].1 as int, cur[k].2 as int) < n by {
            if k < prev.len() {
                assert(cur[k] == prev[k]);
            }
        }
        let ps = positions(cur);
        assert forall|k: int, l: int| 0 <= k < ps.len() && 0 <= l < ps.len() && k != l implies ps[k] != ps[l] by {
            if k < prev.len() && l < prev.len() {
                assert(cur[k] == prev[k]);
                assert(cur[l] == prev[l]);
                assert(positions(prev)[k] != positions(prev)[l]);
            } else if k < prev.len() {
                assert(cur[k] == prev[k]);
                assert(0 <= index_of(b.width, prev[k].1 as int, prev[k].2 as int) < n - 1);
            } else {
                assert(cur[l] == prev[l]);
                assert(0 <= index_of(b.width, prev[l].1 as int, prev[l].2 as int) < n - 1);
            }
        }
    }
}

impl Board {
    /// `land_around` lists each cell once.
    pub proof fn lemma_land_around_distinct(&self, r: int, c: int, k: int)
        requires
            0 <= k <= 9,
        ensures
            forall|t: int|
                0 <= t < self.land_around_upto(r, c, k).len() ==> 0 <= (#[trigger] self.land_around_upto(r, c, k)[t].0 - r + 1) * 3
                    + (self.land_around_upto(r, c, k)[t].1 - c + 1) < k,
            self.land_around_upto(r, c, k).no_duplicates(),
        decreases k,
    {
        if k > 0 {
            self.lemma_land_around_distinct(r, c, k - 1);
            let prev = self.land_around_upto(r, c, k - 1);
            let cur = self.land_around_upto(r, c, k);
            assert forall|t: int| 0 <= t < cur.len() implies 0 <= (#[trigger] cur[t].0 - r + 1) * 3 + (cur[t].1 - c + 1) < k by {
                if t < prev.len() {
                    assert(cur[t] == prev[t]);
                }
            }
            assert forall|x: int, y: int| 0 <= x < cur.len() && 0 <= y < cur.len() && x != y implies cur[x] != cur[y] by {
                if x < prev.len() && y < prev.len() {
                    assert(cur[x] == prev[x]);
                    assert(cur[y] == prev[y]);
                } else if x < prev.len() {
                    assert(cur[x] == prev[x]);
                    assert(0 <= (prev[x].0 - r + 1) * 3 + (prev[x].1 - c + 1) < k - 1);
                } else {
                    assert(cur[y] == prev[y]);
                    assert(0 <= (prev[y].0 - r + 1) * 3 + (prev[y].1 - c + 1) < k - 1);
                }
            }
        }
    }
}

/// A change that makes no new ant and keeps the identifier of every ant that
/// stays keeps the identifiers unique and below any bound they were below.
pub proof fn lemma_ids_kept(before: Board, after: Board)
    requires
        after.cells.len() == before.cells.len(),
        forall|j: int|
            0 <= j < before.cells.len() && (#[trigger] ant_in(after.cells[j])).is_some() ==> ant_in(
                before.cells[j],
            ).is_some() && ant_in(after.cells[j]).unwrap().id == ant_in(before.cells[j]).unwrap().id,
    ensures
        before.ids_unique() ==> after.ids_unique(),
        forall|n: int| before.ids_below(n) ==> #[trigger] after.ids_below(n),
{
    let len = before.cells.len();
    if before.ids_unique() {
        assert forall|x: int, y: int|
            0 <= x < len && 0 <= y < len && x != y && (#[trigger] ant_in(after.cells[x])).is_some()
                && (#[trigger] ant_in(after.cells[y])).is_some() implies ant_in(after.cells[x]).unwrap().id
            != ant_in(after.cells[y]).unwrap().id by {
            assert(ant_in(before.cells[x]).is_some());
            assert(ant_in(before.cells[y]).is_some());
        }
    }
    assert forall|n: int| before.ids_below(n) implies #[trigger] after.ids_below(n) by {
        assert forall|x: int| 0 <= x < len && (#[trigger] ant_in(after.cells[x])).is_some() implies ant_in(
            after.cells[x],
        ).unwrap().id < n by {
            assert(ant_in(before.cells[x]).is_some());
        }
    }
}

} // verus!
