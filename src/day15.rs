use crate::text::{chars_of, lemma_trim_of, pieces, split, trim_bounds, trim_of, views};
use core::cmp::Ordering;
use vstd::prelude::*;

verus! {

/// A grid location as `(column, row)`.
pub type Location = (usize, usize);

/// `a` comes strictly before `b` in reading order: row first, then column.
pub open spec fn reads_before(a: Location, b: Location) -> bool {
    a.1 < b.1 || (a.1 == b.1 && a.0 < b.0)
}

/// Compares two locations in reading order.
pub fn reading_order(lhs: &Location, rhs: &Location) -> (r: Ordering)
    ensures
        (r == Ordering::Less) <==> reads_before(*lhs, *rhs),
        (r == Ordering::Greater) <==> reads_before(*rhs, *lhs),
        (r == Ordering::Equal) <==> *lhs == *rhs,
{
    if lhs.1 < rhs.1 {
        Ordering::Less
    } else if lhs.1 > rhs.1 {
        Ordering::Greater
    } else if lhs.0 < rhs.0 {
        Ordering::Less
    } else if lhs.0 > rhs.0 {
        Ordering::Greater
    } else {
        Ordering::Equal
    }
}

/// Reading order is a strict total order: of two distinct locations exactly
/// one comes first, no location comes before itself, and the order is
/// transitive.
pub proof fn reading_order_is_total(a: Location, b: Location, c: Location)
    ensures
        a != b ==> (reads_before(a, b) != reads_before(b, a)),
        !reads_before(a, a),
        reads_before(a, b) && reads_before(b, c) ==> reads_before(a, c),
{
}

#[derive(PartialEq, Eq, Structural, Clone, Copy, Debug)]
pub enum UnitType {
    Elf,
    Goblin,
}

#[derive(Clone, Copy, Debug)]
pub struct Unit {
    pub unit_type: UnitType,
    pub health: usize,
    pub strength: usize,
    pub is_dead: bool,
    pub location: Location,
}

pub const STARTING_HEALTH: usize = 200;

pub const DEFAULT_STRENGTH: usize = 3;

impl Unit {
    /// A fresh unit with full health and the default attack power.
    pub fn new(unit_type: UnitType, location: Location) -> (r: Unit)
        ensures
            r.unit_type == unit_type,
            r.health == STARTING_HEALTH,
            r.strength == DEFAULT_STRENGTH,
            !r.is_dead,
            r.location == location,
    {
        Unit { unit_type, health: STARTING_HEALTH, strength: DEFAULT_STRENGTH, is_dead: false, location }
    }

    pub fn to_char(&self) -> (r: char)
        ensures
            r == (if self.unit_type == UnitType::Goblin { 'G' } else { 'E' }),
    {
        match self.unit_type {
            UnitType::Goblin => 'G',
            UnitType::Elf => 'E',
        }
    }

    /// Health after taking `damage`, floored at zero.
    pub open spec fn health_after(health: usize, damage: usize) -> usize {
        if damage >= health { 0 } else { (health - damage) as usize }
    }

    /// Applies `damage`; returns whether the unit died of it.
    pub fn take_damage(&mut self, damage: usize) -> (died: bool)
        ensures
            final(self).health == Unit::health_after(old(self).health, damage),
            final(self).is_dead == (old(self).is_dead || final(self).health == 0),
            died == (final(self).health == 0),
            final(self).unit_type == old(self).unit_type,
            final(self).strength == old(self).strength,
            final(self).location == old(self).location,
    {
        if damage >= self.health {
            self.health = 0;
            self.is_dead = true;
            true
        } else {
            self.health = self.health - damage;
            false
        }
    }

    pub fn is_alive(&self) -> (r: bool)
        ensures
            r == !self.is_dead,
    {
        !self.is_dead
    }

    pub fn is_dead(&self) -> (r: bool)
        ensures
            r == self.is_dead,
    {
        self.is_dead
    }
}


/// What a grid cell holds; an occupied cell names its unit by index.
#[derive(PartialEq, Eq, Structural, Clone, Copy, Debug)]
pub enum Position {
    Wall,
    Open,
    Occupied(usize),
}

impl Position {
    /// The terrain a map glyph stands for; a unit glyph yields the faction
    /// that the new unit belongs to.
    pub fn parse(input: char) -> (r: Option<(Position, Option<UnitType>)>)
        ensures
            r == glyph(input),
    {
        match input {
            '#' => Some((Position::Wall, None)),
            '.' => Some((Position::Open, None)),
            'G' => Some((Position::Open, Some(UnitType::Goblin))),
            'E' => Some((Position::Open, Some(UnitType::Elf))),
            _ => None,
        }
    }
}

/// The meaning of a map glyph: its terrain and the unit standing on it.
pub open spec fn glyph(c: char) -> Option<(Position, Option<UnitType>)> {
    if c == '#' {
        Some((Position::Wall, None))
    } else if c == '.' {
        Some((Position::Open, None))
    } else if c == 'G' {
        Some((Position::Open, Some(UnitType::Goblin)))
    } else if c == 'E' {
        Some((Position::Open, Some(UnitType::Elf)))
    } else {
        None
    }
}

/// Two locations are orthogonal neighbours.
pub open spec fn adjacent(a: Location, b: Location) -> bool {
    (a.0 == b.0 && (a.1 + 1 == b.1 || b.1 + 1 == a.1))
        || (a.1 == b.1 && (a.0 + 1 == b.0 || b.0 + 1 == a.0))
}

/// The battle: a row-major grid of cells and an arena of units. The grid is
/// the index from location to unit; each unit records its own location.
pub struct GameState {
    pub width: usize,
    pub height: usize,
    pub grid: Vec<Position>,
    pub units: Vec<Unit>,
}

impl GameState {
    pub open spec fn in_bounds(&self, l: Location) -> bool {
        l.0 < self.width && l.1 < self.height
    }

    pub open spec fn index_of(&self, l: Location) -> int {
        l.1 * self.width + l.0
    }

    pub open spec fn cell(&self, l: Location) -> Position {
        self.grid@[self.index_of(l)]
    }

    pub open spec fn is_open(&self, l: Location) -> bool {
        self.in_bounds(l) && self.cell(l) == Position::Open
    }

    pub open spec fn is_occupied(&self, l: Location) -> bool {
        self.in_bounds(l) && self.cell(l) is Occupied
    }

    /// The unit standing at `l`, if any.
    pub open spec fn occupant(&self, l: Location) -> int {
        self.cell(l)->Occupied_0 as int
    }

    /// The grid and the unit arena agree: every living unit stands on the
    /// cell that names it, every occupied cell names a living unit standing
    /// there, and a unit is dead exactly when its health is gone.
    pub open spec fn wf(&self) -> bool {
        &&& self.grid@.len() == self.width * self.height
        &&& self.units@.len() <= usize::MAX / STARTING_HEALTH
        &&& forall|i: int|
            0 <= i < self.units@.len() ==> {
                let u = #[trigger] self.units@[i];
                &&& u.is_dead <==> u.health == 0
                &&& u.health <= STARTING_HEALTH
                &&& u.strength >= 1
                &&& !u.is_dead ==> self.in_bounds(u.location) && self.cell(u.location)
                    == Position::Occupied(i as usize)
            }
        &&& forall|c: int|
            0 <= c < self.grid@.len() ==> match #[trigger] self.grid@[c] {
                Position::Occupied(i) => {
                    &&& i < self.units@.len()
                    &&& !self.units@[i as int].is_dead
                    &&& self.index_of(self.units@[i as int].location) == c
                },
                _ => true,
            }
    }

    /// The locations of all occupied cells.
    pub open spec fn occupied_locations(&self) -> Set<Location> {
        Set::new(|l: Location| self.is_occupied(l))
    }

    /// The locations at which the registry holds a living unit.
    pub open spec fn registry_keys(&self) -> Set<Location> {
        Set::new(
            |l: Location|
                exists|i: int|
                    0 <= i < self.units@.len() && !(#[trigger] self.units@[i]).is_dead
                        && self.units@[i].location == l,
        )
    }

    /// The occupied cells of the grid are exactly the locations of the
    /// living units.
    pub proof fn occupancy_matches_registry(&self)
        requires
            self.wf(),
        ensures
            self.occupied_locations() == self.registry_keys(),
    {
        assert forall|l: Location| self.is_occupied(l) implies #[trigger] self.registry_keys().contains(l) by {
            lemma_index_in_grid(self.width, self.height, l);
            let i = self.occupant(l);
            let c = self.index_of(l);
            assert(self.grid@[c] == Position::Occupied(i as usize));
            lemma_index_injective(self.width, self.height, l, self.units@[i].location);
        };
        assert forall|l: Location| #[trigger] self.registry_keys().contains(l) implies self.is_occupied(l) by {
            let i = choose|i: int|
                0 <= i < self.units@.len() && !(#[trigger] self.units@[i]).is_dead
                    && self.units@[i].location == l;
            assert(!self.units@[i].is_dead);
        };
        assert(self.occupied_locations() =~= self.registry_keys());
    }
}

impl GameState {
    /// The cell at an in-bounds location.
    pub fn at(&self, l: Location) -> (r: Position)
        requires
            self.grid@.len() == self.width * self.height,
            self.in_bounds(l),
        ensures
            r == self.cell(l),
    {
        let n = self.grid.len();
        proof {
            lemma_index_in_grid(self.width, self.height, l);
        }
        self.grid[l.1 * self.width + l.0]
    }

    /// A neighbour is kept by `in_range` when it is in bounds and open, or
    /// occupied and occupied cells are asked for too.
    pub open spec fn passable(&self, l: Location, only_open: bool) -> bool {
        self.in_bounds(l) && (self.cell(l) == Position::Open || (!only_open && self.cell(l) is Occupied))
    }

    fn push_if_passable(&self, r: &mut Vec<Location>, l: Location, only_open: bool)
        requires
            self.grid@.len() == self.width * self.height,
            self.in_bounds(l),
        ensures
            final(r)@ == (if self.passable(l, only_open) {
                old(r)@.push(l)
            } else {
                old(r)@
            }),
    {
        let p = self.at(l);
        if p == Position::Open || (!only_open && p != Position::Wall) {
            r.push(l);
        }
    }

    /// What `in_range` yields: every kept neighbour, each once, and nothing
    /// else.
    pub proof fn lemma_neighbours(&self, loc: Location, only_open: bool)
        ensures
            self.neighbours(loc, only_open).no_duplicates(),
            forall|i: int|
                0 <= i < self.neighbours(loc, only_open).len() ==> adjacent(
                    loc,
                    #[trigger] self.neighbours(loc, only_open)[i],
                ) && self.passable(self.neighbours(loc, only_open)[i], only_open),
            forall|l: Location|
                adjacent(loc, l) && self.passable(l, only_open) ==> #[trigger] self.neighbours(
                    loc,
                    only_open,
                ).contains(l),
    {
        let (x, y) = loc;
        let d = self.keep_if(y + 1 < self.height, (x, (y + 1) as usize), only_open);
        let rt = self.keep_if(x + 1 < self.width, ((x + 1) as usize, y), only_open);
        let u = self.keep_if(y > 0, (x, (y - 1) as usize), only_open);
        let lf = self.keep_if(x > 0, ((x - 1) as usize, y), only_open);
        let n = self.neighbours(loc, only_open);
        assert(n == d + rt + u + lf);
        let o1 = d.len() as int;
        let o2 = o1 + rt.len();
        let o3 = o2 + u.len();
        assert forall|i: int| 0 <= i < n.len() implies adjacent(loc, #[trigger] n[i]) && self.passable(n[i], only_open) by {
            if i < o1 {
                assert(n[i] == d[i]);
            } else if i < o2 {
                assert(n[i] == rt[i - o1]);
            } else if i < o3 {
                assert(n[i] == u[i - o2]);
            } else {
                assert(n[i] == lf[i - o3]);
            }
        };
        assert forall|i: int, j: int| 0 <= i < j < n.len() implies n[i] != n[j] by {
            let pi = if i < o1 { 0int } else if i < o2 { 1 } else if i < o3 { 2 } else { 3 };
            let pj = if j < o1 { 0int } else if j < o2 { 1 } else if j < o3 { 2 } else { 3 };
            if i < o1 { assert(n[i] == d[i]); } else if i < o2 { assert(n[i] == rt[i - o1]); } else if i < o3 { assert(n[i] == u[i - o2]); } else { assert(n[i] == lf[i - o3]); }
            if j < o1 { assert(n[j] == d[j]); } else if j < o2 { assert(n[j] == rt[j - o1]); } else if j < o3 { assert(n[j] == u[j - o2]); } else { assert(n[j] == lf[j - o3]); }
            assert(pi != pj);
        };
        assert forall|l: Location| adjacent(loc, l) && self.passable(l, only_open) implies #[trigger] n.contains(l) by {
            if l == (x, (y + 1) as usize) && y + 1 < self.height {
                assert(n[0] == l);
            } else if l == ((x + 1) as usize, y) && x + 1 < self.width {
                assert(n[o1] == l);
            } else if l == (x, (y - 1) as usize) && y > 0 {
                assert(n[o2] == l);
            } else {
                assert(n[o3] == l);
            }
        };
    }

    /// The in-bounds orthogonal neighbours of `location` that are open, or
    /// occupied as well when `only_open` is false; each once, in the order
    /// below, right, above, left.
    pub fn in_range(&self, location: &Location, only_open: bool) -> (r: Vec<Location>)
        requires
            self.grid@.len() == self.width * self.height,
        ensures
            r@.no_duplicates(),
            forall|i: int|
                0 <= i < r@.len() ==> adjacent(*location, #[trigger] r@[i]) && self.passable(
                    r@[i],
                    only_open,
                ),
            forall|l: Location|
                adjacent(*location, l) && self.passable(l, only_open) ==> #[trigger] r@.contains(l),
            r@ == self.neighbours(*location, only_open),
    {
        let (x, y) = *location;
        let mut r: Vec<Location> = Vec::new();
        let ghost (down, right, up, left) = (
            self.keep_if(y + 1 < self.height, (x, (y + 1) as usize), only_open),
            self.keep_if(x + 1 < self.width, ((x + 1) as usize, y), only_open),
            self.keep_if(y > 0, (x, (y - 1) as usize), only_open),
            self.keep_if(x > 0, ((x - 1) as usize, y), only_open),
        );
        if y < usize::MAX && y + 1 < self.height && x < self.width {
            self.push_if_passable(&mut r, (x, y + 1), only_open);
        }
        assert(r@ =~= down);
        if x < usize::MAX && x + 1 < self.width && y < self.height {
            self.push_if_passable(&mut r, (x + 1, y), only_open);
        }
        assert(r@ =~= down + right);
        if y > 0 && y - 1 < self.height && x < self.width {
            self.push_if_passable(&mut r, (x, y - 1), only_open);
        }
        assert(r@ =~= down + right + up);
        if x > 0 && x - 1 < self.width && y < self.height {
            self.push_if_passable(&mut r, (x - 1, y), only_open);
        }
        assert(r@ =~= down + right + up + left);
        proof {
            self.lemma_neighbours(*location, only_open);
        }
        r
    }

    /// `[l]` when `ok` holds and `l` is kept by `in_range`; empty otherwise.
    pub open spec fn keep_if(&self, ok: bool, l: Location, only_open: bool) -> Seq<Location> {
        if ok && self.passable(l, only_open) {
            seq![l]
        } else {
            seq![]
        }
    }

    /// The neighbours `in_range` yields, in its order: below, right, above,
    /// left.
    pub open spec fn neighbours(&self, l: Location, only_open: bool) -> Seq<Location> {
        let (x, y) = l;
        self.keep_if(y + 1 < self.height, (x, (y + 1) as usize), only_open) + self.keep_if(
            x + 1 < self.width,
            ((x + 1) as usize, y),
            only_open,
        ) + self.keep_if(y > 0, (x, (y - 1) as usize), only_open) + self.keep_if(
            x > 0,
            ((x - 1) as usize, y),
            only_open,
        )
    }

    /// A living unit of another faction than `faction` stands at `l`.
    pub open spec fn is_enemy_at(&self, l: Location, faction: UnitType) -> bool {
        self.is_occupied(l) && self.units@[self.occupant(l)].unit_type != faction
    }

    pub open spec fn health_at(&self, l: Location) -> usize {
        self.units@[self.occupant(l)].health
    }

    /// The enemy at `a` is attacked before the one at `b`: lower health
    /// first, then reading order.
    pub open spec fn attacked_first(&self, a: Location, b: Location) -> bool {
        self.health_at(a) < self.health_at(b) || (self.health_at(a) == self.health_at(b)
            && reads_before(a, b))
    }

    /// The enemy that a unit of faction `faction` at `unit_location` attacks:
    /// among the adjacent living enemies, the one with the least health and
    /// then the first in reading order; with its index in the arena.
    pub fn prioritized_enemy(&self, faction: UnitType, unit_location: &Location) -> (r: Option<
        (Location, usize),
    >)
        requires
            self.wf(),
        ensures
            r is None <==> !exists|l: Location|
                adjacent(*unit_location, l) && #[trigger] self.is_enemy_at(l, faction),
            r matches Some((l, i)) ==> {
                &&& adjacent(*unit_location, l)
                &&& self.is_enemy_at(l, faction)
                &&& i == self.occupant(l)
                &&& forall|m: Location|
                    adjacent(*unit_location, m) && #[trigger] self.is_enemy_at(m, faction) && m
                        != l ==> self.attacked_first(l, m)
            },
    {
        let candidates = self.in_range(unit_location, false);
        let mut best: Option<(Location, usize)> = None;
        let mut k: usize = 0;
        while k < candidates.len()
            invariant
                self.wf(),
                0 <= k <= candidates@.len(),
                candidates@.no_duplicates(),
                forall|i: int|
                    0 <= i < candidates@.len() ==> adjacent(*unit_location, #[trigger] candidates@[i])
                        && self.passable(candidates@[i], false),
                forall|l: Location|
                    adjacent(*unit_location, l) && self.passable(l, false)
                        ==> #[trigger] candidates@.contains(l),
                best is None ==> forall|j: int|
                    0 <= j < k ==> !self.is_enemy_at(#[trigger] candidates@[j], faction),
                best matches Some((l, i)) ==> {
                    &&& adjacent(*unit_location, l)
                    &&& self.is_enemy_at(l, faction)
                    &&& i == self.occupant(l)
                    &&& exists|j: int| 0 <= j < k && candidates@[j] == l
                    &&& forall|j: int|
                        0 <= j < k && self.is_enemy_at(#[trigger] candidates@[j], faction)
                            && candidates@[j] != l ==> self.attacked_first(l, candidates@[j])
                },
            decreases candidates@.len() - k,
        {
            let l = candidates[k];
            if let Position::Occupied(i) = self.at(l) {
                proof {
                    lemma_index_in_grid(self.width, self.height, l);
                }
                let enemy = self.units[i];
                if enemy.unit_type != faction {
                    match best {
                        None => {
                            best = Some((l, i));
                        },
                        Some((bl, bi)) => {
                            proof {
                                lemma_index_in_grid(self.width, self.height, bl);
                                assert(self.grid@[self.index_of(bl)] is Occupied);
                            }
                            let bh = self.units[bi].health;
                            if enemy.health < bh || (enemy.health == bh && matches!(
                                reading_order(&l, &bl),
                                Ordering::Less
                            )) {
                                best = Some((l, i));
                                proof {
                                    assert forall|j: int|
                                        0 <= j < k + 1 && self.is_enemy_at(
                                            #[trigger] candidates@[j],
                                            faction,
                                        ) && candidates@[j] != l implies self.attacked_first(
                                        l,
                                        candidates@[j],
                                    ) by {
                                        if candidates@[j] != bl {
                                            assert(self.attacked_first(bl, candidates@[j]));
                                        }
                                    };
                                }
                            }
                        },
                    }
                }
            }
            k = k + 1;
        }
        proof {
            if best is None {
                assert forall|l: Location|
                    adjacent(*unit_location, l) implies !#[trigger] self.is_enemy_at(l, faction) by {
                    if self.is_enemy_at(l, faction) {
                        assert(candidates@.contains(l));
                    }
                };
            }
            if let Some((bl, bi)) = best {
                assert forall|m: Location|
                    adjacent(*unit_location, m) && #[trigger] self.is_enemy_at(m, faction) && m
                        != bl implies self.attacked_first(bl, m) by {
                    assert(candidates@.contains(m));
                    let j = choose|j: int| 0 <= j < candidates@.len() && candidates@[j] == m;
                    assert(self.is_enemy_at(candidates@[j], faction));
                };
            }
        }
        best
    }
}

/// The number of living units of faction `f`.
pub open spec fn count_alive(units: Seq<Unit>, f: UnitType) -> nat
    decreases units.len(),
{
    if units.len() == 0 {
        0
    } else {
        count_alive(units.drop_last(), f) + (if units.last().unit_type == f && !units.last().is_dead {
            1nat
        } else {
            0nat
        })
    }
}

/// The summed health of the living units of faction `f`.
pub open spec fn health_of(units: Seq<Unit>, f: UnitType) -> nat
    decreases units.len(),
{
    if units.len() == 0 {
        0
    } else {
        health_of(units.drop_last(), f) + (if units.last().unit_type == f && !units.last().is_dead {
            units.last().health as nat
        } else {
            0nat
        })
    }
}

pub proof fn lemma_count_bounded(units: Seq<Unit>, f: UnitType)
    ensures
        count_alive(units, f) <= units.len(),
    decreases units.len(),
{
    if units.len() > 0 {
        lemma_count_bounded(units.drop_last(), f);
    }
}

pub proof fn lemma_health_bounded(units: Seq<Unit>, f: UnitType)
    requires
        forall|i: int| 0 <= i < units.len() ==> (#[trigger] units[i]).health <= STARTING_HEALTH,
    ensures
        health_of(units, f) <= units.len() * STARTING_HEALTH,
    decreases units.len(),
{
    if units.len() > 0 {
        lemma_health_bounded(units.drop_last(), f);
        assert(units.drop_last().len() * STARTING_HEALTH + STARTING_HEALTH == units.len()
            * STARTING_HEALTH) by (nonlinear_arith)
            requires
                units.drop_last().len() + 1 == units.len(),
        ;
    }
}

/// The opposing faction.
pub open spec fn other(f: UnitType) -> UnitType {
    if f == UnitType::Elf { UnitType::Goblin } else { UnitType::Elf }
}

impl GameState {
    /// How many units of `combatant_type` are alive.
    pub fn num_combatants_alive(&self, combatant_type: UnitType) -> (r: usize)
        ensures
            r == count_alive(self.units@, combatant_type),
    {
        let mut n: usize = 0;
        let mut i: usize = 0;
        while i < self.units.len()
            invariant
                i <= self.units@.len(),
                n == count_alive(self.units@.subrange(0, i as int), combatant_type),
            decreases self.units@.len() - i,
        {
            proof {
                lemma_count_bounded(self.units@.subrange(0, i as int), combatant_type);
                assert(self.units@.subrange(0, i as int + 1).drop_last() =~= self.units@.subrange(
                    0,
                    i as int,
                ));
            }
            if self.units[i].unit_type == combatant_type && self.units[i].is_alive() {
                n = n + 1;
            }
            i = i + 1;
        }
        assert(self.units@.subrange(0, i as int) =~= self.units@);
        n
    }

    /// Whether any unit of another faction than `faction` is alive.
    pub fn enemies_alive(&self, faction: UnitType) -> (r: bool)
        ensures
            r == (count_alive(self.units@, other(faction)) > 0),
    {
        match faction {
            UnitType::Goblin => self.num_combatants_alive(UnitType::Elf) != 0,
            UnitType::Elf => self.num_combatants_alive(UnitType::Goblin) != 0,
        }
    }

    /// The summed health of the living units of `faction`.
    pub fn remaining_health_for_faction(&self, faction: UnitType) -> (r: usize)
        requires
            self.wf(),
        ensures
            r == health_of(self.units@, faction),
    {
        let mut n: usize = 0;
        let mut i: usize = 0;
        while i < self.units.len()
            invariant
                self.wf(),
                i <= self.units@.len(),
                n == health_of(self.units@.subrange(0, i as int), faction),
            decreases self.units@.len() - i,
        {
            proof {
                let s = self.units@.subrange(0, i as int + 1);
                assert(s.drop_last() =~= self.units@.subrange(0, i as int));
                assert(forall|j: int| 0 <= j < s.len() ==> #[trigger] s[j] == self.units@[j]);
                lemma_health_bounded(s, faction);
                assert(s.len() * STARTING_HEALTH <= self.units@.len() * STARTING_HEALTH) by (nonlinear_arith)
                    requires s.len() <= self.units@.len();
                assert(self.units@.len() * STARTING_HEALTH <= usize::MAX) by (nonlinear_arith)
                    requires self.units@.len() <= usize::MAX / STARTING_HEALTH;
            }
            let u = self.units[i];
            if u.unit_type == faction && u.is_alive() {
                n = n + u.health;
            }
            i = i + 1;
        }
        assert(self.units@.subrange(0, i as int) =~= self.units@);
        n
    }

    /// The locations of all living units of another faction than `faction`,
    /// in reading order.
    pub fn possible_targets(&self, faction: UnitType) -> (r: Vec<Location>)
        requires
            self.wf(),
        ensures
            forall|l: Location| #[trigger] r@.contains(l) <==> self.is_enemy_at(l, faction),
    {
        let mut r: Vec<Location> = Vec::new();
        let mut y: usize = 0;
        while y < self.height
            invariant
                self.wf(),
                y <= self.height,
                forall|l: Location| #[trigger] r@.contains(l) <==> (self.is_enemy_at(l, faction) && l.1 < y),
            decreases self.height - y,
        {
            let mut x: usize = 0;
            while x < self.width
                invariant
                    self.wf(),
                    y < self.height,
                    x <= self.width,
                    forall|l: Location| #[trigger] r@.contains(l) <==> (self.is_enemy_at(l, faction)
                        && (l.1 < y || (l.1 == y && l.0 < x))),
                decreases self.width - x,
            {
                let ghost old_r = r@;
                if let Position::Occupied(i) = self.at((x, y)) {
                    proof {
                        lemma_index_in_grid(self.width, self.height, (x, y));
                        assert(self.grid@[self.index_of((x, y))] is Occupied);
                    }
                    if self.units[i].unit_type != faction {
                        r.push((x, y));
                    }
                }
                proof {
                    assert forall|l: Location| #[trigger] r@.contains(l) <==> (self.is_enemy_at(l, faction)
                        && (l.1 < y || (l.1 == y && l.0 < x + 1))) by {
                        if old_r.contains(l) {
                            let j = choose|j: int| 0 <= j < old_r.len() && old_r[j] == l;
                            assert(r@[j] == l);
                        }
                        if l == (x, y) && self.is_enemy_at(l, faction) {
                            assert(r@[r@.len() - 1] == l);
                        }
                    };
                }
                x = x + 1;
            }
            y = y + 1;
        }
        r
    }
}

/// The number of cells without a distance.
pub open spec fn count_none(s: Seq<Option<usize>>) -> nat
    decreases s.len(),
{
    if s.len() == 0 {
        0
    } else {
        count_none(s.drop_last()) + (if s.last() is None { 1nat } else { 0nat })
    }
}

pub proof fn lemma_count_none_bounded(s: Seq<Option<usize>>)
    ensures
        count_none(s) <= s.len(),
    decreases s.len(),
{
    if s.len() > 0 {
        lemma_count_none_bounded(s.drop_last());
    }
}

pub proof fn lemma_count_none_fill(s: Seq<Option<usize>>, i: int, v: usize)
    requires
        0 <= i < s.len(),
        s[i] is None,
    ensures
        count_none(s.update(i, Some(v))) + 1 == count_none(s),
    decreases s.len(),
{
    let t = s.update(i, Some(v));
    if i == s.len() - 1 {
        assert(t.drop_last() =~= s.drop_last());
    } else {
        assert(t.drop_last() =~= s.drop_last().update(i, Some(v)));
        lemma_count_none_fill(s.drop_last(), i, v);
    }
}

impl GameState {
    /// A walk of at most `n` steps leads from `src` to `c` through open
    /// cells; `src` itself need not be open.
    pub open spec fn reach(&self, src: Location, c: Location, n: nat) -> bool
        decreases n,
    {
        if n == 0 {
            c == src
        } else {
            let m = (n - 1) as nat;
            self.reach(src, c, m) || (self.is_open(c) && (self.reach(src, (c.0, (c.1 + 1) as usize), m)
                || self.reach(src, ((c.0 + 1) as usize, c.1), m) || (c.1 > 0 && self.reach(
                src,
                (c.0, (c.1 - 1) as usize),
                m,
            )) || (c.0 > 0 && self.reach(src, ((c.0 - 1) as usize, c.1), m))))
        }
    }

    /// `d` is the length of a shortest walk from `src` to `c`.
    pub open spec fn shortest(&self, src: Location, c: Location, d: nat) -> bool {
        self.reach(src, c, d) && (d == 0 || !self.reach(src, c, (d - 1) as nat))
    }

    /// What a distance grid from `src` holds at an in-bounds location `l`:
    /// the shortest walk length, or nothing where no walk exists.
    pub open spec fn distance_entry(&self, src: Location, l: Location, e: Option<usize>) -> bool {
        match e {
            Some(d) => self.shortest(src, l, d as nat),
            None => forall|n: nat| !#[trigger] self.reach(src, l, n),
        }
    }

    pub proof fn lemma_reach_monotone(&self, src: Location, c: Location, n: nat, m: nat)
        requires
            self.reach(src, c, n),
            n <= m,
        ensures
            self.reach(src, c, m),
        decreases m,
    {
        if n < m {
            self.lemma_reach_monotone(src, c, n, (m - 1) as nat);
        }
    }

    pub proof fn lemma_reach_step(&self, src: Location, p: Location, c: Location, n: nat)
        requires
            self.reach(src, p, n),
            adjacent(p, c),
            self.is_open(c),
        ensures
            self.reach(src, c, n + 1),
    {
        let m = (n + 1) as nat;
        assert((m - 1) as nat == n);
    }

    pub proof fn lemma_reach_unfold(&self, src: Location, c: Location, n: nat) -> (p: Location)
        requires
            n > 0,
            self.reach(src, c, n),
            !self.reach(src, c, (n - 1) as nat),
        ensures
            self.is_open(c),
            adjacent(p, c),
            self.reach(src, p, (n - 1) as nat),
    {
        let m = (n - 1) as nat;
        if self.reach(src, (c.0, (c.1 + 1) as usize), m) {
            (c.0, (c.1 + 1) as usize)
        } else if self.reach(src, ((c.0 + 1) as usize, c.1), m) {
            ((c.0 + 1) as usize, c.1)
        } else if c.1 > 0 && self.reach(src, (c.0, (c.1 - 1) as usize), m) {
            (c.0, (c.1 - 1) as usize)
        } else {
            ((c.0 - 1) as usize, c.1)
        }
    }

    pub proof fn lemma_reach_in_bounds(&self, src: Location, c: Location, n: nat)
        requires
            self.reach(src, c, n),
            self.in_bounds(src),
        ensures
            self.in_bounds(c),
        decreases n,
    {
        if n > 0 && self.reach(src, c, (n - 1) as nat) {
            self.lemma_reach_in_bounds(src, c, (n - 1) as nat);
        }
    }

    /// Row-major indexing maps in-bounds locations one to one into the grid.
    pub proof fn lemma_indexing(&self)
        requires
            self.grid@.len() == self.width * self.height,
        ensures
            forall|l: Location| self.in_bounds(l) ==> 0 <= #[trigger] self.index_of(l) < self.grid@.len(),
            forall|a: Location, b: Location|
                self.in_bounds(a) && self.in_bounds(b) && #[trigger] self.index_of(a)
                    == #[trigger] self.index_of(b) ==> a == b,
    {
        assert forall|l: Location| self.in_bounds(l) implies 0 <= #[trigger] self.index_of(l) < self.grid@.len() by {
            lemma_index_in_grid(self.width, self.height, l);
        };
        assert forall|a: Location, b: Location|
            self.in_bounds(a) && self.in_bounds(b) && #[trigger] self.index_of(a)
                == #[trigger] self.index_of(b) implies a == b by {
            lemma_index_injective(self.width, self.height, a, b);
        };
    }

    /// The position of an in-bounds location in the row-major grid.
    pub fn index(&self, l: Location) -> (r: usize)
        requires
            self.grid@.len() == self.width * self.height,
            self.in_bounds(l),
        ensures
            r == self.index_of(l),
            r < self.grid@.len(),
    {
        let n = self.grid.len();
        proof {
            lemma_index_in_grid(self.width, self.height, l);
        }
        l.1 * self.width + l.0
    }

    /// Breadth-first distances from `from` over open cells: at each
    /// in-bounds location the length of a shortest walk from `from`, or
    /// `None` where the location cannot be reached.
    pub fn calculate_distance_grid(&self, from: &Location) -> (r: Vec<Option<usize>>)
        requires
            self.wf(),
            self.in_bounds(*from),
        ensures
            r@.len() == self.grid@.len(),
            forall|l: Location|
                self.in_bounds(l) ==> self.distance_entry(*from, l, #[trigger] r@[self.index_of(l)]),
    {
        let src = *from;
        let n = self.grid.len();
        proof {
            self.lemma_indexing();
        }
        let mut dist: Vec<Option<usize>> = Vec::new();
        while dist.len() < n
            invariant
                dist@.len() <= n,
                n == self.grid@.len(),
                forall|j: int| 0 <= j < dist@.len() ==> dist@[j] is None,
            decreases n - dist@.len(),
        {
            dist.push(None);
        }
        proof {
            lemma_index_in_grid(self.width, self.height, src);
        }
        let si = self.index(src);
        let ghost mut none: nat = count_none(dist@);
        proof {
            lemma_count_none_bounded(dist@);
            lemma_count_none_fill(dist@, si as int, 0);
        }
        dist.set(si, Some(0));
        proof {
            none = (none - 1) as nat;
            lemma_count_none_bounded(dist@);
            assert forall|l: Location| self.in_bounds(l) && #[trigger] dist@[self.index_of(l)] is Some implies l == src by {
                lemma_index_in_grid(self.width, self.height, l);
                if self.index_of(l) == self.index_of(src) {
                    lemma_index_injective(self.width, self.height, l, src);
                }
            };
        }
        let mut frontier: Vec<Location> = Vec::new();
        frontier.push(src);
        assert(frontier@[0] == src);
        let mut k: usize = 0;
        while frontier.len() > 0
            invariant
                self.wf(),
                self.in_bounds(src),
                n == self.grid@.len(),
                dist@.len() == n,
                none == count_none(dist@),
                k + none <= n,
                frontier@.len() > 0 ==> k + 1 + none <= n,
                forall|j: int| 0 <= j < frontier@.len() ==> self.in_bounds(#[trigger] frontier@[j]),
                forall|l: Location|
                    self.in_bounds(l) && (#[trigger] dist@[self.index_of(l)]) is Some ==> {
                        let d = dist@[self.index_of(l)]->Some_0;
                        d <= k && self.shortest(src, l, d as nat)
                    },
                forall|l: Location|
                    self.in_bounds(l) && #[trigger] self.reach(src, l, k as nat)
                        ==> dist@[self.index_of(l)] is Some,
                forall|l: Location|
                    self.in_bounds(l) ==> ((#[trigger] dist@[self.index_of(l)] == Some(k))
                        <==> frontier@.contains(l)),
            decreases none + frontier@.len(),
        {
            proof {
                self.lemma_indexing();
                lemma_count_none_bounded(dist@);
            }
            let mut next: Vec<Location> = Vec::new();
            let ghost none0 = none;
            let mut i: usize = 0;
            while i < frontier.len()
                invariant
                    self.wf(),
                    self.in_bounds(src),
                    n == self.grid@.len(),
                    dist@.len() == n,
                    none == count_none(dist@),
                    none + next@.len() == none0,
                    k + 1 + none0 <= n,
                    0 <= i <= frontier@.len(),
                    forall|j: int| 0 <= j < frontier@.len() ==> self.in_bounds(#[trigger] frontier@[j]),
                    forall|j: int| 0 <= j < next@.len() ==> self.in_bounds(#[trigger] next@[j]),
                    forall|l: Location|
                        self.in_bounds(l) && (#[trigger] dist@[self.index_of(l)]) is Some ==> {
                            let d = dist@[self.index_of(l)]->Some_0;
                            d <= k + 1 && self.shortest(src, l, d as nat)
                        },
                    forall|l: Location|
                        self.in_bounds(l) && #[trigger] self.reach(src, l, k as nat)
                            ==> dist@[self.index_of(l)] is Some,
                    forall|l: Location|
                        self.in_bounds(l) ==> ((#[trigger] dist@[self.index_of(l)] == Some(k))
                            <==> frontier@.contains(l)),
                    forall|l: Location|
                        self.in_bounds(l) ==> ((#[trigger] dist@[self.index_of(l)] == Some(
                            (k + 1) as usize,
                        )) <==> next@.contains(l)),
                    forall|j: int, l: Location|
                        0 <= j < i && adjacent(#[trigger] frontier@[j], l) && #[trigger] self.is_open(l)
                            ==> dist@[self.index_of(l)] is Some,
                decreases frontier@.len() - i,
            {
                proof {
                    self.lemma_indexing();
                }
                let f = frontier[i];
                let nbs = self.in_range(&f, true);
                let ghost df = dist@[self.index_of(f)];
                assert(frontier@.contains(f));
                let mut j: usize = 0;
                while j < nbs.len()
                    invariant
                        self.wf(),
                        self.in_bounds(src),
                        self.in_bounds(f),
                        f == frontier@[i as int],
                        i < frontier@.len(),
                        n == self.grid@.len(),
                        dist@.len() == n,
                        none == count_none(dist@),
                        none + next@.len() == none0,
                        k + 1 + none0 <= n,
                        0 <= j <= nbs@.len(),
                        df == Some(k),
                        dist@[self.index_of(f)] == df,
                        forall|jj: int|
                            0 <= jj < nbs@.len() ==> adjacent(f, #[trigger] nbs@[jj]) && self.passable(
                                nbs@[jj],
                                true,
                            ),
                        forall|l: Location|
                            adjacent(f, l) && self.passable(l, true) ==> #[trigger] nbs@.contains(l),
                        forall|jj: int| 0 <= jj < frontier@.len() ==> self.in_bounds(#[trigger] frontier@[jj]),
                        forall|jj: int| 0 <= jj < next@.len() ==> self.in_bounds(#[trigger] next@[jj]),
                        forall|l: Location|
                            self.in_bounds(l) && (#[trigger] dist@[self.index_of(l)]) is Some ==> {
                                let d = dist@[self.index_of(l)]->Some_0;
                                d <= k + 1 && self.shortest(src, l, d as nat)
                            },
                        forall|l: Location|
                            self.in_bounds(l) && #[trigger] self.reach(src, l, k as nat)
                                ==> dist@[self.index_of(l)] is Some,
                        forall|l: Location|
                            self.in_bounds(l) ==> ((#[trigger] dist@[self.index_of(l)] == Some(k))
                                <==> frontier@.contains(l)),
                        forall|l: Location|
                            self.in_bounds(l) ==> ((#[trigger] dist@[self.index_of(l)] == Some(
                                (k + 1) as usize,
                            )) <==> next@.contains(l)),
                        forall|jj: int, l: Location|
                            0 <= jj < i && adjacent(#[trigger] frontier@[jj], l) && #[trigger] self.is_open(l)
                                ==> dist@[self.index_of(l)] is Some,
                        forall|jj: int|
                            0 <= jj < j ==> dist@[self.index_of(#[trigger] nbs@[jj])] is Some,
                    decreases nbs@.len() - j,
                {
                    proof {
                        self.lemma_indexing();
                    }
                    let nb = nbs[j];
                    let ni = self.index(nb);
                    if dist[ni].is_none() {
                        proof {
                            lemma_count_none_bounded(dist@);
                            lemma_count_none_fill(dist@, ni as int, (k + 1) as usize);
                            assert(self.shortest(src, f, k as nat));
                            self.lemma_reach_step(src, f, nb, k as nat);
                            assert(!self.reach(src, nb, k as nat));
                            assert forall|l: Location| self.in_bounds(l) && self.index_of(l) == ni implies l == nb by {
                                lemma_index_in_grid(self.width, self.height, l);
                                lemma_index_injective(self.width, self.height, l, nb);
                            };
                        }
                        let ghost old_next = next@;
                        dist.set(ni, Some(k + 1));
                        next.push(nb);
                        proof {
                            none = (none - 1) as nat;
                            assert forall|l: Location|
                                self.in_bounds(l) implies ((#[trigger] dist@[self.index_of(l)] == Some(
                                    (k + 1) as usize,
                                )) <==> next@.contains(l)) by {
                                lemma_index_in_grid(self.width, self.height, l);
                                if old_next.contains(l) {
                                    let w = choose|w: int| 0 <= w < old_next.len() && old_next[w] == l;
                                    assert(next@[w] == l);
                                }
                                if l == nb {
                                    assert(next@[next@.len() - 1] == l);
                                }
                            };
                        }
                    }
                    j = j + 1;
                }
                proof {
                    assert forall|jj: int, l: Location|
                        0 <= jj < i + 1 && adjacent(#[trigger] frontier@[jj], l) && #[trigger] self.is_open(l)
                            implies dist@[self.index_of(l)] is Some by {
                        if jj == i {
                            assert(nbs@.contains(l));
                        }
                    };
                }
                i = i + 1;
            }
            proof {
                assert forall|l: Location|
                    self.in_bounds(l) && #[trigger] self.reach(src, l, (k + 1) as nat)
                        implies dist@[self.index_of(l)] is Some by {
                    if !self.reach(src, l, k as nat) {
                        let p = self.lemma_reach_unfold(src, l, (k + 1) as nat);
                        self.lemma_reach_in_bounds(src, p, k as nat);
                        let dp = dist@[self.index_of(p)]->Some_0;
                        if dp < k {
                            self.lemma_reach_step(src, p, l, dp as nat);
                            self.lemma_reach_monotone(src, l, (dp + 1) as nat, k as nat);
                        } else {
                            assert(dist@[self.index_of(p)] == Some(k));
                            assert(frontier@.contains(p));
                            let jj = choose|jj: int| 0 <= jj < frontier@.len() && frontier@[jj] == p;
                            assert(adjacent(frontier@[jj], l));
                        }
                    }
                };
                assert forall|l: Location|
                    self.in_bounds(l) && (#[trigger] dist@[self.index_of(l)]) is Some implies
                        dist@[self.index_of(l)]->Some_0 <= k + 1 by {};
            }
            let ghost k0 = k;
            frontier = next;
            k = k + 1;
            proof {
                assert forall|l: Location|
                    self.in_bounds(l) && #[trigger] self.reach(src, l, k as nat)
                        implies dist@[self.index_of(l)] is Some by {
                    assert(k as nat == (k0 + 1) as nat);
                };
            }
        }
        proof {
            self.lemma_indexing();
            assert forall|l: Location| self.in_bounds(l) implies self.distance_entry(src, l, #[trigger] dist@[self.index_of(l)]) by {
                if dist@[self.index_of(l)] is None {
                    assert forall|m: nat| !#[trigger] self.reach(src, l, m) by {
                        if self.reach(src, l, m) {
                            self.lemma_settled(src, &dist@, k, l, m);
                        }
                    };
                }
            };
        }
        dist
    }

    /// Once a breadth-first layer comes out empty, every reachable cell has
    /// a distance.
    proof fn lemma_settled(&self, src: Location, dist: &Seq<Option<usize>>, k: usize, l: Location, m: nat)
        requires
            self.in_bounds(src),
            self.wf(),
            dist.len() == self.grid@.len(),
            forall|l: Location|
                self.in_bounds(l) && (#[trigger] dist[self.index_of(l)]) is Some ==> {
                    let d = dist[self.index_of(l)]->Some_0;
                    d <= k && self.shortest(src, l, d as nat)
                },
            forall|l: Location|
                self.in_bounds(l) && #[trigger] self.reach(src, l, k as nat)
                    ==> dist[self.index_of(l)] is Some,
            forall|l: Location| self.in_bounds(l) ==> #[trigger] dist[self.index_of(l)] != Some(k),
            self.reach(src, l, m),
        ensures
            dist[self.index_of(l)] is Some,
        decreases m,
    {
        self.lemma_reach_in_bounds(src, l, m);
        if m <= k {
            self.lemma_reach_monotone(src, l, m, k as nat);
        } else if self.reach(src, l, (m - 1) as nat) {
            self.lemma_settled(src, dist, k, l, (m - 1) as nat);
        } else {
            let p = self.lemma_reach_unfold(src, l, m);
            self.lemma_settled(src, dist, k, p, (m - 1) as nat);
            self.lemma_reach_in_bounds(src, p, (m - 1) as nat);
            let dp = dist[self.index_of(p)]->Some_0;
            assert(dp < k);
            self.lemma_reach_step(src, p, l, dp as nat);
            self.lemma_reach_monotone(src, l, (dp + 1) as nat, k as nat);
        }
    }
}

impl GameState {
    /// Some walk leads from `src` to `c`.
    pub open spec fn reachable(&self, src: Location, c: Location) -> bool {
        exists|n: nat| #[trigger] self.reach(src, c, n)
    }

    /// The length of a shortest walk from `src` to `c`.
    pub open spec fn dist(&self, src: Location, c: Location) -> nat {
        choose|n: nat| #[trigger] self.shortest(src, c, n)
    }

    /// A walk of length `n` shortens to a shortest one.
    pub proof fn lemma_shortest_exists(&self, src: Location, c: Location, n: nat)
        requires
            self.reach(src, c, n),
        ensures
            self.shortest(src, c, self.dist(src, c)),
            self.dist(src, c) <= n,
        decreases n,
    {
        if n > 0 && self.reach(src, c, (n - 1) as nat) {
            self.lemma_shortest_exists(src, c, (n - 1) as nat);
        } else {
            assert(self.shortest(src, c, n));
            let d = self.dist(src, c);
            self.lemma_shortest_unique(src, c, d, n);
        }
    }

    pub proof fn lemma_shortest_unique(&self, src: Location, c: Location, d1: nat, d2: nat)
        requires
            self.shortest(src, c, d1),
            self.shortest(src, c, d2),
        ensures
            d1 == d2,
    {
        if d1 < d2 {
            self.lemma_reach_monotone(src, c, d1, (d2 - 1) as nat);
        } else if d2 < d1 {
            self.lemma_reach_monotone(src, c, d2, (d1 - 1) as nat);
        }
    }

    /// A distance grid entry is the shortest distance, or `None` exactly
    /// for unreachable cells.
    pub proof fn lemma_entry_is_dist(&self, src: Location, l: Location, e: Option<usize>)
        requires
            self.distance_entry(src, l, e),
        ensures
            e is Some <==> self.reachable(src, l),
            e matches Some(d) ==> d as nat == self.dist(src, l),
    {
        if let Some(d) = e {
            assert(self.reach(src, l, d as nat));
            self.lemma_shortest_exists(src, l, d as nat);
            self.lemma_shortest_unique(src, l, d as nat, self.dist(src, l));
        }
    }

    /// `m` is the step that a unit at `unit` takes toward `to`: an open
    /// neighbour from which `to` is reachable, nearest to `to`, and first in
    /// reading order among equally near ones.
    pub open spec fn best_step(&self, unit: Location, to: Location, m: Location) -> bool {
        &&& adjacent(unit, m)
        &&& self.is_open(m)
        &&& self.reachable(to, m)
        &&& forall|n: Location|
            adjacent(unit, n) && #[trigger] self.is_open(n) && self.reachable(to, n) && n != m ==> {
                ||| self.dist(to, m) < self.dist(to, n)
                ||| (self.dist(to, m) == self.dist(to, n) && reads_before(m, n))
            }
    }

    /// From `unit_position`, the open neighbour to step into on a shortest
    /// walk to `to`; ties go to the first in reading order.
    pub fn first_move_on_shortest_path(&self, unit_position: &Location, to: &Location) -> (r: Option<
        Location,
    >)
        requires
            self.wf(),
            self.in_bounds(*to),
        ensures
            r matches Some(m) ==> self.best_step(*unit_position, *to, m),
            r is None <==> forall|n: Location|
                adjacent(*unit_position, n) && #[trigger] self.is_open(n) ==> !self.reachable(*to, n),
    {
        let d = self.calculate_distance_grid(to);
        let nbs = self.in_range(unit_position, true);
        let mut best: Option<(Location, usize)> = None;
        let mut k: usize = 0;
        while k < nbs.len()
            invariant
                self.wf(),
                self.in_bounds(*to),
                d@.len() == self.grid@.len(),
                forall|l: Location|
                    self.in_bounds(l) ==> self.distance_entry(*to, l, #[trigger] d@[self.index_of(l)]),
                0 <= k <= nbs@.len(),
                forall|i: int|
                    0 <= i < nbs@.len() ==> adjacent(*unit_position, #[trigger] nbs@[i])
                        && self.passable(nbs@[i], true),
                forall|l: Location|
                    adjacent(*unit_position, l) && self.passable(l, true) ==> #[trigger] nbs@.contains(l),
                best is None ==> forall|j: int|
                    0 <= j < k ==> !self.reachable(*to, #[trigger] nbs@[j]),
                best matches Some((m, dm)) ==> {
                    &&& adjacent(*unit_position, m)
                    &&& self.is_open(m)
                    &&& self.reachable(*to, m)
                    &&& dm as nat == self.dist(*to, m)
                    &&& forall|j: int|
                        0 <= j < k && self.reachable(*to, #[trigger] nbs@[j]) && nbs@[j] != m ==> {
                            ||| self.dist(*to, m) < self.dist(*to, nbs@[j])
                            ||| (self.dist(*to, m) == self.dist(*to, nbs@[j]) && reads_before(m, nbs@[j]))
                        }
                },
            decreases nbs@.len() - k,
        {
            let nb = nbs[k];
            let ni = self.index(nb);
            proof {
                self.lemma_entry_is_dist(*to, nb, d@[ni as int]);
            }
            if let Some(dn) = d[ni] {
                match best {
                    None => {
                        best = Some((nb, dn));
                    },
                    Some((bm, bd)) => {
                        if dn < bd || (dn == bd && matches!(reading_order(&nb, &bm), Ordering::Less)) {
                            best = Some((nb, dn));
                            proof {
                                assert forall|j: int|
                                    0 <= j < k + 1 && self.reachable(*to, #[trigger] nbs@[j]) && nbs@[j]
                                        != nb implies {
                                        ||| self.dist(*to, nb) < self.dist(*to, nbs@[j])
                                        ||| (self.dist(*to, nb) == self.dist(*to, nbs@[j])
                                            && reads_before(nb, nbs@[j]))
                                    } by {
                                    if nbs@[j] != bm && j < k {
                                        assert(self.reachable(*to, nbs@[j]));
                                    }
                                };
                            }
                        }
                    },
                }
            }
            k = k + 1;
        }
        match best {
            None => {
                proof {
                    assert forall|n: Location|
                        adjacent(*unit_position, n) && #[trigger] self.is_open(n) implies !self.reachable(
                        *to,
                        n,
                    ) by {
                        assert(nbs@.contains(n));
                    };
                }
                None
            },
            Some((m, _)) => {
                proof {
                    assert forall|n: Location|
                        adjacent(*unit_position, n) && #[trigger] self.is_open(n) && self.reachable(*to, n)
                            && n != m implies {
                            ||| self.dist(*to, m) < self.dist(*to, n)
                            ||| (self.dist(*to, m) == self.dist(*to, n) && reads_before(m, n))
                        } by {
                        assert(nbs@.contains(n));
                        let j = choose|j: int| 0 <= j < nbs@.len() && nbs@[j] == n;
                        assert(self.reachable(*to, nbs@[j]));
                    };
                }
                Some(m)
            },
        }
    }
}

impl GameState {
    /// `t` is an open cell next to a living enemy of `faction`.
    pub open spec fn is_target_cell(&self, t: Location, faction: UnitType) -> bool {
        self.is_open(t) && exists|e: Location| adjacent(e, t) && #[trigger] self.is_enemy_at(e, faction)
    }

    /// `t` is where a unit at `unit` heads: the reachable target cell nearest
    /// to it, the first in reading order among equally near ones.
    pub open spec fn nearest_target(&self, unit: Location, faction: UnitType, t: Location) -> bool {
        &&& self.is_target_cell(t, faction)
        &&& self.reachable(unit, t)
        &&& forall|u: Location|
            #[trigger] self.is_target_cell(u, faction) && self.reachable(unit, u) && u != t ==> {
                ||| self.dist(unit, t) < self.dist(unit, u)
                ||| (self.dist(unit, t) == self.dist(unit, u) && reads_before(t, u))
            }
    }

    /// The destination of a unit of `faction` at `unit_location`: the nearest
    /// reachable cell next to an enemy, ties broken by reading order.
    pub fn choose_target(&self, unit_location: &Location, faction: UnitType) -> (r: Option<Location>)
        requires
            self.wf(),
            self.in_bounds(*unit_location),
        ensures
            r matches Some(t) ==> self.nearest_target(*unit_location, faction, t),
            r is None <==> forall|t: Location|
                #[trigger] self.is_target_cell(t, faction) ==> !self.reachable(*unit_location, t),
    {
        let src = *unit_location;
        let d = self.calculate_distance_grid(unit_location);
        let enemies = self.possible_targets(faction);
        let mut best: Option<(Location, usize)> = None;
        let mut i: usize = 0;
        while i < enemies.len()
            invariant
                self.wf(),
                self.in_bounds(src),
                d@.len() == self.grid@.len(),
                forall|l: Location|
                    self.in_bounds(l) ==> self.distance_entry(src, l, #[trigger] d@[self.index_of(l)]),
                forall|l: Location| #[trigger] enemies@.contains(l) <==> self.is_enemy_at(l, faction),
                0 <= i <= enemies@.len(),
                best is None ==> forall|j: int, t: Location|
                    0 <= j < i && adjacent(#[trigger] enemies@[j], t) && #[trigger] self.is_open(t)
                        ==> !self.reachable(src, t),
                best matches Some((b, db)) ==> {
                    &&& self.is_target_cell(b, faction)
                    &&& self.reachable(src, b)
                    &&& db as nat == self.dist(src, b)
                    &&& forall|j: int, t: Location|
                        0 <= j < i && adjacent(#[trigger] enemies@[j], t) && #[trigger] self.is_open(t)
                            && self.reachable(src, t) && t != b ==> {
                            ||| self.dist(src, b) < self.dist(src, t)
                            ||| (self.dist(src, b) == self.dist(src, t) && reads_before(b, t))
                        }
                },
            decreases enemies@.len() - i,
        {
            let e = enemies[i];
            assert(enemies@.contains(e));
            let cells = self.in_range(&e, true);
            let mut k: usize = 0;
            while k < cells.len()
                invariant
                    self.wf(),
                    self.in_bounds(src),
                    d@.len() == self.grid@.len(),
                    forall|l: Location|
                        self.in_bounds(l) ==> self.distance_entry(src, l, #[trigger] d@[self.index_of(l)]),
                    forall|l: Location| #[trigger] enemies@.contains(l) <==> self.is_enemy_at(l, faction),
                    0 <= i < enemies@.len(),
                    e == enemies@[i as int],
                    self.is_enemy_at(e, faction),
                    0 <= k <= cells@.len(),
                    forall|j: int|
                        0 <= j < cells@.len() ==> adjacent(e, #[trigger] cells@[j]) && self.passable(
                            cells@[j],
                            true,
                        ),
                    forall|l: Location| adjacent(e, l) && self.passable(l, true) ==> #[trigger] cells@.contains(l),
                    best is None ==> forall|j: int, t: Location|
                        0 <= j < i && adjacent(#[trigger] enemies@[j], t) && #[trigger] self.is_open(t)
                            ==> !self.reachable(src, t),
                    best is None ==> forall|j: int| 0 <= j < k ==> !self.reachable(src, #[trigger] cells@[j]),
                    best matches Some((b, db)) ==> {
                        &&& self.is_target_cell(b, faction)
                        &&& self.reachable(src, b)
                        &&& db as nat == self.dist(src, b)
                        &&& forall|j: int, t: Location|
                            0 <= j < i && adjacent(#[trigger] enemies@[j], t) && #[trigger] self.is_open(t)
                                && self.reachable(src, t) && t != b ==> {
                                ||| self.dist(src, b) < self.dist(src, t)
                                ||| (self.dist(src, b) == self.dist(src, t) && reads_before(b, t))
                            }
                        &&& forall|j: int|
                            0 <= j < k && self.reachable(src, #[trigger] cells@[j]) && cells@[j] != b ==> {
                                ||| self.dist(src, b) < self.dist(src, cells@[j])
                                ||| (self.dist(src, b) == self.dist(src, cells@[j]) && reads_before(b, cells@[j]))
                            }
                    },
                decreases cells@.len() - k,
            {
                let t = cells[k];
                let ti = self.index(t);
                proof {
                    self.lemma_entry_is_dist(src, t, d@[ti as int]);
                    assert(self.is_target_cell(t, faction));
                }
                if let Some(dt) = d[ti] {
                    match best {
                        None => {
                            best = Some((t, dt));
                        },
                        Some((b, db)) => {
                            if dt < db || (dt == db && matches!(reading_order(&t, &b), Ordering::Less)) {
                                best = Some((t, dt));
                            }
                        },
                    }
                }
                k = k + 1;
            }
            proof {
                assert forall|j: int, t: Location|
                    0 <= j < i + 1 && adjacent(#[trigger] enemies@[j], t) && #[trigger] self.is_open(t)
                        implies (best is None ==> !self.reachable(src, t)) by {
                    if j == i {
                        assert(cells@.contains(t));
                    }
                };
                if let Some((b, db)) = best {
                    assert forall|j: int, t: Location|
                        0 <= j < i + 1 && adjacent(#[trigger] enemies@[j], t) && #[trigger] self.is_open(t)
                            && self.reachable(src, t) && t != b implies {
                            ||| self.dist(src, b) < self.dist(src, t)
                            ||| (self.dist(src, b) == self.dist(src, t) && reads_before(b, t))
                        } by {
                        if j == i {
                            assert(cells@.contains(t));
                            let w = choose|w: int| 0 <= w < cells@.len() && cells@[w] == t;
                            assert(self.reachable(src, cells@[w]));
                        }
                    };
                }
            }
            i = i + 1;
        }
        proof {
            assert forall|t: Location| #[trigger] self.is_target_cell(t, faction) implies {
                &&& (best is None ==> !self.reachable(src, t))
                &&& (best matches Some((b, db)) ==> (self.reachable(src, t) && t != b ==> {
                    ||| self.dist(src, b) < self.dist(src, t)
                    ||| (self.dist(src, b) == self.dist(src, t) && reads_before(b, t))
                }))
            } by {
                let e = choose|e: Location| adjacent(e, t) && #[trigger] self.is_enemy_at(e, faction);
                assert(enemies@.contains(e));
                let j = choose|j: int| 0 <= j < enemies@.len() && enemies@[j] == e;
                assert(adjacent(enemies@[j], t));
            };
        }
        match best {
            None => None,
            Some((b, _)) => Some(b),
        }
    }
}

/// What a mutation keeps of every unit: its faction and attack power, and
/// its health never rises; the dead stay dead.
pub open spec fn units_evolve(before: Seq<Unit>, after: Seq<Unit>) -> bool {
    &&& after.len() == before.len()
    &&& forall|i: int|
        0 <= i < before.len() ==> {
            &&& (#[trigger] after[i]).unit_type == before[i].unit_type
            &&& after[i].strength == before[i].strength
            &&& after[i].health <= before[i].health
            &&& (before[i].is_dead ==> after[i] == before[i])
        }
}

/// The walls stand where they stood.
pub open spec fn same_walls(before: Seq<Position>, after: Seq<Position>) -> bool {
    &&& after.len() == before.len()
    &&& forall|c: int| 0 <= c < before.len() ==> (#[trigger] after[c] == Position::Wall) == (before[c] == Position::Wall)
}

pub proof fn lemma_units_evolve_trans(a: Seq<Unit>, b: Seq<Unit>, c: Seq<Unit>)
    requires
        units_evolve(a, b),
        units_evolve(b, c),
    ensures
        units_evolve(a, c),
{
    assert forall|i: int| 0 <= i < a.len() implies {
        &&& (#[trigger] c[i]).unit_type == a[i].unit_type
        &&& c[i].strength == a[i].strength
        &&& c[i].health <= a[i].health
        &&& (a[i].is_dead ==> c[i] == a[i])
    } by {
        assert(b[i].unit_type == a[i].unit_type);
        assert(c[i].unit_type == b[i].unit_type);
    };
}

impl GameState {
    /// `l` holds the enemy that unit `attacker` strikes: an adjacent living
    /// enemy with the least health, first in reading order among equals.
    pub open spec fn struck(&self, attacker: usize, l: Location) -> bool {
        let u = self.units@[attacker as int];
        &&& adjacent(u.location, l)
        &&& self.is_enemy_at(l, u.unit_type)
        &&& forall|m: Location|
            adjacent(u.location, m) && #[trigger] self.is_enemy_at(m, u.unit_type) && m != l
                ==> self.attacked_first(l, m)
    }

    /// Moves the living unit `id` one step to the open cell `to`.
    pub fn move_unit(&mut self, id: usize, to: Location)
        requires
            old(self).wf(),
            id < old(self).units@.len(),
            !old(self).units@[id as int].is_dead,
            old(self).is_open(to),
        ensures
            final(self).wf(),
            final(self).width == old(self).width,
            final(self).height == old(self).height,
            final(self).units@ == old(self).units@.update(
                id as int,
                Unit { location: to, ..old(self).units@[id as int] },
            ),
            forall|l: Location|
                #[trigger] final(self).is_open(l) <==> (old(self).is_open(l) && l != to) || l
                    == old(self).units@[id as int].location,
            final(self).is_occupied(to),
            final(self).occupant(to) == id,
            same_walls(old(self).grid@, final(self).grid@),
            final(self).grid@ == old(self).grid@.update(
                old(self).index_of(old(self).units@[id as int].location),
                Position::Open,
            ).update(old(self).index_of(to), Position::Occupied(id)),
            forall|l: Location|
                old(self).is_occupied(l) && l != old(self).units@[id as int].location ==> {
                    &&& #[trigger] final(self).is_occupied(l)
                    &&& final(self).occupant(l) == old(self).occupant(l)
                },
    {
        proof {
            self.lemma_indexing();
        }
        let from = self.units[id].location;
        let fi = self.index(from);
        let ti = self.index(to);
        self.grid.set(fi, Position::Open);
        self.grid.set(ti, Position::Occupied(id));
        let mut u = self.units[id];
        u.location = to;
        self.units.set(id, u);
        proof {
            self.lemma_indexing();
            assert(fi != ti);
            assert(self.units@ =~= old(self).units@.update(
                id as int,
                Unit { location: to, ..old(self).units@[id as int] },
            ));
            assert forall|i: int| 0 <= i < self.units@.len() implies {
                let u = #[trigger] self.units@[i];
                &&& u.is_dead <==> u.health == 0
                &&& u.health <= STARTING_HEALTH
                &&& u.strength >= 1
                &&& !u.is_dead ==> self.in_bounds(u.location) && self.cell(u.location)
                    == Position::Occupied(i as usize)
            } by {
                let ou = old(self).units@[i];
                if i != id && !ou.is_dead {
                    assert(old(self).grid@[old(self).index_of(ou.location)] == Position::Occupied(i as usize));
                }
            };
            assert forall|c: int| 0 <= c < self.grid@.len() implies match #[trigger] self.grid@[c] {
                Position::Occupied(i) => {
                    &&& i < self.units@.len()
                    &&& !self.units@[i as int].is_dead
                    &&& self.index_of(self.units@[i as int].location) == c
                },
                _ => true,
            } by {
                if c != fi && c != ti {
                    assert(self.grid@[c] == old(self).grid@[c]);
                    if let Position::Occupied(i) = old(self).grid@[c] {
                        assert(i != id);
                    }
                }
            };
        }
    }

    /// The unit `attacker` strikes its preferred adjacent enemy, if it has
    /// one; a unit whose health runs out leaves the grid at once. Returns
    /// whether a blow was struck.
    pub fn attack(&mut self, attacker: usize) -> (r: bool)
        requires
            old(self).wf(),
            attacker < old(self).units@.len(),
            !old(self).units@[attacker as int].is_dead,
        ensures
            final(self).wf(),
            final(self).width == old(self).width,
            final(self).height == old(self).height,
            units_evolve(old(self).units@, final(self).units@),
            !final(self).units@[attacker as int].is_dead,
            final(self).units@[attacker as int] == old(self).units@[attacker as int],
            ({
                let u = old(self).units@[attacker as int];
                r <==> exists|l: Location|
                    adjacent(u.location, l) && #[trigger] old(self).is_enemy_at(l, u.unit_type)
            }),
            forall|l: Location| #[trigger] old(self).is_open(l) ==> final(self).is_open(l),
            same_walls(old(self).grid@, final(self).grid@),
            !r ==> final(self).grid@ == old(self).grid@ && final(self).units@ == old(self).units@,
            r ==> exists|l: Location|
                #[trigger] old(self).struck(attacker, l) && final(self).units@ == old(self).units@.update(
                    old(self).occupant(l),
                    Unit {
                        health: Unit::health_after(
                            old(self).health_at(l),
                            old(self).units@[attacker as int].strength,
                        ),
                        is_dead: Unit::health_after(
                            old(self).health_at(l),
                            old(self).units@[attacker as int].strength,
                        ) == 0,
                        ..old(self).units@[old(self).occupant(l)]
                    },
                ) && final(self).grid@ == (if Unit::health_after(
                    old(self).health_at(l),
                    old(self).units@[attacker as int].strength,
                ) == 0 {
                    old(self).grid@.update(old(self).index_of(l), Position::Open)
                } else {
                    old(self).grid@
                }),
            after_strike(*old(self), *final(self), attacker),
    {
        proof {
            self.lemma_indexing();
        }
        let u = self.units[attacker];
        match self.prioritized_enemy(u.unit_type, &u.location) {
            None => false,
            Some((el, ei)) => {
                proof {
                    assert(self.grid@[self.index_of(el)] is Occupied);
                    assert(ei != attacker);
                }
                let mut e = self.units[ei];
                let died = e.take_damage(u.strength);
                self.units.set(ei, e);
                if died {
                    let li = self.index(el);
                    self.grid.set(li, Position::Open);
                }
                proof {
                    self.lemma_indexing();
                    assert forall|i: int| 0 <= i < self.units@.len() implies {
                        let u = #[trigger] self.units@[i];
                        &&& u.is_dead <==> u.health == 0
                        &&& u.health <= STARTING_HEALTH
                        &&& u.strength >= 1
                        &&& !u.is_dead ==> self.in_bounds(u.location) && self.cell(u.location)
                            == Position::Occupied(i as usize)
                    } by {
                        let ou = old(self).units@[i];
                        if !ou.is_dead {
                            assert(old(self).grid@[old(self).index_of(ou.location)] == Position::Occupied(i as usize));
                        }
                    };
                    assert forall|c: int| 0 <= c < self.grid@.len() implies match #[trigger] self.grid@[c] {
                        Position::Occupied(i) => {
                            &&& i < self.units@.len()
                            &&& !self.units@[i as int].is_dead
                            &&& self.index_of(self.units@[i as int].location) == c
                        },
                        _ => true,
                    } by {
                        if let Position::Occupied(i) = old(self).grid@[c] {
                            if i == ei {
                                assert(c == self.index_of(el));
                            }
                        }
                    };
                    assert(units_evolve(old(self).units@, self.units@));
                    assert(old(self).struck(attacker, el));
                    let l2 = choose|l2: Location| #[trigger] old(self).struck(attacker, l2);
                    old(self).choices_are_unique(attacker, el, u.unit_type, el, l2, el);
                    assert(self.units@ =~= old(self).units@.update(
                        old(self).occupant(el),
                        Unit {
                            health: Unit::health_after(old(self).health_at(el), u.strength),
                            is_dead: Unit::health_after(old(self).health_at(el), u.strength) == 0,
                            ..old(self).units@[old(self).occupant(el)]
                        },
                    ));
                }
                true
            },
        }
    }
}

impl GameState {
    /// A living enemy of the unit at `l` stands next to it.
    pub open spec fn enemy_adjacent(&self, l: Location, faction: UnitType) -> bool {
        exists|e: Location| adjacent(l, e) && #[trigger] self.is_enemy_at(e, faction)
    }

    /// The living units in reading order of their locations.
    pub fn unit_order(&self) -> (r: Vec<usize>)
        requires
            self.wf(),
        ensures
            forall|j: int| 0 <= j < r@.len() ==> (#[trigger] r@[j]) < self.units@.len(),
            forall|j: int| 0 <= j < r@.len() ==> !self.units@[#[trigger] r@[j] as int].is_dead,
            forall|j1: int, j2: int|
                0 <= j1 < j2 < r@.len() ==> reads_before(
                    self.units@[#[trigger] r@[j1] as int].location,
                    self.units@[#[trigger] r@[j2] as int].location,
                ),
            forall|i: int|
                0 <= i < self.units@.len() && !(#[trigger] self.units@[i]).is_dead ==> r@.contains(
                    i as usize,
                ),
    {
        let mut r: Vec<usize> = Vec::new();
        let mut y: usize = 0;
        while y < self.height
            invariant
                self.wf(),
                y <= self.height,
                forall|j: int| 0 <= j < r@.len() ==> (#[trigger] r@[j]) < self.units@.len(),
                forall|j: int| 0 <= j < r@.len() ==> !self.units@[#[trigger] r@[j] as int].is_dead,
                forall|j: int| 0 <= j < r@.len() ==> self.units@[#[trigger] r@[j] as int].location.1 < y,
                forall|j1: int, j2: int|
                    0 <= j1 < j2 < r@.len() ==> reads_before(
                        self.units@[#[trigger] r@[j1] as int].location,
                        self.units@[#[trigger] r@[j2] as int].location,
                    ),
                forall|i: int|
                    0 <= i < self.units@.len() && !(#[trigger] self.units@[i]).is_dead
                        && self.units@[i].location.1 < y ==> r@.contains(i as usize),
            decreases self.height - y,
        {
            let mut x: usize = 0;
            while x < self.width
                invariant
                    self.wf(),
                    y < self.height,
                    x <= self.width,
                    forall|j: int| 0 <= j < r@.len() ==> (#[trigger] r@[j]) < self.units@.len(),
                    forall|j: int| 0 <= j < r@.len() ==> !self.units@[#[trigger] r@[j] as int].is_dead,
                    forall|j: int|
                        0 <= j < r@.len() ==> reads_before(self.units@[#[trigger] r@[j] as int].location, (x, y)),
                    forall|j1: int, j2: int|
                        0 <= j1 < j2 < r@.len() ==> reads_before(
                            self.units@[#[trigger] r@[j1] as int].location,
                            self.units@[#[trigger] r@[j2] as int].location,
                        ),
                    forall|i: int|
                        0 <= i < self.units@.len() && !(#[trigger] self.units@[i]).is_dead
                            && reads_before(self.units@[i].location, (x, y)) ==> r@.contains(i as usize),
                decreases self.width - x,
            {
                let ghost old_r = r@;
                proof {
                    self.lemma_indexing();
                }
                if let Position::Occupied(i) = self.at((x, y)) {
                    proof {
                        assert(self.grid@[self.index_of((x, y))] is Occupied);
                    }
                    r.push(i);
                    proof {
                        assert(self.units@[i as int].location == (x, y));
                    }
                }
                proof {
                    assert forall|i: int|
                        0 <= i < self.units@.len() && !(#[trigger] self.units@[i]).is_dead
                            && reads_before(self.units@[i].location, ((x + 1) as usize, y)) implies r@.contains(i as usize) by {
                        if reads_before(self.units@[i].location, (x, y)) {
                            let w = choose|w: int| 0 <= w < old_r.len() && old_r[w] == i as usize;
                            assert(r@[w] == i as usize);
                        } else {
                            assert(self.units@[i].location == (x, y));
                            assert(r@[r@.len() - 1] == i as usize);
                        }
                    };
                }
                x = x + 1;
            }
            y = y + 1;
        }
        r
    }

    /// The movement half of a unit's turn: a living unit with no enemy
    /// beside it steps toward the nearest reachable target cell.
    pub fn step_toward_target(&mut self, id: usize)
        requires
            old(self).wf(),
            id < old(self).units@.len(),
        ensures
            final(self).wf(),
            final(self).width == old(self).width,
            final(self).height == old(self).height,
            final(self).units@.len() == old(self).units@.len(),
            forall|i: int|
                0 <= i < old(self).units@.len() && i != id ==> #[trigger] final(self).units@[i]
                    == old(self).units@[i],
            final(self).units@[id as int] == (Unit {
                location: final(self).units@[id as int].location,
                ..old(self).units@[id as int]
            }),
            same_walls(old(self).grid@, final(self).grid@),
            ({
                let u = old(self).units@[id as int];
                let moved_to = final(self).units@[id as int].location;
                &&& u.is_dead || old(self).enemy_adjacent(u.location, u.unit_type) ==> moved_to
                    == u.location
                &&& (forall|t: Location| #[trigger] old(self).is_target_cell(t, u.unit_type)
                    ==> !old(self).reachable(u.location, t)) ==> moved_to == u.location
                &&& moved_to == u.location || exists|t: Location|
                    #[trigger] old(self).nearest_target(u.location, u.unit_type, t)
                        && old(self).best_step(u.location, t, moved_to)
                &&& (!u.is_dead && !old(self).enemy_adjacent(u.location, u.unit_type) && exists|t: Location|
                    #[trigger] old(self).is_target_cell(t, u.unit_type) && old(self).reachable(u.location, t))
                    ==> exists|t: Location|
                    #[trigger] old(self).nearest_target(u.location, u.unit_type, t)
                        && old(self).best_step(u.location, t, moved_to)
            }),
            after_step(*old(self), *final(self), id),
    {
        let u = self.units[id];
        if u.is_dead() {
            assert(self.units@ =~= self.units@.update(id as int, Unit { location: u.location, ..u }));
            return;
        }
        let loc = u.location;
        if self.prioritized_enemy(u.unit_type, &loc).is_some() {
            assert(self.units@ =~= self.units@.update(id as int, Unit { location: u.location, ..u }));
            return;
        }
        assert(self.units@ =~= self.units@.update(id as int, Unit { location: u.location, ..u }));
        match self.choose_target(&loc, u.unit_type) {
            None => {},
            Some(t) => {
                proof {
                    assert(self.grid@[self.index_of(loc)] == Position::Occupied(id));
                    self.lemma_step_exists(loc, t);
                }
                match self.first_move_on_shortest_path(&loc, &t) {
                    None => {},
                    Some(m) => {
                        let ghost start = *self;
                        proof {
                            assert(start.steps_toward_nearest(loc, u.unit_type, m));
                            let d = start.destination(id);
                            assert(start.has_reachable_target(id));
                            assert(start.steps_toward_nearest(loc, u.unit_type, d));
                            let t2 = choose|t2: Location| start.nearest_target(loc, u.unit_type, t2)
                                && #[trigger] start.best_step(loc, t2, d);
                            start.choices_are_unique(id, loc, u.unit_type, t, t2, t);
                            start.choices_are_unique(id, loc, u.unit_type, m, d, t);
                            assert(d == m);
                        }
                        self.move_unit(id, m);
                        proof {
                            assert(start.nearest_target(loc, u.unit_type, t));
                        }
                    },
                }
            },
        }
    }

    /// One unit's turn: movement, then an attack on an adjacent enemy if
    /// there is one. A dead unit does nothing.
    pub fn take_turn(&mut self, id: usize)
        requires
            old(self).wf(),
            id < old(self).units@.len(),
        ensures
            final(self).wf(),
            final(self).width == old(self).width,
            final(self).height == old(self).height,
            units_evolve(old(self).units@, final(self).units@),
            same_walls(old(self).grid@, final(self).grid@),
            ({
                let u = old(self).units@[id as int];
                let moved_to = final(self).units@[id as int].location;
                &&& u.is_dead || old(self).enemy_adjacent(u.location, u.unit_type) ==> moved_to
                    == u.location
                &&& moved_to == u.location || exists|t: Location|
                    #[trigger] old(self).nearest_target(u.location, u.unit_type, t)
                        && old(self).best_step(u.location, t, moved_to)
                &&& (!u.is_dead && !old(self).enemy_adjacent(u.location, u.unit_type) && exists|t: Location|
                    #[trigger] old(self).is_target_cell(t, u.unit_type) && old(self).reachable(u.location, t))
                    ==> exists|t: Location|
                    #[trigger] old(self).nearest_target(u.location, u.unit_type, t)
                        && old(self).best_step(u.location, t, moved_to)
            }),
            after_unit_turn(*old(self), *final(self), id),
    {
        let ghost start = *self;
        self.step_toward_target(id);
        let ghost mid = *self;
        proof {
            assert(units_evolve(start.units@, mid.units@));
        }
        if self.units[id].is_alive() {
            self.attack(id);
            proof {
                lemma_units_evolve_trans(start.units@, mid.units@, self.units@);
            }
        }
        proof {
            assert(after_step(start, mid, id) && after_strike(mid, *self, id));
        }
    }

    /// One round: every unit alive at its start acts once, in reading order
    /// of where the units stood when the round began. Returns whether the
    /// round ran to its end, and the winning faction once one side is gone.
    pub fn turn(&mut self) -> (r: (bool, Option<UnitType>))
        requires
            old(self).wf(),
        ensures
            final(self).wf(),
            final(self).width == old(self).width,
            final(self).height == old(self).height,
            units_evolve(old(self).units@, final(self).units@),
            same_walls(old(self).grid@, final(self).grid@),
            r.1 matches Some(f) ==> count_alive(final(self).units@, other(f)) == 0,
            r.1 is None ==> r.0 && count_alive(final(self).units@, UnitType::Elf) > 0 && count_alive(
                final(self).units@,
                UnitType::Goblin,
            ) > 0,
            !r.0 ==> r.1 is Some,
            after_round(*old(self), *final(self), r),
    {
        let order = self.unit_order();
        let ghost start = *self;
        let ghost mut trace: Seq<GameState> = seq![*self];
        assert(start == *old(self));
        let mut k: usize = 0;
        while k < order.len()
            invariant
                self.wf(),
                self.width == start.width,
                self.height == start.height,
                units_evolve(start.units@, self.units@),
                same_walls(start.grid@, self.grid@),
                forall|j: int| 0 <= j < order@.len() ==> (#[trigger] order@[j]) < start.units@.len(),
                k <= order@.len(),
                start == *old(self),
                turn_order(start, order@),
                turns_taken(trace, order@, k as int),
                trace[0] == start,
                trace[k as int] == *self,
            decreases order@.len() - k,
        {
            let id = order[k];
            let faction = self.units[id].unit_type;
            if self.units[id].is_alive() && !self.enemies_alive(faction) {
                proof {
                    assert(turns_taken(trace, order@, k as int) && turn_order(start, order@));
                }
                return (false, Some(faction));
            }
            let ghost before = *self;
            self.take_turn(id);
            proof {
                lemma_units_evolve_trans(start.units@, before.units@, self.units@);
                lemma_trace_extend(trace, order@, k as int, *self);
                trace = trace.push(*self);
            }
            k = k + 1;
        }
        proof {
            assert(turns_taken(trace, order@, k as int));
        }
        let goblins_left = self.num_combatants_alive(UnitType::Goblin);
        let elves_left = self.num_combatants_alive(UnitType::Elf);
        let r = if goblins_left == 0 {
            (true, Some(UnitType::Elf))
        } else if elves_left == 0 {
            (true, Some(UnitType::Goblin))
        } else {
            (true, None)
        };
        proof {
            assert(turns_taken(trace, order@, k as int) && turn_order(start, order@));
        }
        r
    }
}

/// The rows of a map: its lines with white space trimmed, empty ones left
/// out.
pub open spec fn rows_of(lines: Seq<Seq<char>>) -> Seq<Seq<char>>
    decreases lines.len(),
{
    if lines.len() == 0 {
        seq![]
    } else {
        let r = rows_of(lines.drop_last());
        let t = trim_of(lines.last());
        if t.len() > 0 { r.push(t) } else { r }
    }
}

pub open spec fn map_rows(input: Seq<char>) -> Seq<Seq<char>> {
    rows_of(pieces(input, false))
}

/// Every row is made of glyphs, and all rows are equally long.
pub open spec fn rows_valid(rows: Seq<Seq<char>>) -> bool {
    forall|y: int|
        0 <= y < rows.len() ==> (#[trigger] rows[y]).len() == rows[0].len() && forall|x: int|
            0 <= x < rows[y].len() ==> glyph(#[trigger] rows[y][x]) is Some
}

/// The cell at `(x, y)` of a parsed map is what glyph `c` stands for; a
/// unit glyph yields a fresh unit of its faction standing there.
pub open spec fn cell_from_glyph(g: GameState, x: int, y: int, c: char) -> bool {
    let p = g.grid@[y * g.width + x];
    match glyph(c) {
        Some((terrain, None)) => p == terrain,
        Some((_, Some(f))) => p is Occupied && g.units@[p->Occupied_0 as int].unit_type == f,
        None => false,
    }
}

/// `g` is the battle the map `input` describes, every unit fresh.
pub open spec fn map_of(input: Seq<char>, g: GameState) -> bool {
    let rows = map_rows(input);
    &&& g.wf()
    &&& g.height == rows.len()
    &&& g.width == (if rows.len() == 0 { 0 } else { rows[0].len() })
    &&& forall|x: int, y: int|
        0 <= x < g.width && 0 <= y < g.height ==> cell_from_glyph(g, x, y, #[trigger] rows[y][x])
    &&& forall|i: int|
        0 <= i < g.units@.len() ==> {
            let u = #[trigger] g.units@[i];
            &&& u.health == STARTING_HEALTH
            &&& u.strength == DEFAULT_STRENGTH
            &&& !u.is_dead
        }
}

/// The rows of a prefix of the lines begin the rows of all of them.
pub proof fn lemma_rows_prefix(lines: Seq<Seq<char>>, k: int)
    requires
        0 <= k <= lines.len(),
    ensures
        rows_of(lines.subrange(0, k)).len() <= rows_of(lines).len(),
        rows_of(lines).subrange(0, rows_of(lines.subrange(0, k)).len() as int) == rows_of(
            lines.subrange(0, k),
        ),
    decreases lines.len() - k,
{
    if k < lines.len() {
        lemma_rows_prefix(lines, k + 1);
        let p = lines.subrange(0, k + 1);
        assert(p.drop_last() =~= lines.subrange(0, k));
        let rk = rows_of(lines.subrange(0, k));
        let rk1 = rows_of(p);
        let all = rows_of(lines);
        if trim_of(p.last()).len() > 0 {
            assert(rk1 == rk.push(trim_of(p.last())));
            assert(all.subrange(0, rk.len() as int) =~= rk1.subrange(0, rk.len() as int));
            assert(rk1.subrange(0, rk.len() as int) =~= rk);
        }
    } else {
        assert(lines.subrange(0, k) =~= lines);
        assert(rows_of(lines).subrange(0, rows_of(lines).len() as int) =~= rows_of(lines));
    }
}

impl GameState {
    /// Reads a map: rows separated by line breaks, trimmed of white space,
    /// blank rows skipped; `#` wall, `.` open, `G` goblin, `E` elf. Every
    /// unit starts with full health and the default attack power. A map
    /// with any other character in a row, or with rows of unequal length, is
    /// refused.
    pub fn parse(input: &str) -> (r: Option<GameState>)
        ensures
            r is Some ==> rows_valid(map_rows(input@)),
            rows_valid(map_rows(input@)) && (map_rows(input@).len() == 0 || map_rows(input@).len()
                * map_rows(input@)[0].len() <= usize::MAX / STARTING_HEALTH) ==> r is Some,
            r matches Some(g) ==> map_of(input@, g),
    {
        let chars = chars_of(input);
        let lines = split(&chars, false);
        let ghost all = views(lines@);
        let ghost rows = map_rows(input@);
        let mut grid: Vec<Position> = Vec::new();
        let mut units: Vec<Unit> = Vec::new();
        let mut width: usize = 0;
        let mut height: usize = 0;
        let mut li: usize = 0;
        while li < lines.len()
            invariant
                all == views(lines@),
                all == pieces(input@, false),
                rows == rows_of(all),
                li <= lines@.len(),
                height == rows_of(all.subrange(0, li as int)).len(),
                height <= rows.len(),
                rows.subrange(0, height as int) == rows_of(all.subrange(0, li as int)),
                height > 0 ==> width == rows[0].len(),
                height > 0 ==> width > 0,
                height == 0 ==> width == 0,
                forall|y: int| 0 <= y < height ==> (#[trigger] rows[y]).len() == width,
                forall|y: int, x: int|
                    0 <= y < height && 0 <= x < width ==> glyph(#[trigger] rows[y][x]) is Some,
                grid@.len() == width * height,
                units@.len() <= grid@.len(),
                units@.len() <= usize::MAX / STARTING_HEALTH,
                forall|i: int|
                    0 <= i < units@.len() ==> {
                        let u = #[trigger] units@[i];
                        &&& u.health == STARTING_HEALTH
                        &&& u.strength == DEFAULT_STRENGTH
                        &&& !u.is_dead
                        &&& u.location.0 < width
                        &&& u.location.1 < height
                        &&& grid@[u.location.1 * width + u.location.0] == Position::Occupied(i as usize)
                    },
                forall|c: int|
                    0 <= c < grid@.len() ==> match #[trigger] grid@[c] {
                        Position::Occupied(i) => {
                            &&& i < units@.len()
                            &&& units@[i as int].location.1 * width + units@[i as int].location.0 == c
                        },
                        _ => true,
                    },
                forall|y: int, x: int|
                    0 <= y < height && 0 <= x < width ==> #[trigger] grid_cell_from_glyph(
                        grid@,
                        units@,
                        width,
                        x,
                        y,
                        rows[y][x],
                    ),
            decreases lines@.len() - li,
        {
            let line = &lines[li];
            let (a, b) = trim_bounds(line);
            let ghost next = all.subrange(0, li as int + 1);
            proof {
                assert(next.drop_last() =~= all.subrange(0, li as int));
                assert(next.last() == line@);
                lemma_trim_of(line@, a as int, b as int);
                lemma_rows_prefix(all, li as int + 1);
            }
            if a < b {
                let ghost row = line@.subrange(a as int, b as int);
                proof {
                    assert(rows_of(next) == rows_of(all.subrange(0, li as int)).push(row));
                    assert(rows[height as int] == row) by {
                        assert(rows.subrange(0, height + 1)[height as int] == row);
                    };
                    assert(rows.subrange(0, height + 1) =~= rows_of(next)) by {
                        assert(rows.subrange(0, height as int) == rows_of(all.subrange(0, li as int)));
                    };
                }
                if height == 0 {
                    width = b - a;
                    proof {
                        assert(width * height == 0) by (nonlinear_arith)
                            requires height == 0;
                    }
                } else if b - a != width {
                    proof {
                        assert(rows[height as int].len() != rows[0].len());
                    }
                    return None;
                }
                let ghost row_start = grid@.len();
                proof {
                    assert forall|i: int| 0 <= i < units@.len() implies {
                        let u = #[trigger] units@[i];
                        u.location.1 * width + u.location.0 < grid@.len()
                    } by {
                        lemma_index_in_grid(width, height, units@[i].location);
                    };
                }
                let mut x: usize = 0;
                while x < width
                    invariant
                        all == views(lines@),
                        all == pieces(input@, false),
                        rows == rows_of(all),
                        li < lines@.len(),
                        line@ == lines@[li as int]@,
                        a < b <= line@.len(),
                        width == b - a,
                        row == line@.subrange(a as int, b as int),
                        height < rows.len(),
                        rows[height as int] == row,
                        height > 0 ==> width == rows[0].len(),
                        height == 0 ==> width == rows[0].len(),
                        forall|y: int| 0 <= y < height ==> (#[trigger] rows[y]).len() == width,
                        forall|y: int, x2: int|
                            0 <= y < height && 0 <= x2 < width ==> glyph(#[trigger] rows[y][x2]) is Some,
                        forall|x2: int| 0 <= x2 < x ==> glyph(#[trigger] row[x2]) is Some,
                        x <= width,
                        row_start == width * height,
                        grid@.len() == row_start + x,
                        units@.len() <= grid@.len(),
                        units@.len() <= usize::MAX / STARTING_HEALTH,
                        forall|i: int|
                            0 <= i < units@.len() ==> {
                                let u = #[trigger] units@[i];
                                &&& u.health == STARTING_HEALTH
                                &&& u.strength == DEFAULT_STRENGTH
                                &&& !u.is_dead
                                &&& u.location.0 < width
                                &&& u.location.1 <= height
                                &&& u.location.1 * width + u.location.0 < grid@.len()
                                &&& grid@[u.location.1 * width + u.location.0] == Position::Occupied(i as usize)
                            },
                        forall|c: int|
                            0 <= c < grid@.len() ==> match #[trigger] grid@[c] {
                                Position::Occupied(i) => {
                                    &&& i < units@.len()
                                    &&& units@[i as int].location.1 * width + units@[i as int].location.0 == c
                                },
                                _ => true,
                            },
                        forall|y: int, x2: int|
                            0 <= y < height && 0 <= x2 < width ==> #[trigger] grid_cell_from_glyph(
                                grid@,
                                units@,
                                width,
                                x2,
                                y,
                                rows[y][x2],
                            ),
                        forall|x2: int|
                            0 <= x2 < x ==> #[trigger] grid_cell_from_glyph(
                                grid@,
                                units@,
                                width,
                                x2,
                                height as int,
                                row[x2],
                            ),
                    decreases width - x,
                {
                    let c = line[a + x];
                    assert(row[x as int] == c);
                    let ghost g0 = grid@;
                    let ghost u0 = units@;
                    match Position::parse(c) {
                        None => {
                            proof {
                                assert(glyph(rows[height as int][x as int]) is None);
                            }
                            return None;
                        },
                        Some((p, faction)) => {
                            match faction {
                                None => {
                                    grid.push(p);
                                },
                                Some(f) => {
                                    if units.len() >= usize::MAX / STARTING_HEALTH {
                                        proof {
                                            assert(rows.len() * width >= (height + 1) * width) by (nonlinear_arith)
                                                requires rows.len() >= height + 1;
                                            assert((height + 1) * width == width * height + width) by (nonlinear_arith);
                                        }
                                        return None;
                                    }
                                    let id = units.len();
                                    proof {
                                        assert(height * width + x == row_start + x) by (nonlinear_arith)
                                            requires row_start == width * height;
                                    }
                                    units.push(Unit::new(f, (x, height)));
                                    grid.push(Position::Occupied(id));
                                },
                            }
                            proof {
                                assert forall|y: int, x2: int|
                                    0 <= y < height && 0 <= x2 < width implies #[trigger] grid_cell_from_glyph(
                                        grid@,
                                        units@,
                                        width,
                                        x2,
                                        y,
                                        rows[y][x2],
                                    ) by {
                                    assert(grid_cell_from_glyph(g0, u0, width, x2, y, rows[y][x2]));
                                    lemma_index_in_grid(width, height, (x2 as usize, y as usize));
                                    assert(grid@[y * width + x2] == g0[y * width + x2]);
                                    if let Position::Occupied(i) = g0[y * width + x2] {
                                        assert(units@[i as int] == u0[i as int]);
                                    }
                                };
                                assert forall|x2: int|
                                    0 <= x2 < x + 1 implies #[trigger] grid_cell_from_glyph(
                                        grid@,
                                        units@,
                                        width,
                                        x2,
                                        height as int,
                                        row[x2],
                                    ) by {
                                    if x2 < x {
                                        assert(grid_cell_from_glyph(g0, u0, width, x2, height as int, row[x2]));
                                        assert(height * width + x2 < g0.len()) by (nonlinear_arith)
                                            requires x2 < x, g0.len() == width * height + x;
                                        assert(grid@[height * width + x2] == g0[height * width + x2]);
                                        if let Position::Occupied(i) = g0[height * width + x2] {
                                            assert(units@[i as int] == u0[i as int]);
                                        }
                                    } else {
                                        assert(height * width + x2 == g0.len()) by (nonlinear_arith)
                                            requires x2 == x, g0.len() == width * height + x;
                                    }
                                };
                            }
                        },
                    }
                    x = x + 1;
                }
                let total = grid.len();
                proof {
                    assert(grid@.len() == width * (height + 1)) by (nonlinear_arith)
                        requires grid@.len() == width * height + width;
                    assert(height + 1 <= width * (height + 1)) by (nonlinear_arith)
                        requires width >= 1;
                }
                height = height + 1;
                proof {
                    assert forall|y: int, x2: int|
                        0 <= y < height && 0 <= x2 < width implies glyph(#[trigger] rows[y][x2]) is Some by {
                        if y == height - 1 {
                            assert(rows[y] == row);
                        }
                    };
                    assert forall|y: int| 0 <= y < height implies (#[trigger] rows[y]).len() == width by {
                        if y == height - 1 {
                            assert(rows[y] == row);
                        }
                    };
                }
            } else {
                proof {
                    assert(rows_of(next) == rows_of(all.subrange(0, li as int)));
                }
            }
            li = li + 1;
        }
        proof {
            assert(all.subrange(0, li as int) =~= all);
            assert(rows.subrange(0, height as int) =~= rows);
        }
        let g = GameState { width, height, grid, units };
        proof {
            g.lemma_indexing();
            assert forall|i: int| 0 <= i < g.units@.len() implies {
                let u = #[trigger] g.units@[i];
                &&& u.is_dead <==> u.health == 0
                &&& u.health <= STARTING_HEALTH
                &&& u.strength >= 1
                &&& !u.is_dead ==> g.in_bounds(u.location) && g.cell(u.location)
                    == Position::Occupied(i as usize)
            } by {};
            assert forall|x: int, y: int|
                0 <= x < g.width && 0 <= y < g.height implies cell_from_glyph(g, x, y, #[trigger] rows[y][x]) by {
                assert(grid_cell_from_glyph(g.grid@, g.units@, width, x, y, rows[y][x]));
            };
        }
        Some(g)
    }
}

/// `cell_from_glyph` over the raw grid and arena.
pub open spec fn grid_cell_from_glyph(grid: Seq<Position>, units: Seq<Unit>, width: usize, x: int, y: int, c: char) -> bool {
    let p = grid[y * width + x];
    match glyph(c) {
        Some((terrain, None)) => p == terrain,
        Some((_, Some(f))) => p is Occupied && units[p->Occupied_0 as int].unit_type == f,
        None => false,
    }
}

/// Rounds after which a combat that has not ended is given up.
pub const ROUND_LIMIT: usize = 1000000;

/// The elf attack power from which the search for a bloodless win starts.
pub const FIRST_ELF_POWER: usize = 4;

/// At this power an elf fells any unit with one blow; more cannot help.
pub const LAST_ELF_POWER: usize = 200;

/// How a combat ended.
#[derive(PartialEq, Eq, Structural, Clone, Copy, Debug)]
pub enum Outcome {
    /// One faction is gone after `rounds` full rounds.
    Won { rounds: usize, winner: UnitType },
    /// An elf fell while elf losses were not allowed.
    ElfDied,
    /// No side was gone after the round limit.
    Stalled,
}

impl GameState {
    /// A copy of this battle in which every elf strikes with `new_elf_strength`.
    pub fn cheat(&self, new_elf_strength: usize) -> (r: GameState)
        requires
            self.wf(),
            new_elf_strength >= 1,
        ensures
            r.wf(),
            elf_power_set(*self, new_elf_strength, r),
    {
        let mut grid: Vec<Position> = Vec::new();
        let mut c: usize = 0;
        while c < self.grid.len()
            invariant
                c <= self.grid@.len(),
                grid@ == self.grid@.subrange(0, c as int),
            decreases self.grid@.len() - c,
        {
            grid.push(self.grid[c]);
            c = c + 1;
        }
        let mut units: Vec<Unit> = Vec::new();
        let mut i: usize = 0;
        while i < self.units.len()
            invariant
                i <= self.units@.len(),
                units@.len() == i,
                forall|j: int|
                    0 <= j < i ==> #[trigger] units@[j] == (Unit {
                        strength: if self.units@[j].unit_type == UnitType::Elf {
                            new_elf_strength
                        } else {
                            self.units@[j].strength
                        },
                        ..self.units@[j]
                    }),
            decreases self.units@.len() - i,
        {
            let mut u = self.units[i];
            if u.unit_type == UnitType::Elf {
                u.strength = new_elf_strength;
            }
            units.push(u);
            i = i + 1;
        }
        assert(grid@ =~= self.grid@);
        let r = GameState { width: self.width, height: self.height, grid, units };
        proof {
            assert forall|c: int| 0 <= c < r.grid@.len() implies match #[trigger] r.grid@[c] {
                Position::Occupied(i) => {
                    &&& i < r.units@.len()
                    &&& !r.units@[i as int].is_dead
                    &&& r.index_of(r.units@[i as int].location) == c
                },
                _ => true,
            } by {
                assert(r.grid@[c] == self.grid@[c]);
            };
            assert forall|i: int| 0 <= i < r.units@.len() implies {
                let u = #[trigger] r.units@[i];
                &&& u.is_dead <==> u.health == 0
                &&& u.health <= STARTING_HEALTH
                &&& u.strength >= 1
                &&& !u.is_dead ==> r.in_bounds(u.location) && r.cell(u.location)
                    == Position::Occupied(i as usize)
            } by {
                assert(self.units@[i].location == r.units@[i].location);
            };
        }
        r
    }

    /// Runs rounds until one faction is gone. With `spare_elves`, gives up
    /// as soon as an elf falls.
    pub fn fight(&mut self, spare_elves: bool) -> (r: Outcome)
        requires
            old(self).wf(),
        ensures
            final(self).wf(),
            units_evolve(old(self).units@, final(self).units@),
            r matches Outcome::Won { rounds, winner } ==> {
                &&& count_alive(final(self).units@, other(winner)) == 0
                &&& rounds <= ROUND_LIMIT
                &&& spare_elves ==> count_alive(final(self).units@, UnitType::Elf) == count_alive(
                    old(self).units@,
                    UnitType::Elf,
                )
            },
            r is ElfDied ==> spare_elves && count_alive(final(self).units@, UnitType::Elf) < count_alive(
                old(self).units@,
                UnitType::Elf,
            ),
            exists|states: Seq<GameState>, results: Seq<(bool, Option<UnitType>)>|
                #[trigger] rounds_fought(states, results) && states[0] == *old(self) && states.last()
                    == *final(self) && (spare_elves ==> forall|i: int|
                    0 <= i < states.len() - 1 ==> count_alive((#[trigger] states[i]).units@, UnitType::Elf)
                        == count_alive(old(self).units@, UnitType::Elf)) && match r {
                    Outcome::Won { rounds, winner } => {
                        &&& results.len() >= 1
                        &&& results.last().1 == Some(winner)
                        &&& rounds == (if results.last().0 {
                            results.len() as int
                        } else {
                            results.len() - 1
                        })
                        &&& spare_elves ==> count_alive(final(self).units@, UnitType::Elf) == count_alive(
                            old(self).units@,
                            UnitType::Elf,
                        )
                    },
                    Outcome::ElfDied => results.len() >= 1,
                    Outcome::Stalled => results.len() == ROUND_LIMIT && results.last().1 is None,
                },
    {
        let elves = self.num_combatants_alive(UnitType::Elf);
        let ghost start = *self;
        let ghost mut states: Seq<GameState> = seq![*self];
        let ghost mut results: Seq<(bool, Option<UnitType>)> = seq![];
        let mut rounds: usize = 0;
        while rounds < ROUND_LIMIT
            invariant
                self.wf(),
                units_evolve(start.units@, self.units@),
                elves == count_alive(start.units@, UnitType::Elf),
                start == *old(self),
                spare_elves ==> count_alive(self.units@, UnitType::Elf) == elves,
                rounds <= ROUND_LIMIT,
                rounds_fought(states, results),
                results.len() == rounds,
                forall|i: int| 0 <= i < results.len() ==> (#[trigger] results[i]).1 is None,
                states[0] == start,
                states.last() == *self,
                spare_elves ==> forall|i: int|
                    0 <= i < states.len() ==> count_alive((#[trigger] states[i]).units@, UnitType::Elf)
                        == elves,
            decreases ROUND_LIMIT - rounds,
        {
            let ghost before = *self;
            let r = self.turn();
            let (full, result) = r;
            proof {
                lemma_units_evolve_trans(start.units@, before.units@, self.units@);
                lemma_elves_never_increase(start.units@, self.units@);
                let old_states = states;
                let old_results = results;
                states = states.push(*self);
                results = results.push(r);
                assert forall|i: int| 0 <= i < results.len() implies after_round(#[trigger] states[i], states[i + 1], results[i]) by {
                    if i < old_results.len() {
                        assert(states[i] == old_states[i] && states[i + 1] == old_states[i + 1]);
                        assert(results[i] == old_results[i]);
                    }
                };
                assert forall|i: int| 0 <= i < results.len() - 1 implies (#[trigger] results[i]).1 is None by {
                    assert(results[i] == old_results[i]);
                };
                if spare_elves {
                    assert forall|i: int| 0 <= i < states.len() - 1 implies count_alive((#[trigger] states[i]).units@, UnitType::Elf)
                        == elves by {
                        assert(states[i] == old_states[i]);
                    };
                }
                assert(rounds_fought(states, results));
            }
            if spare_elves && self.num_combatants_alive(UnitType::Elf) < elves {
                return Outcome::ElfDied;
            }
            match result {
                Some(winner) => {
                    let completed = if full { rounds + 1 } else { rounds };
                    return Outcome::Won { rounds: completed, winner };
                },
                None => {
                    rounds = rounds + 1;
                    proof {
                        assert forall|i: int| 0 <= i < results.len() implies (#[trigger] results[i]).1 is None by {
                        };
                    }
                },
            }
        }
        proof {
            assert(results.len() == ROUND_LIMIT);
            assert(results.last() == results[results.len() - 1]);
        }
        Outcome::Stalled
    }

    /// Completed rounds times the health the winners have left, if that fits.
    pub fn score(&self, rounds: usize, winner: UnitType) -> (r: Option<usize>)
        requires
            self.wf(),
        ensures
            r matches Some(v) ==> v == rounds * health_of(self.units@, winner),
            r is None <==> rounds * health_of(self.units@, winner) > usize::MAX,
    {
        let health = self.remaining_health_for_faction(winner);
        rounds.checked_mul(health)
    }
}

/// The outcome of a combat: full rounds times the health the winners have
/// left.
pub open spec fn combat_score(rounds: nat, units: Seq<Unit>, winner: UnitType) -> nat {
    rounds * health_of(units, winner)
}

/// Arenas that agree on every unit's faction and death agree on the counts.
pub proof fn lemma_same_factions_same_counts(a: Seq<Unit>, b: Seq<Unit>, f: UnitType)
    requires
        a.len() == b.len(),
        forall|i: int|
            0 <= i < a.len() ==> (#[trigger] a[i]).unit_type == b[i].unit_type && a[i].is_dead
                == b[i].is_dead,
    ensures
        count_alive(a, f) == count_alive(b, f),
    decreases a.len(),
{
    if a.len() > 0 {
        assert forall|i: int| 0 <= i < a.len() - 1 implies (#[trigger] a.drop_last()[i]).unit_type
            == b.drop_last()[i].unit_type && a.drop_last()[i].is_dead == b.drop_last()[i].is_dead by {
            assert(a.drop_last()[i] == a[i]);
            assert(b.drop_last()[i] == b[i]);
        };
        lemma_same_factions_same_counts(a.drop_last(), b.drop_last(), f);
        assert(a.last() == a[a.len() - 1]);
        assert(b.last() == b[b.len() - 1]);
    }
}

/// Living units of a faction only ever become fewer.
pub proof fn lemma_elves_never_increase(before: Seq<Unit>, after: Seq<Unit>)
    requires
        units_evolve(before, after),
    ensures
        count_alive(after, UnitType::Elf) <= count_alive(before, UnitType::Elf),
    decreases before.len(),
{
    if before.len() > 0 {
        let b = before.drop_last();
        let a = after.drop_last();
        assert forall|i: int| 0 <= i < b.len() implies {
            &&& (#[trigger] a[i]).unit_type == b[i].unit_type
            &&& a[i].strength == b[i].strength
            &&& a[i].health <= b[i].health
            &&& (b[i].is_dead ==> a[i] == b[i])
        } by {
            assert(a[i] == after[i]);
            assert(b[i] == before[i]);
        };
        lemma_elves_never_increase(b, a);
        assert(after.last() == after[after.len() - 1]);
        assert(before.last() == before[before.len() - 1]);
    }
}

/// The combat score of a map at the default attack power; `None` if the
/// map is refused, the combat stalls or the score overflows.
pub fn star_one(input: &str) -> (r: Option<usize>)
    ensures
        !rows_valid(map_rows(input@)) ==> r is None,
        r matches Some(v) ==> exists|states: Seq<GameState>, results: Seq<(bool, Option<UnitType>)>|
            #[trigger] scored(states, results, v as int) && map_of(input@, states[0]),
        r is None && rows_valid(map_rows(input@)) && (map_rows(input@).len() == 0 || map_rows(
            input@,
        ).len() * map_rows(input@)[0].len() <= usize::MAX / STARTING_HEALTH) ==> exists|
            states: Seq<GameState>,
            results: Seq<(bool, Option<UnitType>)>,
        | #[trigger] unscorable(states, results) && map_of(input@, states[0]),
{
    match GameState::parse(input) {
        None => None,
        Some(mut state) => {
            let ghost start = state;
            match state.fight(false) {
                Outcome::Won { rounds, winner } => {
                    let r = state.score(rounds, winner);
                    proof {
                        let (states, results) = choose|states: Seq<GameState>, results: Seq<(bool, Option<UnitType>)>|
                            #[trigger] rounds_fought(states, results) && states[0] == start && states.last() == state
                                && results.len() >= 1 && results.last().1 == Some(winner) && rounds == full_rounds(results);
                        if let Some(v) = r {
                            assert(scored(states, results, v as int));
                        } else {
                            assert(unscorable(states, results));
                        }
                    }
                    r
                },
                Outcome::ElfDied => None,
                Outcome::Stalled => {
                    proof {
                        let (states, results) = choose|states: Seq<GameState>, results: Seq<(bool, Option<UnitType>)>|
                            #[trigger] rounds_fought(states, results) && states[0] == start && states.last() == state
                                && results.len() == ROUND_LIMIT && results.last().1 is None;
                        assert(unscorable(states, results));
                    }
                    None
                },
            }
        },
    }
}

/// The combat with every elf striking with `power`: its score if the elves
/// win it without a loss.
pub fn try_elf_power(initial: &GameState, power: usize) -> (r: Option<usize>)
    requires
        initial.wf(),
        power >= 1,
    ensures
        r matches Some(v) ==> exists|states: Seq<GameState>, results: Seq<(bool, Option<UnitType>)>|
            #[trigger] bloodless_win(*initial, power, states, results, v as int),
        r is None ==> trial_fails(*initial, power),
{
    let mut state = initial.cheat(power);
    let ghost start = state;
    proof {
        lemma_same_factions_same_counts(initial.units@, state.units@, UnitType::Elf);
    }
    let outcome = state.fight(true);
    proof {
        let (states, results) = choose|states: Seq<GameState>, results: Seq<(bool, Option<UnitType>)>|
            #[trigger] rounds_fought(states, results) && states[0] == start && states.last() == state && match outcome {
                Outcome::Won { rounds, winner } => {
                    &&& results.len() >= 1
                    &&& results.last().1 == Some(winner)
                    &&& rounds == full_rounds(results)
                },
                Outcome::ElfDied => results.len() >= 1,
                Outcome::Stalled => results.len() == ROUND_LIMIT && results.last().1 is None,
            };
        if outcome is ElfDied || outcome == (Outcome::Won { rounds: outcome->rounds, winner: UnitType::Goblin }) || outcome is Stalled {
            assert(failed_trial(*initial, power, states, results));
        }
    }
    match outcome {
        Outcome::Won { rounds, winner: UnitType::Elf } => {
            let r = state.score(rounds, UnitType::Elf);
            proof {
                if r is None {
                    let (states, results) = choose|states: Seq<GameState>, results: Seq<(bool, Option<UnitType>)>|
                        #[trigger] rounds_fought(states, results) && states[0] == start && states.last() == state
                            && results.len() >= 1 && results.last().1 == Some(UnitType::Elf) && rounds == full_rounds(results);
                    assert(failed_trial(*initial, power, states, results));
                }
                if let Some(v) = r {
                    let (states, results) = choose|states: Seq<GameState>, results: Seq<(bool, Option<UnitType>)>|
                        #[trigger] rounds_fought(states, results) && states[0] == start && states.last() == state
                            && (forall|i: int|
                            0 <= i < states.len() - 1 ==> count_alive((#[trigger] states[i]).units@, UnitType::Elf)
                                == count_alive(start.units@, UnitType::Elf))
                            && results.len() >= 1 && results.last().1 == Some(UnitType::Elf)
                            && rounds == full_rounds(results)
                            && count_alive(state.units@, UnitType::Elf) == count_alive(start.units@, UnitType::Elf);
                    assert(scored(states, results, v as int));
                    assert forall|i: int| 0 <= i < states.len() implies count_alive((#[trigger] states[i]).units@, UnitType::Elf)
                        == count_alive(initial.units@, UnitType::Elf) by {
                        if i == states.len() - 1 {
                            assert(states[i] == states.last());
                        }
                    };
                    assert(bloodless_win(*initial, power, states, results, v as int));
                }
            }
            r
        },
        _ => None,
    }
}

/// The least elf attack power, from `FIRST_ELF_POWER` up, at which the elves
/// win without a loss, with the score of that combat.
pub fn minimal_elf_power(initial: &GameState) -> (r: Option<(usize, usize)>)
    requires
        initial.wf(),
    ensures
        r is Some ==> FIRST_ELF_POWER <= r->Some_0.0 <= LAST_ELF_POWER,
        r is Some ==> forall|q: usize| FIRST_ELF_POWER <= q < r->Some_0.0 ==> #[trigger] trial_fails(*initial, q),
        r is None ==> forall|q: usize| FIRST_ELF_POWER <= q <= LAST_ELF_POWER ==> #[trigger] trial_fails(*initial, q),
        r is Some ==> exists|states: Seq<GameState>, results: Seq<(bool, Option<UnitType>)>|
            #[trigger] bloodless_win(*initial, r->Some_0.0, states, results, r->Some_0.1 as int),
{
    let mut power: usize = FIRST_ELF_POWER;
    while power <= LAST_ELF_POWER
        invariant
            initial.wf(),
            FIRST_ELF_POWER <= power <= LAST_ELF_POWER + 1,
            forall|q: usize| FIRST_ELF_POWER <= q < power ==> #[trigger] trial_fails(*initial, q),
        decreases LAST_ELF_POWER + 1 - power,
    {
        match try_elf_power(initial, power) {
            Some(v) => {
                proof {
                    let (states, results) = choose|states: Seq<GameState>, results: Seq<(bool, Option<UnitType>)>|
                        #[trigger] bloodless_win(*initial, power, states, results, v as int);
                    assert(bloodless_win(*initial, power, states, results, v as int));
                    assert(exists|states2: Seq<GameState>, results2: Seq<(bool, Option<UnitType>)>|
                        #[trigger] bloodless_win(*initial, power, states2, results2, v as int));
                }
                let r = Some((power, v));
                proof {
                    assert(r->Some_0.0 == power && r->Some_0.1 == v);
                }
                return r;
            },
            None => {},
        }
        power = power + 1;
    }
    None
}

/// The score of the first bloodless elf victory; `None` if the map is
/// refused or no power up to `LAST_ELF_POWER` spares every elf.
pub fn star_two(input: &str) -> (r: Option<usize>)
    ensures
        !rows_valid(map_rows(input@)) ==> r is None,
        r is Some ==> tuned_score(input@, r->Some_0 as int),
        r is None && rows_valid(map_rows(input@)) && (map_rows(input@).len() == 0 || map_rows(
            input@,
        ).len() * map_rows(input@)[0].len() <= usize::MAX / STARTING_HEALTH) ==> no_power_works(input@),
{
    match GameState::parse(input) {
        None => None,
        Some(state) => {
            let m = minimal_elf_power(&state);
            proof {
                if m is None {
                    assert(map_of(input@, state));
                }
            }
            match m {
                Some((power, score)) => {
                    proof {
                        let (states, results) = choose|states: Seq<GameState>, results: Seq<(bool, Option<UnitType>)>|
                            #[trigger] bloodless_win(state, m->Some_0.0, states, results, m->Some_0.1 as int);
                        lemma_tuned_score(input@, state, power, states, results, score as int);
                    }
                    Some(score)
                },
                None => None,
            }
        },
    }
}

/// No elf power from `FIRST_ELF_POWER` to `LAST_ELF_POWER` gives the elves
/// a bloodless win on the map `input`.
pub open spec fn no_power_works(input: Seq<char>) -> bool {
    exists|g: GameState|
        #[trigger] map_of(input, g) && forall|q: usize|
            FIRST_ELF_POWER <= q <= LAST_ELF_POWER ==> #[trigger] trial_fails(g, q)
}

/// On the map `input`, the least elf power from `FIRST_ELF_POWER` up that
/// wins the combat for the elves without a loss is at most
/// `LAST_ELF_POWER`, and `v` is the score of that combat.
pub open spec fn tuned_score(input: Seq<char>, v: int) -> bool {
    exists|g: GameState, power: usize, states: Seq<GameState>, results: Seq<(bool, Option<UnitType>)>|
        #[trigger] map_of(input, g) && #[trigger] bloodless_win(g, power, states, results, v)
            && FIRST_ELF_POWER <= power <= LAST_ELF_POWER && forall|q: usize|
            FIRST_ELF_POWER <= q < power ==> #[trigger] trial_fails(g, q)
}

pub proof fn lemma_tuned_score(
    input: Seq<char>,
    g: GameState,
    power: usize,
    states: Seq<GameState>,
    results: Seq<(bool, Option<UnitType>)>,
    v: int,
)
    requires
        map_of(input, g),
        bloodless_win(g, power, states, results, v),
        FIRST_ELF_POWER <= power <= LAST_ELF_POWER,
        forall|q: usize| FIRST_ELF_POWER <= q < power ==> #[trigger] trial_fails(g, q),
    ensures
        tuned_score(input, v),
{
}

impl GameState {
    /// Only the source may be a closed cell on a walk.
    pub proof fn lemma_reach_open(&self, src: Location, c: Location, n: nat)
        requires
            self.reach(src, c, n),
        ensures
            c == src || self.is_open(c),
        decreases n,
    {
        if n > 0 && self.reach(src, c, (n - 1) as nat) {
            self.lemma_reach_open(src, c, (n - 1) as nat);
        }
    }

    /// A walk from an open cell `s` can start one step earlier, at a
    /// neighbour `b` of `s`.
    pub proof fn lemma_reach_prepend(&self, b: Location, s: Location, x: Location, m: nat)
        requires
            self.reach(s, x, m),
            adjacent(b, s),
            self.is_open(s),
        ensures
            self.reach(b, x, m + 1),
        decreases m,
    {
        if m == 0 {
            self.lemma_reach_step(b, b, s, 0);
        } else if self.reach(s, x, (m - 1) as nat) {
            self.lemma_reach_prepend(b, s, x, (m - 1) as nat);
            self.lemma_reach_monotone(b, x, m, m + 1);
        } else {
            let p = self.lemma_reach_unfold(s, x, m);
            self.lemma_reach_prepend(b, s, p, (m - 1) as nat);
            self.lemma_reach_step(b, p, x, m);
        }
    }

    /// A walk between open cells can be walked backwards.
    pub proof fn lemma_reach_reverse(&self, a: Location, b: Location, n: nat)
        requires
            self.reach(a, b, n),
            self.is_open(a),
        ensures
            self.reach(b, a, n),
        decreases n,
    {
        if n == 0 {
        } else if self.reach(a, b, (n - 1) as nat) {
            self.lemma_reach_reverse(a, b, (n - 1) as nat);
            self.lemma_reach_monotone(b, a, (n - 1) as nat, n);
        } else {
            let p = self.lemma_reach_unfold(a, b, n);
            self.lemma_reach_reverse(a, p, (n - 1) as nat);
            self.lemma_reach_open(a, p, (n - 1) as nat);
            self.lemma_reach_prepend(b, p, a, (n - 1) as nat);
        }
    }

    /// Between two open cells of a fixed grid, shortest-walk distances are
    /// symmetric: each is reachable from the other exactly when the other is
    /// from it, and then at the same distance.
    pub proof fn distance_is_symmetric(&self, a: Location, b: Location)
        requires
            self.is_open(a),
            self.is_open(b),
        ensures
            self.reachable(a, b) <==> self.reachable(b, a),
            self.reachable(a, b) ==> self.dist(a, b) == self.dist(b, a),
    {
        if self.reachable(a, b) {
            let n = choose|n: nat| #[trigger] self.reach(a, b, n);
            self.lemma_reach_reverse(a, b, n);
        }
        if self.reachable(b, a) {
            let n = choose|n: nat| #[trigger] self.reach(b, a, n);
            self.lemma_reach_reverse(b, a, n);
        }
        if self.reachable(a, b) {
            let n = choose|n: nat| #[trigger] self.reach(a, b, n);
            self.lemma_shortest_exists(a, b, n);
            let m = choose|m: nat| #[trigger] self.reach(b, a, m);
            self.lemma_shortest_exists(b, a, m);
            let dab = self.dist(a, b);
            let dba = self.dist(b, a);
            self.lemma_reach_reverse(a, b, dab);
            self.lemma_reach_reverse(b, a, dba);
            self.lemma_shortest_exists(b, a, dab);
            self.lemma_shortest_exists(a, b, dba);
        }
    }

    /// A walk that leaves its source first steps onto an open neighbour of
    /// the source.
    pub proof fn lemma_first_step(&self, src: Location, t: Location, n: nat) -> (q: Location)
        requires
            self.reach(src, t, n),
            t != src,
        ensures
            n >= 1,
            adjacent(src, q),
            self.is_open(q),
            self.reach(q, t, (n - 1) as nat),
        decreases n,
    {
        if self.reach(src, t, (n - 1) as nat) {
            let q = self.lemma_first_step(src, t, (n - 1) as nat);
            self.lemma_reach_monotone(q, t, (n - 2) as nat, (n - 1) as nat);
            q
        } else {
            let p = self.lemma_reach_unfold(src, t, n);
            if p == src {
                self.lemma_reach_monotone(t, t, 0, (n - 1) as nat);
                t
            } else {
                let q = self.lemma_first_step(src, p, (n - 1) as nat);
                self.lemma_reach_step(q, p, t, (n - 2) as nat);
                q
            }
        }
    }

    /// A unit from which a target cell is reachable has a step toward it.
    pub proof fn lemma_step_exists(&self, unit: Location, t: Location)
        requires
            self.reachable(unit, t),
            self.is_open(t),
            !self.is_open(unit),
        ensures
            exists|q: Location| adjacent(unit, q) && #[trigger] self.is_open(q) && self.reachable(t, q),
    {
        let n = choose|n: nat| #[trigger] self.reach(unit, t, n);
        let q = self.lemma_first_step(unit, t, n);
        self.lemma_reach_reverse(q, t, (n - 1) as nat);
    }
}

impl Position {
    /// The map glyph of this cell, given the arena its unit lives in.
    pub fn to_char(&self, units: &Vec<Unit>) -> (r: char)
        requires
            self matches Position::Occupied(i) ==> i < units@.len(),
        ensures
            r == glyph_of(*self, units@),
    {
        match self {
            Position::Wall => '#',
            Position::Open => '.',
            Position::Occupied(i) => units[*i].to_char(),
        }
    }
}

/// The glyph a cell is drawn with.
pub open spec fn glyph_of(p: Position, units: Seq<Unit>) -> char {
    match p {
        Position::Wall => '#',
        Position::Open => '.',
        Position::Occupied(i) => if units[i as int].unit_type == UnitType::Goblin {
            'G'
        } else {
            'E'
        },
    }
}

impl GameState {
    /// The glyphs of the first `n` cells of row `y`.
    pub open spec fn row_text(&self, y: int, n: nat) -> Seq<char>
        decreases n,
    {
        if n == 0 {
            seq![]
        } else {
            self.row_text(y, (n - 1) as nat).push(
                glyph_of(self.grid@[y * self.width + n - 1], self.units@),
            )
        }
    }

    /// The first `k` rows drawn as text, one line each.
    pub open spec fn map_text(&self, k: nat) -> Seq<char>
        decreases k,
    {
        if k == 0 {
            seq![]
        } else if k == 1 {
            self.row_text(0, self.width as nat)
        } else {
            self.map_text((k - 1) as nat).push('\n') + self.row_text(k - 1, self.width as nat)
        }
    }

    /// The map as text: one line per row, `#` wall, `.` open, `G` and `E`
    /// for the units.
    pub fn render(&self) -> (r: String)
        requires
            self.wf(),
        ensures
            r@ == self.map_text(self.height as nat),
    {
        let mut text: Vec<char> = Vec::new();
        let mut y: usize = 0;
        while y < self.height
            invariant
                self.wf(),
                y <= self.height,
                text@ == self.map_text(y as nat),
            decreases self.height - y,
        {
            let ghost before = text@;
            if y > 0 {
                text.push('\n');
            }
            let ghost start = text@;
            let mut x: usize = 0;
            while x < self.width
                invariant
                    self.wf(),
                    y < self.height,
                    x <= self.width,
                    text@ == start + self.row_text(y as int, x as nat),
                decreases self.width - x,
            {
                proof {
                    self.lemma_indexing();
                    assert(self.in_bounds((x, y)));
                    assert(self.grid@[self.index_of((x, y))] == self.grid@[y * self.width + x]);
                }
                let p = self.at((x, y));
                proof {
                    if let Position::Occupied(i) = p {
                        assert(self.grid@[self.index_of((x, y))] is Occupied);
                    }
                }
                let c = p.to_char(&self.units);
                text.push(c);
                proof {
                    assert(text@ =~= start + self.row_text(y as int, (x + 1) as nat));
                }
                x = x + 1;
            }
            proof {
                if y == 0 {
                    assert(text@ =~= self.map_text(1));
                } else {
                    assert(text@ =~= self.map_text((y + 1) as nat));
                }
            }
            y = y + 1;
        }
        crate::text::string_from(&text)
    }
}

impl GameState {
    /// Every choice a unit makes is determined by the state: at most one
    /// enemy is the one struck, at most one cell is the destination, and at
    /// most one cell is the step toward it.
    pub proof fn choices_are_unique(
        &self,
        attacker: usize,
        unit: Location,
        faction: UnitType,
        a: Location,
        b: Location,
        to: Location,
    )
        ensures
            self.struck(attacker, a) && self.struck(attacker, b) ==> a == b,
            self.nearest_target(unit, faction, a) && self.nearest_target(unit, faction, b) ==> a == b,
            self.best_step(unit, to, a) && self.best_step(unit, to, b) ==> a == b,
    {
        if self.struck(attacker, a) && self.struck(attacker, b) && a != b {
            let u = self.units@[attacker as int];
            assert(self.attacked_first(a, b));
            assert(self.attacked_first(b, a));
        }
        if self.nearest_target(unit, faction, a) && self.nearest_target(unit, faction, b) && a != b {
            assert(self.is_target_cell(b, faction));
            assert(self.is_target_cell(a, faction));
        }
        if self.best_step(unit, to, a) && self.best_step(unit, to, b) && a != b {
            assert(self.is_open(b));
            assert(self.is_open(a));
        }
    }
}

/// The two states agree in every field.
pub open spec fn same_state(a: GameState, b: GameState) -> bool {
    a.width == b.width && a.height == b.height && a.grid@ == b.grid@ && a.units@ == b.units@
}

impl GameState {
    /// Some target cell is reachable from the unit `id`.
    pub open spec fn has_reachable_target(&self, id: usize) -> bool {
        let u = self.units@[id as int];
        exists|t: Location| #[trigger] self.is_target_cell(t, u.unit_type) && self.reachable(u.location, t)
    }

    /// `m` is the step from `unit` toward the nearest target cell.
    pub open spec fn steps_toward_nearest(&self, unit: Location, faction: UnitType, m: Location) -> bool {
        exists|t: Location| self.nearest_target(unit, faction, t) && #[trigger] self.best_step(unit, t, m)
    }

    /// Where unit `id` stands after the movement half of its turn: a living
    /// unit with no enemy beside it and a reachable target cell takes the
    /// step toward the nearest one; any other stays.
    pub open spec fn destination(&self, id: usize) -> Location {
        let u = self.units@[id as int];
        if !u.is_dead && !self.enemy_adjacent(u.location, u.unit_type) && self.has_reachable_target(id) {
            choose|m: Location| #[trigger] self.steps_toward_nearest(u.location, u.unit_type, m)
        } else {
            u.location
        }
    }
}

/// `b` is `a` after the movement half of unit `id`'s turn.
pub open spec fn after_step(a: GameState, b: GameState, id: usize) -> bool {
    let u = a.units@[id as int];
    let d = a.destination(id);
    &&& b.width == a.width
    &&& b.height == a.height
    &&& b.units@ == a.units@.update(id as int, Unit { location: d, ..u })
    &&& b.grid@ == (if d == u.location {
        a.grid@
    } else {
        a.grid@.update(a.index_of(u.location), Position::Open).update(a.index_of(d), Position::Occupied(id))
    })
}

/// `b` is `a` after unit `id` strikes the enemy it prefers, if it is alive
/// and has one beside it.
pub open spec fn after_strike(a: GameState, b: GameState, id: usize) -> bool {
    &&& b.width == a.width
    &&& b.height == a.height
    &&& if a.units@[id as int].is_dead || !exists|l: Location| #[trigger] a.struck(id, l) {
        b.grid@ == a.grid@ && b.units@ == a.units@
    } else {
        let l = choose|l: Location| #[trigger] a.struck(id, l);
        let h = Unit::health_after(a.health_at(l), a.units@[id as int].strength);
        &&& b.units@ == a.units@.update(
            a.occupant(l),
            Unit { health: h, is_dead: h == 0, ..a.units@[a.occupant(l)] },
        )
        &&& b.grid@ == (if h == 0 {
            a.grid@.update(a.index_of(l), Position::Open)
        } else {
            a.grid@
        })
    }
}

/// `b` is `a` after unit `id`'s whole turn: its step, then its strike.
pub open spec fn after_unit_turn(a: GameState, b: GameState, id: usize) -> bool {
    exists|m: GameState| #[trigger] after_step(a, m, id) && after_strike(m, b, id)
}

/// `order` lists the living units, each once, in reading order of where
/// they stand.
pub open spec fn turn_order(g: GameState, order: Seq<usize>) -> bool {
    &&& forall|j: int| 0 <= j < order.len() ==> (#[trigger] order[j]) < g.units@.len()
    &&& forall|j: int| 0 <= j < order.len() ==> !g.units@[#[trigger] order[j] as int].is_dead
    &&& forall|j1: int, j2: int|
        0 <= j1 < j2 < order.len() ==> reads_before(
            g.units@[#[trigger] order[j1] as int].location,
            g.units@[#[trigger] order[j2] as int].location,
        )
    &&& forall|i: int|
        0 <= i < g.units@.len() && !(#[trigger] g.units@[i]).is_dead ==> order.contains(i as usize)
}

/// `trace[j + 1]` follows from `trace[j]` by the turn of unit `order[j]`, for
/// every `j < k`, each of those units that was still alive at its turn
/// having a living enemy then; a unit killed earlier in the round is skipped.
pub open spec fn turns_taken(trace: Seq<GameState>, order: Seq<usize>, k: int) -> bool {
    &&& trace.len() == k + 1
    &&& 0 <= k <= order.len()
    &&& forall|j: int|
        0 <= j < k ==> after_unit_turn(#[trigger] trace[j], trace[j + 1], order[j])
    &&& forall|j: int|
        0 <= j < k && !(#[trigger] trace[j]).units@[order[j] as int].is_dead ==> count_alive(
            trace[j].units@,
            other(trace[j].units@[order[j] as int].unit_type),
        ) > 0
}

/// The faction left standing once the other is gone, if one is.
pub open spec fn verdict(g: GameState) -> Option<UnitType> {
    if count_alive(g.units@, UnitType::Goblin) == 0 {
        Some(UnitType::Elf)
    } else if count_alive(g.units@, UnitType::Elf) == 0 {
        Some(UnitType::Goblin)
    } else {
        None
    }
}

/// `b` is `a` after one round, which reports `r`: the living units take
/// their turns in reading order; the round breaks off, incomplete, at the
/// first living unit that finds no enemy left, and otherwise reports the faction
/// left standing, if any.
pub open spec fn after_round(a: GameState, b: GameState, r: (bool, Option<UnitType>)) -> bool {
    exists|order: Seq<usize>, trace: Seq<GameState>, k: int|
        #[trigger] turns_taken(trace, order, k) && turn_order(a, order) && trace[0] == a && trace[k]
            == b && (r.0 <==> k == order.len()) && (!r.0 ==> !b.units@[order[k] as int].is_dead
            && r.1 == Some(b.units@[order[k] as int].unit_type) && count_alive(
            b.units@,
            other(b.units@[order[k] as int].unit_type),
        ) == 0) && (r.0 ==> r.1 == verdict(b))
}

/// `states[i + 1]` is `states[i]` after round `i`, which reports
/// `results[i]`; every round but the last leaves both factions standing.
pub open spec fn rounds_fought(states: Seq<GameState>, results: Seq<(bool, Option<UnitType>)>) -> bool {
    &&& states.len() == results.len() + 1
    &&& forall|i: int|
        0 <= i < results.len() ==> after_round(#[trigger] states[i], states[i + 1], results[i])
    &&& forall|i: int| 0 <= i < results.len() - 1 ==> (#[trigger] results[i]).1 is None
}

/// The rounds that count toward the score: all of them, but the last if it
/// broke off.
pub open spec fn full_rounds(results: Seq<(bool, Option<UnitType>)>) -> int {
    if results.last().0 { results.len() as int } else { results.len() - 1 }
}

/// The combat fought from `states[0]` gives no score: it was still on after
/// `ROUND_LIMIT` rounds, or its score does not fit a `usize`.
pub open spec fn unscorable(states: Seq<GameState>, results: Seq<(bool, Option<UnitType>)>) -> bool {
    &&& rounds_fought(states, results)
    &&& {
        ||| results.len() == ROUND_LIMIT && results.last().1 is None
        ||| results.len() >= 1 && results.last().1 is Some && combat_score(
            full_rounds(results) as nat,
            states.last().units@,
            results.last().1->Some_0,
        ) > usize::MAX
    }
}

/// The combat fought from `states[0]` ended with a winner, and `v` is its
/// score.
pub open spec fn scored(states: Seq<GameState>, results: Seq<(bool, Option<UnitType>)>, v: int) -> bool {
    &&& rounds_fought(states, results)
    &&& results.len() >= 1
    &&& results.last().1 is Some
    &&& v == combat_score(full_rounds(results) as nat, states.last().units@, results.last().1->Some_0)
}

/// `b` is `a` with every elf striking with `power`.
pub open spec fn elf_power_set(a: GameState, power: usize, b: GameState) -> bool {
    &&& b.width == a.width
    &&& b.height == a.height
    &&& b.grid@ == a.grid@
    &&& b.units@.len() == a.units@.len()
    &&& forall|i: int|
        0 <= i < a.units@.len() ==> #[trigger] b.units@[i] == (Unit {
            strength: if a.units@[i].unit_type == UnitType::Elf { power } else { a.units@[i].strength },
            ..a.units@[i]
        })
}

/// The combat `states`, fought from `initial` with every elf striking with
/// `power`, gives no bloodless elf win: an elf fell, the goblins won, it was
/// still on after `ROUND_LIMIT` rounds, or its score does not fit a `usize`.
pub open spec fn failed_trial(
    initial: GameState,
    power: usize,
    states: Seq<GameState>,
    results: Seq<(bool, Option<UnitType>)>,
) -> bool {
    &&& rounds_fought(states, results)
    &&& elf_power_set(initial, power, states[0])
    &&& results.len() >= 1
    &&& {
        ||| count_alive(states.last().units@, UnitType::Elf) < count_alive(initial.units@, UnitType::Elf)
        ||| results.last().1 == Some(UnitType::Goblin)
        ||| results.len() == ROUND_LIMIT && results.last().1 is None
        ||| results.last().1 == Some(UnitType::Elf) && combat_score(
            full_rounds(results) as nat,
            states.last().units@,
            UnitType::Elf,
        ) > usize::MAX
    }
}

/// With every elf striking with `power`, the combat from `initial` gives no
/// bloodless elf win.
pub open spec fn trial_fails(initial: GameState, power: usize) -> bool {
    exists|states: Seq<GameState>, results: Seq<(bool, Option<UnitType>)>|
        #[trigger] failed_trial(initial, power, states, results)
}

/// The combat `states`, fought from `initial` with every elf striking with
/// `power`, is won by the elves without a loss, and `v` is its score.
pub open spec fn bloodless_win(
    initial: GameState,
    power: usize,
    states: Seq<GameState>,
    results: Seq<(bool, Option<UnitType>)>,
    v: int,
) -> bool {
    &&& scored(states, results, v)
    &&& elf_power_set(initial, power, states[0])
    &&& results.last().1 == Some(UnitType::Elf)
    &&& forall|i: int|
        0 <= i < states.len() ==> count_alive((#[trigger] states[i]).units@, UnitType::Elf)
            == count_alive(initial.units@, UnitType::Elf)
}

/// One more unit's turn extends the trace of a round.
pub proof fn lemma_trace_extend(trace: Seq<GameState>, order: Seq<usize>, k: int, next: GameState)
    requires
        turns_taken(trace, order, k),
        k < order.len(),
        after_unit_turn(trace[k], next, order[k]),
        !trace[k].units@[order[k] as int].is_dead ==> count_alive(
            trace[k].units@,
            other(trace[k].units@[order[k] as int].unit_type),
        ) > 0,
    ensures
        turns_taken(trace.push(next), order, k + 1),
        trace.push(next)[0] == trace[0],
        trace.push(next)[k + 1] == next,
{
    let t = trace.push(next);
    assert forall|j: int| 0 <= j < k + 1 implies after_unit_turn(#[trigger] t[j], t[j + 1], order[j]) by {
        if j < k {
            assert(t[j] == trace[j] && t[j + 1] == trace[j + 1]);
        }
    };
    assert forall|j: int|
        0 <= j < k + 1 && !(#[trigger] t[j]).units@[order[j] as int].is_dead implies count_alive(
            t[j].units@,
            other(t[j].units@[order[j] as int].unit_type),
        ) > 0 by {
        if j < k {
            assert(t[j] == trace[j]);
        }
    };
}

/// A unit's turn is determined by the state it starts from: two states
/// reached from one state by the turn of the same unit agree in every
/// field.
pub proof fn unit_turn_is_determined(a: GameState, b1: GameState, b2: GameState, id: usize)
    requires
        after_unit_turn(a, b1, id),
        after_unit_turn(a, b2, id),
    ensures
        same_state(b1, b2),
{
    let m1 = choose|m: GameState| #[trigger] after_step(a, m, id) && after_strike(m, b1, id);
    let m2 = choose|m: GameState| #[trigger] after_step(a, m, id) && after_strike(m, b2, id);
    assert(same_state(m1, m2));
    assert forall|x: Location, f: UnitType| #[trigger] m1.is_enemy_at(x, f) == m2.is_enemy_at(x, f) by {};
    assert forall|x: Location, y: Location| #[trigger] m1.attacked_first(x, y) == m2.attacked_first(x, y) by {};
    assert forall|l: Location| #[trigger] m1.struck(id, l) == m2.struck(id, l) by {
        let u = m1.units@[id as int];
        assert(m2.units@[id as int] == u);
        if m1.struck(id, l) {
            assert forall|m: Location|
                adjacent(u.location, m) && #[trigger] m2.is_enemy_at(m, u.unit_type) && m != l implies m2.attacked_first(l, m) by {
                assert(m1.is_enemy_at(m, u.unit_type));
                assert(m1.attacked_first(l, m));
            };
        }
        if m2.struck(id, l) {
            assert forall|m: Location|
                adjacent(u.location, m) && #[trigger] m1.is_enemy_at(m, u.unit_type) && m != l implies m1.attacked_first(l, m) by {
                assert(m2.is_enemy_at(m, u.unit_type));
                assert(m2.attacked_first(l, m));
            };
        }
    };
    if exists|l: Location| #[trigger] m1.struck(id, l) {
        let l = choose|l: Location| #[trigger] m1.struck(id, l);
        assert(m2.struck(id, l));
        let l1 = choose|l: Location| #[trigger] m1.struck(id, l);
        let l2 = choose|l: Location| #[trigger] m2.struck(id, l);
        assert(m1.struck(id, l2));
        m1.choices_are_unique(id, l1, UnitType::Elf, l1, l2, l1);
        assert(m1.health_at(l1) == m2.health_at(l1));
        assert(m1.occupant(l1) == m2.occupant(l1));
        assert(m1.index_of(l1) == m2.index_of(l1));
    } else {
        assert(!exists|l: Location| #[trigger] m2.struck(id, l)) by {
            if exists|l: Location| #[trigger] m2.struck(id, l) {
                let l = choose|l: Location| #[trigger] m2.struck(id, l);
                assert(m1.struck(id, l));
            }
        };
    }
}

pub proof fn lemma_index_in_grid(width: usize, height: usize, l: Location)
    requires
        l.0 < width,
        l.1 < height,
    ensures
        0 <= l.1 * width + l.0 < width * height,
{
    assert(l.1 * width + l.0 < width * height) by (nonlinear_arith)
        requires
            l.0 < width,
            l.1 < height,
    ;
}

pub proof fn lemma_index_injective(width: usize, height: usize, a: Location, b: Location)
    requires
        a.0 < width,
        a.1 < height,
        b.0 < width,
        b.1 < height,
        a.1 * width + a.0 == b.1 * width + b.0,
    ensures
        a == b,
{
    assert(a.1 == b.1) by (nonlinear_arith)
        requires
            a.0 < width,
            b.0 < width,
            a.1 * width + a.0 == b.1 * width + b.0,
    ;
}

} // verus!
