//! A universe that stores only its live cells, and keeps the last
//! `MAX_HISTORY` generations so that it can step back and replay them.

use crate::collections::{map_get, map_insert, map_values, set_contains, set_insert, set_members, Cell};
use crate::universe::Universe;
use crate::universe::life::{away_from_edge, lemma_lives_next_is_near_live, live_neighbors, lives_next, near, next_generation};
use crate::config::MAX_HISTORY;
use rustc_hash::{FxHashMap, FxHashSet};
use std::collections::VecDeque;
use vstd::prelude::*;

verus! {

/// The 3x3 block of cells centred on `(x, y)`.
pub open spec fn block(x: i32, y: i32) -> Set<Cell> {
    Set::new(|c: Cell| near((x, y), c))
}

/// Ages after a step from `s`: one more than before for a survivor (a
/// survivor with no recorded age counts from 0), 0 for a newborn.
pub open spec fn next_ages(s: Set<Cell>, ages: Map<Cell, u32>) -> Map<Cell, u32> {
    Map::new(
        |c: Cell| lives_next(s, c),
        |c: Cell|
            if s.contains(c) {
                ((if ages.contains_key(c) { ages[c] as int } else { 0 }) + 1) as u32
            } else {
                0u32
            },
    )
}

/// Whether every live cell of `s` has an age below `u32::MAX`, so that one
/// more step can count it up.
pub open spec fn ages_can_grow(s: Set<Cell>, ages: Map<Cell, u32>) -> bool {
    forall|c: Cell| #[trigger] s.contains(c) && ages.contains_key(c) ==> ages[c] < u32::MAX
}

/// Whether `b` is `(least, greatest)` of the ages recorded in `ages`, or
/// `(0, 0)` when none is recorded.
pub open spec fn are_age_bounds(ages: Map<Cell, u32>, b: (u32, u32)) -> bool {
    if ages.is_empty() {
        b == (0u32, 0u32)
    } else {
        &&& ages.values().contains(b.0)
        &&& ages.values().contains(b.1)
        &&& forall|c: Cell| #[trigger] ages.contains_key(c) ==> b.0 <= ages[c] <= b.1
    }
}

/// Number of live neighbours of `(x, y)`.
fn count_neighbors(live_cells: &FxHashSet<Cell>, x: i32, y: i32) -> (n: u8)
    requires
        i32::MIN < x < i32::MAX,
        i32::MIN < y < i32::MAX,
    ensures
        n as int == live_neighbors(live_cells@, x as int, y as int),
{
    let mut count: u8 = 0;
    if set_contains(live_cells, &(x - 1, y - 1)) {
        count += 1;
    }
    if set_contains(live_cells, &(x - 1, y)) {
        count += 1;
    }
    if set_contains(live_cells, &(x - 1, y + 1)) {
        count += 1;
    }
    if set_contains(live_cells, &(x, y - 1)) {
        count += 1;
    }
    if set_contains(live_cells, &(x, y + 1)) {
        count += 1;
    }
    if set_contains(live_cells, &(x + 1, y - 1)) {
        count += 1;
    }
    if set_contains(live_cells, &(x + 1, y)) {
        count += 1;
    }
    if set_contains(live_cells, &(x + 1, y + 1)) {
        count += 1;
    }
    count
}

/// Adds the 3x3 block centred on `(x, y)` to `candidates`.
fn insert_block(candidates: &mut FxHashSet<Cell>, x: i32, y: i32)
    requires
        i32::MIN < x < i32::MAX,
        i32::MIN < y < i32::MAX,
    ensures
        final(candidates)@ == old(candidates)@.union(block(x, y)),
{
    set_insert(candidates, (x - 1, y - 1));
    set_insert(candidates, (x - 1, y));
    set_insert(candidates, (x - 1, y + 1));
    set_insert(candidates, (x, y - 1));
    set_insert(candidates, (x, y));
    set_insert(candidates, (x, y + 1));
    set_insert(candidates, (x + 1, y - 1));
    set_insert(candidates, (x + 1, y));
    set_insert(candidates, (x + 1, y + 1));
    assert(final(candidates)@ =~= old(candidates)@.union(block(x, y)));
}

#[verifier::spinoff_prover]
/// One generation of Conway's rules: the next live cells, and the age of
/// each of them.
fn step(live_cells: &FxHashSet<Cell>, ages: &FxHashMap<Cell, u32>) -> (r: (
    FxHashSet<Cell>,
    FxHashMap<Cell, u32>,
))
    requires
        away_from_edge(live_cells@),
        ages_can_grow(live_cells@, ages@),
    ensures
        r.0@ == next_generation(live_cells@),
        r.1@ == next_ages(live_cells@, ages@),
{
    let ghost s = live_cells@;
    let live = set_members(live_cells);
    let mut candidates: FxHashSet<Cell> = FxHashSet::default();
    let mut i: usize = 0;
    while i < live.len()
        invariant
            i <= live@.len(),
            live@.to_set() == s,
            s == live_cells@,
            away_from_edge(s),
            forall|c: Cell|
                candidates@.contains(c) <==> exists|j: int| 0 <= j < i && #[trigger] near(live@[j], c),
        decreases live.len() - i,
    {
        let (x, y) = live[i];
        assert(s.contains(live@[i as int]));
        let ghost before = candidates@;
        insert_block(&mut candidates, x, y);
        proof {
            assert forall|c: Cell| candidates@.contains(c) implies exists|j: int|
                0 <= j < i + 1 && #[trigger] near(live@[j], c) by {
                if !near(live@[i as int], c) {
                    assert(before.contains(c)) by {
                        assert(!block(x, y).contains(c));
                    };
                }
            }
        }
        i += 1;
    }
    let cands = set_members(&candidates);
    let mut next: FxHashSet<Cell> = FxHashSet::default();
    let mut next_ages_map: FxHashMap<Cell, u32> = FxHashMap::default();
    let mut k: usize = 0;
    while k < cands.len()
        invariant
            k <= cands@.len(),
            cands@.to_set() == candidates@,
            away_from_edge(s),
            ages_can_grow(s, ages@),
            live@.to_set() == s,
            s == live_cells@,
            forall|c: Cell|
                candidates@.contains(c) <==> exists|j: int|
                    0 <= j < live@.len() && #[trigger] near(live@[j], c),
            forall|c: Cell|
                #[trigger] next@.contains(c) <==> (exists|j: int| 0 <= j < k && cands@[j] == c)
                    && lives_next(s, c),
            next_ages_map@.dom() == next@,
            forall|c: Cell| #[trigger]
                next@.contains(c) ==> next_ages_map@[c] == next_ages(s, ages@)[c],
        decreases cands.len() - k,
    {
        let (x, y) = cands[k];
        proof {
            assert(candidates@.contains((x, y)));
            let j = choose|j: int| 0 <= j < live@.len() && #[trigger] near(live@[j], (x, y));
            assert(s.contains(live@[j]));
        }
        let neighbors = count_neighbors(live_cells, x, y);
        let alive = set_contains(live_cells, &(x, y));
        let ghost next_before = next@;
        if (alive && (neighbors == 2 || neighbors == 3)) || (!alive && neighbors == 3) {
            set_insert(&mut next, (x, y));
            let age: u32 = if alive {
                assert(s.contains((x, y)));
                match map_get(ages, &(x, y)) {
                    Some(a) => a + 1,
                    None => 1,
                }
            } else {
                0
            };
            map_insert(&mut next_ages_map, (x, y), age);
        }
        k += 1;
        proof {
            assert forall|c: Cell|
                #[trigger] next@.contains(c) <==> (exists|j: int| 0 <= j < k && cands@[j] == c)
                    && lives_next(s, c) by {
                assert(lives_next(s, (x, y)) <==> ((alive && (neighbors == 2 || neighbors == 3)) || (
                !alive && neighbors == 3)));
                if c == (x, y) {
                    assert(cands@[k - 1] == c);
                } else {
                    if exists|j: int| 0 <= j < k && cands@[j] == c {
                        let j = choose|j: int| 0 <= j < k && cands@[j] == c;
                        assert(j < k - 1);
                    }
                }
            }
        }
    }
    proof {
        assert forall|c: Cell| lives_next(s, c) implies next@.contains(c) by {
            lemma_lives_next_is_near_live(s, c);
            let a = choose|a: Cell| s.contains(a) && #[trigger] near(a, c);
            assert(live@.to_set().contains(a));
            let j = choose|j: int| 0 <= j < live@.len() && live@[j] == a;
            assert(near(live@[j], c));
            assert(candidates@.contains(c));
            assert(cands@.to_set().contains(c));
        }
        assert(next@ =~= next_generation(s));
        assert(next_ages_map@ =~= next_ages(s, ages@));
    }
    (next, next_ages_map)
}

/// The abstract state of a universe: the generations it remembers, oldest
/// first; the number of the oldest one; which of them is shown; and the age
/// of each cell of the newest one.
pub struct UniverseModel {
    pub generations: Seq<Set<Cell>>,
    pub first_generation: nat,
    pub cursor: nat,
    pub ages: Map<Cell, u32>,
}

impl UniverseModel {
    /// The model of a fresh universe whose generation 0 is `cells`, every
    /// cell aged 0.
    pub open spec fn initial(cells: Set<Cell>) -> UniverseModel {
        UniverseModel {
            generations: seq![cells],
            first_generation: 0,
            cursor: 0,
            ages: Map::new(|c: Cell| cells.contains(c), |c: Cell| 0u32),
        }
    }

    /// Each remembered generation follows from the one before by Conway's
    /// rules, at most `MAX_HISTORY` are kept, the shown one is among them,
    /// the ages are those of the newest one, and generation numbers fit a
    /// `u64`.
    pub open spec fn wf(self) -> bool {
        &&& 1 <= self.generations.len() <= MAX_HISTORY
        &&& self.cursor < self.generations.len()
        &&& forall|i: int|
            0 <= i < self.generations.len() - 1 ==> #[trigger] self.generations[i + 1]
                == next_generation(self.generations[i])
        &&& self.ages.dom() == self.generations.last()
        &&& self.first_generation + self.generations.len() <= u64::MAX
    }

    /// The live cells on show.
    pub open spec fn live(self) -> Set<Cell> {
        self.generations[self.cursor as int]
    }

    /// The number of the generation on show.
    pub open spec fn generation(self) -> nat {
        self.first_generation + self.cursor
    }

    /// Whether the generation on show is older than the newest one
    /// remembered, so that a tick replays history instead of computing.
    pub open spec fn is_replaying(self) -> bool {
        self.cursor + 1 < self.generations.len()
    }

    /// Whether a tick can run without leaving the `i32` plane or the range
    /// of the age and generation counters.
    pub open spec fn can_tick(self) -> bool {
        ||| self.is_replaying()
        ||| {
            &&& away_from_edge(self.live())
            &&& ages_can_grow(self.live(), self.ages)
            &&& self.first_generation + self.generations.len() < u64::MAX
        }
    }

    /// The state after one tick: replay the next remembered generation, or
    /// compute a new one, forgetting the oldest when more than
    /// `MAX_HISTORY` would be kept.
    pub open spec fn ticked(self) -> UniverseModel {
        if self.is_replaying() {
            UniverseModel {
                generations: self.generations,
                first_generation: self.first_generation,
                cursor: self.cursor + 1,
                ages: self.ages,
            }
        } else {
            let gens = self.generations.push(next_generation(self.live()));
            if gens.len() > MAX_HISTORY {
                UniverseModel {
                    generations: gens.drop_first(),
                    first_generation: self.first_generation + 1,
                    cursor: self.cursor,
                    ages: next_ages(self.live(), self.ages),
                }
            } else {
                UniverseModel {
                    generations: gens,
                    first_generation: self.first_generation,
                    cursor: self.cursor + 1,
                    ages: next_ages(self.live(), self.ages),
                }
            }
        }
    }

    /// The state after one step back: the previous remembered generation,
    /// or no change at the oldest one.
    pub open spec fn stepped_back(self) -> UniverseModel {
        if self.cursor > 0 {
            UniverseModel {
                generations: self.generations,
                first_generation: self.first_generation,
                cursor: (self.cursor - 1) as nat,
                ages: self.ages,
            }
        } else {
            self
        }
    }

    /// The recorded age of `c`, 0 for a cell with none.
    pub open spec fn age_of(self, c: Cell) -> u32 {
        if self.ages.contains_key(c) {
            self.ages[c]
        } else {
            0
        }
    }
}

/// A universe that stores only its live cells, with a bounded history of
/// past generations for stepping back and replaying.
pub struct SparseUniverse {
    history: VecDeque<FxHashSet<Cell>>,
    history_start_generation: u64,
    cursor: usize,
    ages: FxHashMap<Cell, u32>,
}

impl View for SparseUniverse {
    type V = UniverseModel;

    closed spec fn view(&self) -> UniverseModel {
        UniverseModel {
            generations: self.history@.map_values(|s: FxHashSet<Cell>| s@),
            first_generation: self.history_start_generation as nat,
            cursor: self.cursor as nat,
            ages: self.ages@,
        }
    }
}

impl SparseUniverse {
    /// The universe's invariant, over its model.
    pub open spec fn wf(&self) -> bool {
        self@.wf()
    }

    /// A universe whose generation 0 is `cells`, with every cell aged 0.
    pub fn new(cells: FxHashSet<Cell>) -> (u: SparseUniverse)
        ensures
            u@ == UniverseModel::initial(cells@),
            u.wf(),
    {
        let members = set_members(&cells);
        let mut ages: FxHashMap<Cell, u32> = FxHashMap::default();
        let mut i: usize = 0;
        while i < members.len()
            invariant
                i <= members@.len(),
                forall|c: Cell|
                    #[trigger] ages@.contains_key(c) <==> exists|j: int|
                        0 <= j < i && members@[j] == c,
                forall|c: Cell| #[trigger] ages@.contains_key(c) ==> ages@[c] == 0,
            decreases members.len() - i,
        {
            map_insert(&mut ages, members[i], 0);
            proof {
                assert forall|c: Cell| #[trigger] ages@.contains_key(c) <==> exists|j: int|
                    0 <= j < i + 1 && members@[j] == c by {
                    if exists|j: int| 0 <= j < i + 1 && members@[j] == c {
                        let j = choose|j: int| 0 <= j < i + 1 && members@[j] == c;
                        if j < i {
                            assert(ages@.contains_key(c));
                        }
                    }
                }
            }
            i += 1;
        }
        let ghost cells_view = cells@;
        let mut history: VecDeque<FxHashSet<Cell>> = VecDeque::with_capacity(MAX_HISTORY);
        history.push_back(cells);
        let u = SparseUniverse { history, history_start_generation: 0, cursor: 0, ages };
        proof {
            assert(ages@ =~= Map::new(|c: Cell| cells_view.contains(c), |c: Cell| 0u32)) by {
                assert forall|c: Cell| ages@.contains_key(c) <==> cells_view.contains(c) by {
                    if cells_view.contains(c) {
                        assert(members@.to_set().contains(c));
                    }
                }
            }
            assert(u@.generations =~= seq![cells_view]);
            assert(u@.ages.dom() =~= u@.generations.last());
        }
        u
    }

    /// Whether `tick` may be called: always while replaying; otherwise when
    /// every live cell stays two cells away from the edge of the `i32` plane,
    /// every live cell's age can still be counted up, and the generation
    /// counter has room for one more.
    pub fn can_tick(&self) -> (b: bool)
        requires
            self.wf(),
        ensures
            b == self@.can_tick(),
    {
        if self.cursor + 1 < self.history.len() {
            return true;
        }
        if self.history_start_generation >= u64::MAX - self.history.len() as u64 {
            return false;
        }
        let live = set_members(&self.history[self.cursor]);
        let ghost s = self@.live();
        let mut i: usize = 0;
        while i < live.len()
            invariant
                i <= live@.len(),
                live@.to_set() == s,
                s == self@.live(),
                self@.ages.dom() == s,
                !self@.is_replaying(),
                self@.first_generation + self@.generations.len() < u64::MAX,
                forall|j: int|
                    0 <= j < i ==> {
                        &&& i32::MIN + 2 <= (#[trigger] live@[j]).0 <= i32::MAX - 2
                        &&& i32::MIN + 2 <= live@[j].1 <= i32::MAX - 2
                        &&& self@.ages[live@[j]] < u32::MAX
                    },
            decreases live.len() - i,
        {
            let (x, y) = live[i];
            if x < i32::MIN + 2 || x > i32::MAX - 2 || y < i32::MIN + 2 || y > i32::MAX - 2 {
                proof {
                    assert(s.contains(live@[i as int]));
                }
                return false;
            }
            match map_get(&self.ages, &(x, y)) {
                Some(a) => {
                    if a == u32::MAX {
                        proof {
                            assert(s.contains(live@[i as int]));
                        }
                        return false;
                    }
                },
                None => {
                    proof {
                        assert(s.contains(live@[i as int]));
                    }
                },
            }
            i += 1;
        }
        proof {
            assert forall|c: Cell| #[trigger] s.contains(c) implies i32::MIN + 2 <= c.0 <= i32::MAX
                - 2 && i32::MIN + 2 <= c.1 <= i32::MAX - 2 && self@.ages[c] < u32::MAX by {
                assert(live@.to_set().contains(c));
                let j = choose|j: int| 0 <= j < live@.len() && live@[j] == c;
                assert(i32::MIN + 2 <= (live@[j]).0 <= i32::MAX - 2);
            }
        }
        true
    }

    /// The recorded age of `cell`, 0 for a cell with none.
    pub fn age_of(&self, cell: &Cell) -> (a: u32)
        ensures
            a == self@.age_of(*cell),
    {
        match map_get(&self.ages, cell) {
            Some(a) => a,
            None => 0,
        }
    }

    /// The least and greatest recorded age, `(0, 0)` when no age is
    /// recorded.
    pub fn age_bounds(&self) -> (b: (u32, u32))
        ensures
            are_age_bounds(self@.ages, b),
    {
        if self.ages.is_empty() {
            return (0, 0);
        }
        let values = map_values(&self.ages);
        let mut min_age: u32 = u32::MAX;
        let mut max_age: u32 = 0;
        let mut i: usize = 0;
        while i < values.len()
            invariant
                i <= values@.len(),
                forall|j: int| 0 <= j < i ==> min_age <= #[trigger] values@[j] <= max_age,
                i == 0 ==> min_age == u32::MAX && max_age == 0,
                i > 0 ==> exists|j: int| 0 <= j < i && values@[j] == min_age,
                i > 0 ==> exists|j: int| 0 <= j < i && values@[j] == max_age,
            decreases values.len() - i,
        {
            let v = values[i];
            if v < min_age {
                min_age = v;
            }
            if v > max_age {
                max_age = v;
            }
            i += 1;
        }
        proof {
            let k = choose|k: Cell| self@.ages.contains_key(k);
            assert(values@.contains(self@.ages[k]));
            assert forall|c: Cell| #[trigger]
                self@.ages.contains_key(c) implies min_age <= self@.ages[c] <= max_age by {
                assert(values@.contains(self@.ages[c]));
            }
            let jm = choose|j: int| 0 <= j < i && values@[j] == min_age;
            assert(self@.ages.values().contains(values@[jm]));
            let jx = choose|j: int| 0 <= j < i && values@[j] == max_age;
            assert(self@.ages.values().contains(values@[jx]));
        }
        (min_age, max_age)
    }
}

impl Universe for SparseUniverse {
    open spec fn live_set(&self) -> Set<Cell> {
        self@.live()
    }

    open spec fn generation_number(&self) -> nat {
        self@.generation()
    }

    open spec fn replaying(&self) -> bool {
        self@.is_replaying()
    }

    open spec fn valid(&self) -> bool {
        self.wf()
    }

    open spec fn tick_allowed(&self) -> bool {
        self@.can_tick()
    }

    /// Advances one generation: replays the next remembered generation if
    /// the one on show is older than the newest, and otherwise computes the
    /// next one by Conway's rules, dropping the oldest remembered generation
    /// once more than `MAX_HISTORY` would be kept.
    fn tick(&mut self)
        ensures
            final(self).wf(),
            final(self)@ == old(self)@.ticked(),
    {
        if self.cursor + 1 < self.history.len() {
            self.cursor += 1;
            return;
        }
        let ghost old_model = self@;
        let (next, next_ages_map) = step(&self.history[self.cursor], &self.ages);
        self.history.push_back(next);
        self.ages = next_ages_map;
        if self.history.len() > MAX_HISTORY {
            let _ = self.history.pop_front();
            self.history_start_generation += 1;
        } else {
            self.cursor += 1;
        }
        proof {
            let target = old_model.ticked();
            assert(self@.generations =~= target.generations);
            assert(self@ == target);
        }
    }

    /// The live cells of the generation on show.
    fn live_cells(&self) -> (cells: &FxHashSet<Cell>)
        ensures
            cells@ == self@.live(),
    {
        &self.history[self.cursor]
    }

    /// Shows the previous remembered generation, if there is one.
    fn step_back(&mut self)
        ensures
            final(self).wf(),
            final(self)@ == old(self)@.stepped_back(),
    {
        let ghost old_model = self@;
        if self.cursor > 0 {
            self.cursor -= 1;
            proof {
                let k = old_model.cursor as int - 1;
                assert(old_model.generations[k + 1] == next_generation(old_model.generations[k]));
            }
        }
    }

    /// Whether the generation on show is older than the newest remembered.
    fn is_replaying(&self) -> (b: bool)
        ensures
            b == self@.is_replaying(),
    {
        self.cursor + 1 < self.history.len()
    }

    /// The number of the generation on show.
    fn generation(&self) -> (g: u64)
        ensures
            g == self@.generation(),
    {
        self.history_start_generation + self.cursor as u64
    }
}

} // verus!
