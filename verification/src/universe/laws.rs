//! What holds of every universe across calls: each tick applies Conway's
//! rules and counts one generation on, a step back and a tick undo each
//! other, stepping back reaches at most `MAX_HISTORY - 1` generations back,
//! and the invariant survives every operation.

use crate::collections::Cell;
use crate::config::MAX_HISTORY;
use crate::universe::life::{lives_next, next_generation};
use crate::universe::sparse::UniverseModel;
use vstd::prelude::*;

verus! {

/// A fresh universe satisfies the invariant.
pub proof fn law_initial_is_well_formed(cells: Set<Cell>)
    ensures
        UniverseModel::initial(cells).wf(),
{
    let m = UniverseModel::initial(cells);
    assert(m.ages.dom() =~= m.generations.last());
}

/// A tick keeps the invariant.
pub proof fn law_tick_keeps_invariant(m: UniverseModel)
    requires
        m.wf(),
        m.can_tick(),
    ensures
        m.ticked().wf(),
{
    let t = m.ticked();
    if !m.is_replaying() {
        let gens = m.generations.push(next_generation(m.live()));
        assert(t.ages.dom() =~= t.generations.last());
        if gens.len() > MAX_HISTORY {
            assert forall|i: int| 0 <= i < t.generations.len() - 1 implies #[trigger] t.generations[i
                + 1] == next_generation(t.generations[i]) by {
                assert(t.generations[i + 1] == gens[i + 2]);
                assert(t.generations[i] == gens[i + 1]);
            }
        } else {
            assert forall|i: int| 0 <= i < t.generations.len() - 1 implies #[trigger] t.generations[i
                + 1] == next_generation(t.generations[i]) by {
                assert(t.generations[i] == gens[i]);
            }
        }
    }
}

/// A step back keeps the invariant.
pub proof fn law_step_back_keeps_invariant(m: UniverseModel)
    requires
        m.wf(),
    ensures
        m.stepped_back().wf(),
{
}

/// Whatever the universe is doing, replaying or computing, the cells shown
/// after a tick are the next generation of those shown before it by
/// Conway's rules.
pub proof fn law_tick_applies_rules(m: UniverseModel)
    requires
        m.wf(),
    ensures
        m.ticked().live() == next_generation(m.live()),
{
    if m.is_replaying() {
        assert(m.generations[m.cursor as int + 1] == next_generation(m.generations[m.cursor as int]));
    }
}

/// A tick shows the next generation number.
pub proof fn law_tick_counts_one_generation(m: UniverseModel)
    requires
        m.wf(),
    ensures
        m.ticked().generation() == m.generation() + 1,
{
}

/// A step back shows the previous generation number, unless the oldest
/// remembered generation is on show, where it changes nothing.
pub proof fn law_step_back_counts_back(m: UniverseModel)
    requires
        m.wf(),
    ensures
        m.cursor > 0 ==> m.stepped_back().generation() + 1 == m.generation(),
        m.cursor == 0 ==> m.stepped_back() == m,
{
}

/// A tick after a step back returns to exactly the state before the step
/// back.
pub proof fn law_tick_undoes_step_back(m: UniverseModel)
    requires
        m.wf(),
        m.cursor > 0,
    ensures
        m.stepped_back().ticked() == m,
{
}

/// A step back after a tick shows again the cells and the generation number
/// shown before the tick, also when the tick had to forget the oldest
/// generation.
pub proof fn law_step_back_undoes_tick(m: UniverseModel)
    requires
        m.wf(),
    ensures
        m.ticked().stepped_back().live() == m.live(),
        m.ticked().stepped_back().generation() == m.generation(),
{
    if !m.is_replaying() {
        let gens = m.generations.push(next_generation(m.live()));
        if gens.len() > MAX_HISTORY {
            assert(m.ticked().generations[m.cursor as int - 1] == gens[m.cursor as int]);
        }
    }
}

/// After a tick that computes a new generation, a surviving cell is one
/// generation older and a newborn cell has age 0; a tick that replays
/// history leaves the ages alone.
pub proof fn law_tick_ages_cells(m: UniverseModel, c: Cell)
    requires
        m.wf(),
    ensures
        m.is_replaying() ==> m.ticked().ages == m.ages,
        !m.is_replaying() && m.live().contains(c) && lives_next(m.live(), c) && m.age_of(c)
            < u32::MAX ==> m.ticked().age_of(c) == m.age_of(c) + 1,
        !m.is_replaying() && !m.live().contains(c) && lives_next(m.live(), c) ==> m.ticked().age_of(
            c,
        ) == 0,
        !m.is_replaying() && !lives_next(m.live(), c) ==> !m.ticked().ages.contains_key(c),
{
}

/// The state after `n` ticks from `m`.
pub open spec fn ticked_times(m: UniverseModel, n: nat) -> UniverseModel
    decreases n,
{
    if n == 0 {
        m
    } else {
        ticked_times(m, (n - 1) as nat).ticked()
    }
}

/// The state after `k` steps back from `m`.
pub open spec fn stepped_back_times(m: UniverseModel, k: nat) -> UniverseModel
    decreases k,
{
    if k == 0 {
        m
    } else {
        stepped_back_times(m, (k - 1) as nat).stepped_back()
    }
}

/// Generation `n` of the pattern `cells` by Conway's rules.
pub open spec fn evolved(cells: Set<Cell>, n: nat) -> Set<Cell>
    decreases n,
{
    if n == 0 {
        cells
    } else {
        next_generation(evolved(cells, (n - 1) as nat))
    }
}

/// The smaller of two naturals.
pub open spec fn min_nat(a: nat, b: nat) -> nat {
    if a <= b {
        a
    } else {
        b
    }
}

/// After `n` ticks from a fresh universe, the newest generation is on show
/// and the last `min(n + 1, MAX_HISTORY)` generations are remembered.
proof fn lemma_ticks_window(cells: Set<Cell>, n: nat)
    ensures
        ({
            let m = ticked_times(UniverseModel::initial(cells), n);
            &&& m.generations.len() == min_nat(n + 1, MAX_HISTORY as nat)
            &&& m.cursor + 1 == m.generations.len()
            &&& m.first_generation + m.generations.len() == n + 1
            &&& forall|i: int|
                0 <= i < m.generations.len() ==> #[trigger] m.generations[i] == evolved(
                    cells,
                    (m.first_generation + i) as nat,
                )
        }),
    decreases n,
{
    if n > 0 {
        lemma_ticks_window(cells, (n - 1) as nat);
        let p = ticked_times(UniverseModel::initial(cells), (n - 1) as nat);
        let gens = p.generations.push(next_generation(p.live()));
        assert(p.live() == evolved(cells, (n - 1) as nat));
        let m = p.ticked();
        assert(m == ticked_times(UniverseModel::initial(cells), n));
        assert forall|i: int| 0 <= i < m.generations.len() implies #[trigger] m.generations[i]
            == evolved(cells, (m.first_generation + i) as nat) by {
            if gens.len() > MAX_HISTORY {
                assert(m.generations[i] == gens[i + 1]);
                if i + 1 < p.generations.len() {
                    assert(p.generations[i + 1] == evolved(
                        cells,
                        (p.first_generation + i + 1) as nat,
                    ));
                }
            } else {
                if i < p.generations.len() {
                    assert(p.generations[i] == evolved(cells, (p.first_generation + i) as nat));
                }
            }
        }
    }
}

/// Stepping back `k` times from state `m` moves the cursor back by `k`, down
/// to the oldest remembered generation, and changes nothing else.
proof fn lemma_step_backs(m: UniverseModel, k: nat)
    ensures
        stepped_back_times(m, k).cursor == m.cursor - min_nat(k, m.cursor),
        stepped_back_times(m, k).generations == m.generations,
        stepped_back_times(m, k).first_generation == m.first_generation,
    decreases k,
{
    if k > 0 {
        lemma_step_backs(m, (k - 1) as nat);
    }
}

/// After `n` ticks from a fresh universe and then `k` steps back, the
/// universe shows generation `n - j` of the pattern, where `j` is the least
/// of `k`, `n` and `MAX_HISTORY - 1`: at most `MAX_HISTORY - 1`
/// generations can be stepped back, and further steps back change nothing.
/// It is replaying exactly when it stepped back at all.
pub proof fn law_ticks_then_step_backs(cells: Set<Cell>, n: nat, k: nat)
    ensures
        ({
            let m = stepped_back_times(ticked_times(UniverseModel::initial(cells), n), k);
            let j = min_nat(min_nat(k, n), (MAX_HISTORY - 1) as nat);
            &&& m.generation() == n - j
            &&& m.live() == evolved(cells, (n - j) as nat)
            &&& m.is_replaying() == (j > 0)
        }),
{
    let t = ticked_times(UniverseModel::initial(cells), n);
    lemma_ticks_window(cells, n);
    lemma_step_backs(t, k);
    let m = stepped_back_times(t, k);
    assert(m.generations[m.cursor as int] == evolved(cells, (t.first_generation + m.cursor) as nat));
}

/// A universe that computes its next generation can tick as long as the
/// counters have room: when it is not replaying, every live cell lies in
/// `i32::MIN + 2..=i32::MAX - 2` in both coordinates, every recorded age is
/// below `u32::MAX`, and the generation number of the next generation fits
/// a `u64`, it can tick. A replaying universe can always tick.
pub proof fn law_can_tick_until_counters_run_out(m: UniverseModel)
    ensures
        m.is_replaying() ==> m.can_tick(),
        !m.is_replaying() && (forall|c: Cell|
            #[trigger] m.live().contains(c) ==> i32::MIN + 2 <= c.0 <= i32::MAX - 2 && i32::MIN + 2
                <= c.1 <= i32::MAX - 2) && (forall|c: Cell|
            #[trigger] m.ages.contains_key(c) ==> m.ages[c] < u32::MAX) && m.first_generation
            + m.generations.len() < u64::MAX ==> m.can_tick(),
{
}

/// A cell's age is what the ages map records for it, and 0 when it records
/// none, whatever is on show: replaying or stepping back never changes it,
/// two states with the same ages agree on every cell's age, and in a
/// well-formed universe a cell that is not live in the newest generation
/// has age 0.
pub proof fn law_age_of_reads_recorded_ages(m: UniverseModel, other: UniverseModel, c: Cell)
    ensures
        !m.ages.contains_key(c) ==> m.age_of(c) == 0,
        m.ages.contains_key(c) ==> m.age_of(c) == m.ages[c],
        m.ages == other.ages ==> m.age_of(c) == other.age_of(c),
        m.stepped_back().age_of(c) == m.age_of(c),
        m.is_replaying() ==> m.ticked().age_of(c) == m.age_of(c),
        m.wf() && !m.generations.last().contains(c) ==> m.age_of(c) == 0,
{
}

/// An empty universe stays empty.
pub proof fn law_empty_stays_empty()
    ensures
        next_generation(Set::<Cell>::empty()) == Set::<Cell>::empty(),
{
    assert(next_generation(Set::<Cell>::empty()) =~= Set::<Cell>::empty());
}

} // verus!
