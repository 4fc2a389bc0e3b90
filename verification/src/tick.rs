//! The tick clock: a wrapping frame counter and its wraparound-safe ordering.
//!
//! Two comparisons are offered. [`is_newer_than`] orders two ticks on the
//! cycle directly: half of the tick space ahead of a tick is its future, the
//! other half its past. [`Tick::is_newer_than`] orders two ticks by their age
//! relative to the current tick, which is how storage change ticks are read.
//! [`lemma_relative_order_is_cyclic_order`] shows that the two agree whenever
//! both ticks lie less than half a cycle behind the current tick.

use vstd::prelude::*;

verus! {

/// Number of distinct tick values.
pub open spec fn tick_modulus() -> int {
    0x1_0000_0000
}

/// Half of the tick space: the size of the window that counts as the future
/// of a tick.
pub open spec fn tick_half_range() -> int {
    0x8000_0000
}

/// The largest age a change tick is allowed to reach before it is clamped.
pub open spec fn max_change_age() -> int {
    3_258_167_296
}

/// How many steps `to` lies after `from`, walking forward around the cycle.
pub open spec fn tick_distance(from: u32, to: u32) -> int {
    if to >= from {
        to - from
    } else {
        to - from + tick_modulus()
    }
}

/// The tick that lies `steps` after `from` on the cycle.
pub open spec fn tick_advance(from: u32, steps: u32) -> u32 {
    if from + steps < tick_modulus() {
        (from + steps) as u32
    } else {
        (from + steps - tick_modulus()) as u32
    }
}

/// `candidate` lies strictly after `reference` and less than half the cycle
/// ahead of it. At exactly half the cycle neither tick is newer than the
/// other.
pub open spec fn newer_than(candidate: u32, reference: u32) -> bool {
    0 < tick_distance(reference, candidate) < tick_half_range()
}

/// Age of `tick` as seen from `current`, clamped to [`max_change_age`].
pub open spec fn clamped_age(tick: u32, current: u32) -> int {
    let age = tick_distance(tick, current);
    if age < max_change_age() {
        age
    } else {
        max_change_age()
    }
}

/// `tick` is younger than `other` when both are seen from `current`.
pub open spec fn newer_than_at(tick: u32, other: u32, current: u32) -> bool {
    clamped_age(other, current) > clamped_age(tick, current)
}

/// A simulation step counter that wraps around.
#[derive(Clone, Copy, Debug, PartialEq, Eq, Structural)]
pub struct Tick(pub u32);

impl View for Tick {
    type V = u32;

    open spec fn view(&self) -> u32 {
        self.0
    }
}

/// Calls `Tick::is_newer_than` of `bevy::ecs::component`, which compares the
/// ages of `tick` and `last_run` relative to `this_run`, each computed with a
/// wrapping subtraction and clamped to `MAX_CHANGE_AGE`. The contract is that
/// comparison, written out.
#[verifier::external_body]
fn change_tick_is_newer_than(tick: u32, last_run: u32, this_run: u32) -> (newer: bool)
    ensures
        newer == newer_than_at(tick, last_run, this_run),
{
    bevy::ecs::component::Tick::new(tick).is_newer_than(
        bevy::ecs::component::Tick::new(last_run),
        bevy::ecs::component::Tick::new(this_run),
    )
}

/// Cyclic comparison of two ticks: `candidate` is newer than `reference` when
/// it lies between one and `2^31 - 1` steps ahead of it.
pub fn is_newer_than(candidate: Tick, reference: Tick) -> (newer: bool)
    ensures
        newer == newer_than(candidate@, reference@),
{
    let distance: u32 = candidate.0.wrapping_sub(reference.0);
    distance != 0 && distance < 0x8000_0000
}

impl Tick {
    pub fn new(value: u32) -> (tick: Tick)
        ensures
            tick@ == value,
    {
        Tick(value)
    }

    pub fn get(&self) -> (value: u32)
        ensures
            value == self@,
    {
        self.0
    }

    /// The tick that follows this one, wrapping to zero at the end of the
    /// cycle.
    pub fn next(&self) -> (tick: Tick)
        ensures
            tick@ == tick_advance(self@, 1),
            newer_than(tick@, self@),
    {
        Tick(self.0.wrapping_add(1))
    }

    /// Whether this tick is newer than `other`, both seen from `current`.
    pub fn is_newer_than(&self, other: Tick, current: Tick) -> (newer: bool)
        ensures
            newer == newer_than_at(self@, other@, current@),
    {
        change_tick_is_newer_than(self.0, other.0, current.0)
    }
}

/// When a piece of data was added and when it was last changed.
#[derive(Clone, Copy, Debug, PartialEq, Eq, Structural)]
pub struct ComponentTicks {
    pub added: Tick,
    pub changed: Tick,
}

impl ComponentTicks {
    pub fn new(added: Tick, changed: Tick) -> (ticks: ComponentTicks)
        ensures
            ticks.added == added,
            ticks.changed == changed,
    {
        ComponentTicks { added, changed }
    }

    pub fn added_tick(&self) -> (tick: Tick)
        ensures
            tick == self.added,
    {
        self.added
    }

    pub fn last_changed_tick(&self) -> (tick: Tick)
        ensures
            tick == self.changed,
    {
        self.changed
    }

    /// Whether the data was added after `last_run`, seen from `this_run`.
    pub fn is_added(&self, last_run: Tick, this_run: Tick) -> (added: bool)
        ensures
            added == newer_than_at(self.added@, last_run@, this_run@),
    {
        self.added.is_newer_than(last_run, this_run)
    }

    /// Whether the data was changed after `last_run`, seen from `this_run`.
    pub fn is_changed(&self, last_run: Tick, this_run: Tick) -> (changed: bool)
        ensures
            changed == newer_than_at(self.changed@, last_run@, this_run@),
    {
        self.changed.is_newer_than(last_run, this_run)
    }
}

/// A tick that lies `steps` ahead of `earlier` is newer than it, and never
/// the other way round, as long as `steps` is between one and `2^31 - 1`.
/// Exactly half a cycle apart, neither of the two ticks is newer. A tick is
/// never newer than itself.
pub proof fn lemma_cyclic_order(earlier: u32, steps: u32)
    ensures
        0 < steps < tick_half_range() ==> newer_than(tick_advance(earlier, steps), earlier)
            && !newer_than(earlier, tick_advance(earlier, steps)),
        steps == tick_half_range() ==> !newer_than(tick_advance(earlier, steps), earlier)
            && !newer_than(earlier, tick_advance(earlier, steps)),
        !newer_than(earlier, earlier),
{
}

/// No two ticks are each newer than the other, and two distinct ticks are
/// unordered only when they are exactly half a cycle apart.
pub proof fn lemma_cyclic_order_total(a: u32, b: u32)
    ensures
        !(newer_than(a, b) && newer_than(b, a)),
        a == b || newer_than(a, b) || newer_than(b, a) || tick_distance(a, b)
            == tick_half_range(),
{
}

/// Seen from a current tick that both ticks trail by less than half a cycle,
/// the comparison by age is the cyclic comparison.
pub proof fn lemma_relative_order_is_cyclic_order(tick: u32, other: u32, current: u32)
    requires
        tick_distance(tick, current) < tick_half_range(),
        tick_distance(other, current) < tick_half_range(),
    ensures
        newer_than_at(tick, other, current) == newer_than(tick, other),
{
}

/// What is newer than a tick is newer than every tick that lies at least as
/// far behind the current tick.
pub proof fn lemma_newer_than_older_bound(tick: u32, bound: u32, older: u32, current: u32)
    requires
        tick_distance(bound, current) <= tick_distance(older, current),
        newer_than_at(tick, bound, current),
    ensures
        newer_than_at(tick, older, current),
{
}

/// Nothing is newer than itself when seen from any current tick, and a tick
/// that is newer than a second one is not older than it.
pub proof fn lemma_relative_order_strict(tick: u32, other: u32, current: u32)
    ensures
        !newer_than_at(tick, tick, current),
        newer_than_at(tick, other, current) ==> !newer_than_at(other, tick, current),
{
}

} // verus!
