//! Scheduling priorities: a four-step ladder of levels, and the dynamic or
//! fixed priority of a client process.

use vstd::prelude::*;

verus! {

/// A rung of the priority ladder, from the most interactive to background.
#[derive(Debug, Clone, Copy, PartialEq, Eq, Structural)]
pub enum PriorityLevel {
    Interactive,
    LowInteractive,
    Batch,
    Background,
}

/// The numeric rank of a level: higher means more urgent.
pub open spec fn level_rank(level: PriorityLevel) -> u8 {
    match level {
        PriorityLevel::Interactive => 3,
        PriorityLevel::LowInteractive => 2,
        PriorityLevel::Batch => 1,
        PriorityLevel::Background => 0,
    }
}

/// The level whose rank is `rank` (only meaningful for ranks 0..=3).
pub open spec fn level_of_rank(rank: int) -> PriorityLevel {
    if rank == 3 {
        PriorityLevel::Interactive
    } else if rank == 2 {
        PriorityLevel::LowInteractive
    } else if rank == 1 {
        PriorityLevel::Batch
    } else {
        PriorityLevel::Background
    }
}

/// Ranks and levels correspond one to one.
pub proof fn lemma_rank_roundtrip(level: PriorityLevel)
    ensures
        level_of_rank(level_rank(level) as int) == level,
        level_rank(level) <= 3,
{
}

impl PriorityLevel {
    /// The numeric rank of this level (3 for interactive, 0 for background).
    pub fn to_u8(&self) -> (r: u8)
        ensures
            r == level_rank(*self),
    {
        match self {
            PriorityLevel::Interactive => 3,
            PriorityLevel::LowInteractive => 2,
            PriorityLevel::Batch => 1,
            PriorityLevel::Background => 0,
        }
    }

    /// The level of rank `val`; ranks above 3 name no level.
    pub fn from(val: u8) -> (level: Self)
        requires
            val <= 3,
        ensures
            level_rank(level) == val,
            level == level_of_rank(val as int),
    {
        if val == 3 {
            PriorityLevel::Interactive
        } else if val == 2 {
            PriorityLevel::LowInteractive
        } else if val == 1 {
            PriorityLevel::Batch
        } else {
            PriorityLevel::Background
        }
    }

    /// The most urgent level.
    pub fn max() -> (level: Self)
        ensures
            level == PriorityLevel::Interactive,
            forall|l: PriorityLevel| level_rank(l) <= level_rank(level),
    {
        PriorityLevel::Interactive
    }

    /// The least urgent level.
    pub fn min() -> (level: Self)
        ensures
            level == PriorityLevel::Background,
            forall|l: PriorityLevel| level_rank(level) <= level_rank(l),
    {
        PriorityLevel::Background
    }

    /// Whether this level is strictly more urgent than `other`.
    pub fn is_higher_than(&self, other: &PriorityLevel) -> (r: bool)
        ensures
            r == (level_rank(*self) > level_rank(*other)),
    {
        self.to_u8() > other.to_u8()
    }
}

/// The priority of a client: dynamic priorities move along the ladder,
/// fixed ones never do.
#[derive(Debug, Clone, Copy, PartialEq, Eq, Structural)]
pub enum Priority {
    Dynamic { level: PriorityLevel, weight: i8 },
    Fixed(PriorityLevel),
}

/// The level of a priority, whichever its kind.
pub open spec fn priority_level(p: Priority) -> PriorityLevel {
    match p {
        Priority::Dynamic { level, .. } => level,
        Priority::Fixed(level) => level,
    }
}

/// The highest rank an increase may reach: that of `until`, or the top.
pub open spec fn upper_bound_rank(until: Option<PriorityLevel>) -> int {
    match until {
        Some(l) => level_rank(l) as int,
        None => 3,
    }
}

/// The lowest rank a decrease may reach: that of `until`, or the bottom.
pub open spec fn lower_bound_rank(until: Option<PriorityLevel>) -> int {
    match until {
        Some(l) => level_rank(l) as int,
        None => 0,
    }
}

/// The outcome of raising `p` by one level, bounded by `until`: the new
/// priority and whether it changed.
pub open spec fn spec_increase(p: Priority, until: Option<PriorityLevel>) -> (Priority, bool) {
    match p {
        Priority::Dynamic { level, weight } => {
            let next = level_rank(level) + 1;
            if next > upper_bound_rank(until) {
                (p, false)
            } else {
                (Priority::Dynamic { level: level_of_rank(next), weight }, true)
            }
        },
        Priority::Fixed(_) => (p, false),
    }
}

/// The outcome of lowering `p` by one level, bounded by `until`: the new
/// priority and whether it changed.
pub open spec fn spec_decrease(p: Priority, until: Option<PriorityLevel>) -> (Priority, bool) {
    match p {
        Priority::Dynamic { level, weight } => {
            let rank = level_rank(level) as int;
            if rank == 0 || rank - 1 < lower_bound_rank(until) {
                (p, false)
            } else {
                (Priority::Dynamic { level: level_of_rank(rank - 1), weight }, true)
            }
        },
        Priority::Fixed(_) => (p, false),
    }
}

impl Priority {
    /// The level of this priority.
    pub fn level(&self) -> (level: PriorityLevel)
        ensures
            level == priority_level(*self),
    {
        match self {
            Priority::Dynamic { level, .. } => *level,
            Priority::Fixed(level) => *level,
        }
    }

    /// The priority every new client starts with: dynamic and interactive.
    pub fn default_dynamic() -> (p: Self)
        ensures
            p == (Priority::Dynamic { level: PriorityLevel::Interactive, weight: 0 }),
    {
        Priority::Dynamic { level: PriorityLevel::Interactive, weight: 0 }
    }

    /// Raises a dynamic priority by one level unless that would pass `until`
    /// (the top level when `None`); returns whether it changed.
    pub fn increase(&mut self, until: Option<PriorityLevel>) -> (changed: bool)
        ensures
            (*final(self), changed) == spec_increase(*old(self), until),
    {
        match *self {
            Priority::Dynamic { level, weight } => {
                let next = level.to_u8().saturating_add(1);
                let bound = match until {
                    Some(l) => l.to_u8(),
                    None => PriorityLevel::max().to_u8(),
                };
                if next > bound {
                    return false;
                }
                *self = Priority::Dynamic { level: PriorityLevel::from(next), weight };
                true
            },
            Priority::Fixed(_) => false,
        }
    }

    /// Lowers a dynamic priority by one level unless it is at the bottom or
    /// would pass `until` (the bottom level when `None`); returns whether it
    /// changed.
    pub fn decrease(&mut self, until: Option<PriorityLevel>) -> (changed: bool)
        ensures
            (*final(self), changed) == spec_decrease(*old(self), until),
    {
        match *self {
            Priority::Dynamic { level, weight } => {
                let rank = level.to_u8();
                let next = rank.saturating_sub(1);
                let bound = match until {
                    Some(l) => l.to_u8(),
                    None => PriorityLevel::min().to_u8(),
                };
                if next == rank || next < bound {
                    return false;
                }
                *self = Priority::Dynamic { level: PriorityLevel::from(next), weight };
                true
            },
            Priority::Fixed(_) => false,
        }
    }
}

/// A raise that succeeded is undone by a lower without bound, and the
/// other way round.
pub proof fn lemma_increase_decrease_inverse(p: Priority, until: Option<PriorityLevel>)
    ensures
        spec_increase(p, until).1 ==> spec_decrease(spec_increase(p, until).0, None) == (p, true),
        spec_decrease(p, until).1 ==> spec_increase(spec_decrease(p, until).0, None) == (p, true),
{
    match p {
        Priority::Dynamic { level, weight } => {
            lemma_rank_roundtrip(level);
        },
        Priority::Fixed(_) => {},
    }
}

/// A fixed priority is never moved, and a dynamic one keeps its kind and
/// weight while its level moves by at most one rung.
pub proof fn lemma_priority_moves_by_one(p: Priority, until: Option<PriorityLevel>)
    ensures
        p is Fixed ==> spec_increase(p, until) == (p, false) && spec_decrease(p, until) == (p, false),
        spec_increase(p, until).1 ==> level_rank(priority_level(spec_increase(p, until).0))
            == level_rank(priority_level(p)) + 1,
        spec_decrease(p, until).1 ==> level_rank(priority_level(spec_decrease(p, until).0))
            == level_rank(priority_level(p)) - 1,
        !spec_increase(p, until).1 ==> spec_increase(p, until).0 == p,
        !spec_decrease(p, until).1 ==> spec_decrease(p, until).0 == p,
{
}

/// The time slice a client may hold the devices at a level, in nanoseconds.
pub open spec fn spec_time_quantum(level: PriorityLevel) -> u64 {
    match level {
        PriorityLevel::Interactive => 8_000_000_000,
        PriorityLevel::LowInteractive => 16_000_000_000,
        PriorityLevel::Batch => 64_000_000_000,
        PriorityLevel::Background => 128_000_000_000,
    }
}

/// The pause before another switch at a level, in nanoseconds.
pub open spec fn spec_cooldown(level: PriorityLevel) -> u64 {
    match level {
        PriorityLevel::Interactive => 4_000_000_000,
        PriorityLevel::LowInteractive => 8_000_000_000,
        PriorityLevel::Batch => 32_000_000_000,
        PriorityLevel::Background => 64_000_000_000,
    }
}

/// The time quantum of `level`, in nanoseconds.
pub fn priority_level_to_time_quantum(level: PriorityLevel) -> (ns: u64)
    ensures
        ns == spec_time_quantum(level),
{
    match level {
        PriorityLevel::Interactive => 8_000_000_000,
        PriorityLevel::LowInteractive => 16_000_000_000,
        PriorityLevel::Batch => 64_000_000_000,
        PriorityLevel::Background => 128_000_000_000,
    }
}

/// The cooldown of `level`, in nanoseconds.
pub fn priority_level_to_cooldown(level: PriorityLevel) -> (ns: u64)
    ensures
        ns == spec_cooldown(level),
{
    match level {
        PriorityLevel::Interactive => 4_000_000_000,
        PriorityLevel::LowInteractive => 8_000_000_000,
        PriorityLevel::Batch => 32_000_000_000,
        PriorityLevel::Background => 64_000_000_000,
    }
}

/// Less urgent levels get longer quanta and longer cooldowns.
pub proof fn lemma_quantum_monotone(a: PriorityLevel, b: PriorityLevel)
    requires
        level_rank(a) < level_rank(b),
    ensures
        spec_time_quantum(a) > spec_time_quantum(b),
        spec_cooldown(a) > spec_cooldown(b),
{
}

} // verus!
