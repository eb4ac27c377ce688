//! The rock of a plate's cover: which formation lies at each depth.

use vstd::prelude::*;

verus! {

/// A kind of rock, by what it does under water: how fast a river cuts it,
/// how it stands against its neighbours.
#[derive(Clone, Copy, Debug, PartialEq, Eq)]
pub enum Rock {
    Shale,
    Sandstone,
    Limestone,
    Basement,
}

impl Rock {
    /// The rock's name as text.
    pub open spec fn spec_name(self) -> Seq<char> {
        match self {
            Rock::Shale => "shale"@,
            Rock::Sandstone => "sandstone"@,
            Rock::Limestone => "limestone"@,
            Rock::Basement => "basement"@,
        }
    }

    /// The rock's name.
    pub fn name(self) -> (s: &'static str)
        ensures
            s@ == self.spec_name(),
    {
        match self {
            Rock::Shale => "shale",
            Rock::Sandstone => "sandstone",
            Rock::Limestone => "limestone",
            Rock::Basement => "basement",
        }
    }
}

/// Formations in a plate's cover, from the top down.
pub const FORMATIONS: usize = 8;

/// The order formations come in: a sea advancing lays sandstone, then
/// shale, then limestone as it deepens, and shale again as it goes, so
/// resistant and weak beds alternate down the column.
pub const CYCLE: [Rock; 4] = [Rock::Sandstone, Rock::Shale, Rock::Limestone, Rock::Shale];

/// The `i`-th rock of the cycle, taken round.
pub open spec fn cycle_rock(i: int) -> Rock {
    let j = i % 4;
    if j == 0 { Rock::Sandstone } else if j == 1 { Rock::Shale } else if j == 2 { Rock::Limestone } else { Rock::Shale }
}

/// The rocks of a column's formations, from the top down, for a column
/// that enters the cycle at `phase`.
pub open spec fn column_rocks(phase: int) -> Seq<Rock> {
    Seq::new(FORMATIONS as nat, |k: int| cycle_rock(phase + k))
}

/// The rock of each formation of a column entered at `phase`, from the top
/// down: the cycle read on from the phase.
pub fn bed_rocks(phase: usize) -> (rocks: Vec<Rock>)
    requires
        phase + FORMATIONS <= usize::MAX,
    ensures
        rocks@ == column_rocks(phase as int),
{
    let mut rocks: Vec<Rock> = Vec::new();
    let mut k: usize = 0;
    while k < FORMATIONS
        invariant
            k <= FORMATIONS,
            phase + FORMATIONS <= usize::MAX,
            rocks@.len() == k,
            forall|j: int| 0 <= j < k ==> #[trigger] rocks@[j] == cycle_rock(phase + j),
        decreases FORMATIONS - k,
    {
        let i = (phase + k) % 4;
        let rock = CYCLE[i];
        assert(rock == cycle_rock(phase + k));
        rocks.push(rock);
        k = k + 1;
    }
    assert(rocks@ =~= column_rocks(phase as int));
    rocks
}

/// **A column alternates: no two formations in a row are of the same rock,
/// whatever phase it enters the cycle at.**
pub proof fn law_column_alternates(phase: int)
    requires
        phase >= 0,
    ensures
        forall|k: int| 0 <= k < FORMATIONS - 1 ==> #[trigger] column_rocks(phase)[k] != column_rocks(phase)[k + 1],
        forall|k: int| 0 <= k < FORMATIONS ==> #[trigger] column_rocks(phase)[k] != Rock::Basement,
{
    assert forall|k: int| 0 <= k < FORMATIONS - 1 implies #[trigger] column_rocks(phase)[k] != column_rocks(phase)[k + 1] by {
        let j = (phase + k) % 4;
        assert((phase + k + 1) % 4 == if j == 3 { 0 } else { j + 1 });
    }
}

/// **A column entered at `phase` reads the cycle on from there: its `k`-th
/// formation is the cycle's `(phase + k)`-th rock, taken round the four,
/// so its top formation is the cycle's rock at the phase.**
pub proof fn law_column_reads_the_cycle(phase: int)
    requires
        phase >= 0,
    ensures
        forall|k: int| 0 <= k < FORMATIONS ==> #[trigger] column_rocks(phase)[k] == CYCLE@[(phase + k) % 4],
        column_rocks(phase)[0] == CYCLE@[phase % 4],
{
    assert forall|k: int| 0 <= k < FORMATIONS implies #[trigger] column_rocks(phase)[k] == CYCLE@[(phase + k) % 4] by {
        let j = (phase + k) % 4;
        assert(0 <= j < 4);
    }
    assert(column_rocks(phase)[0] == CYCLE@[(phase + 0) % 4]);
}

/// **Entering the cycle one phase later starts the column one formation
/// further down it, and four phases later, the whole cycle round, gives
/// the same column.**
pub proof fn law_phase_shifts_the_column(phase: int)
    requires
        phase >= 0,
    ensures
        forall|k: int| 0 <= k < FORMATIONS - 1 ==> #[trigger] column_rocks(phase + 1)[k] == column_rocks(phase)[k + 1],
        column_rocks(phase + 4) == column_rocks(phase),
{
    assert forall|k: int| 0 <= k < FORMATIONS - 1 implies #[trigger] column_rocks(phase + 1)[k] == column_rocks(phase)[k + 1] by {
        assert(phase + 1 + k == phase + (k + 1));
    }
    assert forall|k: int| 0 <= k < FORMATIONS implies #[trigger] column_rocks(phase + 4)[k] == column_rocks(phase)[k] by {
        assert((phase + 4 + k) % 4 == (phase + k) % 4);
    }
    assert(column_rocks(phase + 4) =~= column_rocks(phase));
}

/// The lithology layer: the rock each tile stands on.
pub struct LithologyEvent;

impl LithologyEvent {
    pub fn new() -> (e: Self)
        ensures
            e == LithologyEvent,
    {
        LithologyEvent
    }
}

impl Default for LithologyEvent {
    fn default() -> (e: Self)
        ensures
            e == LithologyEvent,
    {
        Self::new()
    }
}

} // verus!
