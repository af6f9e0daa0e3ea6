//! Decisions of the experiment runner that do not depend on measured values:
//! when a resolution grid stops growing, which sensitivity runs to make, and
//! when a candidate counts as valid.
use vstd::prelude::*;

verus! {

/// What the resolution grid does after a screening pass.
#[derive(Clone, Copy, Debug, PartialEq, Eq, Structural)]
pub enum GridStep {
    /// Neither endpoint lies on the Pareto front: the search is complete.
    Done,
    /// An endpoint still lies on the front but the expansion budget is spent.
    Limited,
    /// Extend the grid below its lowest value, above its highest, or both.
    Expand { low: bool, high: bool },
}

/// Decide the next grid step from which endpoints still lie on the front.
pub fn grid_step(expand_low: bool, expand_high: bool, expansion: usize, max_expansions: usize) -> (result: GridStep)
    ensures
        !expand_low && !expand_high ==> result == GridStep::Done,
        (expand_low || expand_high) && expansion == max_expansions ==> result == GridStep::Limited,
        (expand_low || expand_high) && expansion != max_expansions ==> result == (GridStep::Expand { low: expand_low, high: expand_high }),
{
    if !expand_low && !expand_high {
        return GridStep::Done;
    }
    if expansion == max_expansions {
        return GridStep::Limited;
    }
    GridStep::Expand { low: expand_low, high: expand_high }
}

/// Which way a sensitivity run moves a setting.
#[derive(Clone, Copy, Debug, PartialEq, Eq, Structural)]
pub enum Direction {
    Decrease,
    Increase,
}

/// Which setting a sensitivity run moves.
#[derive(Clone, Copy, Debug, PartialEq, Eq, Structural)]
pub enum Parameter {
    /// The neighbour count of the graph.
    K,
    /// The solver resolution.
    Resolution,
}

/// The sensitivity runs of a candidate, in order: each direction in turn,
/// moving the neighbour count (only for graphs built from neighbours) and
/// then the resolution.
pub fn sensitivity_plan(archived: bool) -> (result: Vec<(Direction, Parameter)>)
    ensures
        archived ==> result@ == seq![(Direction::Decrease, Parameter::Resolution), (Direction::Increase, Parameter::Resolution)],
        !archived ==> result@ == seq![(Direction::Decrease, Parameter::K), (Direction::Decrease, Parameter::Resolution),
            (Direction::Increase, Parameter::K), (Direction::Increase, Parameter::Resolution)],
{
    let mut result: Vec<(Direction, Parameter)> = Vec::new();
    if !archived {
        result.push((Direction::Decrease, Parameter::K));
    }
    result.push((Direction::Decrease, Parameter::Resolution));
    if !archived {
        result.push((Direction::Increase, Parameter::K));
    }
    result.push((Direction::Increase, Parameter::Resolution));
    proof {
        if archived {
            assert(result@ =~= seq![(Direction::Decrease, Parameter::Resolution), (Direction::Increase, Parameter::Resolution)]);
        } else {
            assert(result@ =~= seq![(Direction::Decrease, Parameter::K), (Direction::Decrease, Parameter::Resolution),
                (Direction::Increase, Parameter::K), (Direction::Increase, Parameter::Resolution)]);
        }
    }
    result
}

/// A candidate is valid when every solver run gave connected communities,
/// and both perturbation kinds ran without error for every stress seed.
pub fn candidate_valid(runs_connected: &Vec<bool>, perturbation_ok: &Vec<bool>, stress_seeds: usize) -> (result: bool)
    ensures
        result == ((forall|i: int| 0 <= i < runs_connected@.len() ==> #[trigger] runs_connected@[i])
            && perturbation_ok@.len() == 2 * stress_seeds
            && forall|i: int| 0 <= i < perturbation_ok@.len() ==> #[trigger] perturbation_ok@[i]),
{
    let mut i: usize = 0;
    while i < runs_connected.len()
        invariant
            i <= runs_connected@.len(),
            forall|j: int| 0 <= j < i ==> #[trigger] runs_connected@[j],
        decreases runs_connected@.len() - i,
    {
        if !runs_connected[i] {
            return false;
        }
        i = i + 1;
    }
    let len = perturbation_ok.len();
    if !(len % 2 == 0 && len / 2 == stress_seeds) {
        return false;
    }
    let mut j: usize = 0;
    while j < len
        invariant
            len == perturbation_ok@.len(),
            j <= len,
            forall|q: int| 0 <= q < j ==> #[trigger] perturbation_ok@[q],
        decreases len - j,
    {
        if !perturbation_ok[j] {
            return false;
        }
        j = j + 1;
    }
    true
}

/// Fewest communities over the runs that produced a partition (0 when none did).
pub fn minimum_communities(runs: &Vec<Option<usize>>) -> (result: usize)
    ensures
        (forall|i: int| 0 <= i < runs@.len() ==> (#[trigger] runs@[i]) is None) ==> result == 0,
        (exists|i: int| 0 <= i < runs@.len() && (#[trigger] runs@[i]) is Some) ==> {
            &&& exists|i: int| 0 <= i < runs@.len() && #[trigger] runs@[i] == Some(result)
            &&& forall|i: int| 0 <= i < runs@.len() ==> (#[trigger] runs@[i] matches Some(c) ==> result <= c)
        },
{
    let mut best: Option<usize> = None;
    let mut i: usize = 0;
    while i < runs.len()
        invariant
            i <= runs@.len(),
            best is None <==> forall|j: int| 0 <= j < i ==> (#[trigger] runs@[j]) is None,
            best matches Some(b) ==> (exists|j: int| 0 <= j < i && #[trigger] runs@[j] == Some(b))
                && forall|j: int| 0 <= j < i ==> (#[trigger] runs@[j] matches Some(c) ==> b <= c),
        decreases runs@.len() - i,
    {
        match runs[i] {
            Some(c) => {
                let smaller = match best {
                    None => true,
                    Some(b) => c < b,
                };
                if smaller {
                    best = Some(c);
                    proof {
                        assert(runs@[i as int] == Some(c));
                    }
                }
            },
            None => {},
        }
        i = i + 1;
    }
    match best {
        Some(b) => b,
        None => 0,
    }
}

/// What becomes of a development nominee before confirmation.
#[derive(Clone, Copy, Debug, PartialEq, Eq, Structural)]
pub enum NomineeCheck {
    /// There is no nominee.
    Absent,
    /// The nominee stands.
    Kept,
    /// Withdrawn: the archived baseline could not be loaded.
    NoBaseline,
    /// Withdrawn: the nominee's graph search ran out of expansions.
    ExpansionLimited,
}

/// Check a development nominee: it needs the archived baseline, and a graph
/// search that did not stop at its expansion budget.
pub fn check_nominee(nominated: bool, baseline_loaded: bool, expansion_limited: bool) -> (result: NomineeCheck)
    ensures
        !nominated ==> result == NomineeCheck::Absent,
        nominated && !baseline_loaded ==> result == NomineeCheck::NoBaseline,
        nominated && baseline_loaded && expansion_limited ==> result == NomineeCheck::ExpansionLimited,
        nominated && baseline_loaded && !expansion_limited ==> result == NomineeCheck::Kept,
{
    if !nominated {
        NomineeCheck::Absent
    } else if !baseline_loaded {
        NomineeCheck::NoBaseline
    } else if expansion_limited {
        NomineeCheck::ExpansionLimited
    } else {
        NomineeCheck::Kept
    }
}

/// Which partition becomes the exported default.
#[derive(Clone, Copy, Debug, PartialEq, Eq, Structural)]
pub enum DefaultExport {
    /// The confirmed nominee.
    Nominee,
    /// The archived recommended partition, retained.
    ArchivedBaseline,
    /// Nothing can be exported.
    Nothing,
}

/// The nominee replaces the baseline only when confirmation accepted it;
/// otherwise the archived partition stays the default when it loaded.
pub fn default_export(accepted: bool, baseline_loaded: bool) -> (result: DefaultExport)
    ensures
        accepted ==> result == DefaultExport::Nominee,
        !accepted && baseline_loaded ==> result == DefaultExport::ArchivedBaseline,
        !accepted && !baseline_loaded ==> result == DefaultExport::Nothing,
{
    if accepted {
        DefaultExport::Nominee
    } else if baseline_loaded {
        DefaultExport::ArchivedBaseline
    } else {
        DefaultExport::Nothing
    }
}

/// A candidate goes to confirmation when it is on the Pareto front, a
/// control or the baseline.
pub fn is_finalist(on_front: bool, control: bool, baseline: bool) -> (result: bool)
    ensures
        result == (on_front || control || baseline),
{
    on_front || control || baseline
}

/// A valid candidate whose every run produced exactly one community per
/// connected component of its graph: no smaller resolution can coarsen it, so
/// the grid does not extend below it.
pub fn at_component_floor(valid: bool, run_communities: &Vec<Option<usize>>, components: usize) -> (result: bool)
    ensures
        result == (valid && forall|i: int| 0 <= i < run_communities@.len() ==> #[trigger] run_communities@[i] == Some(components)),
{
    if !valid {
        return false;
    }
    let mut i: usize = 0;
    while i < run_communities.len()
        invariant
            i <= run_communities@.len(),
            forall|j: int| 0 <= j < i ==> #[trigger] run_communities@[j] == Some(components),
        decreases run_communities@.len() - i,
    {
        match run_communities[i] {
            Some(c) => {
                if c != components {
                    return false;
                }
            },
            None => {
                return false;
            },
        }
        i = i + 1;
    }
    true
}

} // verus!
