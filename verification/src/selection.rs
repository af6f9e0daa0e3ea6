//! Candidate selection: the metric panel and Pareto screening. Metric values
//! are compared by the caller; the screening works on the outcomes.
use vstd::prelude::*;

verus! {

/// A selection metric.
#[derive(Clone, Copy, Debug, PartialEq, Eq, Structural, PartialOrd, Ord, Hash)]
pub enum SelectionMetric {
    Cohesion,
    Silhouette,
    Margin,
    RepeatAri,
    EdgeRemovalAri,
    SubsampleAri,
    NonsingletonCoverage,
}

/// Number of metrics on the Pareto panel.
pub const PANEL_SIZE: usize = 7;

/// The Pareto panel, in order.
pub fn pareto_panel() -> (panel: Vec<SelectionMetric>)
    ensures
        panel@ == seq![SelectionMetric::Cohesion, SelectionMetric::Silhouette, SelectionMetric::Margin,
            SelectionMetric::RepeatAri, SelectionMetric::EdgeRemovalAri, SelectionMetric::SubsampleAri,
            SelectionMetric::NonsingletonCoverage],
{
    vec![
        SelectionMetric::Cohesion,
        SelectionMetric::Silhouette,
        SelectionMetric::Margin,
        SelectionMetric::RepeatAri,
        SelectionMetric::EdgeRemovalAri,
        SelectionMetric::SubsampleAri,
        SelectionMetric::NonsingletonCoverage,
    ]
}

/// How one candidate's value of a metric compares with another's.
#[derive(Clone, Copy, Debug, PartialEq, Eq, Structural)]
pub enum Relation {
    /// One of the two values is missing.
    Missing,
    /// Smaller.
    Below,
    /// Equal.
    Equal,
    /// Larger.
    Above,
    /// Neither smaller, equal nor larger (a value is not a number).
    Unordered,
}

/// `relation[b][a][m]` says how candidate `b`'s value of panel metric `m`
/// compares with candidate `a`'s, for every pair of `n` candidates.
pub open spec fn relation_shape(relation: Seq<Vec<Vec<Relation>>>, n: int) -> bool {
    &&& relation.len() == n
    &&& forall|b: int| 0 <= b < n ==> (#[trigger] relation[b])@.len() == n
    &&& forall|b: int, a: int| 0 <= b < n && 0 <= a < n ==> (#[trigger] relation[b]@[a])@.len() == PANEL_SIZE
}

/// `b` dominates `a`: every panel metric of `b` is measured for both and not
/// smaller, and some metric is larger.
pub open spec fn dominates(relation: Seq<Vec<Vec<Relation>>>, b: int, a: int) -> bool {
    &&& forall|m: int| 0 <= m < PANEL_SIZE ==> #[trigger] relation[b]@[a]@[m] != Relation::Missing
        && relation[b]@[a]@[m] != Relation::Below
    &&& exists|m: int| 0 <= m < PANEL_SIZE && #[trigger] relation[b]@[a]@[m] == Relation::Above
}

/// Every panel metric of `a` is measured.
pub open spec fn complete(relation: Seq<Vec<Vec<Relation>>>, a: int) -> bool {
    forall|m: int| 0 <= m < PANEL_SIZE ==> #[trigger] relation[a]@[a]@[m] != Relation::Missing
}

/// `a` survives Pareto screening: it is valid, and it is the baseline or a
/// complete candidate that no other valid candidate dominates.
pub open spec fn on_front(valid: Seq<bool>, baseline: Seq<bool>, ids: Seq<String>, relation: Seq<Vec<Vec<Relation>>>, a: int) -> bool {
    valid[a] && (baseline[a] || (complete(relation, a) && !exists|b: int|
        0 <= b < valid.len() && valid[b] && ids[b]@ != ids[a]@ && #[trigger] dominates(relation, b, a)))
}

fn dominates_now(relation: &Vec<Vec<Vec<Relation>>>, b: usize, a: usize) -> (result: bool)
    requires
        relation_shape(relation@, relation@.len() as int),
        b < relation@.len(),
        a < relation@.len(),
    ensures
        result == dominates(relation@, b as int, a as int),
{
    let row = &relation[b][a];
    let mut better = false;
    let mut m: usize = 0;
    while m < PANEL_SIZE
        invariant
            relation_shape(relation@, relation@.len() as int),
            b < relation@.len(),
            a < relation@.len(),
            *row == relation@[b as int]@[a as int],
            row@.len() == PANEL_SIZE,
            m <= PANEL_SIZE,
            forall|k: int| 0 <= k < m ==> #[trigger] row@[k] != Relation::Missing && row@[k] != Relation::Below,
            better == exists|k: int| 0 <= k < m && #[trigger] row@[k] == Relation::Above,
        decreases PANEL_SIZE - m,
    {
        let r = row[m];
        if r == Relation::Missing || r == Relation::Below {
            proof {
                assert(row@[m as int] == r);
            }
            return false;
        }
        if r == Relation::Above {
            better = true;
            proof {
                assert(row@[m as int] == Relation::Above);
            }
        } else {
            proof {
                if exists|k: int| 0 <= k < m + 1 && #[trigger] row@[k] == Relation::Above {
                    let k = choose|k: int| 0 <= k < m + 1 && #[trigger] row@[k] == Relation::Above;
                    assert(k < m);
                }
            }
        }
        m = m + 1;
    }
    better
}

/// Positions of the candidates on the Pareto front, in order.
pub fn pareto(valid: &Vec<bool>, baseline: &Vec<bool>, ids: &Vec<String>, relation: &Vec<Vec<Vec<Relation>>>) -> (result: Vec<usize>)
    requires
        baseline@.len() == valid@.len(),
        ids@.len() == valid@.len(),
        relation_shape(relation@, valid@.len() as int),
    ensures
        forall|i: int, j: int| 0 <= i < j < result@.len() ==> #[trigger] result@[i] < #[trigger] result@[j],
        forall|a: int| 0 <= a < valid@.len() ==> (result@.contains(a as usize) <==> on_front(valid@, baseline@, ids@, relation@, a)),
        forall|i: int| 0 <= i < result@.len() ==> #[trigger] result@[i] < valid@.len(),
{
    let n = valid.len();
    let mut result: Vec<usize> = Vec::new();
    let mut a: usize = 0;
    while a < n
        invariant
            n == valid@.len(),
            baseline@.len() == n,
            ids@.len() == n,
            relation_shape(relation@, n as int),
            a <= n,
            forall|i: int, j: int| 0 <= i < j < result@.len() ==> #[trigger] result@[i] < #[trigger] result@[j],
            forall|i: int| 0 <= i < result@.len() ==> #[trigger] result@[i] < a,
            forall|x: int| 0 <= x < a ==> (result@.contains(x as usize) <==> on_front(valid@, baseline@, ids@, relation@, x)),
        decreases n - a,
    {
        let mut keep = valid[a];
        if keep && !baseline[a] {
            let mut full = true;
            let mut m: usize = 0;
            while m < PANEL_SIZE
                invariant
                    relation_shape(relation@, n as int),
                    a < n,
                    m <= PANEL_SIZE,
                    full == forall|k: int| 0 <= k < m ==> #[trigger] relation@[a as int]@[a as int]@[k] != Relation::Missing,
                decreases PANEL_SIZE - m,
            {
                if relation[a][a][m] == Relation::Missing {
                    full = false;
                }
                m = m + 1;
            }
            keep = full;
            if full {
                let mut b: usize = 0;
                while b < n
                    invariant
                        n == valid@.len(),
                        ids@.len() == n,
                        relation_shape(relation@, n as int),
                        a < n,
                        b <= n,
                        keep ==> forall|c: int| 0 <= c < b ==> !(valid@[c] && ids@[c]@ != ids@[a as int]@ && #[trigger] dominates(relation@, c, a as int)),
                        !keep ==> exists|c: int| 0 <= c < n && valid@[c] && ids@[c]@ != ids@[a as int]@ && #[trigger] dominates(relation@, c, a as int),
                    decreases n - b,
                {
                    if keep && valid[b] && !(ids[b] == ids[a]) && dominates_now(relation, b, a) {
                        keep = false;
                    }
                    b = b + 1;
                }
            }
        }
        let ghost before = result@;
        if keep {
            result.push(a);
        }
        proof {
            assert forall|x: int| 0 <= x < a + 1 implies (result@.contains(x as usize) <==> on_front(valid@, baseline@, ids@, relation@, x)) by {
                if x < a {
                    if before.contains(x as usize) {
                        let q = choose|q: int| 0 <= q < before.len() && before[q] == x as usize;
                        assert(result@[q] == x as usize);
                    }
                    if result@.contains(x as usize) {
                        let q = choose|q: int| 0 <= q < result@.len() && result@[q] == x as usize;
                        if q == before.len() {
                            assert(result@[q] == a);
                        } else {
                            assert(before[q] == x as usize);
                        }
                    }
                } else {
                    if keep {
                        assert(result@[before.len() as int] == a);
                    } else if result@.contains(x as usize) {
                        let q = choose|q: int| 0 <= q < result@.len() && result@[q] == x as usize;
                        assert(before[q] < a);
                    }
                }
            }
        }
        a = a + 1;
    }
    result
}

/// Whether no metric occurs twice in a policy's panel.
pub fn distinct_metrics(metrics: &Vec<SelectionMetric>) -> (result: bool)
    ensures
        result == metrics@.no_duplicates(),
{
    let mut i: usize = 0;
    while i < metrics.len()
        invariant
            i <= metrics@.len(),
            forall|x: int, y: int| 0 <= x < y < i ==> metrics@[x] != metrics@[y],
        decreases metrics@.len() - i,
    {
        let mut j: usize = 0;
        while j < i
            invariant
                i < metrics@.len(),
                j <= i,
                forall|x: int, y: int| 0 <= x < y < i ==> metrics@[x] != metrics@[y],
                forall|x: int| 0 <= x < j ==> metrics@[x] != metrics@[i as int],
            decreases i - j,
        {
            if metrics[j] == metrics[i] {
                return false;
            }
            j = j + 1;
        }
        i = i + 1;
    }
    true
}

/// How a candidate's value of a policy metric compares with the baseline's,
/// beyond the policy's tolerance for that metric.
#[derive(Clone, Copy, Debug, PartialEq, Eq, Structural)]
pub enum Change {
    /// One of the two values is missing.
    Missing,
    /// Below the baseline by more than the tolerance.
    Worse,
    /// Within the tolerance (or not comparable).
    Within,
    /// Above the baseline by more than the tolerance.
    Better,
}

/// A candidate improves on the baseline when every policy metric is measured
/// and none degrades beyond tolerance, and at least one improves beyond it.
pub open spec fn improvement(changes: Seq<Change>) -> bool {
    &&& forall|m: int| 0 <= m < changes.len() ==> #[trigger] changes[m] != Change::Missing && changes[m] != Change::Worse
    &&& exists|m: int| 0 <= m < changes.len() && #[trigger] changes[m] == Change::Better
}

/// Whether the metric changes make an improvement on the baseline.
pub fn improves(changes: &Vec<Change>) -> (result: bool)
    ensures
        result == improvement(changes@),
{
    let mut better = false;
    let mut m: usize = 0;
    while m < changes.len()
        invariant
            m <= changes@.len(),
            forall|k: int| 0 <= k < m ==> #[trigger] changes@[k] != Change::Missing && changes@[k] != Change::Worse,
            better == exists|k: int| 0 <= k < m && #[trigger] changes@[k] == Change::Better,
        decreases changes@.len() - m,
    {
        let c = changes[m];
        if c == Change::Missing || c == Change::Worse {
            proof {
                assert(changes@[m as int] == c);
            }
            return false;
        }
        if c == Change::Better {
            better = true;
            proof {
                assert(changes@[m as int] == Change::Better);
            }
        } else {
            proof {
                if exists|k: int| 0 <= k < m + 1 && #[trigger] changes@[k] == Change::Better {
                    let k = choose|k: int| 0 <= k < m + 1 && #[trigger] changes@[k] == Change::Better;
                    assert(k < m);
                }
            }
        }
        m = m + 1;
    }
    better
}

} // verus!
