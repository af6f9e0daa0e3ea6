//! Seed bookkeeping of experiment manifests and calibration plans: cohort
//! sizes, seeds that must never repeat, and the pairing of repeat runs.
use vstd::prelude::*;
use std::collections::{HashMap, HashSet};
use crate::text::str_eq;

verus! {

broadcast use vstd::std_specs::hash::group_hash_axioms;

/// The seed lists in order, one after another.
pub open spec fn concatenated(lists: Seq<Seq<u64>>) -> Seq<u64>
    decreases lists.len(),
{
    if lists.len() == 0 {
        Seq::empty()
    } else {
        concatenated(lists.drop_last()) + lists.last()
    }
}

pub open spec fn views(lists: Seq<Vec<u64>>) -> Seq<Seq<u64>> {
    lists.map_values(|v: Vec<u64>| v@)
}

/// Position `j` of `s` repeats an earlier seed.
pub open spec fn repeats_before(s: Seq<u64>, j: int) -> bool {
    exists|i: int| 0 <= i < j && s[i] == #[trigger] s[j]
}

/// The first seed of `s` that repeats an earlier one, if any.
pub open spec fn first_repeat_is(s: Seq<u64>, result: Option<u64>) -> bool {
    match result {
        Some(seed) => exists|j: int| 0 <= j < s.len() && #[trigger] repeats_before(s, j) && s[j] == seed
            && forall|k: int| 0 <= k < j ==> !#[trigger] repeats_before(s, k),
        None => forall|j: int| 0 <= j < s.len() ==> !#[trigger] repeats_before(s, j),
    }
}

fn concatenate(lists: &Vec<Vec<u64>>) -> (result: Vec<u64>)
    ensures
        result@ == concatenated(views(lists@)),
{
    let mut result: Vec<u64> = Vec::new();
    let mut l: usize = 0;
    while l < lists.len()
        invariant
            l <= lists@.len(),
            result@ == concatenated(views(lists@.take(l as int))),
        decreases lists@.len() - l,
    {
        let list = &lists[l];
        let ghost before = result@;
        let mut i: usize = 0;
        while i < list.len()
            invariant
                i <= list@.len(),
                result@ == before + list@.take(i as int),
            decreases list@.len() - i,
        {
            result.push(list[i]);
            i = i + 1;
            assert(result@ =~= before + list@.take(i as int));
        }
        proof {
            assert(list@.take(list@.len() as int) =~= list@);
            assert(views(lists@.take(l + 1)).drop_last() =~= views(lists@.take(l as int)));
            assert(views(lists@.take(l + 1)).last() == list@);
        }
        l = l + 1;
    }
    proof {
        assert(lists@.take(lists@.len() as int) =~= lists@);
    }
    result
}

/// The first seed that repeats an earlier one, reading the lists in order.
pub fn first_repeated_seed(lists: &Vec<Vec<u64>>) -> (result: Option<u64>)
    ensures
        first_repeat_is(concatenated(views(lists@)), result),
{
    let all = concatenate(lists);
    let ghost s = all@;
    let mut seen: HashSet<u64> = HashSet::new();
    let mut j: usize = 0;
    while j < all.len()
        invariant
            s == all@,
            s == concatenated(views(lists@)),
            j <= s.len(),
            forall|x: u64| #[trigger] seen@.contains(x) <==> exists|i: int| 0 <= i < j && s[i] == x,
            forall|k: int| 0 <= k < j ==> !#[trigger] repeats_before(s, k),
        decreases s.len() - j,
    {
        let seed = all[j];
        if !seen.insert(seed) {
            proof {
                let i = choose|i: int| 0 <= i < j && s[i] == seed;
                assert(repeats_before(s, j as int));
                assert(first_repeat_is(s, Some(seed)));
            }
            return Some(seed);
        }
        proof {
            assert(!repeats_before(s, j as int));
            assert forall|x: u64| #[trigger] seen@.contains(x) <==> exists|i: int| 0 <= i < j + 1 && s[i] == x by {
                if x == seed {
                    assert(s[j as int] == x);
                }
            }
        }
        j = j + 1;
    }
    None
}

/// The seed lists of an experiment manifest.
#[derive(Clone, Debug)]
pub struct SeedPlan {
    pub screening: Vec<u64>,
    pub confirmation: Vec<u64>,
    pub development_perturbation: Vec<u64>,
    pub confirmation_perturbation: Vec<u64>,
    pub null: Vec<u64>,
    /// Whether the plan confirms a nominee on fresh seeds.
    pub confirm: bool,
}

/// Why a manifest's seeds are unusable.
#[derive(Clone, Copy, Debug, PartialEq, Eq)]
pub enum SeedError {
    /// Fewer than three screening seeds.
    TooFewScreeningSeeds,
    /// Confirmation with fewer than ten solver seeds.
    TooFewConfirmationSeeds,
    /// Fewer than ten stress replicates in a stage that runs.
    TooFewStressReplicates,
    /// Fewer than 100 label permutations.
    TooFewNullPermutations,
    /// This seed repeats, within a list or between lists.
    ReusedSeed(u64),
}

impl SeedPlan {
    pub open spec fn lists(&self) -> Seq<Seq<u64>> {
        seq![self.screening@, self.confirmation@, self.development_perturbation@, self.confirmation_perturbation@, self.null@]
    }

    /// Check cohort sizes, then that no seed is used twice.
    pub fn validate(&self) -> (result: Result<(), SeedError>)
        ensures
            self.screening@.len() < 3 ==> result == Err::<(), SeedError>(SeedError::TooFewScreeningSeeds),
            self.screening@.len() >= 3 && self.confirm && self.confirmation@.len() < 10
                ==> result == Err::<(), SeedError>(SeedError::TooFewConfirmationSeeds),
            self.screening@.len() >= 3 && !(self.confirm && self.confirmation@.len() < 10)
                && (self.development_perturbation@.len() < 10 || (self.confirm && self.confirmation_perturbation@.len() < 10))
                ==> result == Err::<(), SeedError>(SeedError::TooFewStressReplicates),
            self.screening@.len() >= 3 && !(self.confirm && self.confirmation@.len() < 10)
                && !(self.development_perturbation@.len() < 10 || (self.confirm && self.confirmation_perturbation@.len() < 10))
                ==> {
                    if self.null@.len() < 100 {
                        result == Err::<(), SeedError>(SeedError::TooFewNullPermutations)
                    } else {
                        match result {
                            Ok(()) => first_repeat_is(concatenated(self.lists()), None),
                            Err(SeedError::ReusedSeed(seed)) => first_repeat_is(concatenated(self.lists()), Some(seed)),
                            _ => false,
                        }
                    }
                },
    {
        if self.screening.len() < 3 {
            return Err(SeedError::TooFewScreeningSeeds);
        }
        if self.confirm && self.confirmation.len() < 10 {
            return Err(SeedError::TooFewConfirmationSeeds);
        }
        if self.development_perturbation.len() < 10 || (self.confirm && self.confirmation_perturbation.len() < 10) {
            return Err(SeedError::TooFewStressReplicates);
        }
        if self.null.len() < 100 {
            return Err(SeedError::TooFewNullPermutations);
        }
        let lists = vec![
            self.screening.clone(),
            self.confirmation.clone(),
            self.development_perturbation.clone(),
            self.confirmation_perturbation.clone(),
            self.null.clone(),
        ];
        proof {
            assert(lists@[0]@ =~= self.screening@);
            assert(lists@[1]@ =~= self.confirmation@);
            assert(lists@[2]@ =~= self.development_perturbation@);
            assert(lists@[3]@ =~= self.confirmation_perturbation@);
            assert(lists@[4]@ =~= self.null@);
            assert(views(lists@) =~= self.lists());
        }
        match first_repeated_seed(&lists) {
            Some(seed) => Err(SeedError::ReusedSeed(seed)),
            None => Ok(()),
        }
    }
}

/// The seeds a calibration adds to a study.
#[derive(Clone, Debug)]
pub struct CalibrationSeeds {
    pub solver: Vec<u64>,
    pub perturbation: Vec<u64>,
    pub resampling: u64,
    pub resamples: usize,
}

/// Why a calibration plan's seeds are unusable.
#[derive(Clone, Copy, Debug, PartialEq, Eq)]
pub enum CalibrationSeedError {
    /// Not enough solver seeds for two disjoint screening-sized cohorts.
    SolverCohorts,
    /// Not enough perturbation seeds for two disjoint cohorts.
    PerturbationCohorts,
    /// Fewer than 1000 cohort splits.
    TooFewResamples,
    /// This seed repeats, or is also a study seed.
    LeakedSeed(u64),
    /// The resampling seed is also a fit or evaluation seed.
    ResamplingSeedOverlap,
}

impl CalibrationSeeds {
    /// The study's seed lists followed by the calibration's.
    pub open spec fn lists(&self, study: SeedPlan) -> Seq<Seq<u64>> {
        study.lists() + seq![self.solver@, self.perturbation@]
    }

    /// Check cohort sizes, that every seed is used once, and that the
    /// resampling seed is used nowhere else.
    pub fn validate(&self, study: &SeedPlan) -> (result: Result<(), CalibrationSeedError>)
        ensures
            self.solver@.len() < 2 * study.screening@.len() ==> result == Err::<(), CalibrationSeedError>(CalibrationSeedError::SolverCohorts),
            self.solver@.len() >= 2 * study.screening@.len() && self.perturbation@.len() < 2 * study.development_perturbation@.len()
                ==> result == Err::<(), CalibrationSeedError>(CalibrationSeedError::PerturbationCohorts),
            self.solver@.len() >= 2 * study.screening@.len() && self.perturbation@.len() >= 2 * study.development_perturbation@.len()
                ==> {
                    if self.resamples < 1000 {
                        result == Err::<(), CalibrationSeedError>(CalibrationSeedError::TooFewResamples)
                    } else {
                        match result {
                            Err(CalibrationSeedError::LeakedSeed(seed)) => first_repeat_is(concatenated(self.lists(*study)), Some(seed)),
                            Err(CalibrationSeedError::ResamplingSeedOverlap) => first_repeat_is(concatenated(self.lists(*study)), None)
                                && concatenated(self.lists(*study)).contains(self.resampling),
                            Ok(()) => first_repeat_is(concatenated(self.lists(*study)), None)
                                && !concatenated(self.lists(*study)).contains(self.resampling),
                            _ => false,
                        }
                    }
                },
    {
        let s = study.screening.len();
        if !(s <= self.solver.len() && s <= self.solver.len() - s) {
            return Err(CalibrationSeedError::SolverCohorts);
        }
        let p = study.development_perturbation.len();
        if !(p <= self.perturbation.len() && p <= self.perturbation.len() - p) {
            return Err(CalibrationSeedError::PerturbationCohorts);
        }
        if self.resamples < 1000 {
            return Err(CalibrationSeedError::TooFewResamples);
        }
        let lists = vec![
            study.screening.clone(),
            study.confirmation.clone(),
            study.development_perturbation.clone(),
            study.confirmation_perturbation.clone(),
            study.null.clone(),
            self.solver.clone(),
            self.perturbation.clone(),
        ];
        proof {
            assert(lists@[0]@ =~= study.screening@);
            assert(lists@[1]@ =~= study.confirmation@);
            assert(lists@[2]@ =~= study.development_perturbation@);
            assert(lists@[3]@ =~= study.confirmation_perturbation@);
            assert(lists@[4]@ =~= study.null@);
            assert(lists@[5]@ =~= self.solver@);
            assert(lists@[6]@ =~= self.perturbation@);
            assert(views(lists@) =~= self.lists(*study));
        }
        if let Some(seed) = first_repeated_seed(&lists) {
            return Err(CalibrationSeedError::LeakedSeed(seed));
        }
        let all = concatenate(&lists);
        let mut k: usize = 0;
        while k < all.len()
            invariant
                k <= all@.len(),
                forall|q: int| 0 <= q < k ==> all@[q] != self.resampling,
                self.solver@.len() >= 2 * study.screening@.len(),
                self.perturbation@.len() >= 2 * study.development_perturbation@.len(),
                self.resamples >= 1000,
                all@ == concatenated(self.lists(*study)),
                first_repeat_is(concatenated(self.lists(*study)), None),
            decreases all@.len() - k,
        {
            if all[k] == self.resampling {
                proof {
                    assert(all@[k as int] == self.resampling);
                }
                return Err(CalibrationSeedError::ResamplingSeedOverlap);
            }
            k = k + 1;
        }
        Ok(())
    }
}

/// Seeds of the completed perturbations of one kind, in order.
pub open spec fn completed_of_kind(perturbations: Seq<(String, u64, bool)>, kind: Seq<char>) -> Seq<u64>
    decreases perturbations.len(),
{
    if perturbations.len() == 0 {
        Seq::empty()
    } else {
        let p = perturbations.last();
        let rest = completed_of_kind(perturbations.drop_last(), kind);
        if p.0@ == kind && p.2 {
            rest.push(p.1)
        } else {
            rest
        }
    }
}

/// Seeds of the perturbations of `kind` that completed, in order; each
/// perturbation is (kind, seed, completed).
pub fn completed_seeds(perturbations: &Vec<(String, u64, bool)>, kind: &str) -> (result: Vec<u64>)
    ensures
        result@ == completed_of_kind(perturbations@, kind@),
{
    let mut result: Vec<u64> = Vec::new();
    let mut i: usize = 0;
    while i < perturbations.len()
        invariant
            i <= perturbations@.len(),
            result@ == completed_of_kind(perturbations@.take(i as int), kind@),
        decreases perturbations@.len() - i,
    {
        proof {
            assert(perturbations@.take(i + 1).drop_last() =~= perturbations@.take(i as int));
        }
        if str_eq(perturbations[i].0.as_str(), kind) && perturbations[i].2 {
            result.push(perturbations[i].1);
        }
        i = i + 1;
    }
    proof {
        assert(perturbations@.take(perturbations@.len() as int) =~= perturbations@);
    }
    result
}

/// Position of `seed` among the run seeds.
pub open spec fn seed_position(runs: Seq<u64>, seed: u64) -> int {
    choose|i: int| 0 <= i < runs.len() && runs[i] == seed
}

/// The last of the first `m` pairs that compares runs `a` and `b`, in either order.
pub open spec fn last_pair(runs: Seq<u64>, pairs: Seq<(u64, u64)>, m: int, a: int, b: int) -> Option<usize>
    decreases m,
{
    if m <= 0 {
        None
    } else {
        let p = pairs[m - 1];
        let (x, y) = (seed_position(runs, p.0), seed_position(runs, p.1));
        if (x == a && y == b) || (x == b && y == a) {
            Some((m - 1) as usize)
        } else {
            last_pair(runs, pairs, m - 1, a, b)
        }
    }
}

/// Runs were compared pairwise: `pairs` names both seeds of each comparison.
pub open spec fn pairs_name_runs(runs: Seq<u64>, pairs: Seq<(u64, u64)>) -> bool {
    &&& runs.no_duplicates()
    &&& forall|p: int| 0 <= p < pairs.len() ==> runs.contains((#[trigger] pairs[p]).0) && runs.contains(pairs[p].1)
}

/// For each pair of runs, which comparison holds their agreement (the last
/// one that names them; on the diagonal, the last comparison of a run with
/// itself, if any); `None` when the comparisons do not cover every pair of
/// distinct runs.
pub fn repeat_pairs(runs: &Vec<u64>, pairs: &Vec<(u64, u64)>) -> (result: Option<Vec<Vec<Option<usize>>>>)
    requires
        pairs_name_runs(runs@, pairs@),
        pairs@.len() <= usize::MAX,
    ensures
        match result {
            Some(m) => m@.len() == runs@.len()
                && (forall|a: int| 0 <= a < runs@.len() ==> (#[trigger] m@[a])@.len() == runs@.len())
                && (forall|a: int, b: int| 0 <= a < runs@.len() && 0 <= b < runs@.len()
                    ==> #[trigger] m@[a]@[b] == last_pair(runs@, pairs@, pairs@.len() as int, a, b))
                && (forall|a: int, b: int| 0 <= a < b < runs@.len() ==> last_pair(runs@, pairs@, pairs@.len() as int, a, b) is Some),
            None => exists|a: int, b: int| 0 <= a < b < runs@.len() && last_pair(runs@, pairs@, pairs@.len() as int, a, b) is None,
        },
{
    let n = runs.len();
    let mut index: HashMap<u64, usize> = HashMap::new();
    let mut i: usize = 0;
    while i < n
        invariant
            i <= n,
            n == runs@.len(),
            runs@.no_duplicates(),
            forall|x: u64| #[trigger] index@.contains_key(x) <==> runs@.take(i as int).contains(x),
            forall|x: u64| index@.contains_key(x) ==> #[trigger] index@[x] < i && runs@[index@[x] as int] == x,
        decreases n - i,
    {
        index.insert(runs[i], i);
        proof {
            assert forall|x: u64| #[trigger] index@.contains_key(x) <==> runs@.take(i + 1).contains(x) by {
                if x == runs@[i as int] {
                    assert(runs@.take(i + 1)[i as int] == x);
                }
                if runs@.take(i + 1).contains(x) && x != runs@[i as int] {
                    let q = choose|q: int| 0 <= q < i + 1 && #[trigger] runs@.take(i + 1)[q] == x;
                    assert(runs@.take(i as int)[q] == x);
                }
                if runs@.take(i as int).contains(x) {
                    let q = choose|q: int| 0 <= q < i && #[trigger] runs@.take(i as int)[q] == x;
                    assert(runs@.take(i + 1)[q] == x);
                }
            }
        }
        i = i + 1;
    }
    proof {
        assert(runs@.take(n as int) =~= runs@);
        assert forall|x: u64| index@.contains_key(x) implies #[trigger] index@[x] as int == seed_position(runs@, x) by {
            let q = seed_position(runs@, x);
            assert(runs@[index@[x] as int] == x);
            assert(runs@[q] == x);
        }
    }
    let mut matrix: Vec<Vec<Option<usize>>> = Vec::new();
    let mut a: usize = 0;
    while a < n
        invariant
            a <= n,
            matrix@.len() == a,
            forall|q: int| 0 <= q < a ==> (#[trigger] matrix@[q])@ == Seq::new(n as nat, |r: int| None::<usize>),
        decreases n - a,
    {
        let mut row: Vec<Option<usize>> = Vec::new();
        let mut b: usize = 0;
        while b < n
            invariant
                b <= n,
                row@ == Seq::new(b as nat, |r: int| None::<usize>),
            decreases n - b,
        {
            row.push(None);
            b = b + 1;
            assert(row@ =~= Seq::new(b as nat, |r: int| None::<usize>));
        }
        matrix.push(row);
        a = a + 1;
    }
    let mut p: usize = 0;
    while p < pairs.len()
        invariant
            n == runs@.len(),
            pairs_name_runs(runs@, pairs@),
            forall|x: u64| #[trigger] index@.contains_key(x) <==> runs@.contains(x),
            forall|x: u64| index@.contains_key(x) ==> #[trigger] index@[x] as int == seed_position(runs@, x) && index@[x] < n,
            p <= pairs@.len(),
            matrix@.len() == n,
            forall|q: int| 0 <= q < n ==> (#[trigger] matrix@[q])@.len() == n,
            forall|x: int, y: int| 0 <= x < n && 0 <= y < n ==> #[trigger] matrix@[x]@[y] == last_pair(runs@, pairs@, p as int, x, y),
        decreases pairs@.len() - p,
    {
        let (left, right) = pairs[p];
        proof {
            assert(runs@.contains(left) && runs@.contains(right));
        }
        let x = *index.get(&left).unwrap();
        let y = *index.get(&right).unwrap();
        let ghost before = matrix@;
        let mut row_x = matrix[x].clone();
        row_x.set(y, Some(p));
        matrix.set(x, row_x);
        let mut row_y = matrix[y].clone();
        row_y.set(x, Some(p));
        matrix.set(y, row_y);
        proof {
            assert forall|u: int, v: int| 0 <= u < n && 0 <= v < n implies #[trigger] matrix@[u]@[v] == last_pair(runs@, pairs@, p + 1, u, v) by {
                if (u == x && v == y) || (u == y && v == x) {
                } else {
                    assert(matrix@[u]@[v] == before[u]@[v]);
                }
            }
        }
        p = p + 1;
    }
    let mut u: usize = 0;
    while u < n
        invariant
            n == runs@.len(),
            u <= n,
            matrix@.len() == n,
            forall|q: int| 0 <= q < n ==> (#[trigger] matrix@[q])@.len() == n,
            forall|x: int, y: int| 0 <= x < n && 0 <= y < n ==> #[trigger] matrix@[x]@[y] == last_pair(runs@, pairs@, pairs@.len() as int, x, y),
            forall|x: int, y: int| 0 <= x < u && x < y < n ==> last_pair(runs@, pairs@, pairs@.len() as int, x, y) is Some,
        decreases n - u,
    {
        let mut v: usize = u + 1;
        while v < n
            invariant
                n == runs@.len(),
                u < n,
                u + 1 <= v <= n,
                matrix@.len() == n,
                forall|q: int| 0 <= q < n ==> (#[trigger] matrix@[q])@.len() == n,
                forall|x: int, y: int| 0 <= x < n && 0 <= y < n ==> #[trigger] matrix@[x]@[y] == last_pair(runs@, pairs@, pairs@.len() as int, x, y),
                forall|x: int, y: int| 0 <= x < u && x < y < n ==> last_pair(runs@, pairs@, pairs@.len() as int, x, y) is Some,
                forall|y: int| u < y < v ==> last_pair(runs@, pairs@, pairs@.len() as int, u as int, y) is Some,
            decreases n - v,
        {
            if matrix[u][v].is_none() {
                proof {
                    assert(matrix@[u as int]@[v as int] == last_pair(runs@, pairs@, pairs@.len() as int, u as int, v as int));
                }
                return None;
            }
            v = v + 1;
        }
        u = u + 1;
    }
    Some(matrix)
}

/// Once no seed repeats, no two positions of the seed lists hold the same
/// seed: the cohorts of a validated plan are pairwise disjoint.
pub proof fn law_unrepeated_seeds_distinct(s: Seq<u64>, i: int, j: int)
    requires
        first_repeat_is(s, None),
        0 <= i < j < s.len(),
    ensures
        s[i] != s[j],
{
    assert(!repeats_before(s, j));
}

} // verus!
