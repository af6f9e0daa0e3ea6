//! Settings of the embedding, graph and mixture-model pipelines, with the
//! integer checks that run before any numerical work.
use vstd::prelude::*;

verus! {

/// PCA projection settings: how many components to keep (all that the data
/// allows when `None`) and whether to whiten them.
#[derive(Clone, Copy, Debug, PartialEq, Eq, Structural)]
pub struct PcaWhiteningConfig {
    pub components: Option<usize>,
    pub whiten: bool,
}

impl PcaWhiteningConfig {
    /// Whitened PCA with the given output dimension.
    pub fn whitening(components: Option<usize>) -> (result: Self)
        ensures
            result.components == components,
            result.whiten,
    {
        PcaWhiteningConfig { components, whiten: true }
    }
}

/// Why embedding rows cannot be projected.
#[derive(Clone, Copy, Debug, PartialEq, Eq)]
pub enum PcaError {
    /// Fewer than two rows.
    TooFewRows,
    /// The first row is empty.
    ZeroDimension,
    /// A row's length differs from the first row's: (row, length, expected).
    RaggedRow(usize, usize, usize),
    /// A row holds a value that is not finite.
    NonFinite(usize),
    /// The component count is outside `1..=max`: (max, requested).
    ComponentCount(usize, usize),
}

/// Check the shape of the rows to project (their lengths and whether each
/// holds only finite values) and settle the component count: the requested
/// one, or `min(d, n - 1)`, which is also the largest allowed.
pub fn pca_components(lengths: &Vec<usize>, finite: &Vec<bool>, config: PcaWhiteningConfig) -> (result: Result<usize, PcaError>)
    requires
        finite@.len() == lengths@.len(),
    ensures
        lengths@.len() < 2 ==> result == Err::<usize, PcaError>(PcaError::TooFewRows),
        lengths@.len() >= 2 && lengths@[0] == 0 ==> result == Err::<usize, PcaError>(PcaError::ZeroDimension),
        lengths@.len() >= 2 && lengths@[0] > 0 ==> {
            let d = lengths@[0];
            let bad = |i: int| lengths@[i] != d || !finite@[i];
            match result {
                Err(PcaError::RaggedRow(row, len, expected)) => row < lengths@.len() && lengths@[row as int] != d
                    && len == lengths@[row as int] && expected == d
                    && forall|i: int| 0 <= i < row ==> !#[trigger] bad(i),
                Err(PcaError::NonFinite(row)) => row < lengths@.len() && lengths@[row as int] == d && !finite@[row as int]
                    && forall|i: int| 0 <= i < row ==> !#[trigger] bad(i),
                Err(PcaError::ComponentCount(max, got)) => (forall|i: int| 0 <= i < lengths@.len() ==> !#[trigger] bad(i))
                    && max == (if d < lengths@.len() - 1 { d as int } else { lengths@.len() - 1 })
                    && got == (match config.components { Some(c) => c as int, None => max as int })
                    && !(1 <= got <= max),
                Ok(c) => (forall|i: int| 0 <= i < lengths@.len() ==> !#[trigger] bad(i))
                    && c == (match config.components {
                        Some(c) => c as int,
                        None => if d < lengths@.len() - 1 { d as int } else { lengths@.len() - 1 },
                    })
                    && 1 <= c <= (if d < lengths@.len() - 1 { d as int } else { lengths@.len() - 1 }),
                _ => false,
            }
        },
{
    let n = lengths.len();
    if n < 2 {
        return Err(PcaError::TooFewRows);
    }
    let d = lengths[0];
    if d == 0 {
        return Err(PcaError::ZeroDimension);
    }
    let mut i: usize = 0;
    while i < n
        invariant
            n == lengths@.len(),
            n >= 2,
            d > 0,
            finite@.len() == n,
            d == lengths@[0],
            i <= n,
            forall|j: int| 0 <= j < i ==> lengths@[j] == d && finite@[j],
        decreases n - i,
    {
        if lengths[i] != d {
            return Err(PcaError::RaggedRow(i, lengths[i], d));
        }
        if !finite[i] {
            return Err(PcaError::NonFinite(i));
        }
        i = i + 1;
    }
    let max = if d < n - 1 { d } else { n - 1 };
    let components = match config.components {
        Some(c) => c,
        None => max,
    };
    if !(1 <= components && components <= max) {
        return Err(PcaError::ComponentCount(max, components));
    }
    Ok(components)
}

/// Information criterion used to choose a mixture model.
#[derive(Clone, Copy, Debug, PartialEq, Eq, Structural)]
pub enum Criterion {
    Aic,
    Bic,
}

/// Free parameters of a full-covariance Gaussian mixture: `k - 1` weights,
/// `k d` means and `k d (d + 1) / 2` covariance entries.
pub open spec fn covariance_parameter_count(dimensions: int, clusters: int) -> int {
    clusters - 1 + clusters * dimensions + clusters * (dimensions * (dimensions + 1) / 2)
}

/// Why a mixture's parameter count is undefined.
#[derive(Clone, Copy, Debug, PartialEq, Eq)]
pub enum ModelSizeError {
    /// No samples, dimensions or clusters.
    InvalidDimensions,
}

/// Parameter count of a full-covariance mixture.
pub fn full_covariance_parameters(samples: usize, dimensions: usize, clusters: usize) -> (result: Result<usize, ModelSizeError>)
    requires
        clusters + clusters * dimensions * (dimensions + 1) <= usize::MAX,
    ensures
        samples == 0 || dimensions == 0 || clusters == 0 ==> result == Err::<usize, ModelSizeError>(ModelSizeError::InvalidDimensions),
        samples > 0 && dimensions > 0 && clusters > 0 ==> result == Ok::<usize, ModelSizeError>(
            covariance_parameter_count(dimensions as int, clusters as int) as usize),
{
    if samples == 0 || dimensions == 0 || clusters == 0 {
        return Err(ModelSizeError::InvalidDimensions);
    }
    let ghost d = dimensions as int;
    let ghost k = clusters as int;
    proof {
        assert(d * (d + 1) <= k * d * (d + 1)) by (nonlinear_arith)
            requires d > 0, k > 0;
        assert(d + 1 <= d * (d + 1)) by (nonlinear_arith)
            requires d > 0;
        assert(k * (d * (d + 1) / 2) * 2 <= k * d * (d + 1)) by (nonlinear_arith)
            requires d > 0, k > 0;
        assert(k * d <= k * (d * (d + 1) / 2)) by (nonlinear_arith)
            requires d > 0, k > 0;
        assert(k * d + k * (d * (d + 1) / 2) <= k * d * (d + 1)) by (nonlinear_arith)
            requires d > 0, k > 0, k * d <= k * (d * (d + 1) / 2), k * (d * (d + 1) / 2) * 2 <= k * d * (d + 1);
    }
    let square = dimensions * (dimensions + 1);
    let cells = square / 2;
    let covariance = clusters * cells;
    let means = clusters * dimensions;
    Ok(clusters - 1 + means + covariance)
}

/// Preprocessing applied to embeddings before neighbour search.
#[derive(Clone, Copy, Debug, PartialEq, Eq, Structural)]
pub enum Representation {
    /// Unit vectors as given.
    Raw,
    /// Mean-centred.
    Center,
    /// Mean-centred with the leading principal directions removed.
    Abtt(usize),
}

impl Representation {
    /// Number of transforms the representation applies: a simplicity score.
    pub fn transforms(&self) -> (result: usize)
        ensures
            result == match *self {
                Representation::Raw => 0usize,
                Representation::Center => 1usize,
                Representation::Abtt(_) => 2usize,
            },
    {
        match self {
            Representation::Raw => 0,
            Representation::Center => 1,
            Representation::Abtt(_) => 2,
        }
    }
}

/// Whether `m` leading directions can be removed from `n` rows of dimension
/// `d`: `1 <= m <= min(d, n - 1)`.
pub fn abtt_components_valid(m: usize, rows: usize, dimensions: usize) -> (result: bool)
    requires
        rows > 0,
    ensures
        result == (m > 0 && m <= dimensions && m <= rows - 1),
{
    m > 0 && m <= dimensions && m <= rows - 1
}

/// How directed neighbour lists become undirected edges.
#[derive(Clone, Copy, Debug, PartialEq, Eq, Structural)]
pub enum Symmetrization {
    /// An edge when either node lists the other.
    Union,
    /// An edge when both nodes list each other.
    Mutual,
}

/// How an edge is weighted.
#[derive(Clone, Copy, Debug, PartialEq, Eq, Structural)]
pub enum WeightMode {
    Cosine,
    Snn,
    Local,
    CosineSnn,
}

/// Why a graph configuration's counts are unusable.
#[derive(Clone, Copy, Debug, PartialEq, Eq)]
pub enum GraphCountError {
    /// `k` is zero.
    NoNeighbors,
    /// `block_rows` is zero.
    NoBlockRows,
    /// The local scale rank is zero.
    ZeroScale,
}

/// Check the neighbour count and block size.
pub fn check_neighbor_counts(k: usize, block_rows: usize) -> (result: Result<(), GraphCountError>)
    ensures
        k == 0 ==> result == Err::<(), GraphCountError>(GraphCountError::NoNeighbors),
        k > 0 && block_rows == 0 ==> result == Err::<(), GraphCountError>(GraphCountError::NoBlockRows),
        k > 0 && block_rows > 0 ==> result is Ok,
{
    if k < 1 {
        return Err(GraphCountError::NoNeighbors);
    }
    if block_rows < 1 {
        return Err(GraphCountError::NoBlockRows);
    }
    Ok(())
}

/// Check that a requested local scale rank is positive.
pub fn check_scale(k_scale: Option<usize>) -> (result: Result<(), GraphCountError>)
    ensures
        result is Ok <==> (k_scale matches Some(k) ==> k > 0),
        result is Err ==> result == Err::<(), GraphCountError>(GraphCountError::ZeroScale),
{
    match k_scale {
        Some(0) => Err(GraphCountError::ZeroScale),
        _ => Ok(()),
    }
}

/// A calibration report a study refers to: its path and SHA-256.
#[derive(Clone, Debug)]
pub struct CalibrationReference {
    pub report: String,
    pub report_sha256: String,
}

/// HSK bands and parts of speech known for a token, each listed once, and how
/// many metadata rows name it.
#[derive(Clone, Debug)]
pub struct TokenMetadata {
    pub bands: Vec<String>,
    pub parts_of_speech: Vec<String>,
    pub mapped_rows: usize,
}

impl TokenMetadata {
    /// The token has more than one row, band or part of speech.
    pub fn ambiguous(&self) -> (result: bool)
        ensures
            result == (self.mapped_rows > 1 || self.bands.len() > 1 || self.parts_of_speech.len() > 1),
    {
        self.mapped_rows > 1 || self.bands.len() > 1 || self.parts_of_speech.len() > 1
    }
}

/// Why an output path is refused.
#[derive(Clone, Copy, Debug, PartialEq, Eq)]
pub enum PathError {
    /// The output would overwrite the input.
    SamePath,
}

/// The two byte strings are the same.
fn bytes_eq(a: &[u8], b: &[u8]) -> (result: bool)
    ensures
        result == (a@ == b@),
{
    if a.len() != b.len() {
        return false;
    }
    let mut i: usize = 0;
    while i < a.len()
        invariant
            a@.len() == b@.len(),
            i <= a@.len(),
            a@.take(i as int) == b@.take(i as int),
        decreases a@.len() - i,
    {
        if a[i] != b[i] {
            assert(a@[i as int] != b@[i as int]);
            return false;
        }
        assert(a@.take(i + 1) =~= a@.take(i as int).push(a@[i as int]));
        assert(b@.take(i + 1) =~= b@.take(i as int).push(b@[i as int]));
        i = i + 1;
    }
    assert(a@.take(a@.len() as int) =~= a@);
    assert(b@.take(b@.len() as int) =~= b@);
    true
}

/// Refuse an output that resolves to the input. The paths are given as the
/// bytes of their resolved forms; `output` is `None` when the output does not
/// exist yet.
pub fn ensure_distinct_paths(input: &[u8], output: Option<&[u8]>) -> (result: Result<(), PathError>)
    ensures
        match output {
            Some(o) => (result is Ok) == (o@ != input@),
            None => result is Ok,
        },
        result is Err ==> result == Err::<(), PathError>(PathError::SamePath),
{
    match output {
        Some(o) => {
            if bytes_eq(input, o) {
                Err(PathError::SamePath)
            } else {
                Ok(())
            }
        },
        None => Ok(()),
    }
}

} // verus!
