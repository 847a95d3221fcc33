//! Posterior draws kept on the Rust side, their byte export and import, and the
//! plan of a posterior-predictive sample: which draws to use, which features to
//! exclude, and the shape of the output.
use crate::forest::{
    deserialize_forest, encodable_forest, forest_bytes, lemma_forest_bytes_injective, models,
    serialize_forest,
    trailing_bytes_message,
};
use crate::codec::unexpected_end_message;
use crate::tree::{DecisionTree, TreeModel};
use rand::rngs::StdRng;
use rand::Rng;
use rand::SeedableRng;
use vstd::prelude::*;

verus! {

/// The random number generator that draws posterior samples.
#[verifier::external_type_specification]
#[verifier::external_body]
pub struct ExStdRng(StdRng);

/// Seeds a generator with `SeedableRng::seed_from_u64`. Nothing is stated of the
/// generator's state.
#[verifier::external_body]
fn seeded_rng(seed: u64) -> StdRng {
    StdRng::seed_from_u64(seed)
}

/// Draws an index below `n` with `Rng::gen_range(0..n)`, which panics on an empty
/// range and otherwise returns a value of the range. Which value it returns, which
/// depends on the generator's state, is not stated.
#[verifier::external_body]
fn random_index(rng: &mut StdRng, n: usize) -> (i: usize)
    requires
        n > 0,
    ensures
        i < n,
{
    rng.gen_range(0..n)
}

/// The bytes decode to some encodable forest.
pub open spec fn decodes(bytes: Seq<u8>) -> bool {
    exists|g: Seq<TreeModel>| encodable_forest(g) && forest_bytes(g) == bytes
}

/// The bytes begin with the encoding of an encodable forest and continue past it.
pub open spec fn has_trailing_bytes(bytes: Seq<u8>) -> bool {
    exists|g: Seq<TreeModel>, k: int|
        encodable_forest(g) && 0 <= k < bytes.len() && forest_bytes(g) == bytes.take(k)
}

/// A request for a draw that is not stored.
#[derive(Debug, Clone, Copy, PartialEq, Eq, Structural)]
pub struct DrawIndexError {
    pub draw_idx: usize,
    pub n_draws: usize,
}

/// A byte blob that did not decode, with its position and the decoder's message.
#[derive(Debug, Clone, PartialEq)]
pub struct LoadError {
    pub index: usize,
    pub message: String,
}

/// Posterior draws: each draw is a forest (the sum-of-trees of one sampler step).
pub struct PosteriorDraws {
    draws: Vec<Vec<DecisionTree>>,
}

impl View for PosteriorDraws {
    type V = Seq<Seq<TreeModel>>;

    closed spec fn view(&self) -> Seq<Seq<TreeModel>> {
        self.draws@.map_values(|d: Vec<DecisionTree>| models(d@))
    }
}

impl PosteriorDraws {
    /// No draws yet.
    pub fn new() -> (d: Self)
        ensures
            d@ == Seq::<Seq<TreeModel>>::empty(),
    {
        let d = PosteriorDraws { draws: Vec::new() };
        assert(d@ =~= Seq::<Seq<TreeModel>>::empty());
        d
    }

    /// The number of stored draws.
    pub fn len(&self) -> (n: usize)
        ensures
            n == self@.len(),
    {
        self.draws.len()
    }

    /// The stored draws.
    pub fn draws(&self) -> (d: &Vec<Vec<DecisionTree>>)
        ensures
            d@.map_values(|d: Vec<DecisionTree>| models(d@)) == self@,
    {
        &self.draws
    }

    /// Records the trees of a sampler step as a posterior draw, unless the step was
    /// a tuning step.
    pub fn record_step(&mut self, tune: bool, trees: Vec<DecisionTree>)
        ensures
            tune ==> final(self)@ == old(self)@,
            !tune ==> final(self)@ == old(self)@.push(models(trees@)),
    {
        if !tune {
            let ghost before = self@;
            self.draws.push(trees);
            assert(self@ =~= before.push(models(trees@)));
        }
    }

    /// The compact byte encoding of draw `draw_idx`.
    pub fn export_draw_as_bytes(&self, draw_idx: usize) -> (r: Result<Vec<u8>, DrawIndexError>)
        ensures
            draw_idx < self@.len() <==> r is Ok,
            r matches Ok(bytes) ==> bytes@ == forest_bytes(self@[draw_idx as int]),
            r matches Err(e) ==> e == (DrawIndexError { draw_idx, n_draws: self@.len() as usize }),
    {
        if draw_idx >= self.draws.len() {
            return Err(DrawIndexError { draw_idx, n_draws: self.draws.len() });
        }
        let bytes = serialize_forest(self.draws[draw_idx].as_slice());
        Ok(bytes)
    }

    /// Replaces all draws by those decoded from byte blobs, one draw per blob.
    ///
    /// Fails on the first blob that does not decode, leaving the draws unchanged.
    pub fn load_all_trees_from_bytes(&mut self, blobs: Vec<Vec<u8>>) -> (r: Result<(), LoadError>)
        requires
            forall|k: int| 0 <= k < blobs@.len() ==> #[trigger] blobs@[k]@.len() + 8 <= usize::MAX,
        ensures
            r is Ok <==> forall|k: int| 0 <= k < blobs@.len() ==> decodes(#[trigger] blobs@[k]@),
            r is Ok ==> {
                &&& final(self)@.len() == blobs@.len()
                &&& forall|k: int|
                    0 <= k < blobs@.len() ==> {
                        &&& encodable_forest(#[trigger] final(self)@[k])
                        &&& forest_bytes(final(self)@[k]) == blobs@[k]@
                    }
            },
            r matches Err(e) ==> {
                &&& final(self)@ == old(self)@
                &&& e.index < blobs@.len()
                &&& forall|k: int| 0 <= k < e.index ==> decodes(#[trigger] blobs@[k]@)
                &&& !decodes(blobs@[e.index as int]@)
                &&& e.message@ == trailing_bytes_message() || e.message@ == unexpected_end_message()
                &&& e.message@ == trailing_bytes_message() <==> has_trailing_bytes(
                    blobs@[e.index as int]@,
                )
            },
    {
        let mut decoded: Vec<Vec<DecisionTree>> = Vec::new();
        let mut idx: usize = 0;
        while idx < blobs.len()
            invariant
                idx <= blobs@.len(),
                forall|k: int|
                    0 <= k < blobs@.len() ==> #[trigger] blobs@[k]@.len() + 8 <= usize::MAX,
                decoded@.len() == idx,
                forall|k: int|
                    0 <= k < idx ==> {
                        &&& encodable_forest(models(#[trigger] decoded@[k]@))
                        &&& forest_bytes(models(decoded@[k]@)) == blobs@[k]@
                    },
            decreases blobs@.len() - idx,
        {
            assert(blobs@[idx as int]@.len() + 8 <= usize::MAX);
            match deserialize_forest(blobs[idx].as_slice()) {
                Ok(forest) => {
                    decoded.push(forest);
                },
                Err(message) => {
                    proof {
                        assert forall|k: int| 0 <= k < idx implies decodes(
                            #[trigger] blobs@[k]@,
                        ) by {
                            let g = models(decoded@[k]@);
                            assert(encodable_forest(g) && forest_bytes(g) == blobs@[k]@);
                        }
                    }
                    return Err(LoadError { index: idx, message });
                },
            }
            idx += 1;
        }
        let ghost before = self@;
        self.draws = decoded;
        proof {
            assert forall|k: int| 0 <= k < blobs@.len() implies decodes(#[trigger] blobs@[k]@) by {
                let g = models(decoded@[k]@);
                assert(encodable_forest(g) && forest_bytes(g) == blobs@[k]@);
            }
        }
        Ok(())
    }
}

/// Draws exported as bytes load back as the same draws: the exported bytes of
/// encodable forests decode, and forests that decode from them are those forests.
pub proof fn lemma_reload_gives_back_draws(draws: Seq<Seq<TreeModel>>, loaded: Seq<Seq<TreeModel>>)
    requires
        forall|k: int| 0 <= k < draws.len() ==> #[trigger] encodable_forest(draws[k]),
        loaded.len() == draws.len(),
        forall|k: int|
            0 <= k < loaded.len() ==> {
                &&& encodable_forest(#[trigger] loaded[k])
                &&& forest_bytes(loaded[k]) == forest_bytes(draws[k])
            },
    ensures
        forall|k: int| 0 <= k < draws.len() ==> decodes(#[trigger] forest_bytes(draws[k])),
        loaded == draws,
{
    assert forall|k: int| 0 <= k < draws.len() implies decodes(
        #[trigger] forest_bytes(draws[k]),
    ) by {
        assert(encodable_forest(draws[k]) && forest_bytes(draws[k]) == forest_bytes(draws[k]));
    }
    assert forall|k: int| 0 <= k < draws.len() implies loaded[k] == draws[k] by {
        assert(encodable_forest(loaded[k]));
        assert(encodable_forest(draws[k]));
        lemma_forest_bytes_injective(loaded[k], draws[k]);
    }
    assert(loaded =~= draws);
}

/// The product of a sequence of sizes.
pub open spec fn size_product(s: Seq<usize>) -> int
    decreases s.len(),
{
    if s.len() == 0 {
        1
    } else {
        size_product(s.drop_last()) * s.last()
    }
}

/// Every running product of the sizes, taken left to right, fits in a `usize`.
pub open spec fn product_fits(s: Seq<usize>) -> bool {
    forall|j: int| 0 <= j <= s.len() ==> #[trigger] size_product(s.take(j)) <= usize::MAX
}

/// The sample sizes of a request: none, or an empty list, mean one sample.
pub open spec fn resolved_size(size: Option<Seq<usize>>) -> Seq<usize> {
    match size {
        None => seq![1usize],
        Some(v) => if v.len() == 0 {
            seq![1usize]
        } else {
            v
        },
    }
}

/// A non-empty list of sizes is used as given; no sizes, or an empty list, mean
/// a single sample.
pub proof fn lemma_resolved_size(v: Seq<usize>)
    ensures
        v.len() > 0 ==> resolved_size(Some(v)) == v,
        v.len() == 0 ==> resolved_size(Some(v)) == seq![1usize],
        resolved_size(None) == seq![1usize],
        size_product(seq![1usize]) == 1,
{
    let one = seq![1usize];
    assert(one.drop_last() =~= Seq::<usize>::empty());
    assert(size_product(Seq::<usize>::empty()) == 1);
    assert(one.last() == 1);
    assert(size_product(one) == size_product(one.drop_last()) * one.last());
}

/// The seed used when a request names none.
pub open spec fn default_seed() -> u64 {
    0xD1CE_BA5Eu64
}

/// Why a posterior-predictive request is refused.
#[derive(Debug, Clone, Copy, PartialEq, Eq, Structural)]
pub enum PosteriorError {
    /// Only scalar leaf values (output shape 1) are supported.
    VectorLeaves,
    /// No posterior draw has been recorded.
    NoDraws,
}

impl PosteriorError {
    /// The human-readable description of the refusal.
    pub fn message(&self) -> (s: &'static str)
        ensures
            s@ == (match self {
                PosteriorError::VectorLeaves => "Rust sample_posterior currently supports scalar leaf values only (shape must be 1). For vector-valued outputs, set separate_trees=True or implement vector-valued leaves."@,
                PosteriorError::NoDraws => "No posterior draws stored in Rust yet. Call step(..., tune=False) at least once before sample_posterior()."@,
            }),
    {
        match self {
            PosteriorError::VectorLeaves => "Rust sample_posterior currently supports scalar leaf values only (shape must be 1). For vector-valued outputs, set separate_trees=True or implement vector-valued leaves.",
            PosteriorError::NoDraws => "No posterior draws stored in Rust yet. Call step(..., tune=False) at least once before sample_posterior().",
        }
    }
}

/// What a posterior-predictive sample computes: for sample `s`, the sum over the
/// trees of draw `draw_indices[s]` of their predictions, laid out in an array of
/// shape `out_shape` (the sizes, then the observations, then the output shape).
pub struct PosteriorPlan {
    pub out_shape: Vec<usize>,
    pub draw_indices: Vec<usize>,
    pub excluded_mask: Option<Vec<bool>>,
}

/// The sizes of a request: none, or an empty list, mean one sample.
pub fn resolve_size(size: Option<Vec<usize>>) -> (v: Vec<usize>)
    ensures
        v@ == resolved_size(
            match size {
                None => None,
                Some(s) => Some(s@),
            },
        ),
        match size {
            Some(s) => (s@.len() > 0 ==> v@ == s@) && (s@.len() == 0 ==> v@ == seq![1usize]),
            None => v@ == seq![1usize],
        },
{
    match size {
        None => vec![1],
        Some(v) => {
            if v.len() == 0 {
                vec![1]
            } else {
                v
            }
        },
    }
}

/// The total number of samples of the given sizes.
pub fn flatten_size(sizes: &Vec<usize>) -> (n: usize)
    requires
        product_fits(sizes@),
    ensures
        n == size_product(sizes@),
{
    let mut acc: usize = 1;
    let mut i: usize = 0;
    while i < sizes.len()
        invariant
            i <= sizes@.len(),
            product_fits(sizes@),
            acc == size_product(sizes@.take(i as int)),
        decreases sizes@.len() - i,
    {
        proof {
            let t = sizes@.take(i + 1);
            assert(t.drop_last() =~= sizes@.take(i as int));
            assert(size_product(t) <= usize::MAX);
        }
        acc = acc * sizes[i];
        i += 1;
    }
    assert(sizes@.take(i as int) =~= sizes@);
    acc
}

/// A mask over `n_features` features that marks each listed index below
/// `n_features`.
pub fn build_excluded_mask(excluded: &Vec<usize>, n_features: usize) -> (mask: Vec<bool>)
    ensures
        mask@.len() == n_features,
        forall|f: int| 0 <= f < n_features ==> (#[trigger] mask@[f] <==> excluded@.contains(f as usize)),
{
    let mut mask: Vec<bool> = Vec::new();
    let mut i: usize = 0;
    while i < n_features
        invariant
            i <= n_features,
            mask@.len() == i,
            forall|f: int| 0 <= f < i ==> !#[trigger] mask@[f],
        decreases n_features - i,
    {
        mask.push(false);
        i += 1;
    }
    let mut j: usize = 0;
    while j < excluded.len()
        invariant
            j <= excluded@.len(),
            mask@.len() == n_features,
            forall|f: int|
                0 <= f < n_features ==> (#[trigger] mask@[f] <==> excluded@.take(j as int).contains(
                    f as usize,
                )),
        decreases excluded@.len() - j,
    {
        let idx = excluded[j];
        if idx < n_features {
            mask.set(idx, true);
        }
        proof {
            let t = excluded@.take(j + 1);
            assert(t =~= excluded@.take(j as int).push(idx));
            assert forall|f: int| 0 <= f < n_features implies (#[trigger] mask@[f] <==> t.contains(
                f as usize,
            )) by {
                if t.contains(f as usize) && f as usize != idx {
                    let w = choose|w: int| 0 <= w < t.len() && t[w] == f as usize;
                    assert(excluded@.take(j as int)[w] == f as usize);
                }
                if f as usize == idx {
                    assert(t[j as int] == idx);
                }
                if excluded@.take(j as int).contains(f as usize) {
                    let w = choose|w: int|
                        0 <= w < excluded@.take(j as int).len() && excluded@.take(j as int)[w]
                            == f as usize;
                    assert(t[w] == f as usize);
                }
            }
        }
        j += 1;
    }
    assert(excluded@.take(j as int) =~= excluded@);
    mask
}

/// The shape of the output: the sizes, then the observations, then the output shape.
pub fn output_shape(sizes: &Vec<usize>, n_obs: usize, shape: usize) -> (out: Vec<usize>)
    ensures
        out@ == sizes@.push(n_obs).push(shape),
{
    let mut out: Vec<usize> = Vec::new();
    let mut i: usize = 0;
    while i < sizes.len()
        invariant
            i <= sizes@.len(),
            out@ == sizes@.take(i as int),
        decreases sizes@.len() - i,
    {
        out.push(sizes[i]);
        i += 1;
        assert(out@ =~= sizes@.take(i as int));
    }
    assert(sizes@.take(i as int) =~= sizes@);
    out.push(n_obs);
    out.push(shape);
    out
}

/// The seed of a request: the given one, else the default seed.
pub fn resolve_seed(seed: Option<u64>) -> (s: u64)
    ensures
        s == match seed {
            Some(x) => x,
            None => default_seed(),
        },
{
    match seed {
        Some(x) => x,
        None => 0xD1CE_BA5Eu64,
    }
}

/// Draws `count` indices below `n_draws` from a generator seeded with
/// `resolve_seed(seed)`: the given seed, or the default seed when none is given.
pub fn sample_draw_indices(seed: Option<u64>, count: usize, n_draws: usize) -> (idx: Vec<usize>)
    requires
        n_draws > 0,
    ensures
        idx@.len() == count,
        forall|k: int| 0 <= k < count ==> #[trigger] idx@[k] < n_draws,
{
    let seed_val = resolve_seed(seed);
    let mut rng = seeded_rng(seed_val);
    let mut idx: Vec<usize> = Vec::new();
    let mut i: usize = 0;
    while i < count
        invariant
            i <= count,
            n_draws > 0,
            idx@.len() == i,
            forall|k: int| 0 <= k < i ==> #[trigger] idx@[k] < n_draws,
        decreases count - i,
    {
        let d = random_index(&mut rng, n_draws);
        idx.push(d);
        i += 1;
    }
    idx
}

/// Plans a posterior-predictive sample over `n_draws` stored draws for `n_obs`
/// observations of `n_features` features: refuses an output shape other than 1,
/// then a store without draws; otherwise resolves the sizes, masks the excluded
/// features, and draws one stored draw per sample.
pub fn plan_posterior(
    n_draws: usize,
    n_obs: usize,
    n_features: usize,
    size: Option<Vec<usize>>,
    excluded: Option<Vec<usize>>,
    shape: usize,
    seed: Option<u64>,
) -> (r: Result<PosteriorPlan, PosteriorError>)
    requires
        shape == 1 && n_draws > 0 ==> product_fits(
            resolved_size(
                match size {
                    None => None,
                    Some(s) => Some(s@),
                },
            ),
        ),
    ensures
        shape != 1 ==> r == Err::<PosteriorPlan, PosteriorError>(PosteriorError::VectorLeaves),
        shape == 1 && n_draws == 0 ==> r == Err::<PosteriorPlan, PosteriorError>(
            PosteriorError::NoDraws,
        ),
        r matches Ok(plan) ==> {
            let sizes = resolved_size(
                match size {
                    None => None,
                    Some(s) => Some(s@),
                },
            );
            &&& shape == 1 && n_draws > 0
            &&& plan.out_shape@ == sizes.push(n_obs).push(1usize)
            &&& plan.draw_indices@.len() == size_product(sizes)
            &&& forall|k: int|
                0 <= k < plan.draw_indices@.len() ==> #[trigger] plan.draw_indices@[k] < n_draws
            &&& match excluded {
                None => plan.excluded_mask is None,
                Some(ex) => plan.excluded_mask matches Some(mask) && mask@.len() == n_features
                    && forall|f: int|
                    0 <= f < n_features ==> (#[trigger] mask@[f] <==> ex@.contains(f as usize)),
            }
        },
        shape == 1 && n_draws > 0 ==> r is Ok,
        r matches Ok(plan) ==> match size {
            Some(s) => s@.len() > 0 ==> {
                &&& plan.out_shape@ == s@.push(n_obs).push(1usize)
                &&& plan.draw_indices@.len() == size_product(s@)
            },
            None => true,
        },
        r matches Ok(plan) ==> (match size {
            Some(s) => s@.len() == 0,
            None => true,
        } ==> {
            &&& plan.out_shape@ == seq![1usize, n_obs, 1usize]
            &&& plan.draw_indices@.len() == 1
        }),
{
    if shape != 1 {
        return Err(PosteriorError::VectorLeaves);
    }
    if n_draws == 0 {
        return Err(PosteriorError::NoDraws);
    }
    let sizes = resolve_size(size);
    let total = flatten_size(&sizes);
    let excluded_mask = match excluded {
        None => None,
        Some(ex) => Some(build_excluded_mask(&ex, n_features)),
    };
    let out_shape = output_shape(&sizes, n_obs, shape);
    let draw_indices = sample_draw_indices(seed, total, n_draws);
    proof {
        lemma_resolved_size(sizes@);
        assert(seq![1usize].push(n_obs).push(1usize) =~= seq![1usize, n_obs, 1usize]);
    }
    Ok(PosteriorPlan { out_shape, draw_indices, excluded_mask })
}

} // verus!
