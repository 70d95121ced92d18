use crate::data::{largest, lemma_largest_is_maximum, ModelData};
use crate::model::{Model, ModelDataType, ModelParam, ModelRestriction};
use crate::neural_network::{encode, NNView, NN};
use crate::text::{decimal, decimal_string};
use vstd::arithmetic::power2::{lemma2_to64, lemma_pow2_strictly_increases, pow2};
use vstd::bits::lemma_u64_shl_is_mul;
use vstd::prelude::*;
use vstd::string::StringExecFns;

verus! {

/// The bucket that a key falls in among `2^prefix` buckets: the low
/// `prefix` bits of the key, shifted right by `prefix`.
pub open spec fn bucket_index(inp: u64, prefix: u64) -> u64 {
    (inp & (((1u64 << prefix) - 1) as u64)) >> prefix
}

/// Every key falls in bucket 0, whatever the width: the mask keeps the low
/// `prefix` bits and the shift then discards exactly those.
pub proof fn lemma_bucket_index_is_zero(inp: u64, prefix: u64)
    requires
        prefix < 64,
    ensures
        bucket_index(inp, prefix) == 0,
{
    assert((inp & (((1u64 << prefix) - 1) as u64)) >> prefix == 0) by (bit_vector)
        requires
            prefix < 64,
    ;
}

/// The bucket of `inp` among `2^prefix` buckets.
///
/// The derivation masks the low `prefix` bits and then shifts them out, so
/// the result is 0 for every key and every width; the other buckets of a
/// dispatcher are never selected.
pub fn clip(inp: u64, prefix: u64) -> (bucket: usize)
    requires
        prefix < 64,
    ensures
        bucket == bucket_index(inp, prefix),
        bucket == 0,
{
    assert((1u64 << prefix) >= 1) by (bit_vector)
        requires
            prefix < 64,
    ;
    proof {
        lemma_bucket_index_is_zero(inp, prefix);
    }
    let mask: u64 = (1u64 << prefix) - 1;
    let val: u64 = (inp & mask) >> prefix;
    val as usize
}

/// A maximal stretch `[from, to)` of a training set whose keys fall in one
/// bucket.
#[derive(Clone, Copy, Debug, PartialEq, Eq, Structural)]
pub struct BucketRun {
    pub bucket: usize,
    pub from: usize,
    pub to: usize,
}

/// Whether `runs` cuts the first `end` entries into non-empty stretches, in
/// order and without gaps, such that all keys of a stretch fall in the
/// stretch's bucket and neighbouring stretches differ in their bucket.
pub open spec fn runs_cover(
    runs: Seq<BucketRun>,
    entries: Seq<(u64, u64)>,
    prefix: u64,
    end: int,
) -> bool {
    &&& 0 <= end <= entries.len()
    &&& runs.len() == 0 <==> end == 0
    &&& runs.len() > 0 ==> runs[0].from == 0 && runs.last().to == end
    &&& forall|i: int| 0 <= i < runs.len() ==> (#[trigger] runs[i]).from < runs[i].to
    &&& forall|i: int|
        0 <= i < runs.len() - 1 ==> (#[trigger] runs[i]).to == runs[i + 1].from && runs[i].bucket
            != runs[i + 1].bucket
    &&& forall|i: int, k: int|
        0 <= i < runs.len() && runs[i].from <= k < runs[i].to ==> bucket_index(
            (#[trigger] entries[k]).0,
            prefix,
        ) == (#[trigger] runs[i]).bucket
}

/// Since every key falls in bucket 0, a training set has at most one run.
pub proof fn lemma_at_most_one_run(runs: Seq<BucketRun>, entries: Seq<(u64, u64)>, prefix: u64)
    requires
        prefix < 64,
        runs_cover(runs, entries, prefix, entries.len() as int),
    ensures
        runs.len() <= 1,
        runs.len() == 1 ==> runs[0] == (BucketRun { bucket: 0, from: 0, to: entries.len() as usize }),
{
    if runs.len() >= 1 {
        let a = runs[0];
        lemma_bucket_index_is_zero(entries[a.from as int].0, prefix);
        assert(a.bucket == 0);
        if runs.len() > 1 {
            let b = runs[1];
            lemma_bucket_index_is_zero(entries[b.from as int].0, prefix);
            assert(b.bucket == 0);
            assert(false);
        }
    }
}

/// A cover of the entries before a stretch, and the stretch behind it, cover
/// the entries up to the end of the stretch.
proof fn lemma_runs_cover_extend(
    before: Seq<BucketRun>,
    run: BucketRun,
    entries: Seq<(u64, u64)>,
    prefix: u64,
)
    requires
        runs_cover(before, entries, prefix, run.from as int),
        run.from < run.to <= entries.len(),
        forall|k: int|
            run.from <= k < run.to ==> bucket_index((#[trigger] entries[k]).0, prefix)
                == run.bucket,
        before.len() > 0 ==> before.last().bucket != run.bucket,
    ensures
        runs_cover(before.push(run), entries, prefix, run.to as int),
{
    let runs = before.push(run);
    assert forall|j: int| 0 <= j < runs.len() - 1 implies (#[trigger] runs[j]).to == runs[j
        + 1].from && runs[j].bucket != runs[j + 1].bucket by {
        if j < before.len() - 1 {
            assert(runs[j] == before[j]);
            assert(runs[j + 1] == before[j + 1]);
        }
    }
    assert forall|j: int, k: int|
        0 <= j < runs.len() && runs[j].from <= k < runs[j].to implies bucket_index(
        (#[trigger] entries[k]).0,
        prefix,
    ) == (#[trigger] runs[j]).bucket by {
        if j < before.len() {
            assert(runs[j] == before[j]);
        }
    }
}

/// Cuts a training set into its runs: the maximal stretches of entries
/// whose keys fall in the same bucket.
pub fn bucket_runs(data: &ModelData, prefix: u64) -> (runs: Vec<BucketRun>)
    requires
        prefix < 64,
    ensures
        runs_cover(runs@, data@, prefix, data@.len() as int),
{
    let n = data.len();
    let mut runs: Vec<BucketRun> = Vec::new();
    if n == 0 {
        return runs;
    }
    let mut from: usize = 0;
    let mut bucket: usize = clip(data.get_key(0), prefix);
    let mut i: usize = 1;
    while i < n
        invariant
            from < i <= n,
            n == data@.len(),
            prefix < 64,
            runs_cover(runs@, data@, prefix, from as int),
            forall|k: int| from <= k < i ==> bucket_index((#[trigger] data@[k]).0, prefix) == bucket,
            runs@.len() > 0 ==> runs@.last().bucket != bucket,
        decreases n - i,
    {
        let b = clip(data.get_key(i), prefix);
        if b != bucket {
            proof {
                lemma_runs_cover_extend(runs@, BucketRun { bucket, from, to: i }, data@, prefix);
            }
            runs.push(BucketRun { bucket, from, to: i });
            from = i;
            bucket = b;
        }
        i += 1;
    }
    proof {
        lemma_runs_cover_extend(runs@, BucketRun { bucket, from, to: n }, data@, prefix);
    }
    runs.push(BucketRun { bucket, from, to: n });
    runs
}

/// The views of a sequence of correctors.
pub open spec fn network_views(networks: Seq<NN>) -> Seq<NNView> {
    Seq::new(networks.len(), |i: int| networks[i]@)
}

/// What a dispatcher is: the width of the key prefix that selects a bucket,
/// one corrector for each of the `2^prefix` buckets, and the largest
/// absolute error seen on the training set.
pub struct LearnedFIBView {
    pub prefix: u64,
    pub networks: Seq<NNView>,
    pub max_error: u64,
}

/// A bottom-layer model that selects a bucket by a key's prefix and leaves
/// the estimate to the bucket's corrector.
#[derive(Debug)]
pub struct LearnedFIB {
    prefix: u64,
    neural_networks: Vec<NN>,
    max_error: u64,
}

impl View for LearnedFIB {
    type V = LearnedFIBView;

    closed spec fn view(&self) -> LearnedFIBView {
        LearnedFIBView {
            prefix: self.prefix,
            networks: network_views(self.neural_networks@),
            max_error: self.max_error,
        }
    }
}

/// The source text that a dispatcher contributes.
pub open spec fn learned_fib_code() -> Seq<char> {
    "\ninline uint64 learned_fib(char *mod_path, double inp) {\n    return std::fma(beta, inp, alpha);\n}"@
}

/// The largest prefix width of a dispatcher: its `2^prefix` correctors must
/// be countable in a `usize` of 32 bits.
pub const MAX_PREFIX: u64 = 31;

/// The name of the file that holds the corrector of `bucket`.
pub open spec fn network_file_name(bucket: nat) -> Seq<char> {
    "nn_"@ + decimal(bucket)
}

/// The number of buckets of a dispatcher, `2^prefix`.
pub fn bucket_count(prefix: u64) -> (count: usize)
    requires
        prefix <= MAX_PREFIX,
    ensures
        count == pow2(prefix as nat),
{
    proof {
        lemma2_to64();
        if prefix < 31 {
            lemma_pow2_strictly_increases(prefix as nat, 31);
        }
        lemma_u64_shl_is_mul(1, prefix);
    }
    (1u64 << prefix) as usize
}

impl LearnedFIB {
    #[verifier::type_invariant]
    spec fn inv(self) -> bool {
        &&& self.prefix <= MAX_PREFIX
        &&& self.neural_networks@.len() == pow2(self.prefix as nat)
    }

    /// The width of the key prefix that selects a bucket. A dispatcher has
    /// one corrector for each of its `2^prefix` buckets.
    pub fn prefix(&self) -> (prefix: u64)
        ensures
            prefix == self@.prefix,
            prefix <= MAX_PREFIX,
            self@.networks.len() == pow2(prefix as nat),
    {
        proof {
            use_type_invariant(self);
        }
        self.prefix
    }

    /// The correctors of a dispatcher before training: `2^prefix`
    /// correctors without hidden units.
    pub fn untrained_networks(prefix: u64) -> (networks: Vec<NN>)
        requires
            prefix <= MAX_PREFIX,
        ensures
            networks@.len() == pow2(prefix as nat),
            forall|i: int| 0 <= i < networks@.len() ==> (#[trigger] networks@[i])@ == NN::new_view(),
    {
        let count = bucket_count(prefix);
        let mut networks: Vec<NN> = Vec::new();
        let mut i: usize = 0;
        while i < count
            invariant
                i <= count,
                networks@.len() == i,
                forall|j: int| 0 <= j < i ==> (#[trigger] networks@[j])@ == NN::new_view(),
            decreases count - i,
        {
            networks.push(NN::new());
            i += 1;
        }
        networks
    }

    /// Assembles a dispatcher from the trained correctors, one for each
    /// bucket, and the absolute error of its estimate on each entry of the
    /// training set. The error bound of the dispatcher is the largest of
    /// these errors.
    pub fn new(prefix: u64, neural_networks: Vec<NN>, errors: &[u64]) -> (model: LearnedFIB)
        requires
            prefix <= MAX_PREFIX,
            neural_networks@.len() == pow2(prefix as nat),
        ensures
            model@.prefix == prefix,
            model@.networks == network_views(neural_networks@),
            model@.max_error == largest(errors@),
            forall|i: int| 0 <= i < errors@.len() ==> errors@[i] <= model@.max_error,
            errors@.len() > 0 ==> exists|i: int|
                0 <= i < errors@.len() && errors@[i] == model@.max_error,
    {
        proof {
            lemma_largest_is_maximum(errors@);
        }
        let mut max_error: u64 = 0;
        let n = errors.len();
        let mut i: usize = 0;
        while i < n
            invariant
                i <= n,
                n == errors@.len(),
                max_error == largest(errors@.subrange(0, i as int)),
            decreases n - i,
        {
            let err = errors[i];
            proof {
                let seen = errors@.subrange(0, i + 1);
                assert(seen.drop_last() =~= errors@.subrange(0, i as int));
            }
            if err > max_error {
                max_error = err;
            }
            i += 1;
        }
        assert(errors@.subrange(0, n as int) =~= errors@);
        LearnedFIB { prefix, neural_networks, max_error }
    }

    /// The bucket that serves `key`.
    pub fn bucket_of(&self, key: u64) -> (bucket: usize)
        ensures
            bucket == bucket_index(key, self@.prefix),
            bucket < self@.networks.len(),
    {
        proof {
            use_type_invariant(self);
            vstd::arithmetic::power2::lemma_pow2_pos(self.prefix as nat);
        }
        clip(key, self.prefix)
    }

    /// The corrector of `bucket`.
    pub fn network(&self, bucket: usize) -> (nn: &NN)
        requires
            bucket < self@.networks.len(),
        ensures
            nn@ == self@.networks[bucket as int],
    {
        &self.neural_networks[bucket]
    }

    /// The stored form of the dispatcher: for each bucket in turn the name
    /// of its file and the bytes of its corrector.
    pub fn save(&self) -> (files: Vec<(String, Vec<u8>)>)
        ensures
            files@.len() == self@.networks.len(),
            forall|i: int|
                0 <= i < files@.len() ==> (#[trigger] files@[i]).0@ == network_file_name(i as nat)
                    && files@[i].1@ == encode(self@.networks[i].records()),
    {
        let n = self.neural_networks.len();
        let mut files: Vec<(String, Vec<u8>)> = Vec::new();
        let mut i: usize = 0;
        while i < n
            invariant
                i <= n,
                n == self.neural_networks@.len(),
                files@.len() == i,
                forall|j: int|
                    0 <= j < i ==> (#[trigger] files@[j]).0@ == network_file_name(j as nat)
                        && files@[j].1@ == encode(self@.networks[j].records()),
            decreases n - i,
        {
            let number = decimal_string(i as u64);
            let name = String::from_str("nn_").concat(number.as_str());
            let bytes = self.neural_networks[i].save();
            files.push((name, bytes));
            i += 1;
        }
        files
    }
}

impl Model for LearnedFIB {
    fn input_type(&self) -> (kind: ModelDataType)
        ensures
            kind == ModelDataType::Int,
    {
        ModelDataType::Int
    }

    fn output_type(&self) -> (kind: ModelDataType)
        ensures
            kind == ModelDataType::Int,
    {
        ModelDataType::Int
    }

    /// A dispatcher hands its constants out through `save`, not here.
    fn params(&self) -> (params: Vec<ModelParam>)
        ensures
            params@.len() == 0,
    {
        Vec::new()
    }

    fn code(&self) -> (code: String)
        ensures
            code@ == learned_fib_code(),
    {
        String::from_str(
            "\ninline uint64 learned_fib(char *mod_path, double inp) {\n    return std::fma(beta, inp, alpha);\n}",
        )
    }

    fn function_name(&self) -> (name: String)
        ensures
            name@ == "LearnedFIB"@,
    {
        String::from_str("LearnedFIB")
    }

    fn needs_bounds_check(&self) -> (needed: bool)
        ensures
            needed,
    {
        true
    }

    fn restriction(&self) -> (restriction: ModelRestriction)
        ensures
            restriction == ModelRestriction::MustBeBottom,
    {
        ModelRestriction::MustBeBottom
    }

    /// The largest absolute error on the training set.
    fn error_bound(&self) -> (bound: Option<u64>)
        ensures
            bound == Some(self@.max_error),
    {
        Some(self.max_error)
    }
}

} // verus!
