use byteorder::{ByteOrder, LittleEndian};
use vstd::bytes::{
    lemma_auto_spec_u64_to_from_le_bytes, spec_u64_from_le_bytes, spec_u64_to_le_bytes,
};
use vstd::prelude::*;
use vstd::slice::slice_subrange;

verus! {

/// Why a byte sequence is not a stored corrector.
#[derive(Clone, Copy, Debug, PartialEq, Eq, Structural)]
pub enum LoadError {
    /// The length is not a whole number of 8-byte records.
    PartialRecord,
    /// The number of records is not one more than a multiple of three.
    ParameterCount,
}

/// One unit of the hidden layer.
#[derive(Clone, Copy, Debug, PartialEq, Eq, Structural)]
pub struct HiddenUnit {
    /// Weight of the input.
    pub weight: u64,
    /// Bias added before the rectifier.
    pub bias: u64,
    /// Weight of the unit's output in the second layer.
    pub out_weight: u64,
}

/// The parameters of a corrector as mathematical sequences. Each number is
/// the bit pattern of a double.
pub struct NNView {
    pub weights1: Seq<u64>,
    pub weights2: Seq<u64>,
    pub biases1: Seq<u64>,
    pub bias2: u64,
}

impl NNView {
    /// Every hidden unit has one entry in each of the three sequences.
    pub open spec fn balanced(self) -> bool {
        self.weights1.len() == self.weights2.len() && self.weights1.len() == self.biases1.len()
    }

    /// The parameters in storage order: hidden weights, second-layer
    /// weights, hidden biases, output bias.
    pub open spec fn records(self) -> Seq<u64> {
        self.weights1 + self.weights2 + self.biases1 + seq![self.bias2]
    }
}

/// The little-endian bytes of `words`, eight for each, in order.
pub open spec fn encode(words: Seq<u64>) -> Seq<u8>
    decreases words.len(),
{
    if words.len() == 0 {
        Seq::empty()
    } else {
        encode(words.drop_last()) + spec_u64_to_le_bytes(words.last())
    }
}

/// The words that `bytes` holds, reading eight bytes at a time; trailing
/// bytes that do not fill a word are ignored.
pub open spec fn decode(bytes: Seq<u8>) -> Seq<u64> {
    Seq::new(
        (bytes.len() / 8) as nat,
        |i: int| spec_u64_from_le_bytes(bytes.subrange(8 * i, 8 * i + 8)),
    )
}

/// What a byte sequence means as a stored corrector.
pub open spec fn parse(bytes: Seq<u8>) -> Result<NNView, LoadError> {
    let count = bytes.len() / 8;
    let units = (count - 1) / 3;
    let words = decode(bytes);
    if bytes.len() % 8 != 0 {
        Err(LoadError::PartialRecord)
    } else if count % 3 != 1 {
        Err(LoadError::ParameterCount)
    } else {
        Ok(
            NNView {
                weights1: words.subrange(0, units),
                weights2: words.subrange(units, 2 * units),
                biases1: words.subrange(2 * units, 3 * units),
                bias2: words[3 * units],
            },
        )
    }
}

/// `encode` gives eight bytes for each word, and the word at `i` can be
/// read back from the eight bytes at `8 * i`.
pub proof fn lemma_encode_layout(words: Seq<u64>)
    ensures
        encode(words).len() == 8 * words.len(),
        decode(encode(words)) == words,
    decreases words.len(),
{
    lemma_auto_spec_u64_to_from_le_bytes();
    if words.len() == 0 {
        assert(decode(encode(words)) =~= words);
    } else {
        let front = words.drop_last();
        lemma_encode_layout(front);
        let bytes = encode(words);
        assert(bytes.len() == 8 * words.len());
        assert forall|i: int| 0 <= i < words.len() implies #[trigger] decode(bytes)[i]
            == words[i] by {
            if i < front.len() {
                assert(bytes.subrange(8 * i, 8 * i + 8) =~= encode(front).subrange(
                    8 * i,
                    8 * i + 8,
                ));
                assert(decode(encode(front))[i] == front[i]);
            } else {
                assert(bytes.subrange(8 * i, 8 * i + 8) =~= spec_u64_to_le_bytes(words.last()));
            }
        }
        assert(decode(bytes) =~= words);
    }
}

/// Reading the bytes of `decode(bytes)` back gives `bytes`, where `bytes`
/// is a whole number of words.
pub proof fn lemma_decode_layout(bytes: Seq<u8>)
    requires
        bytes.len() % 8 == 0,
    ensures
        encode(decode(bytes)) == bytes,
    decreases bytes.len(),
{
    let words = decode(bytes);
    if bytes.len() == 0 {
        assert(encode(words) =~= bytes);
    } else {
        let cut = bytes.len() - 8;
        let front = bytes.subrange(0, cut);
        let tail = bytes.subrange(cut, cut + 8);
        lemma_decode_layout(front);
        assert(words.len() == decode(front).len() + 1);
        assert forall|i: int| 0 <= i < decode(front).len() implies words[i] == #[trigger] decode(
            front,
        )[i] by {
            assert(front.subrange(8 * i, 8 * i + 8) =~= bytes.subrange(8 * i, 8 * i + 8));
        }
        assert(words.drop_last() =~= decode(front));
        assert(words.last() == spec_u64_from_le_bytes(tail));
        assert(spec_u64_to_le_bytes(words.last()) == tail) by {
            lemma_auto_spec_u64_to_from_le_bytes();
        }
        assert(front + tail =~= bytes);
    }
}

/// Storing a corrector and parsing the bytes gives the same parameters
/// back, bit for bit.
pub proof fn lemma_parse_inverts_encode(params: NNView)
    requires
        params.balanced(),
    ensures
        parse(encode(params.records())) == Ok::<NNView, LoadError>(params),
{
    let words = params.records();
    let units = params.weights1.len() as int;
    lemma_encode_layout(words);
    assert(words.len() == 3 * units + 1);
    let parsed = parse(encode(words))->Ok_0;
    assert(parsed.weights1 =~= params.weights1);
    assert(parsed.weights2 =~= params.weights2);
    assert(parsed.biases1 =~= params.biases1);
    assert(parsed.bias2 == params.bias2);
}

/// Parsing a byte sequence and storing the result gives the same bytes
/// back.
pub proof fn lemma_encode_inverts_parse(bytes: Seq<u8>)
    requires
        parse(bytes) is Ok,
    ensures
        parse(bytes)->Ok_0.balanced(),
        encode(parse(bytes)->Ok_0.records()) == bytes,
{
    let parsed = parse(bytes)->Ok_0;
    lemma_decode_layout(bytes);
    assert(parsed.records() =~= decode(bytes));
}

/// byteorder's `LittleEndian::write_u64` on a buffer of eight bytes: the
/// buffer then holds `n` with the least significant byte first.
#[verifier::external_body]
fn u64_le_bytes(n: u64) -> (buf: [u8; 8])
    ensures
        buf@ == spec_u64_to_le_bytes(n),
{
    let mut buf = [0u8; 8];
    LittleEndian::write_u64(&mut buf, n);
    buf
}

/// byteorder's `LittleEndian::read_u64`: the number whose little-endian
/// bytes are the first eight of `buf`. It panics on a shorter buffer.
#[verifier::external_body]
fn u64_from_le_bytes(buf: &[u8]) -> (n: u64)
    requires
        buf@.len() >= 8,
    ensures
        n == spec_u64_from_le_bytes(buf@.subrange(0, 8)),
{
    LittleEndian::read_u64(buf)
}

/// Appends the little-endian bytes of `word` to `out`.
fn put_word(out: &mut Vec<u8>, word: u64)
    ensures
        final(out)@ == old(out)@ + spec_u64_to_le_bytes(word),
{
    proof {
        lemma_auto_spec_u64_to_from_le_bytes();
    }
    let buf = u64_le_bytes(word);
    let mut k: usize = 0;
    while k < 8
        invariant
            k <= 8,
            buf@ == spec_u64_to_le_bytes(word),
            buf@.len() == 8,
            out@ == old(out)@ + buf@.subrange(0, k as int),
        decreases 8 - k,
    {
        out.push(buf[k]);
        k += 1;
        assert(out@ =~= old(out)@ + buf@.subrange(0, k as int));
    }
    assert(buf@.subrange(0, 8) =~= buf@);
}

/// A single-hidden-layer rectifier network that corrects a position
/// estimate inside one bucket.
///
/// Each parameter is the bit pattern of a double. The three parameter
/// sequences of the hidden layer have one entry per hidden unit.
#[derive(Clone, Debug, PartialEq, Eq)]
pub struct NN {
    units: Vec<HiddenUnit>,
    bias2: u64,
}

impl View for NN {
    type V = NNView;

    closed spec fn view(&self) -> NNView {
        NNView {
            weights1: Seq::new(self.units@.len(), |i: int| self.units@[i].weight),
            weights2: Seq::new(self.units@.len(), |i: int| self.units@[i].out_weight),
            biases1: Seq::new(self.units@.len(), |i: int| self.units@[i].bias),
            bias2: self.bias2,
        }
    }
}

impl NN {
    /// The parameters of a corrector before training: no hidden unit, and
    /// the output bias zero.
    pub open spec fn new_view() -> NNView {
        NNView {
            weights1: Seq::empty(),
            weights2: Seq::empty(),
            biases1: Seq::empty(),
            bias2: 0,
        }
    }

    /// A corrector without hidden units and with output bias zero.
    pub fn new() -> (nn: NN)
        ensures
            nn@ == Self::new_view(),
    {
        let nn = NN { units: Vec::new(), bias2: 0 };
        assert(nn@.weights1 =~= Seq::<u64>::empty());
        assert(nn@.weights2 =~= Seq::<u64>::empty());
        assert(nn@.biases1 =~= Seq::<u64>::empty());
        nn
    }

    /// The three sequences of a corrector always have the same length.
    pub proof fn lemma_balanced(&self)
        ensures
            self@.balanced(),
    {
    }

    /// The number of hidden units.
    pub fn hidden_units(&self) -> (n: usize)
        ensures
            n == self@.weights1.len(),
            self@.balanced(),
    {
        self.units.len()
    }

    /// The hidden unit at `index`.
    pub fn hidden_unit(&self, index: usize) -> (unit: HiddenUnit)
        requires
            index < self@.weights1.len(),
        ensures
            unit.weight == self@.weights1[index as int],
            unit.bias == self@.biases1[index as int],
            unit.out_weight == self@.weights2[index as int],
    {
        self.units[index]
    }

    /// The output bias.
    pub fn output_bias(&self) -> (bias: u64)
        ensures
            bias == self@.bias2,
    {
        self.bias2
    }

    /// Replaces the output bias.
    pub fn set_output_bias(&mut self, bias: u64)
        ensures
            final(self)@ == (NNView { bias2: bias, ..old(self)@ }),
    {
        self.bias2 = bias;
    }

    /// Adds a hidden unit behind the existing ones.
    pub fn push_hidden_unit(&mut self, unit: HiddenUnit)
        ensures
            final(self)@.weights1 == old(self)@.weights1.push(unit.weight),
            final(self)@.weights2 == old(self)@.weights2.push(unit.out_weight),
            final(self)@.biases1 == old(self)@.biases1.push(unit.bias),
            final(self)@.bias2 == old(self)@.bias2,
    {
        self.units.push(unit);
        assert(self@.weights1 =~= old(self)@.weights1.push(unit.weight));
        assert(self@.weights2 =~= old(self)@.weights2.push(unit.out_weight));
        assert(self@.biases1 =~= old(self)@.biases1.push(unit.bias));
    }

    /// The stored form: every parameter as eight little-endian bytes, the
    /// hidden weights first, then the second-layer weights, the hidden
    /// biases, and the output bias.
    pub fn save(&self) -> (bytes: Vec<u8>)
        ensures
            bytes@ == encode(self@.records()),
    {
        let n = self.units.len();
        let mut out: Vec<u8> = Vec::new();
        let mut i: usize = 0;
        while i < n
            invariant
                i <= n,
                n == self.units@.len(),
                out@ == encode(self@.weights1.subrange(0, i as int)),
            decreases n - i,
        {
            put_word(&mut out, self.units[i].weight);
            proof {
                let done = self@.weights1.subrange(0, i + 1);
                assert(done.drop_last() =~= self@.weights1.subrange(0, i as int));
            }
            i += 1;
        }
        assert(self@.weights1.subrange(0, n as int) =~= self@.weights1);
        let mut i: usize = 0;
        while i < n
            invariant
                i <= n,
                n == self.units@.len(),
                out@ == encode(self@.weights1 + self@.weights2.subrange(0, i as int)),
            decreases n - i,
        {
            put_word(&mut out, self.units[i].out_weight);
            proof {
                let done = self@.weights1 + self@.weights2.subrange(0, i + 1);
                assert(done.drop_last() =~= self@.weights1 + self@.weights2.subrange(0, i as int));
            }
            i += 1;
        }
        assert(self@.weights2.subrange(0, n as int) =~= self@.weights2);
        let mut i: usize = 0;
        while i < n
            invariant
                i <= n,
                n == self.units@.len(),
                out@ == encode(
                    self@.weights1 + self@.weights2 + self@.biases1.subrange(0, i as int),
                ),
            decreases n - i,
        {
            put_word(&mut out, self.units[i].bias);
            proof {
                let done = self@.weights1 + self@.weights2 + self@.biases1.subrange(0, i + 1);
                assert(done.drop_last() =~= self@.weights1 + self@.weights2
                    + self@.biases1.subrange(0, i as int));
            }
            i += 1;
        }
        assert(self@.biases1.subrange(0, n as int) =~= self@.biases1);
        put_word(&mut out, self.bias2);
        proof {
            let all = self@.records();
            assert(all.drop_last() =~= self@.weights1 + self@.weights2 + self@.biases1);
        }
        out
    }

    /// Reads a corrector from its stored form. The number of hidden units
    /// is a third of the number of records before the last.
    pub fn load(bytes: &[u8]) -> (loaded: Result<NN, LoadError>)
        ensures
            match loaded {
                Ok(nn) => parse(bytes@) == Ok::<NNView, LoadError>(nn@),
                Err(e) => parse(bytes@) == Err::<NNView, LoadError>(e),
            },
    {
        let len = bytes.len();
        if len % 8 != 0 {
            return Err(LoadError::PartialRecord);
        }
        let count = len / 8;
        if count % 3 != 1 {
            return Err(LoadError::ParameterCount);
        }
        let n = (count - 1) / 3;
        let ghost words = decode(bytes@);
        let mut units: Vec<HiddenUnit> = Vec::new();
        let mut i: usize = 0;
        while i < n
            invariant
                i <= n,
                count == 3 * n + 1,
                len == 8 * count,
                len == bytes@.len(),
                words == decode(bytes@),
                units@.len() == i,
                forall|j: int|
                    0 <= j < i ==> (#[trigger] units@[j]) == (HiddenUnit {
                        weight: words[j],
                        out_weight: words[n + j],
                        bias: words[2 * n + j],
                    }),
            decreases n - i,
        {
            let weight = Self::word_at(bytes, i);
            let out_weight = Self::word_at(bytes, n + i);
            let bias = Self::word_at(bytes, 2 * n + i);
            units.push(HiddenUnit { weight, bias, out_weight });
            i += 1;
        }
        let bias2 = Self::word_at(bytes, 3 * n);
        let nn = NN { units, bias2 };
        proof {
            let parsed = parse(bytes@)->Ok_0;
            assert(nn@.weights1 =~= parsed.weights1);
            assert(nn@.weights2 =~= parsed.weights2);
            assert(nn@.biases1 =~= parsed.biases1);
        }
        Ok(nn)
    }

    /// The record at `index` of a stored form.
    fn word_at(bytes: &[u8], index: usize) -> (word: u64)
        requires
            8 * index + 8 <= bytes@.len() <= usize::MAX,
        ensures
            word == decode(bytes@)[index as int],
    {
        let chunk = slice_subrange(bytes, 8 * index, 8 * index + 8);
        assert(chunk@.subrange(0, 8) =~= bytes@.subrange(8 * index, 8 * index + 8));
        u64_from_le_bytes(chunk)
    }
}

} // verus!
