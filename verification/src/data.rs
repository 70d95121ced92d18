use vstd::prelude::*;

verus! {

/// The keys of a sequence of (key, position) pairs, in order.
pub open spec fn keys_of(entries: Seq<(u64, u64)>) -> Seq<u64> {
    Seq::new(entries.len(), |i: int| entries[i].0)
}

/// The positions of a sequence of (key, position) pairs, in order.
pub open spec fn positions_of(entries: Seq<(u64, u64)>) -> Seq<u64> {
    Seq::new(entries.len(), |i: int| entries[i].1)
}

/// Whether a sequence never decreases from one element to the next.
pub open spec fn non_decreasing(s: Seq<u64>) -> bool {
    forall|i: int, j: int| 0 <= i <= j < s.len() ==> s[i] <= s[j]
}

/// The largest element of a sequence, and 0 for the empty sequence.
pub open spec fn largest(s: Seq<u64>) -> u64
    decreases s.len(),
{
    if s.len() == 0 {
        0
    } else if largest(s.drop_last()) >= s.last() {
        largest(s.drop_last())
    } else {
        s.last()
    }
}

/// `largest(s)` is at least every element of `s`, and it is one of them
/// unless `s` is empty.
pub proof fn lemma_largest_is_maximum(s: Seq<u64>)
    ensures
        forall|i: int| 0 <= i < s.len() ==> s[i] <= largest(s),
        s.len() > 0 ==> exists|i: int| 0 <= i < s.len() && s[i] == largest(s),
        s.len() == 0 ==> largest(s) == 0,
    decreases s.len(),
{
    if s.len() > 0 {
        let front = s.drop_last();
        lemma_largest_is_maximum(front);
        assert forall|i: int| 0 <= i < s.len() implies s[i] <= largest(s) by {
            if i < front.len() {
                assert(front[i] == s[i]);
            }
        }
        if largest(front) >= s.last() && front.len() > 0 {
            let i = choose|i: int| 0 <= i < front.len() && front[i] == largest(front);
            assert(s[i] == largest(s));
        } else {
            assert(s[s.len() - 1] == largest(s));
        }
    }
}

/// A training set: (key, position) pairs in the order of the stored array.
///
/// The view is the sequence of pairs. Nothing is assumed of their order;
/// functions and laws that need sorted keys say so.
#[derive(Clone, Debug)]
pub struct ModelData {
    entries: Vec<(u64, u64)>,
}

impl View for ModelData {
    type V = Seq<(u64, u64)>;

    closed spec fn view(&self) -> Seq<(u64, u64)> {
        self.entries@
    }
}

impl ModelData {
    /// The number of pairs.
    pub open spec fn spec_len(&self) -> usize {
        self@.len() as usize
    }

    /// A training set without entries.
    pub fn empty() -> (data: ModelData)
        ensures
            data@ == Seq::<(u64, u64)>::empty(),
    {
        ModelData { entries: Vec::new() }
    }

    /// A training set holding `entries` as they are given.
    pub fn new(entries: Vec<(u64, u64)>) -> (data: ModelData)
        ensures
            data@ == entries@,
    {
        ModelData { entries }
    }

    #[verifier::when_used_as_spec(spec_len)]
    pub fn len(&self) -> (n: usize)
        ensures
            n == self@.len(),
            n == self.spec_len(),
    {
        self.entries.len()
    }

    /// The pair at `index`.
    pub fn get(&self, index: usize) -> (entry: (u64, u64))
        requires
            index < self@.len(),
        ensures
            entry == self@[index as int],
    {
        self.entries[index]
    }

    /// The key of the pair at `index`.
    pub fn get_key(&self, index: usize) -> (key: u64)
        requires
            index < self@.len(),
        ensures
            key == self@[index as int].0,
    {
        self.entries[index].0
    }
}

} // verus!
