use crate::data::{keys_of, non_decreasing, ModelData};
use vstd::prelude::*;

verus! {

/// A question to whoever evaluates lines: does the line through the entries
/// at `left` and `right` miss the entry at `point` by more than the
/// threshold?
#[derive(Clone, Copy, Debug, PartialEq, Eq, Structural)]
pub struct Probe {
    pub left: usize,
    pub right: usize,
    pub point: usize,
}

/// The state of a scan over the entries `[from, to)` of a training set.
///
/// `left` is the anchor of the segment that is being grown and `right` the
/// end that is being tried; `point` is the entry between them that is
/// tested next. `emitted` holds the indices of the breakpoints so far; the
/// first is `from` and the last is `left`. The scan is over once `right`
/// has reached `to`.
pub struct Scan {
    pub from: int,
    pub to: int,
    pub left: int,
    pub right: int,
    pub point: int,
    pub emitted: Seq<int>,
}

/// Whether the line from `left` to `right` is put to the test: the key at
/// `left` differs from the keys at `right` and at `right - 1`, so that
/// neither this segment nor the one that a failed test closes has zero
/// width, and some entry lies strictly between `left` and `right - 1`.
pub open spec fn testable(entries: Seq<(u64, u64)>, left: int, right: int) -> bool {
    &&& entries[left].0 != entries[right].0
    &&& entries[left].0 != entries[right - 1].0
    &&& left + 2 < right
}

/// The first end at or after `right` whose line from `left` is put to the
/// test, and `to` if there is none.
pub open spec fn next_candidate(entries: Seq<(u64, u64)>, to: int, left: int, right: int) -> int
    decreases to - right,
{
    if right >= to {
        to
    } else if testable(entries, left, right) {
        right
    } else {
        next_candidate(entries, to, left, right + 1)
    }
}

/// The question about the line from `left` to `right` at `point`.
pub open spec fn probe_at(left: int, right: int, point: int) -> Probe {
    Probe { left: left as usize, right: right as usize, point: point as usize }
}

/// Whether, by `answers`, the line from `left` to `end` misses an entry
/// strictly between `left` and `end - 1` by more than the threshold.
pub open spec fn misses(answers: spec_fn(Probe) -> bool, left: int, end: int) -> bool {
    exists|point: int| left < point < end - 1 && #[trigger] answers(probe_at(left, end, point))
}

/// Whether, by `answers`, no line from `left` to an end before `end` that
/// is put to the test misses an entry.
pub open spec fn clean_before(
    entries: Seq<(u64, u64)>,
    answers: spec_fn(Probe) -> bool,
    left: int,
    end: int,
) -> bool {
    forall|earlier: int|
        left < earlier < end && #[trigger] testable(entries, left, earlier) ==> !misses(
            answers,
            left,
            earlier,
        )
}

/// Whether the segment from `left` is rightly closed before `end`: the line
/// to `end` is put to the test and misses an entry, and no line to an
/// earlier end does. The segment is then the longest from `left` on which
/// no tested line misses.
pub open spec fn closed_at_first_miss(
    entries: Seq<(u64, u64)>,
    answers: spec_fn(Probe) -> bool,
    left: int,
    end: int,
) -> bool {
    &&& testable(entries, left, end)
    &&& misses(answers, left, end)
    &&& clean_before(entries, answers, left, end)
}

impl Scan {
    /// The scan over `[from, to)` before any answer: anchored at `from`,
    /// which is the first breakpoint.
    pub open spec fn start(entries: Seq<(u64, u64)>, from: int, to: int) -> Scan {
        Scan {
            from,
            to,
            left: from,
            right: next_candidate(entries, to, from, from + 2),
            point: from + 1,
            emitted: seq![from],
        }
    }

    /// What the scan relies on between two steps.
    pub open spec fn valid(self, entries: Seq<(u64, u64)>) -> bool {
        &&& 0 <= self.from < self.to <= entries.len()
        &&& self.emitted.len() >= 1
        &&& self.emitted[0] == self.from
        &&& self.emitted.last() == self.left
        &&& self.left + 2 <= self.right <= self.to || (self.right == self.to && self.left < self.to)
        &&& self.right < self.to ==> testable(entries, self.left, self.right) && self.left
            < self.point < self.right - 1
        &&& forall|i: int, j: int|
            #![trigger self.emitted[i], self.emitted[j]]
            0 <= i < j < self.emitted.len() ==> self.from <= self.emitted[i] < self.emitted[j]
                < self.to
        &&& forall|i: int|
            0 <= i < self.emitted.len() - 1 ==> entries[#[trigger] self.emitted[i]].0
                != entries[self.emitted[i + 1]].0
    }

    /// Whether every line has been tried.
    pub open spec fn done(self) -> bool {
        self.right >= self.to
    }

    /// The question that the scan waits on, if any.
    pub open spec fn pending(self) -> Option<Probe> {
        if self.done() {
            None
        } else {
            Some(probe_at(self.left, self.right, self.point))
        }
    }

    /// The scan after the answer to its pending question.
    ///
    /// Where the line misses the point by more than the threshold, the
    /// segment is closed at `right - 1`, which becomes a breakpoint and the
    /// new anchor. Otherwise the next point is tested, or, after the last
    /// point, the next end. A scan that is over does not change.
    pub open spec fn step(self, entries: Seq<(u64, u64)>, exceeded: bool) -> Scan {
        if self.done() {
            self
        } else if exceeded {
            Scan {
                left: self.right - 1,
                right: next_candidate(entries, self.to, self.right - 1, self.right + 1),
                point: self.right,
                emitted: self.emitted.push(self.right - 1),
                ..self
            }
        } else if self.point + 2 < self.right {
            Scan { point: self.point + 1, ..self }
        } else {
            Scan {
                right: next_candidate(entries, self.to, self.left, self.right + 1),
                point: self.left + 1,
                ..self
            }
        }
    }

    /// The scan after every question has had its answer from `answers`.
    pub open spec fn run(self, entries: Seq<(u64, u64)>, answers: spec_fn(Probe) -> bool) -> Scan
        decreases self.to - self.right, self.right - self.point,
        when self.valid(entries)
    {
        if self.done() {
            self
        } else {
            proof {
                lemma_next_candidate(entries, self.to, self.right - 1, self.right + 1);
                lemma_next_candidate(entries, self.to, self.left, self.right + 1);
            }
            self.step(entries, answers(self.pending()->Some_0)).run(entries, answers)
        }
    }

    /// Whether the scan has been greedy under `answers`: each breakpoint
    /// after the first was emitted at the first miss of the segment before
    /// it, no line of the segment that is being grown has missed at an
    /// earlier end, and none has missed at the present end so far.
    pub open spec fn greedy(self, entries: Seq<(u64, u64)>, answers: spec_fn(Probe) -> bool) -> bool {
        &&& forall|j: int|
            0 <= j < self.emitted.len() - 1 ==> closed_at_first_miss(
                entries,
                answers,
                #[trigger] self.emitted[j],
                self.emitted[j + 1] + 1,
            )
        &&& clean_before(entries, answers, self.left, self.right)
        &&& !self.done() ==> forall|point: int|
            self.left < point < self.point ==> !#[trigger] answers(
                probe_at(self.left, self.right, point),
            )
    }

    /// The indices of the breakpoints: those emitted so far, and the last
    /// entry of the range unless its key is that of the last one emitted.
    pub open spec fn breakpoints(self, entries: Seq<(u64, u64)>) -> Seq<int> {
        if entries[self.emitted.last()].0 != entries[self.to - 1].0 {
            self.emitted.push(self.to - 1)
        } else {
            self.emitted
        }
    }
}

/// `next_candidate` stays within `[right, to]` where `right <= to`, and
/// what it finds before `to` is put to the test.
pub proof fn lemma_next_candidate(entries: Seq<(u64, u64)>, to: int, left: int, right: int)
    ensures
        right <= to ==> right <= next_candidate(entries, to, left, right) <= to,
        right > to ==> next_candidate(entries, to, left, right) == to,
        next_candidate(entries, to, left, right) < to ==> testable(
            entries,
            left,
            next_candidate(entries, to, left, right),
        ),
        forall|skipped: int|
            right <= skipped < next_candidate(entries, to, left, right) ==> !#[trigger] testable(
                entries,
                left,
                skipped,
            ),
    decreases to - right,
{
    if right < to && !testable(entries, left, right) {
        lemma_next_candidate(entries, to, left, right + 1);
    }
}

/// A scan is valid at its start.
pub proof fn lemma_start_valid(entries: Seq<(u64, u64)>, from: int, to: int)
    requires
        0 <= from < to <= entries.len(),
    ensures
        Scan::start(entries, from, to).valid(entries),
{
    lemma_next_candidate(entries, to, from, from + 2);
}

/// A step keeps a scan valid.
pub proof fn lemma_step_valid(scan: Scan, entries: Seq<(u64, u64)>, exceeded: bool)
    requires
        scan.valid(entries),
    ensures
        scan.step(entries, exceeded).valid(entries),
{
    let next = scan.step(entries, exceeded);
    if scan.done() {
    } else if exceeded {
        lemma_next_candidate(entries, scan.to, scan.right - 1, scan.right + 1);
        assert forall|i: int, j: int|
            #![trigger next.emitted[i], next.emitted[j]]
            0 <= i < j < next.emitted.len() implies scan.from <= next.emitted[i] < next.emitted[j]
            < scan.to by {
            if j < scan.emitted.len() {
                assert(next.emitted[i] == scan.emitted[i]);
                assert(next.emitted[j] == scan.emitted[j]);
            } else if i < scan.emitted.len() - 1 {
                assert(scan.emitted[i] < scan.emitted[scan.emitted.len() - 1]);
            }
        }
        assert forall|i: int| 0 <= i < next.emitted.len() - 1 implies entries[#[trigger] next.emitted[i]].0
            != entries[next.emitted[i + 1]].0 by {
            if i < scan.emitted.len() - 1 {
                assert(next.emitted[i] == scan.emitted[i]);
                assert(next.emitted[i + 1] == scan.emitted[i + 1]);
            }
        }
    } else if scan.point + 2 < scan.right {
    } else {
        lemma_next_candidate(entries, scan.to, scan.left, scan.right + 1);
    }
}

/// The breakpoints of a valid scan begin with the first entry of the range
/// and have increasing indices within it, two neighbours never share a key,
/// and the last has the key of the last entry of the range.
pub proof fn lemma_breakpoints(scan: Scan, entries: Seq<(u64, u64)>)
    requires
        scan.valid(entries),
    ensures
        ({
            let b = scan.breakpoints(entries);
            &&& b.len() >= 1
            &&& b[0] == scan.from
            &&& entries[b.last()].0 == entries[scan.to - 1].0
            &&& forall|i: int, j: int|
                #![trigger b[i], b[j]]
                0 <= i < j < b.len() ==> scan.from <= b[i] < b[j] < scan.to
            &&& forall|i: int| 0 <= i < b.len() - 1 ==> entries[#[trigger] b[i]].0 != entries[b[i + 1]].0
        }),
{
    let b = scan.breakpoints(entries);
    let n = scan.emitted.len() as int;
    assert(scan.from <= scan.emitted[n - 1] < scan.to) by {
        if n >= 2 {
            assert(scan.emitted[0] < scan.emitted[n - 1]);
        }
    }
    if b.len() > n {
        assert forall|i: int, j: int|
            #![trigger b[i], b[j]]
            0 <= i < j < b.len() implies scan.from <= b[i] < b[j] < scan.to by {
            if j < n {
                assert(b[i] == scan.emitted[i] && b[j] == scan.emitted[j]);
            } else if i < n - 1 {
                assert(scan.emitted[i] < scan.emitted[n - 1]);
            }
        }
        assert forall|i: int| 0 <= i < b.len() - 1 implies entries[#[trigger] b[i]].0
            != entries[b[i + 1]].0 by {
            if i < n - 1 {
                assert(b[i] == scan.emitted[i] && b[i + 1] == scan.emitted[i + 1]);
            }
        }
    }
}

/// A valid scan comes to an end under any answers, and is valid then.
pub proof fn lemma_run_ends(scan: Scan, entries: Seq<(u64, u64)>, answers: spec_fn(Probe) -> bool)
    requires
        scan.valid(entries),
    ensures
        scan.run(entries, answers).valid(entries),
        scan.run(entries, answers).done(),
        scan.run(entries, answers).from == scan.from,
        scan.run(entries, answers).to == scan.to,
    decreases scan.to - scan.right, scan.right - scan.point,
{
    if !scan.done() {
        let next = scan.step(entries, answers(scan.pending()->Some_0));
        lemma_step_valid(scan, entries, answers(scan.pending()->Some_0));
        lemma_next_candidate(entries, scan.to, scan.right - 1, scan.right + 1);
        lemma_next_candidate(entries, scan.to, scan.left, scan.right + 1);
        lemma_run_ends(next, entries, answers);
    }
}

/// Where no line ever misses a point by more than the threshold, the scan
/// emits nothing.
pub proof fn lemma_run_without_miss(
    scan: Scan,
    entries: Seq<(u64, u64)>,
    answers: spec_fn(Probe) -> bool,
)
    requires
        scan.valid(entries),
        forall|probe: Probe| !(#[trigger] answers(probe)),
    ensures
        scan.run(entries, answers).emitted == scan.emitted,
    decreases scan.to - scan.right, scan.right - scan.point,
{
    if !scan.done() {
        let next = scan.step(entries, false);
        lemma_step_valid(scan, entries, false);
        lemma_next_candidate(entries, scan.to, scan.left, scan.right + 1);
        lemma_run_without_miss(next, entries, answers);
    }
}

/// A range on which no line ever misses a point by more than the threshold
/// is one segment: its breakpoints are its first and its last entry, or
/// the first alone where the two have the same key.
pub proof fn lemma_one_segment(
    entries: Seq<(u64, u64)>,
    from: int,
    to: int,
    answers: spec_fn(Probe) -> bool,
)
    requires
        0 <= from < to <= entries.len(),
        forall|probe: Probe| !(#[trigger] answers(probe)),
    ensures
        Scan::start(entries, from, to).run(entries, answers).breakpoints(entries) == if entries[from].0
            != entries[to - 1].0 {
            seq![from, to - 1]
        } else {
            seq![from]
        },
{
    let start = Scan::start(entries, from, to);
    lemma_start_valid(entries, from, to);
    lemma_run_without_miss(start, entries, answers);
    lemma_run_ends(start, entries, answers);
    let end = start.run(entries, answers);
    assert(end.emitted == seq![from]);
    assert(end.emitted.last() == from);
    assert(seq![from].push(to - 1) =~= seq![from, to - 1]);
}

/// A step that takes its answer from `answers` keeps a scan greedy.
pub proof fn lemma_step_greedy(
    scan: Scan,
    entries: Seq<(u64, u64)>,
    answers: spec_fn(Probe) -> bool,
)
    requires
        scan.valid(entries),
        scan.greedy(entries, answers),
    ensures
        scan.step(entries, answers(probe_at(scan.left, scan.right, scan.point))).greedy(
            entries,
            answers,
        ),
{
    let exceeded = answers(probe_at(scan.left, scan.right, scan.point));
    let next = scan.step(entries, exceeded);
    if scan.done() {
    } else if exceeded {
        lemma_next_candidate(entries, scan.to, scan.right - 1, scan.right + 1);
        let n = scan.emitted.len() as int;
        assert(misses(answers, scan.left, scan.right));
        assert forall|j: int| 0 <= j < next.emitted.len() - 1 implies closed_at_first_miss(
            entries,
            answers,
            #[trigger] next.emitted[j],
            next.emitted[j + 1] + 1,
        ) by {
            if j < n - 1 {
                assert(next.emitted[j] == scan.emitted[j]);
                assert(next.emitted[j + 1] == scan.emitted[j + 1]);
            }
        }
    } else if scan.point + 2 < scan.right {
    } else {
        lemma_next_candidate(entries, scan.to, scan.left, scan.right + 1);
        assert(!misses(answers, scan.left, scan.right));
    }
}

/// A scan that is greedy stays so to its end, where its answers come from
/// `answers`.
pub proof fn lemma_run_greedy(scan: Scan, entries: Seq<(u64, u64)>, answers: spec_fn(Probe) -> bool)
    requires
        scan.valid(entries),
        scan.greedy(entries, answers),
    ensures
        scan.run(entries, answers).greedy(entries, answers),
    decreases scan.to - scan.right, scan.right - scan.point,
{
    if !scan.done() {
        let exceeded = answers(probe_at(scan.left, scan.right, scan.point));
        let next = scan.step(entries, exceeded);
        lemma_step_valid(scan, entries, exceeded);
        lemma_step_greedy(scan, entries, answers);
        lemma_next_candidate(entries, scan.to, scan.right - 1, scan.right + 1);
        lemma_next_candidate(entries, scan.to, scan.left, scan.right + 1);
        lemma_run_greedy(next, entries, answers);
    }
}

/// The segmentation is greedy and its segments are the longest: a
/// breakpoint is emitted only after a miss, at the first end whose line
/// from the breakpoint before it misses an entry, and no line from the last
/// emitted breakpoint misses at any end that is put to the test.
pub proof fn lemma_segmentation_is_greedy(
    entries: Seq<(u64, u64)>,
    from: int,
    to: int,
    answers: spec_fn(Probe) -> bool,
)
    requires
        0 <= from < to <= entries.len(),
    ensures
        ({
            let end = Scan::start(entries, from, to).run(entries, answers);
            &&& forall|j: int|
                0 <= j < end.emitted.len() - 1 ==> closed_at_first_miss(
                    entries,
                    answers,
                    #[trigger] end.emitted[j],
                    end.emitted[j + 1] + 1,
                )
            &&& clean_before(entries, answers, end.emitted.last(), to)
        }),
{
    let start = Scan::start(entries, from, to);
    lemma_start_valid(entries, from, to);
    lemma_next_candidate(entries, to, from, from + 2);
    assert(start.greedy(entries, answers));
    lemma_run_greedy(start, entries, answers);
    lemma_run_ends(start, entries, answers);
}

/// On a training set with sorted keys, the keys of the breakpoints
/// increase strictly, so that no segment between two of them has zero
/// width.
pub proof fn lemma_breakpoint_keys_increase(scan: Scan, entries: Seq<(u64, u64)>)
    requires
        scan.valid(entries),
        non_decreasing(keys_of(entries)),
    ensures
        ({
            let b = scan.breakpoints(entries);
            forall|i: int| 0 <= i < b.len() - 1 ==> entries[#[trigger] b[i]].0 < entries[b[i + 1]].0
        }),
{
    let b = scan.breakpoints(entries);
    let keys = keys_of(entries);
    lemma_breakpoints(scan, entries);
    assert forall|i: int| 0 <= i < b.len() - 1 implies entries[#[trigger] b[i]].0 < entries[b[i
        + 1]].0 by {
        assert(scan.from <= b[i] < b[i + 1] < scan.to);
        assert(keys[b[i]] <= keys[b[i + 1]]);
    }
}

/// The entries at the given indices.
pub open spec fn entries_at(entries: Seq<(u64, u64)>, indices: Seq<int>) -> Seq<(u64, u64)> {
    Seq::new(indices.len(), |i: int| entries[indices[i]])
}

/// The indices of a vector as mathematical integers.
pub open spec fn index_seq(indices: Seq<usize>) -> Seq<int> {
    Seq::new(indices.len(), |i: int| indices[i] as int)
}

/// The greedy segmentation of a range of a training set, as far as it can
/// go without evaluating a line. It asks one question at a time, takes the
/// answer, and keeps the breakpoints.
pub struct Segmenter<'a> {
    data: &'a ModelData,
    from: usize,
    to: usize,
    left: usize,
    right: usize,
    point: usize,
    emitted: Vec<usize>,
}

impl<'a> View for Segmenter<'a> {
    type V = Scan;

    closed spec fn view(&self) -> Scan {
        Scan {
            from: self.from as int,
            to: self.to as int,
            left: self.left as int,
            right: self.right as int,
            point: self.point as int,
            emitted: index_seq(self.emitted@),
        }
    }
}

/// The first end at or after `right` whose line from `left` is put to the
/// test, and `to` if there is none.
fn skip_to_candidate(data: &ModelData, to: usize, left: usize, right: usize) -> (found: usize)
    requires
        left + 2 <= right,
        to <= data@.len(),
    ensures
        found == next_candidate(data@, to as int, left as int, right as int),
{
    let mut r = right;
    while r < to
        invariant
            left + 2 <= r,
            to <= data@.len(),
            next_candidate(data@, to as int, left as int, r as int) == next_candidate(
                data@,
                to as int,
                left as int,
                right as int,
            ),
        decreases to - r,
    {
        let key = data.get_key(left);
        if key != data.get_key(r) && key != data.get_key(r - 1) && r - left > 2 {
            return r;
        }
        r += 1;
    }
    to
}

impl<'a> Segmenter<'a> {
    #[verifier::type_invariant]
    spec fn inv(self) -> bool {
        self@.valid(self.data@)
    }

    /// The training set that is being segmented.
    pub closed spec fn entries(&self) -> Seq<(u64, u64)> {
        self.data@
    }

    /// Begins the scan of the entries `[from, to)` of `data`.
    pub fn new(data: &'a ModelData, from: usize, to: usize) -> (segmenter: Segmenter<'a>)
        requires
            from < to <= data@.len(),
        ensures
            segmenter.entries() == data@,
            segmenter@ == Scan::start(data@, from as int, to as int),
            segmenter@.valid(data@),
    {
        let right = if to - from < 2 {
            to
        } else {
            skip_to_candidate(data, to, from, from + 2)
        };
        let mut emitted: Vec<usize> = Vec::new();
        emitted.push(from);
        proof {
            lemma_start_valid(data@, from as int, to as int);
            lemma_next_candidate(data@, to as int, from as int, from + 2);
            assert(index_seq(emitted@) =~= seq![from as int]);
        }
        Segmenter { data, from, to, left: from, right, point: from + 1, emitted }
    }

    /// The question that the scan waits on; `None` once every line has been
    /// tried.
    pub fn pending(&self) -> (probe: Option<Probe>)
        ensures
            probe == self@.pending(),
            self@.valid(self.entries()),
    {
        proof {
            use_type_invariant(self);
        }
        if self.right >= self.to {
            None
        } else {
            Some(Probe { left: self.left, right: self.right, point: self.point })
        }
    }

    /// Takes the answer to the pending question: whether the line misses
    /// the point by more than the threshold.
    pub fn advance(self, exceeded: bool) -> (next: Segmenter<'a>)
        ensures
            next.entries() == self.entries(),
            next@ == self@.step(self.entries(), exceeded),
    {
        proof {
            use_type_invariant(&self);
            lemma_step_valid(self@, self.data@, exceeded);
        }
        if self.right >= self.to {
            self
        } else if exceeded {
            let Segmenter { data, from, to, left, right, point, mut emitted } = self;
            let ghost before = index_seq(emitted@);
            emitted.push(right - 1);
            assert(index_seq(emitted@) =~= before.push(right - 1));
            let next_right = skip_to_candidate(data, to, right - 1, right + 1);
            Segmenter { data, from, to, left: right - 1, right: next_right, point: right, emitted }
        } else if self.right - self.point > 2 {
            let Segmenter { data, from, to, left, right, point, emitted } = self;
            Segmenter { data, from, to, left, right, point: point + 1, emitted }
        } else {
            let Segmenter { data, from, to, left, right, point, emitted } = self;
            let next_right = skip_to_candidate(data, to, left, right + 1);
            Segmenter { data, from, to, left, right: next_right, point: left + 1, emitted }
        }
    }

    /// Ends the scan and hands out the breakpoints, in order: the entries
    /// that were emitted, and the last entry of the range unless its key is
    /// that of the last one emitted.
    pub fn finish(self) -> (breakpoints: Vec<(u64, u64)>)
        ensures
            breakpoints@ == entries_at(self.entries(), self@.breakpoints(self.entries())),
    {
        proof {
            use_type_invariant(&self);
        }
        let n = self.emitted.len();
        let mut breakpoints: Vec<(u64, u64)> = Vec::new();
        let mut i: usize = 0;
        while i < n
            invariant
                i <= n,
                n == self.emitted@.len(),
                self@.valid(self.data@),
                breakpoints@ == entries_at(self.data@, self@.emitted.subrange(0, i as int)),
            decreases n - i,
        {
            proof {
                if i < n - 1 {
                    assert(self@.emitted[i as int] < self@.emitted[n - 1]);
                }
                assert(self@.emitted[i as int] == self.emitted@[i as int]);
            }
            breakpoints.push(self.data.get(self.emitted[i]));
            i += 1;
            assert(breakpoints@ =~= entries_at(self.data@, self@.emitted.subrange(0, i as int)));
        }
        assert(self@.emitted.subrange(0, n as int) =~= self@.emitted);
        assert(self@.emitted[n - 1] == self.emitted@[n - 1]);
        let last = self.data.get(self.to - 1);
        if self.data.get_key(self.emitted[n - 1]) != last.0 {
            breakpoints.push(last);
            assert(breakpoints@ =~= entries_at(self.data@, self@.breakpoints(self.data@)));
        }
        breakpoints
    }
}

} // verus!
