//! Fan-in of a batch of workload units.
//!
//! Every unit of a batch is identified by its index in the batch's input
//! sequence. Units finish in any order; each finished unit hands in a
//! completion, its index and its outcome, and the batch places the outcome in
//! the slot of that index. Once every slot holds an outcome, the results come
//! out as `(input, outcome)` pairs in input order.
use vstd::prelude::*;

verus! {

/// The inputs `1, 2, ..., n` of a batch of `n` numbered units.
pub open spec fn numbered(n: nat) -> Seq<u64> {
    Seq::new(n, |k: int| (k + 1) as u64)
}

/// Whether every slot holds an outcome.
pub open spec fn all_recorded(slots: Seq<Option<u64>>) -> bool {
    forall|k: int| 0 <= k < slots.len() ==> (#[trigger] slots[k]).is_some()
}

/// The results of a batch whose every slot holds an outcome: the input of
/// each index paired with the outcome recorded for it.
pub open spec fn ordered_results(inputs: Seq<u64>, slots: Seq<Option<u64>>) -> Seq<(u64, u64)> {
    Seq::new(inputs.len(), |k: int| (inputs[k], slots[k].unwrap()))
}

/// Why a completion was not taken.
#[derive(Debug, Clone, Copy, PartialEq, Eq, Structural)]
pub enum RecordError {
    /// The index names no unit of the batch.
    OutOfRange,
    /// The unit of that index has already completed.
    AlreadyRecorded,
}

/// The state of one batch: its inputs, and the outcome of each unit that has
/// completed so far.
pub struct Batch {
    inputs: Vec<u64>,
    slots: Vec<Option<u64>>,
}

impl Batch {
    /// The inputs of the batch, in submission order.
    pub closed spec fn spec_inputs(&self) -> Seq<u64> {
        self.inputs@
    }

    /// For each index, the outcome of its unit if it has completed.
    pub closed spec fn spec_slots(&self) -> Seq<Option<u64>> {
        self.slots@
    }

    /// One slot per input.
    pub closed spec fn wf(&self) -> bool {
        self.slots@.len() == self.inputs@.len()
    }

    /// A batch of one unit per input, none of them completed.
    pub fn new(inputs: Vec<u64>) -> (r: Batch)
        ensures
            r.wf(),
            r.spec_inputs() == inputs@,
            r.spec_slots() == Seq::new(inputs@.len(), |k: int| None::<u64>),
    {
        let mut slots: Vec<Option<u64>> = Vec::new();
        let mut k: usize = 0;
        while k < inputs.len()
            invariant
                k <= inputs@.len(),
                slots@ == Seq::new(k as nat, |j: int| None::<u64>),
            decreases inputs@.len() - k,
        {
            slots.push(None);
            k = k + 1;
            assert(slots@ =~= Seq::new(k as nat, |j: int| None::<u64>));
        }
        Batch { inputs, slots }
    }

    /// The number of units in the batch.
    pub fn len(&self) -> (r: usize)
        requires
            self.wf(),
        ensures
            r == self.spec_inputs().len(),
    {
        self.inputs.len()
    }

    /// The inputs of the batch, in submission order.
    pub fn inputs(&self) -> (r: &Vec<u64>)
        ensures
            r@ == self.spec_inputs(),
    {
        &self.inputs
    }

    /// Takes the completion of the unit at `index` with `outcome`. Each unit
    /// completes once: a second completion of the same index is refused, as
    /// is an index past the end of the batch; a refused completion changes
    /// nothing.
    pub fn record(&mut self, index: usize, outcome: u64) -> (r: Result<(), RecordError>)
        requires
            old(self).wf(),
        ensures
            final(self).wf(),
            final(self).spec_inputs() == old(self).spec_inputs(),
            index >= old(self).spec_slots().len() ==> r == Err::<(), RecordError>(
                RecordError::OutOfRange,
            ),
            index < old(self).spec_slots().len() && old(self).spec_slots()[index as int].is_some()
                ==> r == Err::<(), RecordError>(RecordError::AlreadyRecorded),
            index < old(self).spec_slots().len() && old(self).spec_slots()[index as int].is_none()
                ==> r == Ok::<(), RecordError>(()),
            r is Ok ==> final(self).spec_slots() == old(self).spec_slots().update(
                index as int,
                Some(outcome),
            ),
            r is Err ==> final(self).spec_slots() == old(self).spec_slots(),
    {
        if index >= self.slots.len() {
            return Err(RecordError::OutOfRange);
        }
        if self.slots[index].is_some() {
            return Err(RecordError::AlreadyRecorded);
        }
        self.slots.set(index, Some(outcome));
        Ok(())
    }

    /// Whether every unit of the batch has completed.
    pub fn is_collected(&self) -> (r: bool)
        requires
            self.wf(),
        ensures
            r == all_recorded(self.spec_slots()),
    {
        let mut k: usize = 0;
        while k < self.slots.len()
            invariant
                k <= self.slots@.len(),
                forall|j: int| 0 <= j < k ==> (#[trigger] self.slots@[j]).is_some(),
            decreases self.slots@.len() - k,
        {
            if self.slots[k].is_none() {
                return false;
            }
            k = k + 1;
        }
        true
    }

    /// The results in input order, once every unit has completed; `None`
    /// while some unit has not.
    pub fn results(&self) -> (r: Option<Vec<(u64, u64)>>)
        requires
            self.wf(),
        ensures
            r is Some <==> all_recorded(self.spec_slots()),
            r is Some ==> r->Some_0@ == ordered_results(self.spec_inputs(), self.spec_slots()),
    {
        let mut out: Vec<(u64, u64)> = Vec::new();
        let mut k: usize = 0;
        while k < self.slots.len()
            invariant
                self.wf(),
                k <= self.slots@.len(),
                out@ == ordered_results(self.inputs@, self.slots@).take(k as int),
                forall|j: int| 0 <= j < k ==> (#[trigger] self.slots@[j]).is_some(),
            decreases self.slots@.len() - k,
        {
            match self.slots[k] {
                Some(outcome) => {
                    out.push((self.inputs[k], outcome));
                },
                None => {
                    return None;
                },
            }
            k = k + 1;
            assert(out@ =~= ordered_results(self.inputs@, self.slots@).take(k as int));
        }
        assert(out@ =~= ordered_results(self.inputs@, self.slots@));
        Some(out)
    }
}

/// Whether the completion at position `j` of `events` is refused by a batch
/// of `n` units: its index names no unit, or an earlier completion already
/// had that index.
pub open spec fn refused_at(n: nat, events: Seq<(usize, u64)>, j: int) -> bool {
    events[j].0 >= n || exists|i: int| 0 <= i < j && events[i].0 == events[j].0
}

/// Whether position `j` holds the first refused completion of `events`.
pub open spec fn first_refused(n: nat, events: Seq<(usize, u64)>, j: int) -> bool {
    &&& 0 <= j < events.len()
    &&& refused_at(n, events, j)
    &&& forall|i: int| 0 <= i < j ==> !refused_at(n, events, i)
}

/// Whether no completion of `events` is refused.
pub open spec fn none_refused(n: nat, events: Seq<(usize, u64)>) -> bool {
    forall|j: int| 0 <= j < events.len() ==> !refused_at(n, events, j)
}

/// Whether `events` holds a completion of the unit at index `k`.
pub open spec fn completes(events: Seq<(usize, u64)>, k: int) -> bool {
    exists|j: int| 0 <= j < events.len() && events[j].0 == k
}

/// Whether every unit of a batch of `n` units has a completion in `events`.
pub open spec fn covers(n: nat, events: Seq<(usize, u64)>) -> bool {
    forall|k: int| 0 <= k < n ==> #[trigger] completes(events, k)
}

/// Whether `events` is a complete run of a batch of `n` units: each unit
/// completes exactly once, in whatever order.
pub open spec fn complete_run(n: nat, events: Seq<(usize, u64)>) -> bool {
    none_refused(n, events) && covers(n, events)
}

/// The outcome that `events` reports for the unit at index `k`.
pub open spec fn outcome_of(events: Seq<(usize, u64)>, k: int) -> u64 {
    events[choose|j: int| 0 <= j < events.len() && events[j].0 == k].1
}

/// The results of a batch over `inputs` whose units completed as `events`
/// reports: the input of each index paired with that unit's outcome.
pub open spec fn gathered(inputs: Seq<u64>, events: Seq<(usize, u64)>) -> Seq<(u64, u64)> {
    Seq::new(inputs.len(), |k: int| (inputs[k], outcome_of(events, k)))
}

/// Why a sequence of completions does not make up a complete run.
#[derive(Debug, Clone, Copy, PartialEq, Eq, Structural)]
pub enum GatherError {
    /// The completion at `position` was refused for `reason`.
    Refused { position: usize, reason: RecordError },
    /// Some unit never completed.
    Incomplete,
}

/// The inputs `1, 2, ..., n` of a batch of `n` numbered units.
pub fn numbered_inputs(n: u64) -> (r: Vec<u64>)
    ensures
        r@ == numbered(n as nat),
{
    let mut out: Vec<u64> = Vec::new();
    let mut k: u64 = 0;
    while k < n
        invariant
            k <= n,
            out@ == numbered(k as nat),
        decreases n - k,
    {
        k = k + 1;
        out.push(k);
        assert(out@ =~= numbered(k as nat));
    }
    out
}

/// Gathers a batch over `inputs` from the completions of its units, taken in
/// the order they arrived, and returns the results in input order.
pub fn gather(inputs: Vec<u64>, completions: &Vec<(usize, u64)>) -> (r: Result<
    Vec<(u64, u64)>,
    GatherError,
>)
    ensures
        r is Ok <==> complete_run(inputs@.len(), completions@),
        r is Ok ==> r->Ok_0@ == gathered(inputs@, completions@),
        r is Ok ==> r->Ok_0@.len() == inputs@.len(),
        forall|j: int|
            #![trigger first_refused(inputs@.len(), completions@, j)]
            first_refused(inputs@.len(), completions@, j) ==> r == Err::<Vec<(u64, u64)>, GatherError>(
                GatherError::Refused {
                    position: j as usize,
                    reason: if completions@[j].0 >= inputs@.len() {
                        RecordError::OutOfRange
                    } else {
                        RecordError::AlreadyRecorded
                    },
                },
            ),
        none_refused(inputs@.len(), completions@) && !covers(inputs@.len(), completions@) ==> r
            == Err::<Vec<(u64, u64)>, GatherError>(GatherError::Incomplete),
{
    let ghost n = inputs@.len();
    let ghost ins = inputs@;
    let ghost events = completions@;
    let mut batch = Batch::new(inputs);
    let mut j: usize = 0;
    while j < completions.len()
        invariant
            batch.wf(),
            batch.spec_inputs() == ins,
            ins == inputs@,
            n == ins.len(),
            events == completions@,
            j <= events.len(),
            forall|i: int| 0 <= i < j ==> !refused_at(n, events, i),
            forall|i: int|
                0 <= i < j ==> batch.spec_slots()[#[trigger] events[i].0 as int] == Some(
                    events[i].1,
                ),
            forall|k: int|
                0 <= k < n && (#[trigger] batch.spec_slots()[k]).is_some() ==> exists|i: int|
                    0 <= i < j && events[i].0 == k,
        decreases events.len() - j,
    {
        let (index, outcome) = completions[j];
        match batch.record(index, outcome) {
            Ok(()) => {
                assert(!refused_at(n, events, j as int));
                assert forall|i: int| 0 <= i <= j implies batch.spec_slots()[#[trigger] events[i].0 as int]
                    == Some(events[i].1) by {
                    if i < j {
                        assert(!refused_at(n, events, i));
                        assert(events[i].0 != events[j as int].0);
                    }
                }
            },
            Err(reason) => {
                assert(refused_at(n, events, j as int));
                assert(first_refused(n, events, j as int));
                assert forall|p: int| first_refused(n, events, p) implies p == j by {}
                assert(!none_refused(n, events));
                return Err(GatherError::Refused { position: j, reason });
            },
        }
        j = j + 1;
    }
    assert(none_refused(n, events));
    match batch.results() {
        Some(out) => {
            assert forall|k: int| 0 <= k < n implies completes(events, k) by {
                assert(batch.spec_slots()[k].is_some());
            }
            assert forall|k: int| 0 <= k < n implies batch.spec_slots()[k].unwrap() == outcome_of(
                events,
                k,
            ) by {
                let c = choose|c: int| 0 <= c < events.len() && events[c].0 == k;
                assert(batch.spec_slots()[events[c].0 as int] == Some(events[c].1));
            }
            assert(out@ =~= gathered(ins, events));
            Ok(out)
        },
        None => {
            assert(!covers(n, events)) by {
                let k = choose|k: int| 0 <= k < n && !(#[trigger] batch.spec_slots()[k]).is_some();
                if completes(events, k) {
                    let i = choose|i: int| 0 <= i < events.len() && events[i].0 == k;
                    assert(batch.spec_slots()[events[i].0 as int] == Some(events[i].1));
                }
            }
            Err(GatherError::Incomplete)
        },
    }
}

/// The order in which units complete does not matter: when `second` holds
/// the same completions as a complete run `first`, in any order, it is a
/// complete run too and gathers to the same results, whose `k`-th pair holds
/// the `k`-th input.
pub proof fn lemma_completion_order_irrelevant(
    inputs: Seq<u64>,
    first: Seq<(usize, u64)>,
    second: Seq<(usize, u64)>,
)
    requires
        complete_run(inputs.len(), first),
        second.to_multiset() =~= first.to_multiset(),
    ensures
        complete_run(inputs.len(), second),
        gathered(inputs, second) == gathered(inputs, first),
        gathered(inputs, first).len() == inputs.len(),
        forall|k: int| 0 <= k < inputs.len() ==> (#[trigger] gathered(inputs, first)[k]).0 == inputs[k],
{
    broadcast use vstd::seq_lib::group_to_multiset_ensures;

    let n = inputs.len();
    assert(first.no_duplicates()) by {
        assert forall|a: int, b: int|
            0 <= a < first.len() && 0 <= b < first.len() && a != b implies first[a] != first[b] by {
            if a < b {
                assert(!refused_at(n, first, b));
            } else {
                assert(!refused_at(n, first, a));
            }
        }
    }
    first.lemma_multiset_has_no_duplicates();
    second.lemma_multiset_has_no_duplicates_conv();
    // Every completion of one sequence stands somewhere in the other.
    assert forall|j: int| 0 <= j < second.len() implies #[trigger] first.contains(second[j]) by {
        assert(second.contains(second[j]));
        assert(second.to_multiset().count(second[j]) > 0);
        assert(first.to_multiset().count(second[j]) > 0);
    }
    assert forall|j: int| 0 <= j < first.len() implies #[trigger] second.contains(first[j]) by {
        assert(first.contains(first[j]));
        assert(first.to_multiset().count(first[j]) > 0);
        assert(second.to_multiset().count(first[j]) > 0);
    }
    assert forall|j: int| 0 <= j < second.len() implies !refused_at(n, second, j) by {
        assert(first.contains(second[j]));
        let p = choose|p: int| 0 <= p < first.len() && first[p] == second[j];
        assert(!refused_at(n, first, p));
        if exists|i: int| 0 <= i < j && second[i].0 == second[j].0 {
            let i = choose|i: int| 0 <= i < j && second[i].0 == second[j].0;
            assert(first.contains(second[i]));
            let q = choose|q: int| 0 <= q < first.len() && first[q] == second[i];
            assert(second[i] != second[j]);
            assert(p != q);
            if p < q {
                assert(!refused_at(n, first, q));
            } else {
                assert(!refused_at(n, first, p));
            }
        }
    }
    assert forall|k: int| 0 <= k < n implies #[trigger] completes(second, k) by {
        assert(completes(first, k));
        let j = choose|j: int| 0 <= j < first.len() && first[j].0 == k;
        assert(second.contains(first[j]));
        let p = choose|p: int| 0 <= p < second.len() && second[p] == first[j];
    }
    assert forall|k: int| 0 <= k < n implies outcome_of(second, k) == outcome_of(first, k) by {
        assert(completes(first, k));
        assert(completes(second, k));
        let c1 = choose|c: int| 0 <= c < first.len() && first[c].0 == k;
        let c2 = choose|c: int| 0 <= c < second.len() && second[c].0 == k;
        assert(second.contains(first[c1]));
        let p = choose|p: int| 0 <= p < second.len() && second[p] == first[c1];
        if p < c2 {
            assert(!refused_at(n, second, c2));
        } else if c2 < p {
            assert(!refused_at(n, second, p));
        }
    }
    assert(gathered(inputs, second) =~= gathered(inputs, first));
}

/// Two complete runs of a batch of `n` numbered units have the same shape:
/// `n` results whose `k`-th pair holds the input `k + 1`, whatever the
/// outcomes of the units and the order in which they completed.
pub proof fn lemma_same_shape(n: nat, first: Seq<(usize, u64)>, second: Seq<(usize, u64)>)
    requires
        n <= u64::MAX,
        complete_run(n, first),
        complete_run(n, second),
    ensures
        gathered(numbered(n), first).len() == n,
        gathered(numbered(n), second).len() == n,
        forall|k: int|
            0 <= k < n ==> (#[trigger] gathered(numbered(n), first)[k]).0 == k + 1
                && gathered(numbered(n), second)[k].0 == k + 1,
{
}

} // verus!
