//! The shared state of one query run over a scan: the partitions' states,
//! the decode slots in use, and the rows handed out under a global limit.
//! Each method takes one event of a partition stream and gives the decision.
use vstd::prelude::*;

verus! {

/// Where a partition's stream stands.
#[derive(Debug, Clone, Copy, PartialEq, Eq, Structural)]
pub enum PartitionState {
    Unstarted,
    Opening,
    Streaming,
    Exhausted,
    Failed,
}

/// What a partition waiting for a decode slot is to do next.
#[derive(Debug, Clone, Copy, PartialEq, Eq, Structural)]
pub enum SlotOutcome {
    /// A slot is held: start decoding.
    Granted,
    /// Every slot is taken: suspend and ask again.
    Wait,
    /// The global limit is reached: end the stream.
    Finished,
}

/// The mathematical state of a run.
pub ghost struct RunView {
    pub capacity: nat,
    pub in_use: nat,
    pub limit: Option<nat>,
    pub emitted: nat,
    pub states: Seq<PartitionState>,
}

/// A streaming partition holds one decode slot.
pub open spec fn holding(s: PartitionState) -> int {
    if s == PartitionState::Streaming {
        1
    } else {
        0
    }
}

/// The number of partitions that hold a slot.
pub open spec fn count_holding(s: Seq<PartitionState>) -> int
    decreases s.len(),
{
    if s.len() == 0 {
        0
    } else {
        count_holding(s.drop_last()) + holding(s.last())
    }
}

/// The budget matches the partitions, and the limit is never passed.
pub open spec fn run_wf(v: RunView) -> bool {
    &&& v.capacity >= 1
    &&& v.in_use == count_holding(v.states)
    &&& v.in_use <= v.capacity
    &&& v.limit matches Some(l) ==> v.emitted <= l
}

/// No more rows may be handed out.
pub open spec fn limit_reached(v: RunView) -> bool {
    v.limit matches Some(l) && v.emitted >= l
}

/// Partition `p` moves to `s`, giving back the slot it held.
pub open spec fn move_to(v: RunView, p: int, s: PartitionState) -> RunView {
    RunView {
        in_use: (v.in_use - holding(v.states[p]) + holding(s)) as nat,
        states: v.states.update(p, s),
        ..v
    }
}

/// `execute` on partition `p`: it is opened anew.
pub open spec fn started(v: RunView, p: int) -> RunView {
    move_to(v, p, PartitionState::Opening)
}

/// Partition `p`, opening, asks for a decode slot.
pub open spec fn polled(v: RunView, p: int) -> (SlotOutcome, RunView) {
    if limit_reached(v) {
        (SlotOutcome::Finished, move_to(v, p, PartitionState::Exhausted))
    } else if v.in_use < v.capacity {
        (SlotOutcome::Granted, move_to(v, p, PartitionState::Streaming))
    } else {
        (SlotOutcome::Wait, v)
    }
}

/// Of a decoded batch of `rows` rows, how many are kept.
pub open spec fn kept(limit: Option<nat>, emitted: nat, rows: nat) -> nat {
    match limit {
        None => rows,
        Some(l) => if rows <= l - emitted {
            rows
        } else {
            (l - emitted) as nat
        },
    }
}

/// Partition `p` decoded a batch of `rows` rows.
pub open spec fn after_batch(v: RunView, p: int, rows: nat) -> RunView {
    match v.limit {
        None => v,
        Some(l) => {
            let e = v.emitted + kept(v.limit, v.emitted, rows);
            let w = RunView { emitted: e, ..v };
            if e >= l {
                move_to(w, p, PartitionState::Exhausted)
            } else {
                w
            }
        },
    }
}

/// Partition `p`'s stream is dropped: an open stream ends and gives back its slot.
pub open spec fn abandoned(v: RunView, p: int) -> RunView {
    if v.states[p] == PartitionState::Opening || v.states[p] == PartitionState::Streaming {
        move_to(v, p, PartitionState::Exhausted)
    } else {
        v
    }
}

proof fn lemma_count_update(s: Seq<PartitionState>, i: int, x: PartitionState)
    requires
        0 <= i < s.len(),
    ensures
        count_holding(s.update(i, x)) == count_holding(s) - holding(s[i]) + holding(x),
        count_holding(s) >= holding(s[i]),
    decreases s.len(),
{
    if i == s.len() - 1 {
        assert(s.update(i, x).drop_last() =~= s.drop_last());
        lemma_count_nonneg(s.drop_last());
    } else {
        lemma_count_update(s.drop_last(), i, x);
        assert(s.update(i, x).drop_last() =~= s.drop_last().update(i, x));
    }
}

proof fn lemma_count_nonneg(s: Seq<PartitionState>)
    ensures
        count_holding(s) >= 0,
    decreases s.len(),
{
    if s.len() > 0 {
        lemma_count_nonneg(s.drop_last());
    }
}

proof fn lemma_count_none(n: nat)
    ensures
        count_holding(Seq::new(n, |i: int| PartitionState::Unstarted)) == 0,
    decreases n,
{
    if n > 0 {
        lemma_count_none((n - 1) as nat);
        assert(Seq::new(n, |i: int| PartitionState::Unstarted).drop_last() =~= Seq::new(
            (n - 1) as nat,
            |i: int| PartitionState::Unstarted,
        ));
    }
}

/// A row limit as a mathematical value.
pub open spec fn limit_nat(limit: Option<usize>) -> Option<nat> {
    match limit {
        None => None,
        Some(l) => Some(l as nat),
    }
}

/// The rows handed out after the batches `batches`, of so many rows each,
/// were decoded in this order under the limit `limit`, from none.
pub open spec fn emitted_after(limit: nat, batches: Seq<nat>) -> nat
    decreases batches.len(),
{
    if batches.len() == 0 {
        0
    } else {
        let e = emitted_after(limit, batches.drop_last());
        e + kept(Some(limit), e, batches.last())
    }
}

/// The rows in all of `batches`.
pub open spec fn total_rows(batches: Seq<nat>) -> nat
    decreases batches.len(),
{
    if batches.len() == 0 {
        0
    } else {
        total_rows(batches.drop_last()) + batches.last()
    }
}

/// Under a limit, the rows kept over any sequence of batches, from whichever
/// partitions, add up to the smaller of the limit and the rows decoded; and
/// once the limit is reached no batch keeps a row.
pub proof fn lemma_limit_total(limit: nat, batches: Seq<nat>)
    ensures
        emitted_after(limit, batches) == if total_rows(batches) <= limit {
            total_rows(batches)
        } else {
            limit
        },
        forall|rows: nat| #[trigger] kept(Some(limit), emitted_after(limit, batches), rows) > 0
            ==> emitted_after(limit, batches) < limit,
    decreases batches.len(),
{
    if batches.len() > 0 {
        lemma_limit_total(limit, batches.drop_last());
    }
}

/// Dropping a streaming partition's stream gives its decode slot back: with
/// a single slot, another partition that is opening is then never kept
/// waiting.
pub proof fn lemma_drop_frees_slot(v: RunView, a: int, b: int)
    requires
        run_wf(v),
        v.capacity == 1,
        0 <= a < v.states.len(),
        0 <= b < v.states.len(),
        a != b,
        v.states[a] == PartitionState::Streaming,
        v.states[b] == PartitionState::Opening,
    ensures
        run_wf(abandoned(v, a)),
        abandoned(v, a).states[b] == PartitionState::Opening,
        polled(abandoned(v, a), b).0 != SlotOutcome::Wait,
{
    lemma_count_update(v.states, a, PartitionState::Exhausted);
}

pub struct ScanRun {
    capacity: usize,
    in_use: usize,
    limit: Option<usize>,
    emitted: usize,
    states: Vec<PartitionState>,
}

impl View for ScanRun {
    type V = RunView;

    closed spec fn view(&self) -> RunView {
        RunView {
            capacity: self.capacity as nat,
            in_use: self.in_use as nat,
            limit: limit_nat(self.limit),
            emitted: self.emitted as nat,
            states: self.states@,
        }
    }
}

impl ScanRun {
    /// A run over `partitions` unstarted partitions, sharing `max_concurrency`
    /// decode slots and at most `limit` rows.
    pub fn new(partitions: usize, max_concurrency: usize, limit: Option<usize>) -> (r: ScanRun)
        requires
            max_concurrency >= 1,
        ensures
            run_wf(r@),
            r@.capacity == max_concurrency,
            r@.in_use == 0,
            r@.emitted == 0,
            r@.limit == limit_nat(limit),
            r@.states == Seq::new(partitions as nat, |i: int| PartitionState::Unstarted),
    {
        let mut states: Vec<PartitionState> = Vec::new();
        while states.len() < partitions
            invariant
                states.len() <= partitions,
                forall|i: int| 0 <= i < states.len() ==> states[i] == PartitionState::Unstarted,
            decreases partitions - states.len(),
        {
            states.push(PartitionState::Unstarted);
        }
        proof {
            assert(states@ =~= Seq::new(partitions as nat, |i: int| PartitionState::Unstarted));
            lemma_count_none(partitions as nat);
        }
        ScanRun { capacity: max_concurrency, in_use: 0, limit, emitted: 0, states }
    }

    pub fn partition_count(&self) -> (r: usize)
        ensures
            r == self@.states.len(),
    {
        self.states.len()
    }

    pub fn state(&self, p: usize) -> (r: PartitionState)
        requires
            p < self@.states.len(),
        ensures
            r == self@.states[p as int],
    {
        self.states[p]
    }

    pub fn slots_in_use(&self) -> (r: usize)
        ensures
            r == self@.in_use,
    {
        self.in_use
    }

    pub fn rows_emitted(&self) -> (r: usize)
        ensures
            r == self@.emitted,
    {
        self.emitted
    }

    fn set_state(&mut self, p: usize, s: PartitionState)
        requires
            run_wf(old(self)@),
            p < old(self)@.states.len(),
            holding(s) == 1 ==> old(self)@.states[p as int] == PartitionState::Streaming
                || old(self)@.in_use < old(self)@.capacity,
        ensures
            final(self)@ == move_to(old(self)@, p as int, s),
            run_wf(final(self)@),
    {
        proof {
            lemma_count_update(self.states@, p as int, s);
        }
        let was = self.states[p];
        if was == PartitionState::Streaming {
            self.in_use = self.in_use - 1;
        }
        if s == PartitionState::Streaming {
            self.in_use = self.in_use + 1;
        }
        self.states.set(p, s);
    }

    /// Opens partition `p` anew; a stream it had is given up.
    pub fn start(&mut self, p: usize)
        requires
            run_wf(old(self)@),
            p < old(self)@.states.len(),
        ensures
            final(self)@ == started(old(self)@, p as int),
            run_wf(final(self)@),
    {
        self.set_state(p, PartitionState::Opening);
    }

    /// Partition `p`, opening, asks for a decode slot.
    pub fn poll_slot(&mut self, p: usize) -> (r: SlotOutcome)
        requires
            run_wf(old(self)@),
            p < old(self)@.states.len(),
            old(self)@.states[p as int] == PartitionState::Opening,
        ensures
            (r, final(self)@) == polled(old(self)@, p as int),
            run_wf(final(self)@),
    {
        let reached = match self.limit {
            None => false,
            Some(l) => self.emitted >= l,
        };
        if reached {
            self.set_state(p, PartitionState::Exhausted);
            SlotOutcome::Finished
        } else if self.in_use < self.capacity {
            self.set_state(p, PartitionState::Streaming);
            SlotOutcome::Granted
        } else {
            SlotOutcome::Wait
        }
    }

    /// Partition `p` decoded a batch of `rows` rows; returns how many of its
    /// first rows are kept. Reaching the limit ends the stream.
    pub fn on_batch(&mut self, p: usize, rows: usize) -> (keep: usize)
        requires
            run_wf(old(self)@),
            p < old(self)@.states.len(),
            old(self)@.states[p as int] == PartitionState::Streaming,
        ensures
            keep == kept(old(self)@.limit, old(self)@.emitted, rows as nat),
            final(self)@ == after_batch(old(self)@, p as int, rows as nat),
            run_wf(final(self)@),
    {
        match self.limit {
            None => rows,
            Some(l) => {
                let room = l - self.emitted;
                let keep = if rows <= room {
                    rows
                } else {
                    room
                };
                self.emitted = self.emitted + keep;
                if self.emitted >= l {
                    self.set_state(p, PartitionState::Exhausted);
                }
                keep
            },
        }
    }

    /// Partition `p` ran out of blocks.
    pub fn finish(&mut self, p: usize)
        requires
            run_wf(old(self)@),
            p < old(self)@.states.len(),
            old(self)@.states[p as int] == PartitionState::Streaming,
        ensures
            final(self)@ == move_to(old(self)@, p as int, PartitionState::Exhausted),
            run_wf(final(self)@),
    {
        self.set_state(p, PartitionState::Exhausted);
    }

    /// Partition `p` met an error while opening or decoding: it fails for good.
    pub fn fail(&mut self, p: usize)
        requires
            run_wf(old(self)@),
            p < old(self)@.states.len(),
            old(self)@.states[p as int] == PartitionState::Opening || old(self)@.states[p as int]
                == PartitionState::Streaming,
        ensures
            final(self)@ == move_to(old(self)@, p as int, PartitionState::Failed),
            run_wf(final(self)@),
    {
        self.set_state(p, PartitionState::Failed);
    }

    /// Partition `p`'s stream is dropped, at any point.
    pub fn abandon(&mut self, p: usize)
        requires
            run_wf(old(self)@),
            p < old(self)@.states.len(),
        ensures
            final(self)@ == abandoned(old(self)@, p as int),
            run_wf(final(self)@),
    {
        let s = self.states[p];
        if s == PartitionState::Opening || s == PartitionState::Streaming {
            self.set_state(p, PartitionState::Exhausted);
        }
    }
}

} // verus!
