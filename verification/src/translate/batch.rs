//! One batch: the units of one queue on their way through translation.
//!
//! The batch decides; its caller acts. The caller asks [`Batch::next`] what
//! to do, sends what it is told to send, and reports each reply of the
//! service with [`Batch::complete`], in whatever order the replies arrive.
use vstd::prelude::*;
use crate::chunk::TaskType;
use crate::chunk::fragment::texts;
use crate::cli::Job;
use crate::translate::template::template_accepted;
use crate::translate::{
    Request, TranslateError, blank, intact, is_blank, is_intact, system_prompt, unit_request,
    user_prompt,
};

verus! {

/// Where a unit stands.
#[derive(Debug, Clone, Copy, PartialEq, Eq)]
pub enum UnitState {
    /// Not sent yet.
    Pending,
    /// Sent; the reply is awaited.
    InFlight,
    /// The last reply broke the integrity check; the unit keeps its place
    /// among the units in flight and is to be sent again.
    Retrying,
    /// An answer was accepted, or the unit needed none.
    Done,
    /// The service failed on the unit.
    Failed,
}

/// What the caller is to do next.
#[derive(Debug, Clone, Copy, PartialEq, Eq)]
pub enum Step {
    /// Send the unit at this position to the service.
    Dispatch(usize),
    /// Send nothing: await a reply.
    Wait,
    /// Nothing is left to do: every unit is done, or the batch has failed.
    Finished,
}

/// What became of a reply.
#[derive(Debug, Clone, Copy, PartialEq, Eq)]
pub enum Verdict {
    /// The answer is the translation of the unit.
    Accepted,
    /// The answer broke the integrity check: the unit is to be sent again.
    Retry,
    /// The service failed: the batch is over.
    Failed,
    /// No reply was awaited for that unit: nothing changed.
    Ignored,
}

/// A unit holds one of the places in flight.
pub open spec fn is_busy(state: UnitState) -> bool {
    state is InFlight || state is Retrying
}

/// How many of the first `n` units hold a place in flight.
pub open spec fn busy_upto(states: Seq<UnitState>, n: nat) -> nat
    decreases n,
{
    if n == 0 || n > states.len() {
        0
    } else {
        busy_upto(states, (n - 1) as nat) + if is_busy(states[n - 1]) {
            1nat
        } else {
            0nat
        }
    }
}

/// The answers on record after the first `k` of `results` were written
/// down, by position in a queue of `n` units. Each entry of `results` is an
/// answer tagged with the position of its unit.
pub open spec fn answers_upto(results: Seq<(usize, String)>, k: nat, n: nat) -> Seq<
    Option<Seq<char>>,
>
    decreases k,
{
    if k == 0 || k > results.len() {
        Seq::new(n, |i: int| None)
    } else {
        let before = answers_upto(results, (k - 1) as nat, n);
        let (position, text) = results[k - 1];
        if position < n {
            before.update(position as int, Some(text@))
        } else {
            before
        }
    }
}

/// The count of attempts after one more, which stops at the largest
/// number that the counter holds.
pub open spec fn bumped(attempts: u32) -> u32 {
    if attempts < u32::MAX {
        (attempts + 1) as u32
    } else {
        attempts
    }
}

/// Mathematical model of a [`Batch`].
#[verifier::ext_equal]
pub struct BatchView {
    /// The units, as they were extracted.
    pub queue: Seq<Seq<char>>,
    /// The queue that the units come from.
    pub role: TaskType,
    /// The most units that may be in flight at once.
    pub parallel: nat,
    /// Where each unit stands.
    pub states: Seq<UnitState>,
    /// How often each unit was sent.
    pub attempts: Seq<u32>,
    /// The translation of each unit that is done.
    pub answers: Seq<Option<Seq<char>>>,
    /// The first failure reported, if any.
    pub failure: Option<TranslateError>,
}

impl BatchView {
    /// How many units hold a place in flight.
    pub open spec fn in_flight(self) -> nat {
        busy_upto(self.states, self.states.len())
    }

    /// Every unit is done.
    pub open spec fn all_done(self) -> bool {
        forall|i: int| 0 <= i < self.states.len() ==> self.states[i] is Done
    }

    /// Where the units stand at the start: a blank unit is done, every
    /// other unit waits.
    pub open spec fn states_at_start(queue: Seq<Seq<char>>) -> Seq<UnitState> {
        Seq::new(
            queue.len(),
            |i: int|
                if blank(queue[i]) {
                    UnitState::Done
                } else {
                    UnitState::Pending
                },
        )
    }

    /// The answers on record once the blank units before position `upto`
    /// were written down: each of them is its own translation.
    pub open spec fn answers_at_start(queue: Seq<Seq<char>>, upto: int) -> Seq<Option<Seq<char>>> {
        Seq::new(
            queue.len(),
            |i: int|
                if i < upto && blank(queue[i]) {
                    Some(queue[i])
                } else {
                    None
                },
        )
    }

    /// A batch at its start: nothing was sent, nothing has failed.
    pub open spec fn start(queue: Seq<Seq<char>>, role: TaskType, parallel: nat) -> BatchView {
        BatchView {
            queue,
            role,
            parallel,
            states: Self::states_at_start(queue),
            attempts: Seq::new(queue.len(), |i: int| 0u32),
            answers: Self::answers_at_start(queue, queue.len() as int),
            failure: None,
        }
    }

    /// The first unit from position `k` on that stands at `state`.
    pub open spec fn first_from(self, state: UnitState, k: int) -> Option<int>
        decreases self.states.len() - k,
    {
        if k < 0 || k >= self.states.len() {
            None
        } else if self.states[k] == state {
            Some(k)
        } else {
            self.first_from(state, k + 1)
        }
    }

    /// The unit to send next, if one is to be sent: the first unit that
    /// waits to be sent again; or, where there is none and a place in flight
    /// is free, the first unit that was never sent. A failed batch sends
    /// nothing.
    pub open spec fn to_dispatch(self) -> Option<int> {
        if self.failure is Some {
            None
        } else if self.first_from(UnitState::Retrying, 0) is Some {
            self.first_from(UnitState::Retrying, 0)
        } else if self.in_flight() < self.parallel {
            self.first_from(UnitState::Pending, 0)
        } else {
            None
        }
    }

    /// What the caller is told to do next.
    pub open spec fn step(self) -> Step {
        match self.to_dispatch() {
            Some(i) => Step::Dispatch(i as usize),
            None => if self.failure is None && self.in_flight() > 0 {
                Step::Wait
            } else {
                Step::Finished
            },
        }
    }

    /// The batch after the caller was told what to do next: a unit that
    /// is to be sent is in flight, and counts one attempt more.
    pub open spec fn after_step(self) -> BatchView {
        match self.to_dispatch() {
            Some(i) => BatchView {
                states: self.states.update(i, UnitState::InFlight),
                attempts: self.attempts.update(i, bumped(self.attempts[i])),
                ..self
            },
            None => self,
        }
    }

    /// A reply for the unit at `index` is awaited.
    pub open spec fn awaits(self, index: int) -> bool {
        0 <= index < self.states.len() && self.states[index] is InFlight
    }

    /// What becomes of a reply for the unit at `index`.
    pub open spec fn verdict(self, index: int, reply: Result<Seq<char>, TranslateError>) -> Verdict {
        if !self.awaits(index) {
            Verdict::Ignored
        } else {
            match reply {
                Ok(answer) => if intact(self.queue[index], answer) {
                    Verdict::Accepted
                } else {
                    Verdict::Retry
                },
                Err(_) => Verdict::Failed,
            }
        }
    }

    /// The batch after a reply for the unit at `index`: an intact answer
    /// is put on record and the unit is done; another answer leaves the unit
    /// to be sent again; a failure ends the unit, and is kept if it is the
    /// first.
    pub open spec fn after_reply(self, index: int, reply: Result<Seq<char>, TranslateError>) -> BatchView {
        match self.verdict(index, reply) {
            Verdict::Ignored => self,
            Verdict::Accepted => BatchView {
                states: self.states.update(index, UnitState::Done),
                answers: self.answers.update(index, Some(reply->Ok_0)),
                ..self
            },
            Verdict::Retry => BatchView {
                states: self.states.update(index, UnitState::Retrying),
                ..self
            },
            Verdict::Failed => BatchView {
                states: self.states.update(index, UnitState::Failed),
                failure: if self.failure is Some {
                    self.failure
                } else {
                    Some(reply->Err_0)
                },
                ..self
            },
        }
    }

    /// The translations in the order of the queue, once every unit is
    /// done.
    pub open spec fn translations(self) -> Seq<Seq<char>> {
        Seq::new(self.queue.len(), |i: int| self.answers[i]->Some_0)
    }

    /// Where no unit from position `k` on stands at `state`, the search
    /// finds none, and the other way round.
    pub proof fn lemma_first_from(self, state: UnitState, k: int)
        requires
            0 <= k,
        ensures
            self.first_from(state, k) is None <==> (forall|i: int|
                k <= i < self.states.len() ==> self.states[i] != state),
            self.first_from(state, k) matches Some(i) ==> k <= i < self.states.len()
                && self.states[i] == state,
        decreases self.states.len() - k,
    {
        if k < self.states.len() {
            self.lemma_first_from(state, k + 1);
            if self.states[k] != state && self.first_from(state, k) is None {
                assert forall|i: int| k <= i < self.states.len() implies self.states[i]
                    != state by {}
            }
        }
    }

    /// A batch is told that it is finished only when it has failed or
    /// every unit is done.
    pub proof fn lemma_finished(self)
        requires
            self.inv(),
            self.step() == Step::Finished,
        ensures
            self.failure is Some || self.all_done(),
    {
        if self.failure is None {
            self.lemma_first_from(UnitState::Retrying, 0);
            self.lemma_first_from(UnitState::Pending, 0);
            lemma_busy_none(self.states, self.states.len());
            assert forall|i: int| 0 <= i < self.states.len() implies self.states[i] is Done by {
                assert(!is_busy(self.states[i]));
                assert(self.states[i] != UnitState::Pending);
                assert(!(self.states[i] is Failed));
            }
        }
    }

    /// In a finished batch every translation has the separators of its
    /// unit, and a blank unit is its own translation.
    pub proof fn lemma_translations(self)
        requires
            self.inv(),
            self.all_done(),
        ensures
            self.translations().len() == self.queue.len(),
            forall|i: int|
                0 <= i < self.queue.len() ==> intact(
                    #[trigger] self.queue[i],
                    self.translations()[i],
                ),
            forall|i: int|
                0 <= i < self.queue.len() && blank(#[trigger] self.queue[i])
                    ==> self.translations()[i] == self.queue[i],
    {
        assert forall|i: int| 0 <= i < self.queue.len() implies intact(
            #[trigger] self.queue[i],
            self.translations()[i],
        ) by {
            assert(self.states[i] is Done);
        }
    }

    /// What holds of a batch at every moment: no more units are in flight
    /// than allowed; a unit is done exactly when its translation is on
    /// record; that translation has the separators of the unit; a blank unit
    /// is done from the start and is its own translation; and a failed unit
    /// has left its failure on record.
    pub open spec fn inv(self) -> bool {
        &&& self.states.len() == self.queue.len()
        &&& self.attempts.len() == self.queue.len()
        &&& self.answers.len() == self.queue.len()
        &&& self.parallel >= 1
        &&& self.in_flight() <= self.parallel
        &&& forall|i: int|
            0 <= i < self.queue.len() ==> (#[trigger] self.states[i] is Done
                <==> self.answers[i] is Some)
        &&& forall|i: int|
            0 <= i < self.queue.len() && self.answers[i] is Some ==> intact(
                #[trigger] self.queue[i],
                self.answers[i]->Some_0,
            )
        &&& forall|i: int|
            0 <= i < self.queue.len() && blank(#[trigger] self.queue[i]) ==> self.answers[i]
                == Some(self.queue[i])
        &&& forall|i: int|
            0 <= i < self.queue.len() && blank(self.queue[i]) ==> #[trigger] self.attempts[i] == 0
        &&& forall|i: int|
            0 <= i < self.queue.len() && #[trigger] self.states[i] is Failed
                ==> self.failure is Some
    }
}

/// Changing the state of one unit changes the count of busy units by that
/// unit alone.
pub proof fn lemma_busy_update(states: Seq<UnitState>, n: nat, i: int, state: UnitState)
    requires
        0 <= i < states.len(),
        n <= states.len(),
    ensures
        busy_upto(states.update(i, state), n) == busy_upto(states, n) + (if i < n && is_busy(
            state,
        ) {
            1int
        } else {
            0int
        }) - (if i < n && is_busy(states[i]) {
            1int
        } else {
            0int
        }),
    decreases n,
{
    if n > 0 {
        lemma_busy_update(states, (n - 1) as nat, i, state);
    }
}

/// The busy units are counted exactly: none busy gives zero, and zero
/// means none busy.
pub proof fn lemma_busy_none(states: Seq<UnitState>, n: nat)
    requires
        n <= states.len(),
    ensures
        busy_upto(states, n) == 0 <==> (forall|k: int| 0 <= k < n ==> !is_busy(states[k])),
    decreases n,
{
    if n > 0 {
        lemma_busy_none(states, (n - 1) as nat);
        if busy_upto(states, n) == 0 {
            assert forall|k: int| 0 <= k < n implies !is_busy(states[k]) by {}
        }
    }
}

/// The answers on record depend on the entries written down alone.
proof fn lemma_answers_agree(a: Seq<(usize, String)>, b: Seq<(usize, String)>, k: nat, n: nat)
    requires
        k <= a.len(),
        k <= b.len(),
        forall|j: int| 0 <= j < k ==> a[j] == b[j],
    ensures
        answers_upto(a, k, n) == answers_upto(b, k, n),
    decreases k,
{
    if k > 0 {
        lemma_answers_agree(a, b, (k - 1) as nat, n);
    }
}

/// A record holds one place for each unit.
proof fn lemma_answers_len(results: Seq<(usize, String)>, k: nat, n: nat)
    ensures
        answers_upto(results, k, n).len() == n,
    decreases k,
{
    if k > 0 && k <= results.len() {
        lemma_answers_len(results, (k - 1) as nat, n);
    }
}

/// The units of one queue on their way through translation.
pub struct Batch {
    queue: Vec<String>,
    role: TaskType,
    parallel: usize,
    states: Vec<UnitState>,
    attempts: Vec<u32>,
    results: Vec<(usize, String)>,
    busy: usize,
    failure: Option<TranslateError>,
}

impl View for Batch {
    type V = BatchView;

    closed spec fn view(&self) -> BatchView {
        BatchView {
            queue: texts(self.queue@),
            role: self.role,
            parallel: self.parallel as nat,
            states: self.states@,
            attempts: self.attempts@,
            answers: answers_upto(self.results@, self.results@.len(), self.queue@.len()),
            failure: self.failure,
        }
    }
}

impl Batch {
    /// The batch is in order: its model meets [`BatchView::inv`], and what
    /// it keeps beside the model agrees with it.
    pub closed spec fn wf(&self) -> bool {
        &&& self@.inv()
        &&& self.busy == self@.in_flight()
        &&& forall|j: int|
            0 <= j < self.results@.len() ==> (#[trigger] self.results@[j]).0 < self.queue@.len()
    }

    /// What holds of every batch that is in order: the invariant of its
    /// model, and that the positions of its units are numbers that the
    /// machine holds.
    pub proof fn lemma_invariant(&self)
        requires
            self.wf(),
        ensures
            self@.inv(),
            self@.queue.len() <= usize::MAX,
    {
        assert(self.queue.len() == self.queue@.len());
        assert(self@.queue.len() == self.queue@.len());
    }

    /// Starts a batch on `queue`. Units that are blank are done at once,
    /// unchanged; the others wait to be sent.
    pub fn new(queue: Vec<String>, role: TaskType, parallel: usize) -> (batch: Self)
        requires
            parallel >= 1,
        ensures
            batch.wf(),
            batch@ == BatchView::start(texts(queue@), role, parallel as nat),
            batch@.in_flight() == 0,
    {
        let n = queue.len();
        let ghost units = texts(queue@);
        let mut states: Vec<UnitState> = Vec::new();
        let mut attempts: Vec<u32> = Vec::new();
        let mut results: Vec<(usize, String)> = Vec::new();
        let mut i: usize = 0;
        assert(answers_upto(results@, 0, n as nat) =~= BatchView::answers_at_start(units, 0));
        while i < n
            invariant
                i <= n,
                n == queue@.len(),
                units == texts(queue@),
                states@ == BatchView::states_at_start(units).take(i as int),
                attempts@ == Seq::new(i as nat, |k: int| 0u32),
                forall|j: int| 0 <= j < results@.len() ==> (#[trigger] results@[j]).0 < n,
                answers_upto(results@, results@.len(), n as nat) == BatchView::answers_at_start(
                    units,
                    i as int,
                ),
            decreases n - i,
        {
            if is_blank(queue[i].as_str()) {
                let ghost before = results@;
                results.push((i, queue[i].clone()));
                proof {
                    lemma_answers_agree(results@, before, before.len(), n as nat);
                }
                states.push(UnitState::Done);
            } else {
                states.push(UnitState::Pending);
            }
            attempts.push(0);
            proof {
                assert(answers_upto(results@, results@.len(), n as nat)
                    =~= BatchView::answers_at_start(units, i + 1));
                assert(states@ =~= BatchView::states_at_start(units).take(i + 1));
                assert(attempts@ =~= Seq::new((i + 1) as nat, |k: int| 0u32));
            }
            i = i + 1;
        }
        let batch = Batch { queue, role, parallel, states, attempts, results, busy: 0, failure: None };
        proof {
            lemma_busy_none(batch.states@, n as nat);
            assert(batch.states@ =~= BatchView::states_at_start(units));
            assert(batch@ =~= BatchView::start(units, role, parallel as nat));
        }
        batch
    }

    /// Tells the caller what to do next, and takes note that it is done.
    pub fn next(&mut self) -> (step: Step)
        requires
            old(self).wf(),
        ensures
            final(self).wf(),
            step == old(self)@.step(),
            final(self)@ == old(self)@.after_step(),
            step matches Step::Dispatch(index) ==> {
                &&& old(self)@.to_dispatch() == Some(index as int)
                &&& final(self)@.awaits(index as int)
                &&& !blank(final(self)@.queue[index as int])
                &&& final(self)@.failure is None
            },
            step == Step::Wait ==> final(self)@.in_flight() > 0,
            step == Step::Finished ==> final(self)@.failure is Some || final(self)@.all_done(),
    {
        let n = self.states.len();
        if self.failure.is_some() {
            return Step::Finished;
        }
        proof {
            if self@.step() == Step::Finished {
                self@.lemma_finished();
            }
        }
        let retry = self.first(UnitState::Retrying);
        let found = match retry {
            Some(i) => Some(i),
            None => if self.busy < self.parallel {
                self.first(UnitState::Pending)
            } else {
                None
            },
        };
        match found {
            Some(i) => {
                let ghost before = self.states@;
                let was_pending = match self.states[i] {
                    UnitState::Pending => true,
                    _ => false,
                };
                self.states.set(i, UnitState::InFlight);
                let count = self.attempts[i];
                self.attempts.set(
                    i,
                    if count < u32::MAX {
                        count + 1
                    } else {
                        count
                    },
                );
                proof {
                    lemma_busy_update(before, n as nat, i as int, UnitState::InFlight);
                }
                if was_pending {
                    self.busy = self.busy + 1;
                }
                assert(self@ =~= old(self)@.after_step());
                Step::Dispatch(i)
            },
            None => {
                if self.busy > 0 {
                    Step::Wait
                } else {
                    Step::Finished
                }
            },
        }
    }

    /// The first unit that stands at `state`.
    fn first(&self, state: UnitState) -> (found: Option<usize>)
        ensures
            match self@.first_from(state, 0) {
                Some(i) => found == Some(i as usize) && 0 <= i < self@.states.len()
                    && self@.states[i] == state,
                None => found is None,
            },
    {
        let mut k: usize = 0;
        while k < self.states.len()
            invariant
                k <= self.states@.len(),
                self@.first_from(state, 0) == self@.first_from(state, k as int),
            decreases self.states@.len() - k,
        {
            if same_state(self.states[k], state) {
                return Some(k);
            }
            k = k + 1;
        }
        None
    }

    /// Takes in the reply of the service for the unit at `index`: the
    /// text of its answer, or the failure.
    pub fn complete(&mut self, index: usize, reply: Result<String, TranslateError>) -> (verdict:
        Verdict)
        requires
            old(self).wf(),
        ensures
            final(self).wf(),
            verdict == old(self)@.verdict(index as int, reply_view(reply)),
            final(self)@ == old(self)@.after_reply(index as int, reply_view(reply)),
    {
        let n = self.states.len();
        if index >= n {
            return Verdict::Ignored;
        }
        match self.states[index] {
            UnitState::InFlight => {},
            _ => {
                return Verdict::Ignored;
            },
        }
        let ghost before = self.states@;
        let ghost record = self@.answers;
        proof {
            lemma_answers_len(self.results@, self.results@.len(), n as nat);
        }
        match reply {
            Ok(answer) => {
                if is_intact(self.queue[index].as_str(), answer.as_str()) {
                    let ghost entries = self.results@;
                    proof {
                        lemma_busy_update(before, n as nat, index as int, UnitState::Done);
                    }
                    self.states.set(index, UnitState::Done);
                    self.results.push((index, answer));
                    self.busy = self.busy - 1;
                    proof {
                        lemma_answers_agree(self.results@, entries, entries.len(), n as nat);
                        assert(self@.answers =~= record.update(index as int, Some(answer@)));
                        assert(self@ =~= old(self)@.after_reply(index as int, reply_view(reply)));
                    }
                    Verdict::Accepted
                } else {
                    self.states.set(index, UnitState::Retrying);
                    proof {
                        lemma_busy_update(before, n as nat, index as int, UnitState::Retrying);
                        assert(self@ =~= old(self)@.after_reply(index as int, reply_view(reply)));
                    }
                    Verdict::Retry
                }
            },
            Err(error) => {
                proof {
                    lemma_busy_update(before, n as nat, index as int, UnitState::Failed);
                }
                self.states.set(index, UnitState::Failed);
                self.busy = self.busy - 1;
                if self.failure.is_none() {
                    self.failure = Some(error);
                }
                proof {
                    assert(self@ =~= old(self)@.after_reply(index as int, reply_view(reply)));
                }
                Verdict::Failed
            },
        }
    }

    /// Ends the batch: the translations in the order of the queue where
    /// every unit is done, else the failure, or word that units are left.
    pub fn finish(self) -> (r: Result<Vec<String>, TranslateError>)
        requires
            self.wf(),
        ensures
            match self@.failure {
                Some(failure) => r == Err::<Vec<String>, TranslateError>(failure),
                None => if self@.all_done() {
                    r is Ok && texts(r->Ok_0@) == self@.translations()
                } else {
                    r == Err::<Vec<String>, TranslateError>(TranslateError::Unfinished)
                },
            },
            r matches Ok(ordered) ==> {
                &&& ordered@.len() == self@.queue.len()
                &&& forall|i: int|
                    0 <= i < ordered@.len() ==> intact(
                        #[trigger] self@.queue[i],
                        ordered@[i]@,
                    )
                &&& forall|i: int|
                    0 <= i < ordered@.len() && blank(#[trigger] self@.queue[i])
                        ==> ordered@[i]@ == self@.queue[i]
            },
    {
        let ghost model = self@;
        let n = self.states.len();
        let mut done = true;
        let mut i: usize = 0;
        while i < n
            invariant
                i <= n,
                n == self.states@.len(),
                model.states == self.states@,
                done == (forall|k: int| 0 <= k < i ==> model.states[k] is Done),
            decreases n - i,
        {
            match self.states[i] {
                UnitState::Done => {},
                _ => {
                    done = false;
                },
            }
            i = i + 1;
        }
        let ghost entries = self.results@;
        let Batch { results, failure, .. } = self;
        if let Some(failure) = failure {
            return Err(failure);
        }
        if !done {
            return Err(TranslateError::Unfinished);
        }
        assert(model.all_done());
        assert(results@ == entries);
        let ordered = restore_order(results, n);
        assert forall|k: int| 0 <= k < n implies texts(ordered@)[k] == model.translations()[k] by {
            assert(model.states[k] is Done);
            assert(model.answers[k] is Some);
        }
        assert(texts(ordered@) =~= model.translations());
        proof {
            model.lemma_translations();
            assert forall|i: int| 0 <= i < ordered@.len() implies intact(
                #[trigger] model.queue[i],
                ordered@[i]@,
            ) by {
                assert(texts(ordered@)[i] == ordered@[i]@);
            }
            assert forall|i: int|
                0 <= i < ordered@.len() && blank(#[trigger] model.queue[i]) implies ordered@[i]@
                == model.queue[i] by {
                assert(texts(ordered@)[i] == ordered@[i]@);
            }
        }
        Ok(ordered)
    }

    /// The number of units.
    pub fn len(&self) -> (n: usize)
        requires
            self.wf(),
        ensures
            n == self@.queue.len(),
    {
        self.queue.len()
    }

    /// The unit at `index`, as it was extracted.
    pub fn unit(&self, index: usize) -> (payload: &String)
        requires
            self.wf(),
            index < self@.queue.len(),
        ensures
            payload@ == self@.queue[index as int],
    {
        &self.queue[index]
    }

    /// How often the unit at `index` was sent.
    pub fn attempts(&self, index: usize) -> (count: u32)
        requires
            self.wf(),
            index < self@.queue.len(),
        ensures
            count == self@.attempts[index as int],
    {
        self.attempts[index]
    }

    /// What is asked of the service for the unit at `index`. Both
    /// templates of the job have to be taken.
    pub fn request(&self, job: &Job, index: usize) -> (r: Result<Request, TranslateError>)
        requires
            self.wf(),
            index < self@.queue.len(),
            template_accepted(job.system@),
            template_accepted(job.user@),
        ensures
            match (
                system_prompt(*job),
                user_prompt(*job, self@.queue, index as int, self@.role),
            ) {
                (Some(system), Some(user)) => {
                    &&& r is Ok
                    &&& r->Ok_0.model@ == job.llm.model@
                    &&& r->Ok_0.system@ == system
                    &&& r->Ok_0.user@ == user
                },
                _ => r matches Err(TranslateError::Template(_)),
            },
    {
        unit_request(job, &self.queue, index, self.role)
    }
}

/// The model of a reply.
pub open spec fn reply_view(reply: Result<String, TranslateError>) -> Result<
    Seq<char>,
    TranslateError,
> {
    match reply {
        Ok(answer) => Ok(answer@),
        Err(failure) => Err(failure),
    }
}

/// Tells whether two states are the same.
fn same_state(a: UnitState, b: UnitState) -> (same: bool)
    ensures
        same == (a == b),
{
    match (a, b) {
        (UnitState::Pending, UnitState::Pending) => true,
        (UnitState::InFlight, UnitState::InFlight) => true,
        (UnitState::Retrying, UnitState::Retrying) => true,
        (UnitState::Done, UnitState::Done) => true,
        (UnitState::Failed, UnitState::Failed) => true,
        _ => false,
    }
}

/// The text on record, or no text.
pub open spec fn recorded(answer: Option<Seq<char>>) -> Seq<char> {
    match answer {
        Some(text) => text,
        None => Seq::empty(),
    }
}

/// Puts answers that came in any order back into the order of the queue.
/// Each answer is tagged with the position of its unit, and comes out at that
/// position; a position that no answer is tagged with holds the empty text.
pub fn restore_order(tagged: Vec<(usize, String)>, n: usize) -> (ordered: Vec<String>)
    ensures
        ordered@.len() == n,
        forall|i: int|
            0 <= i < n ==> (#[trigger] ordered@[i])@ == recorded(
                answers_upto(tagged@, tagged@.len(), n as nat)[i],
            ),
{
    let mut ordered: Vec<String> = Vec::new();
    let mut i: usize = 0;
    while i < n
        invariant
            i <= n,
            ordered@.len() == i,
            forall|k: int| 0 <= k < i ==> (#[trigger] ordered@[k])@ == Seq::<char>::empty(),
        decreases n - i,
    {
        ordered.push(String::new());
        i = i + 1;
    }
    let mut j: usize = 0;
    for entry in it: tagged
        invariant
            it.seq() == tagged@,
            ordered@.len() == n,
            forall|i: int|
                0 <= i < n ==> (#[trigger] ordered@[i])@ == recorded(
                    answers_upto(tagged@, it.index() as nat, n as nat)[i],
                ),
    {
        proof {
            lemma_answers_len(tagged@, it.index() as nat, n as nat);
        }
        let (position, text) = entry;
        if position < n {
            ordered.set(position, text);
        }
    }
    ordered
}

} // verus!
