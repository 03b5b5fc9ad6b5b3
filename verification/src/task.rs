//! Asynchronous tasks: what a future knows, and when the pool starts, parks and retires
//! its threads.
//!
//! A body waits in the future it resolves until somebody takes it. Whoever awaits a
//! future whose body nobody took runs it there and then, so a chain of awaits costs
//! stack and not threads. The pool bounds how much runs side by side.

use vstd::prelude::*;

use crate::gc::Heap;
use crate::heap::{ObjHeader, ObjKind};
use crate::obj::{Cell, Obj};
use crate::value::JadeValue;
#[allow(unused_imports)]
use crate::ffi_coll::object_at;
#[allow(unused_imports)]
use crate::gc::{counts_leave, edit_keeps_cells, points_at, release};
#[allow(unused_imports)]
use crate::gc::{retain_all, word_roundtrip, MAX_CELLS};
#[allow(unused_imports)]
use crate::grammarf::opt_text;
#[allow(unused_imports)]
use crate::heap::spec_kind_byte;
#[allow(unused_imports)]
use crate::value::{decode, Val};

verus! {

// ── Futures ──────────────────────────────────────────────────────────────────

/// A task body and its arguments, waiting for a thread.
pub struct Job {
    /// The body.
    pub f: usize,
    /// The arguments.
    pub args: Vec<i64>,
    /// Whether the job took a reference to each argument.
    pub owns_args: bool,
}

/// What a future knows of its task.
pub struct FutState {
    /// The body has finished.
    pub done: bool,
    /// The result has been handed to an awaiter.
    pub consumed: bool,
    /// The result word.
    pub result: i64,
    /// The body raised.
    pub failed: bool,
    /// The word it raised.
    pub error: i64,
    /// The struct type of the raised word.
    pub error_type: Option<String>,
    /// The body, until somebody takes it.
    pub pending: Option<Job>,
    /// Nobody wants the result any more.
    pub cancelled: bool,
}

/// A handle to an in-flight task.
pub struct FutureObj {
    /// The object header.
    pub header: ObjHeader,
    /// What it knows of its task.
    pub state: FutState,
}

/// Why an await failed.
pub enum TaskError {
    /// The word awaited is not a future.
    NotAFuture,
    /// The result was already taken.
    DoubleAwait,
    /// The body raised this word, of this struct type.
    Raised(i64, Option<String>),
    /// The caller cancelled it.
    Cancelled,
}

/// What an await comes to: the result, or why there is none.
pub enum Outcome {
    /// The body returned this word.
    Value(i64),
    /// The word awaited is not a future.
    NotAFuture,
    /// The result was already taken.
    DoubleAwait,
    /// The body raised this word, of this struct type.
    Raised(i64, Option<Seq<char>>),
    /// The caller cancelled it.
    Cancelled,
}

/// What an await came to.
pub open spec fn outcome(r: Result<i64, TaskError>) -> Outcome {
    match r {
        Ok(v) => Outcome::Value(v),
        Err(TaskError::NotAFuture) => Outcome::NotAFuture,
        Err(TaskError::DoubleAwait) => Outcome::DoubleAwait,
        Err(TaskError::Raised(e, t)) => Outcome::Raised(e, opt_text(t)),
        Err(TaskError::Cancelled) => Outcome::Cancelled,
    }
}

impl FutState {
    /// There is something to take: the body is done, or nobody wants it.
    pub open spec fn settled(self) -> bool {
        self.done || self.cancelled
    }

    /// What taking the result comes to. Cancelling outranks everything, and a result is
    /// taken once.
    pub open spec fn taken(self) -> Outcome {
        if self.cancelled {
            Outcome::Cancelled
        } else if self.consumed {
            Outcome::DoubleAwait
        } else if self.failed {
            Outcome::Raised(self.error, opt_text(self.error_type))
        } else {
            Outcome::Value(self.result)
        }
    }

    /// The state after taking the result.
    pub open spec fn after_take(self) -> FutState {
        FutState { consumed: self.consumed || !self.cancelled, ..self }
    }

    /// What an awaiter does next.
    pub open spec fn next_step(self) -> AwaitStep {
        if self.cancelled {
            AwaitStep::Take
        } else {
            match self.pending {
                Some(job) => AwaitStep::Run(job),
                None => if self.done {
                    AwaitStep::Take
                } else {
                    AwaitStep::Wait
                },
            }
        }
    }

    /// The state once an awaiter knows what it does next: it has the body, if it runs it.
    pub open spec fn after_step(self) -> FutState {
        if self.cancelled {
            self
        } else {
            FutState { pending: None, ..self }
        }
    }

    /// The state once the body has come to `r`.
    pub open spec fn completed(self, r: Result<i64, (i64, Option<String>)>) -> FutState {
        match r {
            Ok(v) => FutState { result: v, done: true, ..self },
            Err((e, t)) => FutState { failed: true, error: e, error_type: t, done: true, ..self },
        }
    }
}

/// What an awaiter does next.
pub enum AwaitStep {
    /// Run the body, which nobody had taken.
    Run(Job),
    /// Wait for whoever is running it.
    Wait,
    /// Take the result.
    Take,
}

impl FutureObj {
    /// The word a future still owns: an outcome nobody took.
    pub open spec fn owned_words(self) -> Seq<i64> {
        if self.state.consumed {
            seq![]
        } else if self.state.failed {
            seq![self.state.error]
        } else {
            seq![self.state.result]
        }
    }

    /// The word a future still owns.
    pub fn owned(&self) -> (v: Vec<i64>)
        ensures
            v@ == self.owned_words(),
    {
        let mut v: Vec<i64> = Vec::new();
        if self.state.consumed {
            return v;
        }
        if self.state.failed {
            v.push(self.state.error);
        } else {
            v.push(self.state.result);
        }
        assert(v@ =~= self.owned_words());
        v
    }

    /// A future whose body waits for a thread; or, without a body, for a deadline.
    pub fn new(pending: Option<Job>) -> (f: Self)
        ensures
            f.header.fresh(ObjKind::Future),
            f.header.len == 0,
            f.state.pending == pending,
            !f.state.done && !f.state.consumed && !f.state.failed && !f.state.cancelled,
            f.state.result == 0 && f.state.error == 0 && f.state.error_type is None,
    {
        FutureObj {
            header: ObjHeader::new(ObjKind::Future, 0),
            state: FutState {
                done: false,
                consumed: false,
                result: 0,
                failed: false,
                error: 0,
                error_type: None,
                pending,
                cancelled: false,
            },
        }
    }

    /// Take the body, if nobody did yet.
    pub fn claim(&mut self) -> (r: Option<Job>)
        ensures
            r == old(self).state.pending,
            *final(self) == (FutureObj {
                state: FutState { pending: None, ..old(self).state },
                ..*old(self)
            }),
    {
        let mut job: Option<Job> = None;
        core::mem::swap(&mut job, &mut self.state.pending);
        job
    }

    /// Publish what the body came to.
    pub fn complete(&mut self, r: Result<i64, (i64, Option<String>)>)
        ensures
            *final(self) == (FutureObj { state: old(self).state.completed(r), ..*old(self) }),
    {
        match r {
            Ok(v) => {
                self.state.result = v;
            },
            Err((e, t)) => {
                self.state.failed = true;
                self.state.error = e;
                self.state.error_type = t;
            },
        }
        self.state.done = true;
    }

    /// What an awaiter does next: fail at once if it was cancelled, run the body if nobody
    /// took it, else wait until there is something to take. The body of a cancelled
    /// future is left to the queue: cancelling does not stop the work.
    pub fn await_step(&mut self) -> (r: AwaitStep)
        ensures
            r == old(self).state.next_step(),
            *final(self) == (FutureObj { state: old(self).state.after_step(), ..*old(self) }),
    {
        if self.state.cancelled {
            return AwaitStep::Take;
        }
        match self.claim() {
            Some(job) => AwaitStep::Run(job),
            None => if self.state.done {
                AwaitStep::Take
            } else {
                AwaitStep::Wait
            },
        }
    }

    /// Take the result of a future there is something to take from.
    pub fn take(&mut self) -> (r: Result<i64, TaskError>)
        requires
            old(self).state.settled(),
        ensures
            outcome(r) == old(self).state.taken(),
            *final(self) == (FutureObj { state: old(self).state.after_take(), ..*old(self) }),
    {
        if self.state.cancelled {
            return Err(TaskError::Cancelled);
        }
        if self.state.consumed {
            return Err(TaskError::DoubleAwait);
        }
        self.state.consumed = true;
        if self.state.failed {
            let t: Option<String> = match &self.state.error_type {
                Some(s) => Some(s.clone()),
                None => None,
            };
            Err(TaskError::Raised(self.state.error, t))
        } else {
            Ok(self.state.result)
        }
    }

    /// Stop waiting. The work goes on; awaiting it is an error from now on.
    pub fn cancel(&mut self)
        ensures
            *final(self) == (FutureObj {
                state: FutState { cancelled: true, ..old(self).state },
                ..*old(self)
            }),
    {
        self.state.cancelled = true;
    }

    /// Whether the body has finished.
    pub fn is_done(&self) -> (r: bool)
        ensures
            r == self.state.done,
    {
        self.state.done
    }

    /// Whether nobody wants the result any more.
    pub fn is_cancelled(&self) -> (r: bool)
        ensures
            r == self.state.cancelled,
    {
        self.state.cancelled
    }
}

// ── Futures by their words ───────────────────────────────────────────────────

/// The future a word points at.
pub open spec fn future_at(cells: Seq<Cell>, w: i64) -> Option<FutureObj> {
    match object_at(cells, w) {
        Some(Obj::Future(f)) => Some(f),
        _ => None,
    }
}

/// The cells after the future of a word becomes `f`.
pub open spec fn with_future(cells: Seq<Cell>, w: i64, f: FutureObj) -> Seq<Cell> {
    cells.update(points_at(w), Cell::Obj(Obj::Future(f)))
}

/// Whether a word points at a future.
pub fn as_future(h: &Heap, w: i64) -> (r: Option<&FutureObj>)
    ensures
        match future_at(h.cells@, w) {
            Some(f) => r matches Some(x) && *x == f,
            None => r is None,
        },
{
    match h.object(w) {
        Some(Obj::Future(f)) => Some(f),
        _ => None,
    }
}

/// The number of the cell of a future.
fn future_cell(h: &Heap, w: i64) -> (r: Option<usize>)
    ensures
        match r {
            Some(i) => future_at(h.cells@, w) is Some && i == points_at(w) && i < h.cells@.len(),
            None => future_at(h.cells@, w) is None,
        },
{
    match as_future(h, w) {
        Some(_) => {
            let v = JadeValue::from_word(w);
            let n: usize = h.cells.len();
            assert(points_at(w) < n);
            Some((v.as_ptr() / 8 - 1) as usize)
        },
        None => None,
    }
}

/// The answer for a word that is not a future.
pub const NOT_A_FUTURE: i32 = -1;

/// The answer for an empty list.
pub const NOTHING_TO_WAIT_FOR: i32 = -2;

/// The answer for a future already awaited.
pub const DOUBLE_AWAITED: i32 = -3;

/// The answer for a delay that is not a number.
pub const NOT_A_NUMBER: i64 = -1;

/// The answer when there is no thread to fire deadlines.
pub const NO_TIMER_THREAD: i64 = -3;

/// `ready(f)`: 1 when the future is done, 0 when it is not, -1 for anything else.
pub fn jrt_future_ready(h: &Heap, w: i64) -> (r: i32)
    ensures
        r == (match future_at(h.cells@, w) {
            Some(f) => if f.state.done {
                1i32
            } else {
                0i32
            },
            None => NOT_A_FUTURE,
        }),
{
    match as_future(h, w) {
        Some(f) => if f.is_done() {
            1
        } else {
            0
        },
        None => NOT_A_FUTURE,
    }
}

/// `cancel(f)`: 0, or -1 for a word that is not a future.
pub fn jrt_future_cancel(h: &mut Heap, w: i64) -> (r: i32)
    requires
        old(h).wf(),
    ensures
        final(h).wf(),
        final(h).rc_on == old(h).rc_on,
        match future_at(old(h).cells@, w) {
            Some(f) => r == 0 && final(h).cells@ == with_future(
                old(h).cells@,
                w,
                FutureObj { state: FutState { cancelled: true, ..f.state }, ..f },
            ),
            None => r == NOT_A_FUTURE && final(h).cells@ == old(h).cells@,
        },
{
    let i: usize = match future_cell(h, w) {
        Some(i) => i,
        None => {
            return NOT_A_FUTURE;
        },
    };
    let ghost before = h.cells@;
    match &mut h.cells[i] {
        Cell::Obj(Obj::Future(f)) => {
            f.cancel();
        },
        _ => {},
    }
    proof {
        let o = h.cells@[i as int]->Obj_0;
        edit_keeps_cells(before, i as int, o);
        assert(h.cells@ =~= before.update(i as int, Cell::Obj(o)));
    }
    0
}

/// Whether the task that is running has been cancelled; no task cannot be.
pub fn current_is_cancelled(h: &Heap, current: Option<i64>) -> (r: bool)
    ensures
        r == (current matches Some(w) && (future_at(h.cells@, w) matches Some(f)
            && f.state.cancelled)),
{
    match current {
        Some(w) => match as_future(h, w) {
            Some(f) => f.is_cancelled(),
            None => false,
        },
        None => false,
    }
}

/// What an awaiter of a word does next; an error for a word that is not a future.
pub fn jrt_await_step(h: &mut Heap, w: i64) -> (r: Result<AwaitStep, TaskError>)
    requires
        old(h).wf(),
    ensures
        final(h).wf(),
        final(h).rc_on == old(h).rc_on,
        match future_at(old(h).cells@, w) {
            Some(f) => r == Ok::<AwaitStep, TaskError>(f.state.next_step()) && final(h).cells@
                == with_future(
                old(h).cells@,
                w,
                FutureObj { state: f.state.after_step(), ..f },
            ),
            None => r == Err::<AwaitStep, TaskError>(TaskError::NotAFuture) && final(h).cells@
                == old(h).cells@,
        },
{
    let i: usize = match future_cell(h, w) {
        Some(i) => i,
        None => {
            return Err(TaskError::NotAFuture);
        },
    };
    let ghost before = h.cells@;
    let mut step = AwaitStep::Take;
    match &mut h.cells[i] {
        Cell::Obj(Obj::Future(f)) => {
            step = f.await_step();
        },
        _ => {},
    }
    proof {
        let o = h.cells@[i as int]->Obj_0;
        edit_keeps_cells(before, i as int, o);
        assert(h.cells@ =~= before.update(i as int, Cell::Obj(o)));
    }
    Ok(step)
}

/// Take the body of a word's future, if nobody did yet: what a thread of the pool does
/// with the next of the queue, cancelled or not.
pub fn claim_job(h: &mut Heap, w: i64) -> (r: Option<Job>)
    requires
        old(h).wf(),
    ensures
        final(h).wf(),
        final(h).rc_on == old(h).rc_on,
        match future_at(old(h).cells@, w) {
            Some(f) => r == f.state.pending && final(h).cells@ == with_future(
                old(h).cells@,
                w,
                FutureObj { state: FutState { pending: None, ..f.state }, ..f },
            ),
            None => r is None && final(h).cells@ == old(h).cells@,
        },
{
    let i: usize = match future_cell(h, w) {
        Some(i) => i,
        None => {
            return None;
        },
    };
    let ghost before = h.cells@;
    let mut job: Option<Job> = None;
    match &mut h.cells[i] {
        Cell::Obj(Obj::Future(f)) => {
            job = f.claim();
        },
        _ => {},
    }
    proof {
        let o = h.cells@[i as int]->Obj_0;
        edit_keeps_cells(before, i as int, o);
        assert(h.cells@ =~= before.update(i as int, Cell::Obj(o)));
    }
    job
}

/// Take the result of a word there is something to take from. A word that is not a
/// future is an error.
pub fn jrt_await_word(h: &mut Heap, w: i64) -> (r: Result<i64, TaskError>)
    requires
        old(h).wf(),
        future_at(old(h).cells@, w) matches Some(f) ==> f.state.settled(),
    ensures
        final(h).wf(),
        final(h).rc_on == old(h).rc_on,
        match future_at(old(h).cells@, w) {
            Some(f) => outcome(r) == f.state.taken() && final(h).cells@ == with_future(
                old(h).cells@,
                w,
                FutureObj { state: f.state.after_take(), ..f },
            ),
            None => outcome(r) == Outcome::NotAFuture && final(h).cells@ == old(h).cells@,
        },
{
    let i: usize = match future_cell(h, w) {
        Some(i) => i,
        None => {
            return Err(TaskError::NotAFuture);
        },
    };
    let ghost before = h.cells@;
    let mut r: Result<i64, TaskError> = Err(TaskError::NotAFuture);
    match &mut h.cells[i] {
        Cell::Obj(Obj::Future(f)) => {
            r = f.take();
        },
        _ => {},
    }
    proof {
        let o = h.cells@[i as int]->Obj_0;
        edit_keeps_cells(before, i as int, o);
        assert(h.cells@ =~= before.update(i as int, Cell::Obj(o)));
    }
    r
}

/// How an await is told to generated code: the result or 0, whether and how it failed,
/// the raised word or 0, and the type of the raised word.
pub open spec fn told(o: Outcome) -> (int, int, int, Option<Seq<char>>) {
    match o {
        Outcome::Value(v) => (v as int, 0, 0, None),
        Outcome::Raised(e, t) => (0, 1, e as int, t),
        Outcome::DoubleAwait => (0, 2, 0, None),
        Outcome::NotAFuture => (0, 3, 0, None),
        Outcome::Cancelled => (0, 4, 0, None),
    }
}

/// How an await is told to generated code.
pub fn report(r: Result<i64, TaskError>) -> (out: (i64, i32, i64, Option<String>))
    ensures
        (out.0 as int, out.1 as int, out.2 as int, opt_text(out.3)) == told(outcome(r)),
{
    match r {
        Ok(v) => (v, 0, 0, None),
        Err(TaskError::Raised(e, t)) => (0, 1, e, t),
        Err(TaskError::DoubleAwait) => (0, 2, 0, None),
        Err(TaskError::NotAFuture) => (0, 3, 0, None),
        Err(TaskError::Cancelled) => (0, 4, 0, None),
    }
}

// ── Several futures ──────────────────────────────────────────────────────────

/// The first of the words that is settled is the one at `i`.
pub open spec fn first_settled(cells: Seq<Cell>, ws: Seq<i64>, i: int) -> bool {
    &&& 0 <= i < ws.len()
    &&& future_at(cells, ws[i]) matches Some(f) && f.state.settled()
    &&& forall|k: int|
        0 <= k < i ==> !(future_at(cells, #[trigger] ws[k]) matches Some(f) && f.state.settled())
}

/// All the words are futures.
pub open spec fn all_futures(cells: Seq<Cell>, ws: Seq<i64>) -> bool {
    forall|k: int| 0 <= k < ws.len() ==> future_at(cells, #[trigger] ws[k]) is Some
}

/// Whether all the words are futures.
pub fn are_futures(h: &Heap, ws: &[i64]) -> (r: bool)
    ensures
        r == all_futures(h.cells@, ws@),
{
    let mut i: usize = 0;
    while i < ws.len()
        invariant
            i <= ws@.len(),
            forall|k: int| 0 <= k < i ==> future_at(h.cells@, #[trigger] ws@[k]) is Some,
        decreases ws@.len() - i,
    {
        if as_future(h, ws[i]).is_none() {
            assert(future_at(h.cells@, ws@[i as int]) is None);
            return false;
        }
        i += 1;
    }
    true
}

/// `wait_any(fs)`: the lowest index that is settled; nothing yet when none is. Waiting
/// for nothing, and for something that is not a future, is answered at once.
pub fn jrt_wait_any(h: &Heap, ws: &[i64]) -> (r: Option<i32>)
    requires
        ws@.len() <= i32::MAX,
    ensures
        ws@.len() == 0 ==> r == Some(NOTHING_TO_WAIT_FOR),
        ws@.len() > 0 && !all_futures(h.cells@, ws@) ==> r == Some(NOT_A_FUTURE),
        ws@.len() > 0 && all_futures(h.cells@, ws@) ==> (match r {
            Some(i) => first_settled(h.cells@, ws@, i as int),
            None => forall|i: int| !first_settled(h.cells@, ws@, i),
        }),
{
    if ws.len() == 0 {
        return Some(NOTHING_TO_WAIT_FOR);
    }
    if !are_futures(h, ws) {
        return Some(NOT_A_FUTURE);
    }
    let mut i: usize = 0;
    while i < ws.len()
        invariant
            i <= ws@.len() <= i32::MAX,
            ws@.len() > 0,
            all_futures(h.cells@, ws@),
            forall|k: int|
                0 <= k < i ==> !(future_at(h.cells@, #[trigger] ws@[k]) matches Some(f)
                    && f.state.settled()),
        decreases ws@.len() - i,
    {
        match as_future(h, ws[i]) {
            Some(f) => {
                if f.is_done() || f.is_cancelled() {
                    assert(first_settled(h.cells@, ws@, i as int));
                    return Some(i as i32);
                }
            },
            None => {},
        }
        i += 1;
    }
    None
}

/// The words were awaited in turn, and came to these.
pub open spec fn awaited<F: Fn(i64) -> Result<i64, TaskError>>(
    wait: F,
    ws: Seq<i64>,
    os: Seq<Result<i64, TaskError>>,
) -> bool {
    &&& os.len() <= ws.len()
    &&& forall|i: int| 0 <= i < os.len() ==> call_ensures(wait, (ws[i],), #[trigger] os[i])
}

/// What a join writes in each place: the result, or 0.
pub open spec fn slots(os: Seq<Result<i64, TaskError>>) -> Seq<i64> {
    Seq::new(
        os.len(),
        |i: int|
            match os[i] {
                Ok(v) => v,
                Err(_) => 0i64,
            },
    )
}

/// The first error among the outcomes is `e`.
pub open spec fn first_error(os: Seq<Result<i64, TaskError>>, e: Option<TaskError>) -> bool {
    match e {
        Some(x) => exists|i: int|
            0 <= i < os.len() && #[trigger] os[i] == Err::<i64, TaskError>(x) && forall|k: int|
                0 <= k < i ==> (#[trigger] os[k]) is Ok,
        None => forall|k: int| 0 <= k < os.len() ==> (#[trigger] os[k]) is Ok,
    }
}

/// The join of all outcomes, whatever they are.
pub open spec fn joined_as(
    os: Seq<Result<i64, TaskError>>,
    vals: Seq<i64>,
    e: Option<TaskError>,
) -> bool {
    vals == slots(os) && first_error(os, e)
}

/// Await every word in order, whatever the others come to. The answer has a place for
/// each, and the first error.
pub fn jrt_join_words<F: Fn(i64) -> Result<i64, TaskError>>(ws: &[i64], wait: &F) -> (r: (
    Vec<i64>,
    Option<TaskError>,
))
    requires
        forall|w: i64| call_requires(*wait, (w,)),
    ensures
        exists|os: Seq<Result<i64, TaskError>>| #[trigger]
            awaited(*wait, ws@, os) && os.len() == ws@.len() && joined_as(os, r.0@, r.1),
{
    let mut out: Vec<i64> = Vec::new();
    let mut first: Option<TaskError> = None;
    let ghost mut os: Seq<Result<i64, TaskError>> = Seq::empty();
    assert(out@ =~= slots(os));
    let mut i: usize = 0;
    while i < ws.len()
        invariant
            i <= ws@.len(),
            os.len() == i,
            awaited(*wait, ws@, os),
            joined_as(os, out@, first),
            forall|w: i64| call_requires(*wait, (w,)),
        decreases ws@.len() - i,
    {
        let ghost before = os;
        let got: Result<i64, TaskError> = wait(ws[i]);
        proof {
            os = os.push(got);
            assert(call_ensures(*wait, (ws@[i as int],), got));
            assert forall|k: int| 0 <= k < os.len() implies call_ensures(
                *wait,
                (ws@[k],),
                #[trigger] os[k],
            ) by {
                if k < before.len() {
                    assert(os[k] == before[k]);
                }
            }
        }
        match got {
            Ok(v) => {
                out.push(v);
                proof {
                    assert(out@ =~= slots(os));
                    first_error_pushed(before, os[i as int], first);
                }
            },
            Err(e) => {
                out.push(0);
                proof {
                    assert(out@ =~= slots(os));
                }
                if first.is_none() {
                    first = Some(e);
                    assert(os[i as int] == Err::<i64, TaskError>(e));
                } else {
                    proof {
                        first_error_pushed(before, os[i as int], first);
                    }
                }
            },
        }
        i += 1;
    }
    (out, first)
}

/// One more outcome does not change the first error, unless it is the first.
proof fn first_error_pushed(
    os: Seq<Result<i64, TaskError>>,
    x: Result<i64, TaskError>,
    e: Option<TaskError>,
)
    requires
        first_error(os, e),
        x is Ok || e is Some,
    ensures
        first_error(os.push(x), e),
{
    let p = os.push(x);
    match e {
        Some(y) => {
            let i = choose|i: int|
                0 <= i < os.len() && #[trigger] os[i] == Err::<i64, TaskError>(y) && forall|k: int|
                    0 <= k < i ==> (#[trigger] os[k]) is Ok;
            assert(p[i] == os[i]);
            assert forall|k: int| 0 <= k < i implies (#[trigger] p[k]) is Ok by {
                assert(p[k] == os[k]);
            }
        },
        None => {
            assert forall|k: int| 0 <= k < p.len() implies (#[trigger] p[k]) is Ok by {
                if k < os.len() {
                    assert(p[k] == os[k]);
                }
            }
        },
    }
}

/// Await every future in order. The results, or the first error once all are done.
pub fn join_all<F: Fn(i64) -> Result<i64, TaskError>>(ws: &[i64], wait: &F) -> (r: Result<
    Vec<i64>,
    TaskError,
>)
    requires
        forall|w: i64| call_requires(*wait, (w,)),
    ensures
        exists|os: Seq<Result<i64, TaskError>>| #[trigger]
            awaited(*wait, ws@, os) && os.len() == ws@.len() && (match r {
                Ok(v) => joined_as(os, v@, None),
                Err(e) => first_error(os, Some(e)),
            }),
{
    let (out, first) = jrt_join_words(ws, wait);
    match first {
        Some(e) => Err(e),
        None => Ok(out),
    }
}

/// How a settled join shows one outcome: the value and whether it is a result. Nothing
/// for an outcome that is the caller's mistake.
pub open spec fn shown(o: Outcome, v: i64, ok: int) -> bool {
    match o {
        Outcome::Value(x) => v == x && ok == 1,
        Outcome::Raised(e, _) => v == e && ok == 0,
        Outcome::Cancelled => decode(v as u64) == Val::Nil && ok == 0,
        _ => false,
    }
}

/// The outcome is the caller's mistake, and has this code.
pub open spec fn mistake(o: Outcome) -> Option<int> {
    match o {
        Outcome::DoubleAwait => Some(DOUBLE_AWAITED as int),
        Outcome::NotAFuture => Some(NOT_A_FUTURE as int),
        _ => None,
    }
}

/// The pairs show the outcomes.
pub open spec fn shows(os: Seq<Result<i64, TaskError>>, v: Seq<(i64, i32)>) -> bool {
    &&& v.len() == os.len()
    &&& forall|i: int|
        0 <= i < v.len() ==> shown(outcome(os[i]), (#[trigger] v[i]).0, v[i].1 as int)
}

/// The answer of a settled join of `n` words: all outcomes shown, or the code of the
/// first that is the caller's mistake, with nothing awaited after it.
pub open spec fn settles(
    os: Seq<Result<i64, TaskError>>,
    n: nat,
    r: Result<Vec<(i64, i32)>, i32>,
) -> bool {
    match r {
        Ok(v) => os.len() == n && shows(os, v@),
        Err(code) => {
            &&& os.len() > 0
            &&& mistake(outcome(os.last())) == Some(code as int)
            &&& forall|k: int|
                0 <= k < os.len() - 1 ==> mistake(outcome(#[trigger] os[k])) is None
        },
    }
}

/// The caller answers that each of the first `n` words is a future.
pub open spec fn found_futures<P: Fn(i64) -> bool>(is_future: P, ws: Seq<i64>, n: int) -> bool {
    forall|i: int| 0 <= i < n ==> call_ensures(is_future, (#[trigger] ws[i],), true)
}

/// The caller answers that the word at `i` is the first that is no future.
pub open spec fn found_other<P: Fn(i64) -> bool>(is_future: P, ws: Seq<i64>, i: int) -> bool {
    &&& 0 <= i < ws.len()
    &&& found_futures(is_future, ws, i)
    &&& call_ensures(is_future, (ws[i],), false)
}

/// All the words were awaited in turn, up to the first that is the caller's mistake.
pub open spec fn settles_all<F: Fn(i64) -> Result<i64, TaskError>>(
    wait: F,
    ws: Seq<i64>,
    r: Result<Vec<(i64, i32)>, i32>,
) -> bool {
    exists|os: Seq<Result<i64, TaskError>>| #[trigger]
        awaited(wait, ws, os) && settles(os, ws.len(), r)
}

/// Whether the caller takes every word for a future.
fn check_futures<P: Fn(i64) -> bool>(ws: &[i64], is_future: &P) -> (r: bool)
    requires
        forall|w: i64| call_requires(*is_future, (w,)),
    ensures
        r ==> found_futures(*is_future, ws@, ws@.len() as int),
        !r ==> exists|i: int| #[trigger] found_other(*is_future, ws@, i),
{
    let mut i: usize = 0;
    while i < ws.len()
        invariant
            i <= ws@.len(),
            found_futures(*is_future, ws@, i as int),
            forall|w: i64| call_requires(*is_future, (w,)),
        decreases ws@.len() - i,
    {
        let b: bool = is_future(ws[i]);
        if !b {
            assert(found_other(*is_future, ws@, i as int));
            return false;
        }
        i += 1;
    }
    true
}

/// `join(fs, settle = true)`: await every word in order and show each outcome. Every word
/// is checked before any is awaited: one that is no future is answered at once, with
/// nothing awaited. Behind that, a future already awaited ends it with a code.
pub fn jrt_join_settle<P: Fn(i64) -> bool, F: Fn(i64) -> Result<i64, TaskError>>(
    ws: &[i64],
    is_future: &P,
    wait: &F,
) -> (r: Result<Vec<(i64, i32)>, i32>)
    requires
        forall|w: i64| call_requires(*is_future, (w,)),
        forall|w: i64| call_requires(*wait, (w,)),
    ensures
        ({
            ||| (exists|i: int| #[trigger] found_other(*is_future, ws@, i)) && r
                == Err::<Vec<(i64, i32)>, i32>(NOT_A_FUTURE)
            ||| found_futures(*is_future, ws@, ws@.len() as int) && settles_all(*wait, ws@, r)
        }),
{
    if !check_futures(ws, is_future) {
        return Err(NOT_A_FUTURE);
    }
    settle_each(ws, wait)
}

/// Await every word in order and show each outcome. The first that is the caller's
/// mistake ends it with a code.
fn settle_each<F: Fn(i64) -> Result<i64, TaskError>>(ws: &[i64], wait: &F) -> (r: Result<
    Vec<(i64, i32)>,
    i32,
>)
    requires
        forall|w: i64| call_requires(*wait, (w,)),
    ensures
        settles_all(*wait, ws@, r),
{
    let mut out: Vec<(i64, i32)> = Vec::new();
    let ghost mut os: Seq<Result<i64, TaskError>> = Seq::empty();
    let mut i: usize = 0;
    while i < ws.len()
        invariant
            i <= ws@.len(),
            os.len() == i,
            awaited(*wait, ws@, os),
            shows(os, out@),
            forall|k: int| 0 <= k < os.len() ==> mistake(outcome(#[trigger] os[k])) is None,
            forall|w: i64| call_requires(*wait, (w,)),
        decreases ws@.len() - i,
    {
        let ghost before = os;
        let ghost shown_before = out@;
        let got: Result<i64, TaskError> = wait(ws[i]);
        proof {
            os = os.push(got);
            assert forall|k: int| 0 <= k < os.len() implies call_ensures(
                *wait,
                (ws@[k],),
                #[trigger] os[k],
            ) by {
                if k < before.len() {
                    assert(os[k] == before[k]);
                }
            }
            assert forall|k: int| 0 <= k < os.len() - 1 implies mistake(
                outcome(#[trigger] os[k]),
            ) is None by {
                assert(os[k] == before[k]);
            }
            assert(os.last() == got);
        }
        let pair: (i64, i32) = match got {
            Ok(v) => (v, 1),
            Err(TaskError::Raised(e, _)) => (e, 0),
            Err(TaskError::Cancelled) => {
                let v = JadeValue::nil();
                proof {
                    word_roundtrip(v.bits);
                }
                (v.word(), 0)
            },
            Err(TaskError::DoubleAwait) => {
                assert(settles(os, ws@.len(), Err(DOUBLE_AWAITED)));
                assert(awaited(*wait, ws@, os));
                return Err(DOUBLE_AWAITED);
            },
            Err(TaskError::NotAFuture) => {
                assert(settles(os, ws@.len(), Err(NOT_A_FUTURE)));
                assert(awaited(*wait, ws@, os));
                return Err(NOT_A_FUTURE);
            },
        };
        out.push(pair);
        proof {
            assert forall|k: int| 0 <= k < out@.len() implies shown(
                outcome(os[k]),
                (#[trigger] out@[k]).0,
                out@[k].1 as int,
            ) by {
                if k < before.len() {
                    assert(out@[k] == shown_before[k]);
                }
            }
        }
        i += 1;
    }
    Ok(out)
}

// ── Spawning and finishing ───────────────────────────────────────────────────

/// A new future that two hold: whoever spawned it, and whoever will finish it.
pub open spec fn new_future(
    before: Seq<Cell>,
    after: Seq<Cell>,
    w: i64,
    pending: Option<Job>,
) -> bool {
    &&& after.len() == before.len() + 1
    &&& after.drop_last() == before
    &&& points_at(w) == before.len()
    &&& future_at(after, w) matches Some(f) && {
        &&& f.header.rc == 2 && f.header.with_rc(1).fresh(ObjKind::Future)
        &&& f.state.pending == pending
        &&& !f.state.done && !f.state.consumed && !f.state.failed && !f.state.cancelled
        &&& f.state.result == 0 && f.state.error == 0 && f.state.error_type is None
    }
}

/// Allocate a future that two hold.
fn leak_future(h: &mut Heap, pending: Option<Job>) -> (w: i64)
    requires
        old(h).wf(),
        old(h).cells@.len() < MAX_CELLS,
    ensures
        final(h).wf(),
        final(h).rc_on == old(h).rc_on,
        new_future(old(h).cells@, final(h).cells@, w, pending),
{
    let w: i64 = h.leak_obj(Obj::Future(FutureObj::new(pending)));
    h.jrt_incref(w);
    assert(h.cells@.drop_last() =~= old(h).cells@);
    w
}

/// `spawn f(args)`: a future whose body waits for a thread. The task outlives the
/// expression that spawned it, so it takes a reference to every argument it owns.
pub fn spawn(h: &mut Heap, f: usize, args: Vec<i64>, owns_args: bool) -> (w: i64)
    requires
        old(h).wf(),
        old(h).cells@.len() < MAX_CELLS,
        counts_leave(old(h).cells@, args@.len() as int),
    ensures
        final(h).wf(),
        final(h).rc_on == old(h).rc_on,
        new_future(
            if owns_args {
                retain_all(old(h).cells@, args@, args@.len())
            } else {
                old(h).cells@
            },
            final(h).cells@,
            w,
            Some(Job { f, args, owns_args }),
        ),
{
    if owns_args {
        h.incref_all(args.as_slice());
    }
    leak_future(h, Some(Job { f, args, owns_args }))
}

/// The cells after a reference to each of the first `n` words is dropped, in order.
pub open spec fn release_each(cells: Seq<Cell>, ws: Seq<i64>, n: nat) -> Seq<Cell>
    decreases n,
{
    if n == 0 {
        cells
    } else {
        release(release_each(cells, ws, (n - 1) as nat), seq![ws[n - 1]])
    }
}

/// A body has come to `r`: drop the references the job took, and publish the outcome on
/// the future.
pub fn finish_job(
    h: &mut Heap,
    w: i64,
    args: &[i64],
    owns_args: bool,
    r: Result<i64, (i64, Option<String>)>,
)
    requires
        old(h).wf(),
    ensures
        final(h).wf(),
        final(h).rc_on == old(h).rc_on,
        ({
            let mid = if owns_args {
                release_each(old(h).cells@, args@, args@.len())
            } else {
                old(h).cells@
            };
            match future_at(mid, w) {
                Some(f) => final(h).cells@ == with_future(
                    mid,
                    w,
                    FutureObj { state: f.state.completed(r), ..f },
                ),
                None => final(h).cells@ == mid,
            }
        }),
{
    if owns_args {
        let mut i: usize = 0;
        while i < args.len()
            invariant
                i <= args@.len(),
                h.wf(),
                h.rc_on == old(h).rc_on,
                h.cells@ == release_each(old(h).cells@, args@, i as nat),
            decreases args@.len() - i,
        {
            h.jrt_decref(args[i]);
            i += 1;
        }
    }
    let ghost mid = h.cells@;
    match future_cell(h, w) {
        Some(i) => {
            match &mut h.cells[i] {
                Cell::Obj(Obj::Future(f)) => {
                    f.complete(r);
                },
                _ => {},
            }
            proof {
                let o = h.cells@[i as int]->Obj_0;
                edit_keeps_cells(mid, i as int, o);
                assert(h.cells@ =~= mid.update(i as int, Cell::Obj(o)));
            }
        },
        None => {},
    }
}

// ── The pool ─────────────────────────────────────────────────────────────────

/// The most threads the pool ever has.
pub const HARD_MAX_WORKERS: usize = 512;

/// How many tasks run side by side when a program says nothing.
pub const DEFAULT_MAX_TASKS: usize = 32;

/// The threads of the pool and the futures that wait for one.
pub struct Pool {
    /// Futures whose bodies nobody has picked up, the oldest first.
    pub queue: Vec<i64>,
    /// Threads alive, blocked ones too.
    pub workers: usize,
    /// Threads parked for want of work.
    pub idle: usize,
    /// Threads inside an await.
    pub blocked: usize,
    /// Threads inside a body.
    pub running: usize,
    /// How many bodies may run at once.
    pub limit: usize,
    /// How often a thread was refused.
    pub failures: usize,
}

impl Pool {
    /// The bounds that every step keeps.
    pub open spec fn wf(&self) -> bool {
        &&& self.workers <= HARD_MAX_WORKERS
        &&& 1 <= self.limit <= HARD_MAX_WORKERS
    }

    /// The threads that can claim work. More may be blocked than the pool has, since any
    /// thread can await.
    pub open spec fn runnable(&self) -> int {
        if self.workers > self.blocked {
            self.workers - self.blocked
        } else {
            0
        }
    }

    /// Queued work would sit unclaimed, and there is room for another thread. Blocked
    /// threads can claim nothing.
    pub open spec fn wants_worker(&self) -> bool {
        &&& self.queue@.len() > self.idle
        &&& self.runnable() < self.limit
        &&& self.workers < HARD_MAX_WORKERS
    }

    /// The pool with one more thread, if it wants one.
    pub open spec fn grown(self) -> Pool {
        if self.wants_worker() {
            Pool { workers: (self.workers + 1) as usize, ..self }
        } else {
            self
        }
    }

    /// A pool without threads.
    pub fn new() -> (p: Self)
        ensures
            p.wf(),
            p.queue@ == Seq::<i64>::empty(),
            p.workers == 0 && p.idle == 0 && p.blocked == 0 && p.running == 0,
            p.limit == DEFAULT_MAX_TASKS,
            p.failures == 0,
    {
        Pool {
            queue: Vec::new(),
            workers: 0,
            idle: 0,
            blocked: 0,
            running: 0,
            limit: DEFAULT_MAX_TASKS,
            failures: 0,
        }
    }

    /// How many tasks may run at once.
    pub fn max_tasks(&self) -> (n: usize)
        ensures
            n == self.limit,
    {
        self.limit
    }

    /// Set how many tasks may run at once, and say what is now in force: at least one,
    /// at most the threads there can be.
    pub fn set_max_tasks(&mut self, n: usize) -> (r: usize)
        requires
            old(self).wf(),
        ensures
            final(self).wf(),
            r == (if n < 1 {
                1
            } else if n > HARD_MAX_WORKERS {
                HARD_MAX_WORKERS as int
            } else {
                n as int
            }),
            *final(self) == (Pool { limit: r, ..*old(self) }),
    {
        let effective: usize = if n < 1 {
            1
        } else if n > HARD_MAX_WORKERS {
            HARD_MAX_WORKERS
        } else {
            n
        };
        self.limit = effective;
        effective
    }

    /// The same for a number as programs have it; a negative one is as good as 0.
    pub fn jrt_set_max_tasks(&mut self, n: i64) -> (r: i64)
        requires
            old(self).wf(),
        ensures
            final(self).wf(),
            r == (if n < 1 {
                1
            } else if n > HARD_MAX_WORKERS {
                HARD_MAX_WORKERS as int
            } else {
                n as int
            }),
            *final(self) == (Pool { limit: r as usize, ..*old(self) }),
    {
        let m: usize = if n < 0 {
            0
        } else if n > 512 {
            512
        } else {
            n as usize
        };
        self.set_max_tasks(m) as i64
    }

    /// Whether queued work would sit unclaimed, and there is room for another thread.
    pub fn should_grow(&self) -> (r: bool)
        ensures
            r == self.wants_worker(),
    {
        if self.queue.len() <= self.idle {
            return false;
        }
        let runnable: usize = if self.workers > self.blocked {
            self.workers - self.blocked
        } else {
            0
        };
        runnable < self.limit && self.workers < HARD_MAX_WORKERS
    }

    /// Count a thread that is about to be started, if one is wanted.
    fn grow(&mut self) -> (start: bool)
        ensures
            start == old(self).wants_worker(),
            *final(self) == old(self).grown(),
    {
        if self.should_grow() {
            self.workers = self.workers + 1;
            true
        } else {
            false
        }
    }

    /// Queue a future. Says whether a thread is to be started.
    pub fn submit(&mut self, fut: i64) -> (start: bool)
        requires
            old(self).wf(),
        ensures
            final(self).wf(),
            final(self).queue@ == old(self).queue@.push(fut),
            start == (final(self).workers == old(self).workers + 1),
            start <==> old(self).queue@.len() + 1 > old(self).idle && old(self).runnable() < old(
                self,
            ).limit && old(self).workers < HARD_MAX_WORKERS,
            !start ==> final(self).workers == old(self).workers,
            final(self).idle == old(self).idle && final(self).blocked == old(self).blocked,
            final(self).running == old(self).running && final(self).limit == old(self).limit,
            final(self).failures == old(self).failures,
    {
        self.queue.push(fut);
        self.grow()
    }

    /// The thread could not be started: it does not count. Says whether to warn, which
    /// happens once.
    pub fn refused(&mut self) -> (warn: bool)
        requires
            old(self).wf(),
            old(self).workers > 0,
        ensures
            final(self).wf(),
            warn == (old(self).failures == 0),
            *final(self) == (Pool {
                workers: (old(self).workers - 1) as usize,
                failures: final(self).failures,
                ..*old(self)
            }),
            final(self).failures == (if old(self).failures < usize::MAX {
                old(self).failures + 1
            } else {
                old(self).failures as int
            }),
    {
        self.workers = self.workers - 1;
        let first: bool = self.failures == 0;
        if self.failures < usize::MAX {
            self.failures = self.failures + 1;
        }
        first
    }

    /// A thread asks for work: the oldest future, if the limit lets it run. The thread
    /// then counts as running.
    pub fn next(&mut self, counted: &mut bool) -> (r: Option<i64>)
        requires
            old(self).wf(),
        ensures
            final(self).wf(),
            if old(self).running < old(self).limit && old(self).queue@.len() > 0 {
                &&& r == Some(old(self).queue@[0])
                &&& final(self).queue@ == old(self).queue@.skip(1)
                &&& final(self).running == old(self).running + 1
                &&& *final(counted)
            } else {
                &&& r is None
                &&& final(self).queue@ == old(self).queue@
                &&& final(self).running == old(self).running
                &&& *final(counted) == *old(counted)
            },
            final(self).workers == old(self).workers && final(self).idle == old(self).idle,
            final(self).blocked == old(self).blocked && final(self).limit == old(self).limit,
            final(self).failures == old(self).failures,
    {
        if self.running < self.limit && self.queue.len() > 0 {
            let w: i64 = self.queue.remove(0);
            assert(self.queue@ =~= old(self).queue@.skip(1));
            self.running = self.running + 1;
            *counted = true;
            Some(w)
        } else {
            None
        }
    }

    /// A thread parks.
    pub fn park(&mut self)
        requires
            old(self).wf(),
            old(self).idle < usize::MAX,
        ensures
            final(self).wf(),
            *final(self) == (Pool { idle: (old(self).idle + 1) as usize, ..*old(self) }),
    {
        self.idle = self.idle + 1;
    }

    /// A parked thread wakes. One that waited in vain retires.
    pub fn unpark(&mut self, timed_out: bool) -> (retire: bool)
        requires
            old(self).wf(),
            old(self).idle > 0,
            old(self).workers > 0,
        ensures
            final(self).wf(),
            retire == (timed_out && old(self).queue@.len() == 0),
            *final(self) == (Pool {
                idle: (old(self).idle - 1) as usize,
                workers: if retire {
                    (old(self).workers - 1) as usize
                } else {
                    old(self).workers
                },
                ..*old(self)
            }),
    {
        self.idle = self.idle - 1;
        if timed_out && self.queue.len() == 0 {
            self.workers = self.workers - 1;
            true
        } else {
            false
        }
    }

    /// A thread is about to block: it gives its place back. Says whether it had one, and
    /// whether a thread is to be started in its stead.
    pub fn enter_blocking(&mut self, counted: &mut bool) -> (r: (bool, bool))
        requires
            old(self).wf(),
            old(self).blocked < usize::MAX,
            *old(counted) ==> old(self).running > 0,
        ensures
            final(self).wf(),
            !*final(counted),
            r.0 == *old(counted),
            ({
                let given = Pool {
                    blocked: (old(self).blocked + 1) as usize,
                    running: if *old(counted) {
                        (old(self).running - 1) as usize
                    } else {
                        old(self).running
                    },
                    ..*old(self)
                };
                r.1 == given.wants_worker() && *final(self) == given.grown()
            }),
    {
        let had: bool = self.stop_running(counted);
        self.blocked = self.blocked + 1;
        let start: bool = self.grow();
        (had, start)
    }

    /// A thread goes on: it takes its place again if it had one, without waiting for
    /// room.
    pub fn exit_blocking(&mut self, had_slot: bool, counted: &mut bool)
        requires
            old(self).wf(),
            old(self).blocked > 0,
            old(self).running < usize::MAX,
        ensures
            final(self).wf(),
            *final(counted) == (*old(counted) || had_slot),
            *final(self) == (Pool {
                blocked: (old(self).blocked - 1) as usize,
                running: if had_slot && !*old(counted) {
                    (old(self).running + 1) as usize
                } else {
                    old(self).running
                },
                ..*old(self)
            }),
    {
        self.blocked = self.blocked - 1;
        if had_slot {
            self.start_running(counted);
        }
    }

    /// Count a thread as running, once.
    pub fn start_running(&mut self, counted: &mut bool)
        requires
            old(self).wf(),
            old(self).running < usize::MAX,
        ensures
            final(self).wf(),
            *final(counted),
            *final(self) == (Pool {
                running: if *old(counted) {
                    old(self).running
                } else {
                    (old(self).running + 1) as usize
                },
                ..*old(self)
            }),
    {
        if *counted {
            return;
        }
        *counted = true;
        self.running = self.running + 1;
    }

    /// Stop counting a thread as running. Says whether it was counted.
    pub fn stop_running(&mut self, counted: &mut bool) -> (had: bool)
        requires
            old(self).wf(),
            *old(counted) ==> old(self).running > 0,
        ensures
            final(self).wf(),
            !*final(counted),
            had == *old(counted),
            *final(self) == (Pool {
                running: if *old(counted) {
                    (old(self).running - 1) as usize
                } else {
                    old(self).running
                },
                ..*old(self)
            }),
    {
        if !*counted {
            return false;
        }
        *counted = false;
        self.running = self.running - 1;
        true
    }

    /// How many threads are alive.
    pub fn worker_count(&self) -> (n: usize)
        ensures
            n == self.workers,
    {
        self.workers
    }

    /// How often a thread was refused.
    pub fn spawn_failures(&self) -> (n: usize)
        ensures
            n == self.failures,
    {
        self.failures
    }
}

// ── Timers ───────────────────────────────────────────────────────────────────

/// Deadlines and the futures they finish, the earliest last.
pub struct Timers {
    /// The deadlines, by the clock that never goes back, with their futures.
    pub pending: Vec<(u64, i64)>,
}

/// The deadlines descend.
pub open spec fn deadlines_descend(s: Seq<(u64, i64)>) -> bool {
    forall|i: int, j: int| 0 <= i <= j < s.len() ==> (#[trigger] s[i]).0 >= (#[trigger] s[j]).0
}

/// How many of the deadlines are as late as this one, or later.
pub open spec fn later_than(s: Seq<(u64, i64)>, deadline: u64) -> int
    decreases s.len(),
{
    if s.len() == 0 {
        0
    } else if s.last().0 >= deadline {
        s.len() as int
    } else {
        later_than(s.drop_last(), deadline)
    }
}

/// The deadlines with one more, behind those that are as late or later.
pub open spec fn armed(s: Seq<(u64, i64)>, deadline: u64, fut: i64) -> Seq<(u64, i64)> {
    s.insert(later_than(s, deadline), (deadline, fut))
}

/// Deadlines that descend to `p` and are earlier behind it are as late up to there.
proof fn later_is(s: Seq<(u64, i64)>, deadline: u64, p: int)
    requires
        0 <= p <= s.len(),
        p > 0 ==> s[p - 1].0 >= deadline,
        forall|k: int| p <= k < s.len() ==> (#[trigger] s[k]).0 < deadline,
    ensures
        later_than(s, deadline) == p,
    decreases s.len(),
{
    if s.len() > p {
        let r = s.drop_last();
        assert forall|k: int| p <= k < r.len() implies (#[trigger] r[k]).0 < deadline by {
            assert(s[k].0 < deadline);
        }
        later_is(r, deadline, p);
    }
}

/// The futures of the deadlines, the last first.
pub open spec fn fired_from(s: Seq<(u64, i64)>) -> Seq<i64> {
    s.map_values(|e: (u64, i64)| e.1).reverse()
}

impl Timers {
    /// The earliest deadline is last.
    pub open spec fn wf(&self) -> bool {
        deadlines_descend(self.pending@)
    }

    /// No deadlines.
    pub fn new() -> (t: Self)
        ensures
            t.wf(),
            t.pending@ == Seq::<(u64, i64)>::empty(),
    {
        Timers { pending: Vec::new() }
    }

    /// Arm a deadline, behind those that are as late or later.
    pub fn arm(&mut self, deadline: u64, fut: i64)
        requires
            old(self).wf(),
        ensures
            final(self).wf(),
            final(self).pending@ == armed(old(self).pending@, deadline, fut),
    {
        let ghost s = self.pending@;
        let mut p: usize = 0;
        while p < self.pending.len() && self.pending[p].0 >= deadline
            invariant
                p <= self.pending@.len(),
                self.pending@ == s,
                forall|k: int| 0 <= k < p ==> (#[trigger] s[k]).0 >= deadline,
            decreases self.pending@.len() - p,
        {
            p += 1;
        }
        assert forall|k: int| p <= k < s.len() implies (#[trigger] s[k]).0 < deadline by {
            assert(s[p as int].0 >= s[k].0);
        }
        proof {
            later_is(s, deadline, p as int);
        }
        self.pending.insert(p, (deadline, fut));
        let ghost t = self.pending@;
        assert(t == s.insert(p as int, (deadline, fut)));
        assert forall|i: int, j: int| 0 <= i <= j < t.len() implies (#[trigger] t[i]).0 >= (
        #[trigger] t[j]).0 by {
            let a = if i < p {
                i
            } else {
                i - 1
            };
            let b = if j < p {
                j
            } else {
                j - 1
            };
            if i != p && j != p {
                assert(s[a].0 >= s[b].0);
            } else if i == p && j != p {
                assert(s[b].0 < deadline);
            } else if i != p && j == p {
                assert(s[a].0 >= deadline);
            }
        }
    }

    /// Take the futures whose deadlines have come, the earliest first.
    pub fn due(&mut self, now: u64) -> (fired: Vec<i64>)
        requires
            old(self).wf(),
        ensures
            final(self).wf(),
            final(self).pending@.len() <= old(self).pending@.len(),
            final(self).pending@ == old(self).pending@.take(final(self).pending@.len() as int),
            fired@ == fired_from(old(self).pending@.skip(final(self).pending@.len() as int)),
            forall|k: int|
                0 <= k < old(self).pending@.len() ==> ((#[trigger] old(self).pending@[k]).0
                    <= now <==> k >= final(self).pending@.len()),
    {
        let ghost s = self.pending@;
        let mut fired: Vec<i64> = Vec::new();
        let mut n: usize = self.pending.len();
        assert(fired@ =~= fired_from(s.skip(n as int)));
        assert(s.take(n as int) =~= s);
        while n > 0 && self.pending[n - 1].0 <= now
            invariant
                n == self.pending@.len(),
                n <= s.len(),
                self.pending@ == s.take(n as int),
                fired@ == fired_from(s.skip(n as int)),
                forall|k: int| n <= k < s.len() ==> (#[trigger] s[k]).0 <= now,
            decreases n,
        {
            let ghost before = fired@;
            match self.pending.pop() {
                Some(e) => {
                    fired.push(e.1);
                },
                None => {},
            }
            n -= 1;
            proof {
                assert(self.pending@ =~= s.take(n as int));
                assert(s.skip(n as int) =~= seq![s[n as int]] + s.skip(n + 1));
                assert(fired_from(s.skip(n as int)) =~= fired_from(s.skip(n + 1)).push(
                    s[n as int].1,
                ));
            }
        }
        proof {
            assert forall|k: int| 0 <= k < n implies (#[trigger] s[k]).0 > now by {
                assert(s[k].0 >= s[n - 1].0);
                assert(self.pending@[n - 1] == s[n - 1]);
            }
            let t = self.pending@;
            assert forall|i: int, j: int| 0 <= i <= j < t.len() implies (#[trigger] t[i]).0 >= (
            #[trigger] t[j]).0 by {
                assert(s[i].0 >= s[j].0);
            }
        }
        fired
    }

    /// The deadline that comes next.
    pub fn earliest(&self) -> (r: Option<u64>)
        requires
            self.wf(),
        ensures
            match r {
                Some(d) => self.pending@.len() > 0 && d == self.pending@.last().0 && forall|
                    k: int,
                |
                    0 <= k < self.pending@.len() ==> d <= (#[trigger] self.pending@[k]).0,
                None => self.pending@.len() == 0,
            },
    {
        let n: usize = self.pending.len();
        if n == 0 {
            return None;
        }
        let d: u64 = self.pending[n - 1].0;
        assert forall|k: int| 0 <= k < self.pending@.len() implies d <= (
        #[trigger] self.pending@[k]).0 by {
            assert(self.pending@[k].0 >= self.pending@[n - 1].0);
        }
        Some(d)
    }
}

/// `time.after(secs)`: a future that finishes with nil at a deadline. It has no body, so
/// nobody can run it.
pub fn after(h: &mut Heap, timers: &mut Timers, deadline: u64) -> (w: i64)
    requires
        old(h).wf(),
        old(h).cells@.len() < MAX_CELLS,
        old(timers).wf(),
    ensures
        final(h).wf(),
        final(h).rc_on == old(h).rc_on,
        new_future(old(h).cells@, final(h).cells@, w, None),
        final(timers).wf(),
        final(timers).pending@ == armed(old(timers).pending@, deadline, w),
{
    let w: i64 = leak_future(h, None);
    timers.arm(deadline, w);
    w
}

// ── Laws ─────────────────────────────────────────────────────────────────────

/// A future resolves once and is consumed once: after one take, another is told so.
pub proof fn results_are_taken_once(s: FutState)
    requires
        !s.cancelled,
    ensures
        s.after_take().taken() == Outcome::DoubleAwait,
        s.after_take().after_take() == s.after_take(),
{
}

/// A cancelled future never hands out a result, whether it was done before or comes to
/// something later.
pub proof fn cancelling_outranks_the_result(
    s: FutState,
    r: Result<i64, (i64, Option<String>)>,
)
    requires
        s.cancelled,
    ensures
        s.taken() == Outcome::Cancelled,
        s.completed(r).taken() == Outcome::Cancelled,
        s.after_take().taken() == Outcome::Cancelled,
        s.settled(),
{
}

/// What a body came to is what is taken, while nobody took or cancelled it.
pub proof fn outcomes_are_delivered(s: FutState, r: Result<i64, (i64, Option<String>)>)
    requires
        !s.cancelled,
        !s.consumed,
        !s.failed,
    ensures
        s.completed(r).settled(),
        s.completed(r).taken() == (match r {
            Ok(v) => Outcome::Value(v),
            Err((e, t)) => Outcome::Raised(e, opt_text(t)),
        }),
{
}

/// An outcome is told apart from every other.
pub proof fn reports_are_distinct(a: Outcome, b: Outcome)
    requires
        told(a) == told(b),
    ensures
        a == b,
{
}

/// When every thread of the pool is blocked, queued work that no parked thread will take
/// gets a new thread, up to the most there can be.
pub proof fn blocked_pools_grow(p: Pool)
    requires
        p.wf(),
        p.blocked >= p.workers,
        p.queue@.len() > p.idle,
        p.workers < HARD_MAX_WORKERS,
    ensures
        p.wants_worker(),
        p.grown().workers == p.workers + 1,
        p.grown().wf(),
{
}

/// A pending body is run by the first to await it, and by nobody after; one that is done or
/// cancelled is taken, and anything else waited for.
pub proof fn bodies_run_once(s: FutState, job: Job)
    ensures
        s.cancelled ==> s.next_step() == AwaitStep::Take && s.after_step() == s,
        !s.cancelled && s.pending == Some(job) ==> s.next_step() == AwaitStep::Run(job),
        !s.cancelled ==> s.after_step().pending is None,
        !s.cancelled && s.pending is None && s.done ==> s.next_step() == AwaitStep::Take,
        !s.cancelled && s.pending is None && !s.done ==> s.next_step() == AwaitStep::Wait,
        s.after_step().done == s.done,
        s.after_step().result == s.result,
        s.after_step().consumed == s.consumed,
        s.after_step().failed == s.failed,
        s.after_step().cancelled == s.cancelled,
        s.settled() <==> s.done || s.cancelled,
{
}

/// A future owns what it came to, the result or the error, until that is taken.
pub proof fn futures_own_what_they_came_to(f: FutureObj)
    ensures
        f.state.consumed ==> f.owned_words().len() == 0,
        !f.state.consumed && f.state.failed ==> f.owned_words() == seq![f.state.error],
        !f.state.consumed && !f.state.failed ==> f.owned_words() == seq![f.state.result],
{
}

/// Each outcome is reported by a number of its own, a value and an error beside it.
pub proof fn outcomes_have_numbers(v: i64, t: Option<Seq<char>>)
    ensures
        told(Outcome::Value(v)) == (v as int, 0int, 0int, None::<Seq<char>>),
        told(Outcome::Raised(v, t)) == (0int, 1int, v as int, t),
        told(Outcome::DoubleAwait).1 == 2,
        told(Outcome::NotAFuture).1 == 3,
        told(Outcome::Cancelled).1 == 4,
{
}

/// What is joined keeps the order it was given in: each value in its place, and nothing in
/// the place of an error.
pub proof fn joined_values_keep_their_places(os: Seq<Result<i64, TaskError>>, i: int)
    requires
        0 <= i < os.len(),
    ensures
        slots(os).len() == os.len(),
        os[i] matches Ok(v) ==> slots(os)[i] == v,
        os[i] is Err ==> slots(os)[i] == 0,
{
}

/// What is settled is shown with its value or its error; awaiting twice and awaiting what is
/// no future are mistakes, and nothing else is.
pub proof fn settled_are_shown(x: i64, t: Option<Seq<char>>, v: i64, ok: int)
    ensures
        shown(Outcome::Value(x), v, ok) <==> v == x && ok == 1,
        shown(Outcome::Raised(x, t), v, ok) <==> v == x && ok == 0,
        shown(Outcome::Cancelled, v, ok) <==> decode(v as u64) == Val::Nil && ok == 0,
        mistake(Outcome::DoubleAwait) == Some(DOUBLE_AWAITED as int),
        mistake(Outcome::NotAFuture) == Some(NOT_A_FUTURE as int),
        mistake(Outcome::Value(x)) is None,
        mistake(Outcome::Raised(x, t)) is None,
        mistake(Outcome::Cancelled) is None,
{
}

/// A pool asks for a worker exactly where work is queued that no parked one will take, fewer
/// run than may, and there are not as many as there can be.
pub proof fn pools_grow_to_their_limit(p: Pool)
    ensures
        p.wants_worker() <==> p.queue@.len() > p.idle && (p.workers <= p.blocked && p.limit > 0
            || p.workers > p.blocked && p.workers - p.blocked < p.limit) && p.workers
            < HARD_MAX_WORKERS,
        !p.wants_worker() ==> p.grown() == p,
        p.wants_worker() && p.wf() ==> p.grown().workers == p.workers + 1 && p.grown().queue
            == p.queue,
{
}

/// A timer goes between those that fire later, or just as late, and those that fire earlier:
/// none is lost, and all fire in the order of their deadlines.
pub proof fn timers_fire_in_order(s: Seq<(u64, i64)>, deadline: u64, fut: i64)
    requires
        deadlines_descend(s),
    ensures
        deadlines_descend(armed(s, deadline, fut)),
        ({
            let p = later_than(s, deadline);
            &&& 0 <= p <= s.len()
            &&& armed(s, deadline, fut) == s.take(p) + seq![(deadline, fut)] + s.skip(p)
            &&& forall|k: int| 0 <= k < p ==> (#[trigger] s[k]).0 >= deadline
            &&& forall|k: int| p <= k < s.len() ==> (#[trigger] s[k]).0 < deadline
        }),
        fired_from(s).len() == s.len(),
        forall|i: int| 0 <= i < s.len() ==> #[trigger] fired_from(s)[i] == s[s.len() - 1 - i].1,
    decreases s.len(),
{
    later_splits(s, deadline);
    let p = later_than(s, deadline);
    let t = armed(s, deadline, fut);
    assert(t =~= s.take(p) + seq![(deadline, fut)] + s.skip(p));
    assert forall|i: int, j: int| 0 <= i <= j < t.len() implies (#[trigger] t[i]).0 >= (
    #[trigger] t[j]).0 by {
        let a = if i < p {
            i
        } else {
            i - 1
        };
        let b = if j < p {
            j
        } else {
            j - 1
        };
        if i == p && j == p {
        } else if i == p {
            assert(t[j] == s[b]);
        } else if j == p {
            assert(t[i] == s[a]);
        } else {
            assert(t[i] == s[a]);
            assert(t[j] == s[b]);
        }
    }
}

/// Those that fire later are in front.
proof fn later_splits(s: Seq<(u64, i64)>, deadline: u64)
    requires
        deadlines_descend(s),
    ensures
        0 <= later_than(s, deadline) <= s.len(),
        forall|k: int| 0 <= k < later_than(s, deadline) ==> (#[trigger] s[k]).0 >= deadline,
        forall|k: int| later_than(s, deadline) <= k < s.len() ==> (#[trigger] s[k]).0 < deadline,
    decreases s.len(),
{
    if s.len() > 0 {
        let r = s.drop_last();
        if s.last().0 >= deadline {
            assert forall|k: int| 0 <= k < s.len() implies (#[trigger] s[k]).0 >= deadline by {
                assert(s[k].0 >= s[s.len() - 1].0);
            }
        } else {
            assert forall|i: int, j: int| 0 <= i <= j < r.len() implies (#[trigger] r[i]).0 >= (
            #[trigger] r[j]).0 by {
                assert(s[i].0 >= s[j].0);
            }
            later_splits(r, deadline);
            assert forall|k: int| 0 <= k < later_than(s, deadline) implies (#[trigger] s[k]).0
                >= deadline by {
                assert(r[k].0 >= deadline);
            }
            assert forall|k: int| later_than(s, deadline) <= k < s.len() implies (#[trigger] s[k]).0
                < deadline by {
                if k < r.len() {
                    assert(r[k].0 < deadline);
                }
            }
        }
    }
}

} // verus!
