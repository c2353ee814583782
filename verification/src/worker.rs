//! Walking a plan: the candidates of a run, one after another, in the
//! buffer of a worker, and the worker that hands them to its handler.

use crate::codegen::dict::Dict;
use crate::codegen::language::{
    candidate, count, filled, lemma_shown, lemma_spans_positive, looped, run_wf, shown, spans,
};
use crate::codegen::layout::{FinalView, RunView};
use crate::codegen::parser::{runs_view, Final, Run};
use crate::codegen::radix::{
    as_nats, digits, in_range, lemma_digits_of_value, lemma_next_digits, lemma_next_digits_carry,
    lemma_value_zeros, next_digits, padded, positive, value, zeros,
};
use crate::Bonk;
use std::sync::atomic::AtomicBool;
use vstd::prelude::*;
use vstd::slice::slice_subrange;

verus! {

/// What a worker needs of a run to walk it in a buffer of `size` bytes: the
/// run is no longer than the buffer, its writes and loops stay inside its
/// length, and each loop goes through a non-empty part of a class of the
/// dictionary.
pub open spec fn run_safe(run: RunView, classes: Seq<Seq<u8>>, size: nat) -> bool {
    &&& run.len <= size
    &&& forall|j: int| 0 <= j < run.inits.len() ==> (#[trigger] run.inits[j]).buf_idx < run.len
    &&& forall|i: int|
        0 <= i < run.changes.len() ==> (#[trigger] run.changes[i]).buf_idx < run.len && 1
            <= run.changes[i].class_id <= classes.len() && run.changes[i].lower
            < run.changes[i].upper <= classes[run.changes[i].class_id - 1].len()
}

/// The buffer holds what the writes of the run put there, and for each loop
/// the byte of its range that the digit `d[i]` points at.
pub open spec fn agrees(run: RunView, classes: Seq<Seq<u8>>, d: Seq<nat>, buf: Seq<u8>) -> bool {
    &&& forall|j: int|
        0 <= j < run.inits.len() ==> buf[(#[trigger] run.inits[j]).buf_idx as int]
            == run.inits[j].val
    &&& forall|i: int|
        0 <= i < run.changes.len() ==> buf[(#[trigger] run.changes[i]).buf_idx as int]
            == classes[run.changes[i].class_id - 1][run.changes[i].lower + d[i]]
}

/// A buffer that agrees with the digits of a well-formed run shows the
/// candidate of those digits, and the other way round.
pub proof fn lemma_agrees(run: RunView, classes: Seq<Seq<u8>>, d: Seq<nat>, buf: Seq<u8>)
    requires
        run_wf(run, classes),
        buf.len() >= run.len,
    ensures
        agrees(run, classes, d, buf) <==> buf.take(run.len as int) == shown(run, classes, d),
{
    lemma_shown(run, classes, d);
    let front = buf.take(run.len as int);
    if agrees(run, classes, d, buf) {
        assert forall|p: int| 0 <= p < run.len implies front[p] == shown(run, classes, d)[p] by {
            if looped(run, p) {
                let i = choose|i: int|
                    0 <= i < run.changes.len() && (#[trigger] run.changes[i]).buf_idx == p;
                assert(buf[run.changes[i].buf_idx as int] == front[p]);
            } else {
                assert(filled(run, p));
                let j = choose|j: int|
                    0 <= j < run.inits.len() && (#[trigger] run.inits[j]).buf_idx == p;
                assert(buf[run.inits[j].buf_idx as int] == front[p]);
            }
        }
        assert(front =~= shown(run, classes, d));
    }
    if front == shown(run, classes, d) {
        assert forall|j: int| 0 <= j < run.inits.len() implies buf[(
        #[trigger] run.inits[j]).buf_idx as int] == run.inits[j].val by {
            assert(front[run.inits[j].buf_idx as int] == buf[run.inits[j].buf_idx as int]);
        }
        assert forall|i: int| 0 <= i < run.changes.len() implies buf[(
        #[trigger] run.changes[i]).buf_idx as int] == classes[run.changes[i].class_id
            - 1][run.changes[i].lower + d[i]] by {
            assert(front[run.changes[i].buf_idx as int] == buf[run.changes[i].buf_idx as int]);
        }
    }
}

/// The place of a worker in a run: which byte of its range each loop shows.
pub struct Cursor {
    digits: Vec<usize>,
}

impl Cursor {
    /// For each loop of the run, the index in its range of the byte it shows.
    pub closed spec fn digits(&self) -> Seq<nat> {
        as_nats(self.digits@)
    }

    /// The cursor has one digit per loop, each inside the range of its loop.
    pub open spec fn wf(&self, run: RunView) -> bool {
        in_range(spans(run), self.digits())
    }

    /// The number of the candidate that the cursor stands at.
    pub open spec fn index(&self, run: RunView) -> nat {
        value(spans(run), self.digits())
    }

    /// Writes the first candidate of `run` into `buf` and gives the cursor
    /// that stands at it.
    pub fn start(run: &Run, dict: &Dict, buf: &mut Vec<u8>) -> (cursor: Cursor)
        requires
            run_safe(run@, dict@, old(buf)@.len()),
        ensures
            final(buf)@.len() == old(buf)@.len(),
            final(buf)@.skip(run.len as int) == old(buf)@.skip(run.len as int),
            cursor.wf(run@),
            cursor.index(run@) == 0,
            run_wf(run@, dict@) ==> final(buf)@.take(run.len as int) == candidate(run@, dict@, 0),
    {
        let ghost start = buf@;
        let mut j: usize = 0;
        while j < run.inits.len()
            invariant
                j <= run.inits@.len(),
                run_safe(run@, dict@, start.len()),
                buf@.len() == start.len(),
                forall|p: int| run.len <= p < buf@.len() ==> buf@[p] == start[p],
                run_wf(run@, dict@) ==> forall|f: int|
                    0 <= f < j ==> buf@[(#[trigger] run@.inits[f]).buf_idx as int]
                        == run@.inits[f].val,
            decreases run.inits@.len() - j,
        {
            let init = run.inits[j];
            assert(run@.inits[j as int].buf_idx < run.len);
            buf.set(init.buf_idx, init.val);
            j += 1;
        }
        let mut digits: Vec<usize> = Vec::new();
        let mut i: usize = 0;
        while i < run.changes.len()
            invariant
                i <= run.changes@.len(),
                run_safe(run@, dict@, start.len()),
                buf@.len() == start.len(),
                digits@.len() == i,
                forall|c: int| 0 <= c < i ==> digits@[c] == 0,
                forall|p: int| run.len <= p < buf@.len() ==> buf@[p] == start[p],
                run_wf(run@, dict@) ==> forall|f: int|
                    0 <= f < run@.inits.len() ==> buf@[(#[trigger] run@.inits[f]).buf_idx as int]
                        == run@.inits[f].val,
                run_wf(run@, dict@) ==> forall|c: int|
                    0 <= c < i ==> buf@[(#[trigger] run@.changes[c]).buf_idx as int]
                        == dict@[run@.changes[c].class_id - 1][run@.changes[c].lower as int],
            decreases run.changes@.len() - i,
        {
            let change = run.changes[i];
            assert(run@.changes[i as int].buf_idx < run.len);
            let class = dict.class(change.class_id);
            buf.set(change.buf_idx, class[change.lower]);
            digits.push(0);
            i += 1;
        }
        let cursor = Cursor { digits };
        proof {
            assert(cursor.digits() =~= zeros(spans(run@).len()));
            lemma_value_zeros(spans(run@));
            assert(buf@.skip(run.len as int) =~= start.skip(run.len as int));
            if run_wf(run@, dict@) {
                lemma_spans_positive(run@, dict@);
                lemma_digits_of_value(spans(run@), cursor.digits());
                assert(agrees(run@, dict@, cursor.digits(), buf@));
                lemma_agrees(run@, dict@, cursor.digits(), buf@);
            }
        }
        cursor
    }

    /// Moves to the next candidate of `run` and writes it into `buf`. After
    /// the last candidate the cursor goes back to the first and the result
    /// is `false`.
    pub fn advance(&mut self, run: &Run, dict: &Dict, buf: &mut Vec<u8>) -> (more: bool)
        requires
            old(self).wf(run@),
            run_safe(run@, dict@, old(buf)@.len()),
        ensures
            final(self).wf(run@),
            final(buf)@.len() == old(buf)@.len(),
            final(buf)@.skip(run.len as int) == old(buf)@.skip(run.len as int),
            more == (old(self).index(run@) + 1 < count(run@)),
            more ==> final(self).index(run@) == old(self).index(run@) + 1,
            !more ==> final(self).index(run@) == 0,
            run_wf(run@, dict@) && old(buf)@.take(run.len as int) == candidate(
                run@,
                dict@,
                old(self).index(run@),
            ) ==> final(buf)@.take(run.len as int) == candidate(
                run@,
                dict@,
                final(self).index(run@),
            ),
    {
        let ghost start = buf@;
        let ghost first = self.digits();
        let ghost radices = spans(run@);
        let n = run.changes.len();
        let mut m = n;
        proof {
            assert(positive(radices)) by {
                assert forall|i: int| 0 <= i < radices.len() implies radices[i] > 0 by {
                    assert(run@.changes[i].lower < run@.changes[i].upper);
                }
            }
            lemma_next_digits(radices, first);
            lemma_digits_of_value(radices, first);
            assert(radices.take(n as int) =~= radices);
            assert(first.take(n as int) =~= first);
            assert(first + zeros(0) =~= first);
            match next_digits(radices, first) {
                Some(e) => {
                    assert(e + zeros(0) =~= e);
                },
                None => {},
            }
            if run_wf(run@, dict@) {
                lemma_agrees(run@, dict@, first, buf@);
            }
        }
        while m > 0
            invariant
                m <= n,
                n == run.changes@.len(),
                radices == spans(run@),
                positive(radices),
                in_range(radices, first),
                start == old(buf)@,
                first == old(self).digits(),
                run_safe(run@, dict@, start.len()),
                buf@.len() == start.len(),
                self.digits@.len() == n,
                self.digits() == first.take(m as int) + zeros((n - m) as nat),
                next_digits(radices, first) == padded(
                    next_digits(radices.take(m as int), first.take(m as int)),
                    (n - m) as nat,
                ),
                forall|p: int| run.len <= p < buf@.len() ==> buf@[p] == start[p],
                run_wf(run@, dict@) && start.take(run.len as int) == candidate(
                    run@,
                    dict@,
                    value(radices, first),
                ) ==> agrees(run@, dict@, self.digits(), buf@),
            decreases m,
        {
            let ghost before = self.digits();
            let ghost held = buf@;
            m -= 1;
            let change = run.changes[m];
            assert(run@.changes[m as int].buf_idx < run.len);
            let class = dict.class(change.class_id);
            assert(self.digits@[m as int] as nat == before[m as int]);
            assert(before[m as int] == first[m as int]);
            assert(first[m as int] < radices[m as int]);
            let next = self.digits[m] + 1;
            if next < change.upper - change.lower {
                self.digits.set(m, next);
                buf.set(change.buf_idx, class[change.lower + next]);
                proof {
                    let r = radices.take(m + 1);
                    let e = first.take(m + 1);
                    let raised = e.drop_last().push(e.last() + 1);
                    assert(next_digits(r, e) == Some(raised));
                    assert forall|i: int| 0 <= i < n implies self.digits()[i] == (if i == m {
                        next as nat
                    } else {
                        before[i]
                    }) by {
                        assert(self.digits()[i] == self.digits@[i] as nat);
                    }
                    assert(self.digits() =~= raised + zeros((n - m - 1) as nat));
                    lemma_next_digits(radices, first);
                    lemma_digits_of_value(radices, first);
                    lemma_digits_of_value(radices, self.digits());
                    assert(buf@.skip(run.len as int) =~= start.skip(run.len as int));
                    if run_wf(run@, dict@) && start.take(run.len as int) == candidate(
                        run@,
                        dict@,
                        value(radices, first),
                    ) {
                        assert(agrees(run@, dict@, before, held));
                        assert(agrees(run@, dict@, self.digits(), buf@)) by {
                            assert forall|i: int| 0 <= i < run@.changes.len() implies buf@[(
                            #[trigger] run@.changes[i]).buf_idx as int]
                                == dict@[run@.changes[i].class_id - 1][run@.changes[i].lower
                                + self.digits()[i]] by {
                                if i != m {
                                    assert(run@.changes[i].buf_idx != run@.changes[m as int].buf_idx);
                                    assert(self.digits()[i] == before[i]);
                                }
                            }
                            assert forall|j: int| 0 <= j < run@.inits.len() implies buf@[(
                            #[trigger] run@.inits[j]).buf_idx as int] == run@.inits[j].val by {
                                assert(run@.changes[m as int].buf_idx != run@.inits[j].buf_idx);
                            }
                        }
                        lemma_agrees(run@, dict@, self.digits(), buf@);
                    }
                }
                return true;
            }
            self.digits.set(m, 0);
            buf.set(change.buf_idx, class[change.lower]);
            proof {
                lemma_next_digits_carry(radices, first, m + 1);
                assert forall|i: int| 0 <= i < n implies self.digits()[i] == (if i == m {
                    0nat
                } else {
                    before[i]
                }) by {
                    assert(self.digits()[i] == self.digits@[i] as nat);
                }
                assert(self.digits() =~= first.take(m as int) + zeros((n - m) as nat));
                if run_wf(run@, dict@) && start.take(run.len as int) == candidate(
                    run@,
                    dict@,
                    value(radices, first),
                ) {
                    assert(agrees(run@, dict@, before, held));
                    assert(agrees(run@, dict@, self.digits(), buf@)) by {
                        assert forall|i: int| 0 <= i < run@.changes.len() implies buf@[(
                        #[trigger] run@.changes[i]).buf_idx as int] == dict@[run@.changes[i].class_id
                            - 1][run@.changes[i].lower + self.digits()[i]] by {
                            if i != m {
                                assert(run@.changes[i].buf_idx != run@.changes[m as int].buf_idx);
                                assert(self.digits()[i] == before[i]);
                            }
                        }
                        assert forall|j: int| 0 <= j < run@.inits.len() implies buf@[(
                        #[trigger] run@.inits[j]).buf_idx as int] == run@.inits[j].val by {
                            assert(run@.changes[m as int].buf_idx != run@.inits[j].buf_idx);
                        }
                    }
                }
            }
        }
        proof {
            assert(radices.take(0) =~= Seq::<nat>::empty());
            assert(self.digits() =~= zeros(radices.len()));
            lemma_value_zeros(radices);
            lemma_digits_of_value(radices, self.digits());
            assert(buf@.skip(run.len as int) =~= start.skip(run.len as int));
            if run_wf(run@, dict@) && start.take(run.len as int) == candidate(
                run@,
                dict@,
                value(radices, first),
            ) {
                lemma_agrees(run@, dict@, self.digits(), buf@);
            }
        }
        false
    }
}

/// How a worker ended.
#[derive(Clone, Copy, PartialEq, Eq, Debug, Structural)]
pub enum Outcome {
    /// The handler saw every candidate and took none for a match.
    Exhausted,
    /// The handler took a candidate for a match.
    Matched,
    /// Another worker had raised the flag.
    Cancelled,
}

/// What a worker does about one candidate: it stops as cancelled where it
/// found the flag raised, stops as matched where the handler said so, and
/// goes on otherwise.
pub open spec fn verdict_of(flagged: bool, matched: bool) -> Option<Outcome> {
    if flagged {
        Some(Outcome::Cancelled)
    } else if matched {
        Some(Outcome::Matched)
    } else {
        None
    }
}

/// Whether a worker stops at a candidate, and how: `flagged` is what it read
/// from the shared flag and `matched` what the handler answered.
pub fn verdict(flagged: bool, matched: bool) -> (v: Option<Outcome>)
    ensures
        v == verdict_of(flagged, matched),
{
    if flagged {
        Some(Outcome::Cancelled)
    } else if matched {
        Some(Outcome::Matched)
    } else {
        None
    }
}

/// Every run of the plan can be walked in a buffer of `max_size` bytes with
/// the classes of the plan.
pub open spec fn plan_safe(plan: FinalView) -> bool {
    forall|w: int, r: int|
        0 <= w < plan.tasks.len() && 0 <= r < plan.tasks[w].len() ==> run_safe(
            #[trigger] plan.tasks[w][r],
            plan.statics,
            plan.max_size,
        )
}

/// A plan with the invariants of a plan can be walked.
pub proof fn lemma_wf_is_safe(plan: FinalView)
    requires
        crate::codegen::coverage::plan_wf(plan),
    ensures
        plan_safe(plan),
{
    assert forall|w: int, r: int|
        0 <= w < plan.tasks.len() && 0 <= r < plan.tasks[w].len() implies run_safe(
        #[trigger] plan.tasks[w][r],
        plan.statics,
        plan.max_size,
    ) by {
        assert(run_wf(plan.tasks[w][r], plan.statics));
    }
}

/// Whether `run` can be walked in a buffer of `size` bytes with the classes
/// of `dict`.
pub fn run_is_safe(run: &Run, dict: &Dict, size: usize) -> (safe: bool)
    ensures
        safe == run_safe(run@, dict@, size as nat),
{
    if run.len > size {
        return false;
    }
    let mut j: usize = 0;
    while j < run.inits.len()
        invariant
            j <= run.inits@.len(),
            forall|f: int| 0 <= f < j ==> (#[trigger] run@.inits[f]).buf_idx < run.len,
        decreases run.inits@.len() - j,
    {
        if run.inits[j].buf_idx >= run.len {
            assert(!(run@.inits[j as int].buf_idx < run.len));
            return false;
        }
        j += 1;
    }
    let mut i: usize = 0;
    while i < run.changes.len()
        invariant
            i <= run.changes@.len(),
            forall|c: int|
                0 <= c < i ==> (#[trigger] run@.changes[c]).buf_idx < run.len && 1
                    <= run@.changes[c].class_id <= dict@.len() && run@.changes[c].lower
                    < run@.changes[c].upper <= dict@[run@.changes[c].class_id - 1].len(),
        decreases run.changes@.len() - i,
    {
        let change = run.changes[i];
        let ok = change.buf_idx < run.len && change.class_id >= 1 && change.class_id <= dict.len()
            && change.lower < change.upper && change.upper <= dict.class(change.class_id).len();
        if !ok {
            assert(!(run@.changes[i as int].buf_idx < run.len && 1
                <= run@.changes[i as int].class_id <= dict@.len() && run@.changes[i as int].lower
                < run@.changes[i as int].upper <= dict@[run@.changes[i as int].class_id
                - 1].len()));
            return false;
        }
        i += 1;
    }
    true
}

/// Whether every run of `plan` can be walked in a buffer of `max_size` bytes.
pub fn plan_is_safe(plan: &Final) -> (safe: bool)
    ensures
        safe == plan_safe(plan@),
{
    let mut w: usize = 0;
    while w < plan.tasks.len()
        invariant
            w <= plan.tasks@.len(),
            forall|v: int, r: int|
                0 <= v < w && 0 <= r < plan@.tasks[v].len() ==> run_safe(
                    #[trigger] plan@.tasks[v][r],
                    plan@.statics,
                    plan@.max_size,
                ),
        decreases plan.tasks@.len() - w,
    {
        let task = &plan.tasks[w];
        let mut r: usize = 0;
        while r < task.len()
            invariant
                w < plan.tasks@.len(),
                task == plan.tasks@[w as int],
                r <= task@.len(),
                forall|q: int|
                    0 <= q < r ==> run_safe(
                        #[trigger] plan@.tasks[w as int][q],
                        plan@.statics,
                        plan@.max_size,
                    ),
            decreases task@.len() - r,
        {
            assert(plan@.tasks[w as int][r as int] == task@[r as int]@);
            if !run_is_safe(&task[r], &plan.statics, plan.max_size) {
                return false;
            }
            r += 1;
        }
        w += 1;
    }
    true
}

/// Where a worker stands in its task: ahead of the run with the given
/// index, or at a candidate of a run.
pub enum Place {
    Ahead(int),
    At(int, nat),
}

/// How many candidates the runs of `task` from index `r` on have.
pub open spec fn rest_count(task: Seq<RunView>, r: int) -> nat
    decreases task.len() - r,
{
    if r < 0 || r >= task.len() {
        0
    } else {
        count(task[r]) + rest_count(task, r + 1)
    }
}

/// How many candidates of `task` come after `place`.
pub open spec fn to_come(task: Seq<RunView>, place: Place) -> nat {
    match place {
        Place::Ahead(r) => rest_count(task, r),
        Place::At(r, k) => (count(task[r]) - 1 - k) as nat + rest_count(task, r + 1),
    }
}

/// The place after `place`: the next candidate of the same run, else the
/// first candidate of the next run, else the end of the task.
pub open spec fn next_place(task: Seq<RunView>, place: Place) -> Place {
    match place {
        Place::At(r, k) => if k + 1 < count(task[r]) {
            Place::At(r, k + 1)
        } else if r + 1 < task.len() {
            Place::At(r + 1, 0)
        } else {
            Place::Ahead(r + 1)
        },
        Place::Ahead(r) => if 0 <= r < task.len() {
            Place::At(r, 0)
        } else {
            Place::Ahead(r)
        },
    }
}

/// The place of a worker after `n` steps from ahead of its first run.
pub open spec fn place_after(task: Seq<RunView>, n: nat) -> Place
    decreases n,
{
    if n == 0 {
        Place::Ahead(0)
    } else {
        next_place(task, place_after(task, (n - 1) as nat))
    }
}

/// How many candidates the runs of `task` before index `r` have.
pub open spec fn count_before(task: Seq<RunView>, r: int) -> nat
    decreases r,
{
    if r <= 0 {
        0
    } else {
        count_before(task, r - 1) + count(task[r - 1])
    }
}

/// A worker goes through the runs of its task in order and through the
/// candidates of each run in order: where every run has a candidate, the
/// worker stands at candidate `k` of run `r` after as many steps as there
/// are candidates before it, and one more.
pub proof fn lemma_walk_order(task: Seq<RunView>, r: int, k: nat)
    requires
        forall|i: int| 0 <= i < task.len() ==> count(#[trigger] task[i]) > 0,
        0 <= r < task.len(),
        k < count(task[r]),
    ensures
        place_after(task, count_before(task, r) + k + 1) == Place::At(r, k),
    decreases r, k,
{
    let n = count_before(task, r) + k + 1;
    if k > 0 {
        lemma_walk_order(task, r, (k - 1) as nat);
        assert(place_after(task, (n - 1) as nat) == Place::At(r, (k - 1) as nat));
    } else if r > 0 {
        let last = (count(task[r - 1]) - 1) as nat;
        lemma_walk_order(task, r - 1, last);
        assert(place_after(task, (n - 1) as nat) == Place::At(r - 1, last));
    } else {
        assert(place_after(task, 0) == Place::Ahead(0));
    }
}

/// A worker on its way through its task, with its buffer.
pub struct Walk<'a> {
    task: &'a Vec<Run>,
    statics: &'a Dict,
    /// The index of the run that the worker is in, or that comes next.
    run: usize,
    /// Whether the worker is in a run.
    active: bool,
    cursor: Cursor,
    buf: Vec<u8>,
}

impl<'a> Walk<'a> {
    /// The runs of the task.
    pub closed spec fn task(&self) -> Seq<RunView> {
        runs_view(self.task@)
    }

    /// The classes of the plan.
    pub closed spec fn classes(&self) -> Seq<Seq<u8>> {
        self.statics@
    }

    /// The buffer.
    pub closed spec fn buffer(&self) -> Seq<u8> {
        self.buf@
    }

    /// Where the worker stands.
    pub closed spec fn place(&self) -> Place {
        if self.active {
            Place::At(self.run as int, self.cursor.index(self.task@[self.run as int]@))
        } else {
            Place::Ahead(self.run as int)
        }
    }

    /// Every run of the task can be walked in the buffer, and at a candidate
    /// of a well-formed run the buffer shows that candidate.
    pub closed spec fn wf(&self) -> bool {
        &&& forall|r: int|
            0 <= r < self.task@.len() ==> run_safe(
                (#[trigger] self.task@[r])@,
                self.statics@,
                self.buf@.len(),
            )
        &&& self.run <= self.task@.len()
        &&& self.active ==> {
            let run = self.task@[self.run as int]@;
            &&& self.run < self.task@.len()
            &&& self.cursor.wf(run)
            &&& self.cursor.index(run) < count(run)
            &&& run_wf(run, self.statics@) ==> self.buf@.take(run.len as int) == candidate(
                run,
                self.statics@,
                self.cursor.index(run),
            )
        }
    }

    /// A worker ahead of the first run of task `thread_id` of `plan`, with a
    /// buffer of `max_size` bytes.
    pub fn new(plan: &'a Final, thread_id: usize) -> (walk: Self)
        requires
            plan_safe(plan@),
            thread_id < plan.tasks@.len(),
        ensures
            walk.wf(),
            walk.task() == plan@.tasks[thread_id as int],
            walk.classes() == plan@.statics,
            walk.buffer().len() == plan.max_size,
            walk.place() == Place::Ahead(0),
    {
        let mut buf: Vec<u8> = Vec::new();
        while buf.len() < plan.max_size
            invariant
                buf@.len() <= plan.max_size,
            decreases plan.max_size - buf@.len(),
        {
            buf.push(0);
        }
        let task = &plan.tasks[thread_id];
        let walk = Walk {
            task,
            statics: &plan.statics,
            run: 0,
            active: false,
            cursor: Cursor { digits: Vec::new() },
            buf,
        };
        proof {
            assert forall|r: int| 0 <= r < task@.len() implies run_safe(
                (#[trigger] task@[r])@,
                plan.statics@,
                plan.max_size as nat,
            ) by {
                assert(plan@.tasks[thread_id as int][r] == task@[r]@);
            }
        }
        walk
    }

    /// Moves to the next candidate of the task and writes it into the
    /// buffer; `false` at the end of the task.
    pub fn step(&mut self) -> (more: bool)
        requires
            old(self).wf(),
        ensures
            final(self).wf(),
            final(self).task() == old(self).task(),
            final(self).classes() == old(self).classes(),
            final(self).buffer().len() == old(self).buffer().len(),
            final(self).place() == next_place(old(self).task(), old(self).place()),
            more == (final(self).place() is At),
            more ==> to_come(old(self).task(), final(self).place()) + 1 == to_come(
                old(self).task(),
                old(self).place(),
            ),
            !more ==> to_come(old(self).task(), old(self).place()) == 0,
    {
        let task = self.task;
        let statics = self.statics;
        let runs = task.len();
        if self.active {
            let run = &task[self.run];
            if self.cursor.advance(run, statics, &mut self.buf) {
                return true;
            }
            self.active = false;
            self.run += 1;
        }
        if self.run < runs {
            let run = &task[self.run];
            self.cursor = Cursor::start(run, statics, &mut self.buf);
            self.active = true;
            proof {
                assert(run_safe(task@[self.run as int]@, statics@, self.buf@.len()));
                assert(positive(spans(run@))) by {
                    assert forall|i: int| 0 <= i < spans(run@).len() implies spans(run@)[i]
                        > 0 by {
                        assert(run@.changes[i].lower < run@.changes[i].upper);
                    }
                }
                crate::codegen::radix::lemma_product_positive(spans(run@));
            }
            true
        } else {
            false
        }
    }

    /// The candidate that the worker stands at.
    pub fn shown(&self) -> (candidate: &[u8])
        requires
            self.wf(),
            self.place() is At,
        ensures
            candidate@ == self.buffer().take(self.task()[self.place()->At_0].len as int),
            run_wf(self.task()[self.place()->At_0], self.classes()) ==> candidate@
                == crate::codegen::language::candidate(
                self.task()[self.place()->At_0],
                self.classes(),
                self.place()->At_1,
            ),
    {
        let run = &self.task[self.run];
        assert(run_safe(self.task@[self.run as int]@, self.statics@, self.buf@.len()));
        let out = slice_subrange(self.buf.as_slice(), 0, run.len);
        assert(out@ =~= self.buf@.take(run.len as int));
        out
    }
}

/// The work of one worker: makes its handler, then shows it the candidates
/// of its task one after another, as `Walk` gives them, in a buffer of
/// `max_size` bytes. With a flag the worker is cooperative: before each
/// candidate it reads the flag and stops where it finds it raised, and it
/// raises the flag when it stops. The result says how the worker ended and
/// hands the handler back. What the flag holds and what the handler answers
/// decide how the worker ends; where neither is asked, because the task has
/// no run, the worker ends as exhausted, and without a flag no worker ends
/// as cancelled.
pub fn run_worker<H: Bonk>(plan: &Final, thread_id: usize, flag: Option<&AtomicBool>) -> (done: (
    Outcome,
    H,
))
    requires
        plan_safe(plan@),
        thread_id < plan.tasks@.len(),
    ensures
        done.0 == Outcome::Cancelled ==> flag is Some,
        plan@.tasks[thread_id as int].len() == 0 ==> done.0 == Outcome::Exhausted,
{
    let mut walk = Walk::new(plan, thread_id);
    let mut bonker = H::new(thread_id);
    loop
        invariant
            walk.wf(),
            walk.task() == plan@.tasks[thread_id as int],
            walk.place() is At ==> walk.task().len() > 0,
        decreases to_come(walk.task(), walk.place()),
    {
        if !walk.step() {
            break ;
        }
        let flagged = cooperative_read(flag);
        let matched = if flagged {
            false
        } else {
            bonker.check(walk.shown())
        };
        match verdict(flagged, matched) {
            Some(outcome) => {
                cooperative_raise(flag);
                return (outcome, bonker);
            },
            None => {},
        }
    }
    (Outcome::Exhausted, bonker)
}

/// What a cooperative worker reads from its flag; `false` without a flag.
fn cooperative_read(flag: Option<&AtomicBool>) -> (flagged: bool)
    ensures
        flagged ==> flag is Some,
{
    match flag {
        Some(flag) => flag.load(std::sync::atomic::Ordering::Relaxed),
        None => false,
    }
}

/// Raises the flag of a cooperative worker.
fn cooperative_raise(flag: Option<&AtomicBool>) {
    match flag {
        Some(flag) => flag.store(true, std::sync::atomic::Ordering::Relaxed),
        None => {},
    }
}

} // verus!
