//! The planner: from tokens to runs, and from runs to the tasks of the workers.

use crate::codegen::coverage::{lemma_planned_wf, plan_wf};
use crate::codegen::dict::Dict;
use crate::codegen::grammar::{tokenized, ParseErr, Token};
use crate::codegen::layout::{
    after, atomic, changes_of, choices, count_at, expand, fits, inits_of, instance,
    lemma_after_is_atomic, lemma_choices_positive, lemma_choices_prefix, lemma_expand_prefix_len,
    lemma_expand_step, lemma_instance_len, lemma_instance_lowerable, lemma_lay_out_chars,
    lemma_lay_out_classes, lemma_widest_lowerable, longest, lowerable, nth_instance, plannable,
    planned, ranges_before, run_of, runs_of, share, share_len, widest, FinalView, RunView,
};
use crate::codegen::lexer::Lexer;
use crate::codegen::radix::{
    as_nats, digits, in_range, lemma_digits_in_range, lemma_product_prefix, lemma_radix_le_product,
    positive, product,
};
use vstd::prelude::*;
use vstd::string::StringSliceAdditionalSpecFns;

verus! {

/// How the runs of a pattern are given to the workers.
#[derive(Clone, Copy, PartialEq, Eq, Debug, Structural)]
pub enum Partition {
    /// No partitioning: one task that holds every run.
    Single,
    /// Every worker gets every run.
    Weak,
    /// The runs are dealt out: each run goes to exactly one worker.
    Aggressive,
}

/// One write that happens before a run's loops start.
#[derive(Clone, Copy, PartialEq, Eq, Debug, Structural)]
pub struct Init {
    pub val: u8,
    pub buf_idx: usize,
}

impl Init {
    pub fn new(buf_idx: usize, val: u8) -> (init: Init)
        ensures
            init == (Init { val, buf_idx }),
    {
        Init { val, buf_idx }
    }
}

/// One loop of a run: `buf[buf_idx]` takes the bytes `lower..upper` of a class in turn.
#[derive(Clone, Copy, PartialEq, Eq, Debug, Structural)]
pub struct Change {
    pub buf_idx: usize,
    pub class_id: usize,
    pub lower: usize,
    pub upper: usize,
}

impl Change {
    /// The loop through all `upper` bytes of a class.
    pub fn new(idx: usize, class_id: usize, upper: usize) -> (change: Change)
        ensures
            change == (Change { buf_idx: idx, class_id, lower: 0, upper }),
    {
        Change { buf_idx: idx, class_id, lower: 0, upper }
    }
}

/// The plan for all candidates of one length.
#[derive(PartialEq, Debug)]
pub struct Run {
    pub inits: Vec<Init>,
    pub changes: Vec<Change>,
    pub len: usize,
}

impl View for Run {
    type V = RunView;

    open spec fn view(&self) -> RunView {
        RunView { inits: self.inits@, changes: self.changes@, len: self.len as nat }
    }
}

impl Run {
    /// Lays out the character or class at `*pos` into `target`: one item per
    /// copy, made by `cons` from its buffer index. `other_len` is the number of
    /// positions that the run's other list holds. Moves `*pos` past the token
    /// and its repeat.
    pub fn append<T, F: Fn(usize) -> T>(
        cons: F,
        tokens: &[Token],
        pos: &mut usize,
        target: &mut Vec<T>,
        other_len: usize,
    )
        requires
            *old(pos) < tokens@.len(),
            forall|idx: usize| call_requires(cons, (idx,)),
            old(target)@.len() + other_len + count_at(tokens@, *old(pos) as int) <= usize::MAX,
        ensures
            *final(pos) == after(tokens@, *old(pos) as int),
            final(target)@.len() == old(target)@.len() + count_at(tokens@, *old(pos) as int),
            final(target)@.take(old(target)@.len() as int) == old(target)@,
            forall|i: int|
                old(target)@.len() <= i < final(target)@.len() ==> call_ensures(
                    cons,
                    ((i + other_len) as usize,),
                    #[trigger] final(target)@[i],
                ),
    {
        let ghost before = target@;
        let end = tokens.len();
        let first = target.len() + other_len;
        target.push(cons(first));
        *pos += 1;
        if *pos < end {
            if let Token::Repeat(n) = tokens[*pos] {
                *pos += 1;
                if n > 1 {
                    let mut k: usize = 1;
                    while k < n
                        invariant
                            1 <= k <= n,
                            first == before.len() + other_len,
                            before.len() + other_len + n <= usize::MAX,
                            target@.len() == before.len() + k,
                            target@.take(before.len() as int) == before,
                            forall|idx: usize| call_requires(cons, (idx,)),
                            forall|i: int|
                                before.len() <= i < target@.len() ==> call_ensures(
                                    cons,
                                    ((i + other_len) as usize,),
                                    #[trigger] target@[i],
                                ),
                        decreases n - k,
                    {
                        let ghost sofar = target@;
                        target.push(cons(first + k));
                        k += 1;
                        assert(target@.take(before.len() as int) =~= sofar.take(
                            before.len() as int,
                        ));
                    }
                } else if n == 0 {
                    target.pop();
                    assert(target@ =~= before);
                }
                return ;
            }
        }
        assert(target@.take(before.len() as int) =~= before);
    }

    /// The run of a token sequence without ranges: each character and class
    /// takes as many positions as its repeat says, from index 0 on.
    pub fn new(tokens: &[Token]) -> (run: Run)
        requires
            lowerable(tokens@),
            expand(tokens@).len() <= usize::MAX,
        ensures
            run@ == run_of(tokens@),
    {
        let mut inits: Vec<Init> = Vec::new();
        let mut changes: Vec<Change> = Vec::new();
        let mut i: usize = 0;
        assert(tokens@.take(0) =~= Seq::<Token>::empty());
        while i < tokens.len()
            invariant
                lowerable(tokens@),
                expand(tokens@).len() <= usize::MAX,
                i <= tokens@.len(),
                i < tokens@.len() ==> atomic(tokens@[i as int]),
                inits@ == inits_of(expand(tokens@.take(i as int))),
                changes@ == changes_of(expand(tokens@.take(i as int))),
                inits@.len() + changes@.len() == expand(tokens@.take(i as int)).len(),
            decreases tokens@.len() - i,
        {
            let ghost base = expand(tokens@.take(i as int));
            let ghost at = i as int;
            let ghost n = count_at(tokens@, at);
            proof {
                lemma_after_is_atomic(tokens@, at);
                lemma_expand_step(tokens@, at);
                lemma_expand_prefix_len(tokens@, after(tokens@, at));
                lemma_expand_prefix_len(tokens@, at);
            }
            match tokens[i] {
                Token::Char(c) => {
                    let ghost before = inits@;
                    let cons = |buf_idx: usize| -> (init: Init)
                        ensures
                            init == (Init { val: c, buf_idx }),
                        { Init::new(buf_idx, c) };
                    Self::append(cons, tokens, &mut i, &mut inits, changes.len());
                    proof {
                        lemma_lay_out_chars(base, c, n);
                        assert(inits@ =~= before + Seq::new(
                            n,
                            |j: int| Init { val: c, buf_idx: (base.len() + j) as usize },
                        )) by {
                            assert forall|i: int|
                                before.len() <= i < inits@.len() implies #[trigger] inits@[i] == (
                            Init { val: c, buf_idx: (changes@.len() + i) as usize }) by {
                                assert(call_ensures(
                                    cons,
                                    ((i + changes@.len()) as usize,),
                                    inits@[i],
                                ));
                            }
                            assert forall|i: int| 0 <= i < before.len() implies #[trigger] inits@[i]
                                == before[i] by {
                                assert(inits@.take(before.len() as int)[i] == before[i]);
                            }
                        }
                    }
                },
                Token::Class { id, len } => {
                    let ghost before = changes@;
                    let cons = |buf_idx: usize| -> (change: Change)
                        ensures
                            change == (Change { buf_idx, class_id: id, lower: 0, upper: len }),
                        { Change::new(buf_idx, id, len) };
                    Self::append(cons, tokens, &mut i, &mut changes, inits.len());
                    proof {
                        lemma_lay_out_classes(base, id, len, n);
                        assert(changes@ =~= before + Seq::new(
                            n,
                            |j: int|
                                Change {
                                    buf_idx: (base.len() + j) as usize,
                                    class_id: id,
                                    lower: 0,
                                    upper: len,
                                },
                        )) by {
                            assert forall|i: int|
                                before.len() <= i < changes@.len() implies #[trigger] changes@[i]
                                == (Change {
                                buf_idx: (inits@.len() + i) as usize,
                                class_id: id,
                                lower: 0,
                                upper: len,
                            }) by {
                                assert(call_ensures(
                                    cons,
                                    ((i + inits@.len()) as usize,),
                                    changes@[i],
                                ));
                            }
                            assert forall|i: int|
                                0 <= i < before.len() implies #[trigger] changes@[i]
                                == before[i] by {
                                assert(changes@.take(before.len() as int)[i] == before[i]);
                            }
                        }
                    }
                },
                _ => {
                    assert(false);
                },
            }
        }
        assert(tokens@.take(i as int) =~= tokens@);
        Run { len: inits.len() + changes.len(), inits, changes }
    }
}

/// A counter in a mixed radix: place `i` has `maxs[i]` values, and the last
/// place moves fastest.
pub struct Permutor {
    maxs: Vec<usize>,
}

impl Permutor {
    /// The number of values of each place.
    pub closed spec fn radices(&self) -> Seq<nat> {
        as_nats(self.maxs@)
    }

    pub fn new(maxs: Vec<usize>) -> (permutor: Self)
        ensures
            permutor.radices() == as_nats(maxs@),
    {
        Permutor { maxs }
    }

    /// The digits of `i`, one per place.
    pub fn get_iter(&self, i: usize) -> (coords: Vec<usize>)
        requires
            positive(self.radices()),
        ensures
            as_nats(coords@) == digits(self.radices(), i as nat),
    {
        let n = self.maxs.len();
        let mut coords: Vec<usize> = Vec::new();
        while coords.len() < n
            invariant
                coords@.len() <= n,
            decreases n - coords@.len(),
        {
            coords.push(0);
        }
        let mut rem = i;
        let mut m = n;
        assert(self.radices().take(n as int) =~= self.radices());
        assert(as_nats(coords@.skip(n as int)) =~= Seq::<nat>::empty());
        assert(digits(self.radices().take(m as int), rem as nat) + as_nats(coords@.skip(m as int))
            =~= digits(self.radices(), i as nat));
        while m > 0
            invariant
                m <= n,
                n == self.maxs@.len(),
                coords@.len() == n,
                positive(self.radices()),
                digits(self.radices(), i as nat) == digits(
                    self.radices().take(m as int),
                    rem as nat,
                ) + as_nats(coords@.skip(m as int)),
            decreases m,
        {
            let ghost places = self.radices().take(m as int);
            let ghost low = as_nats(coords@.skip(m as int));
            m -= 1;
            let max = self.maxs[m];
            assert(max > 0) by {
                assert(self.radices()[m as int] > 0);
            }
            let ghost before = rem as nat;
            let modulo = rem % max;
            coords.set(m, modulo);
            rem = rem / max;
            proof {
                assert(places.last() == max as nat);
                assert(places.drop_last() =~= self.radices().take(m as int));
                let high = digits(self.radices().take(m as int), rem as nat);
                assert(digits(places, before) == high.push(modulo as nat));
                assert(as_nats(coords@.skip(m as int)) =~= seq![modulo as nat] + low);
                assert(high.push(modulo as nat) + low =~= high + (seq![modulo as nat] + low));
            }
        }
        assert(self.radices().take(0) =~= Seq::<nat>::empty());
        assert(coords@.skip(0) =~= coords@);
        coords
    }

    /// How many numbers the counter can write.
    pub fn total(&self) -> (n: usize)
        requires
            positive(self.radices()),
            product(self.radices()) <= usize::MAX,
        ensures
            n == product(self.radices()),
    {
        let mut acc: usize = 1;
        let mut i: usize = 0;
        assert(self.radices().take(0) =~= Seq::<nat>::empty());
        while i < self.maxs.len()
            invariant
                i <= self.maxs@.len(),
                positive(self.radices()),
                product(self.radices()) <= usize::MAX,
                acc == product(self.radices().take(i as int)),
            decreases self.maxs@.len() - i,
        {
            proof {
                lemma_product_prefix(self.radices(), i + 1);
                assert(self.radices().take(i + 1).drop_last() =~= self.radices().take(i as int));
            }
            acc = acc * self.maxs[i];
            i += 1;
        }
        assert(self.radices().take(i as int) =~= self.radices());
        acc
    }

    /// The digits of every number that the counter can write, in counting order.
    pub fn permutations(&self) -> (all: Vec<Vec<usize>>)
        requires
            positive(self.radices()),
            product(self.radices()) <= usize::MAX,
        ensures
            all@.len() == product(self.radices()),
            forall|k: int|
                0 <= k < all@.len() ==> as_nats((#[trigger] all@[k])@) == digits(
                    self.radices(),
                    k as nat,
                ),
    {
        let total = self.total();
        let mut all: Vec<Vec<usize>> = Vec::new();
        let mut k: usize = 0;
        while k < total
            invariant
                k <= total,
                positive(self.radices()),
                all@.len() == k,
                forall|j: int|
                    0 <= j < all@.len() ==> as_nats((#[trigger] all@[j])@) == digits(
                        self.radices(),
                        j as nat,
                    ),
            decreases total - k,
        {
            all.push(self.get_iter(k));
            k += 1;
        }
        all
    }
}

impl Clone for Run {
    fn clone(&self) -> (run: Run)
        ensures
            run@ == self@,
    {
        let mut inits: Vec<Init> = Vec::new();
        let mut i: usize = 0;
        while i < self.inits.len()
            invariant
                i <= self.inits@.len(),
                inits@ == self.inits@.take(i as int),
            decreases self.inits@.len() - i,
        {
            inits.push(self.inits[i]);
            i += 1;
            assert(inits@ =~= self.inits@.take(i as int));
        }
        assert(self.inits@.take(i as int) =~= self.inits@);
        let mut changes: Vec<Change> = Vec::new();
        let mut k: usize = 0;
        while k < self.changes.len()
            invariant
                k <= self.changes@.len(),
                changes@ == self.changes@.take(k as int),
            decreases self.changes@.len() - k,
        {
            changes.push(self.changes[k]);
            k += 1;
            assert(changes@ =~= self.changes@.take(k as int));
        }
        assert(self.changes@.take(k as int) =~= self.changes@);
        Run { inits, changes, len: self.len }
    }
}

/// The runs as plain data.
pub open spec fn runs_view(runs: Seq<Run>) -> Seq<RunView> {
    runs.map_values(|run: Run| run@)
}

/// The tasks as plain data.
pub open spec fn tasks_view(tasks: Seq<Vec<Run>>) -> Seq<Seq<RunView>> {
    tasks.map_values(|task: Vec<Run>| runs_view(task@))
}

/// The plan of a pattern: the task of each worker, the class dictionary, and
/// the buffer size that every run fits.
#[derive(Clone, PartialEq, Debug)]
pub struct Final {
    pub tasks: Vec<Vec<Run>>,
    pub max_size: usize,
    pub statics: Dict,
}

impl View for Final {
    type V = FinalView;

    open spec fn view(&self) -> FinalView {
        FinalView {
            tasks: tasks_view(self.tasks@),
            max_size: self.max_size as nat,
            statics: self.statics@,
        }
    }
}

/// For each range of `tokens` in order, the number of counts it allows.
fn choices_of(tokens: &Vec<Token>) -> (lens: Vec<usize>)
    requires
        plannable(tokens@),
        product(choices(tokens@)) <= usize::MAX,
    ensures
        as_nats(lens@) == choices(tokens@),
        positive(choices(tokens@)),
{
    let mut lens: Vec<usize> = Vec::new();
    let mut i: usize = 0;
    proof {
        lemma_choices_positive(tokens@);
        assert(tokens@.take(0) =~= Seq::<Token>::empty());
        assert(as_nats(lens@) =~= choices(tokens@.take(0)));
    }
    while i < tokens.len()
        invariant
            i <= tokens@.len(),
            plannable(tokens@),
            positive(choices(tokens@)),
            product(choices(tokens@)) <= usize::MAX,
            as_nats(lens@) == choices(tokens@.take(i as int)),
        decreases tokens@.len() - i,
    {
        proof {
            lemma_choices_prefix(tokens@, i as int);
            assert(tokens@.take(i + 1).drop_last() =~= tokens@.take(i as int));
        }
        if let Token::Range { lower, upper } = tokens[i] {
            proof {
                lemma_radix_le_product(choices(tokens@), ranges_before(tokens@, i as int) as int);
            }
            let ghost before = lens@;
            lens.push(upper - lower + 1);
            assert(as_nats(lens@) =~= as_nats(before).push((upper - lower + 1) as nat));
        }
        i += 1;
    }
    assert(tokens@.take(i as int) =~= tokens@);
    lens
}

/// The tokens with the `j`-th range replaced by a repeat of its lower bound
/// plus `coords[j]`.
fn instantiate(tokens: &Vec<Token>, coords: &Vec<usize>) -> (inst: Vec<Token>)
    requires
        plannable(tokens@),
        in_range(choices(tokens@), as_nats(coords@)),
    ensures
        inst@ == instance(tokens@, as_nats(coords@)),
{
    let mut inst: Vec<Token> = Vec::new();
    let mut i: usize = 0;
    let mut j: usize = 0;
    let places = coords.len();
    proof {
        lemma_instance_len(tokens@, as_nats(coords@));
    }
    while i < tokens.len()
        invariant
            i <= tokens@.len(),
            places == coords@.len(),
            plannable(tokens@),
            in_range(choices(tokens@), as_nats(coords@)),
            j == ranges_before(tokens@, i as int),
            inst@ == instance(tokens@, as_nats(coords@)).take(i as int),
            forall|k: int|
                0 <= k < tokens@.len() ==> (#[trigger] tokens@[k] matches Token::Range {
                    lower,
                    upper,
                } ==> lower + as_nats(coords@)[ranges_before(tokens@, k) as int] <= upper),
        decreases tokens@.len() - i,
    {
        proof {
            lemma_choices_prefix(tokens@, i as int);
        }
        let token = match tokens[i] {
            Token::Range { lower, upper } => {
                let count = lower + coords[j];
                j += 1;
                Token::Repeat(count)
            },
            t => t,
        };
        inst.push(token);
        i += 1;
        assert(inst@ =~= instance(tokens@, as_nats(coords@)).take(i as int));
    }
    assert(instance(tokens@, as_nats(coords@)).take(i as int) =~= instance(
        tokens@,
        as_nats(coords@),
    ));
    inst
}

/// The greatest length among `runs`, and 0 for none.
fn longest_of(runs: &Vec<Run>) -> (max: usize)
    ensures
        max == longest(runs_view(runs@)),
{
    let mut max: usize = 0;
    let mut i: usize = 0;
    assert(runs_view(runs@).take(0) =~= Seq::<RunView>::empty());
    while i < runs.len()
        invariant
            i <= runs@.len(),
            max == longest(runs_view(runs@).take(i as int)),
        decreases runs@.len() - i,
    {
        assert(runs_view(runs@).take(i + 1).drop_last() =~= runs_view(runs@).take(i as int));
        if runs[i].len > max {
            max = runs[i].len;
        }
        i += 1;
    }
    assert(runs_view(runs@).take(i as int) =~= runs_view(runs@));
    max
}

/// A copy of `runs`.
fn copy_runs(runs: &Vec<Run>) -> (copy: Vec<Run>)
    ensures
        runs_view(copy@) == runs_view(runs@),
{
    let mut copy: Vec<Run> = Vec::new();
    let mut i: usize = 0;
    while i < runs.len()
        invariant
            i <= runs@.len(),
            copy@.len() == i,
            forall|j: int| 0 <= j < i ==> (#[trigger] copy@[j])@ == runs@[j]@,
        decreases runs@.len() - i,
    {
        copy.push(runs[i].clone());
        i += 1;
    }
    assert(runs_view(copy@) =~= runs_view(runs@));
    copy
}

/// The runs of worker `w` of `n` when the runs are dealt out in turn.
fn share_of(runs: &Vec<Run>, n: usize, w: usize) -> (task: Vec<Run>)
    requires
        w < n,
    ensures
        runs_view(task@) == share(runs_view(runs@), n as nat, w as nat),
{
    let mut task: Vec<Run> = Vec::new();
    let r = runs.len();
    if w >= r {
        assert(runs_view(task@) =~= share(runs_view(runs@), n as nat, w as nat));
        return task;
    }
    let mut idx: usize = w;
    let mut more = true;
    assert(task@.len() * n == 0) by (nonlinear_arith)
        requires
            task@.len() == 0,
    ;
    while more
        invariant
            r == runs@.len(),
            w < n,
            w < r,
            more ==> idx < r && idx == w + task@.len() * n,
            !more ==> task@.len() >= 1 && w + (task@.len() - 1) * n < r <= w + task@.len() * n,
            forall|j: int|
                0 <= j < task@.len() ==> (#[trigger] task@[j])@ == runs@[w + j * n]@ && w + j * n
                    < r,
        decreases (if more { r - idx + 1 } else { 0 }),
    {
        let ghost before = task@;
        task.push(runs[idx].clone());
        assert(idx + n == w + task@.len() * n && idx == w + (task@.len() - 1) * n)
            by (nonlinear_arith)
            requires
                idx == w + before.len() * n,
                task@.len() == before.len() + 1,
        ;
        assert forall|j: int| 0 <= j < task@.len() implies (#[trigger] task@[j])@ == runs@[w + j
            * n]@ && w + j * n < r by {
            if j < before.len() {
                assert(task@[j] == before[j]);
            } else {
                assert(w + j * n == idx) by (nonlinear_arith)
                    requires
                        idx == w + before.len() * n,
                        j == before.len(),
                ;
            }
        }
        if r - idx <= n {
            more = false;
        } else {
            idx += n;
        }
    }
    proof {
        let count = task@.len() as int;
        let x = r - 1 - w;
        assert(x == (count - 1) * n + (x - (count - 1) * n));
        assert(count * n == (count - 1) * n + n) by (nonlinear_arith);
        vstd::arithmetic::div_mod::lemma_fundamental_div_mod_converse(
            x,
            n as int,
            count - 1,
            x - (count - 1) * n,
        );
        assert(share_len(r as nat, n as nat, w as nat) == count);
        assert(runs_view(task@) =~= share(runs_view(runs@), n as nat, w as nat));
    }
    task
}

/// Whether the number of length instances of `tokens` fits a `usize`.
fn count_fits(tokens: &Vec<Token>) -> (ok: bool)
    requires
        plannable(tokens@),
    ensures
        ok == (product(choices(tokens@)) <= usize::MAX),
{
    let mut acc: usize = 1;
    let mut i: usize = 0;
    proof {
        lemma_choices_positive(tokens@);
        assert(tokens@.take(0) =~= Seq::<Token>::empty());
    }
    while i < tokens.len()
        invariant
            i <= tokens@.len(),
            plannable(tokens@),
            positive(choices(tokens@)),
            acc == product(choices(tokens@.take(i as int))),
        decreases tokens@.len() - i,
    {
        proof {
            lemma_choices_prefix(tokens@, i as int);
            lemma_choices_prefix(tokens@, i + 1);
            assert(tokens@.take(i + 1).drop_last() =~= tokens@.take(i as int));
        }
        if let Token::Range { lower, upper } = tokens[i] {
            let ghost place = ranges_before(tokens@, i as int) as int;
            proof {
                lemma_radix_le_product(choices(tokens@), place);
                assert(choices(tokens@).take(place + 1) =~= choices(tokens@.take(i + 1)));
                lemma_product_prefix(choices(tokens@), place + 1);
                assert(choices(tokens@.take(i + 1)).drop_last() =~= choices(
                    tokens@.take(i as int),
                ));
            }
            let len = match (upper - lower).checked_add(1) {
                Some(len) => len,
                None => {
                    return false;
                },
            };
            acc = match acc.checked_mul(len) {
                Some(acc) => acc,
                None => {
                    return false;
                },
            };
        }
        i += 1;
    }
    assert(tokens@.take(i as int) =~= tokens@);
    true
}

/// Whether the longest length instance of `tokens` fits a `usize`.
fn length_fits(tokens: &Vec<Token>) -> (ok: bool)
    requires
        plannable(tokens@),
    ensures
        ok == (expand(widest(tokens@)).len() <= usize::MAX),
{
    let ghost wide = widest(tokens@);
    let mut total: usize = 0;
    let mut i: usize = 0;
    proof {
        lemma_widest_lowerable(tokens@);
        assert(wide.take(0) =~= Seq::<Token>::empty());
    }
    while i < tokens.len()
        invariant
            i <= tokens@.len(),
            plannable(tokens@),
            wide == widest(tokens@),
            lowerable(wide),
            i < tokens@.len() ==> atomic(wide[i as int]),
            total == expand(wide.take(i as int)).len(),
        decreases tokens@.len() - i,
    {
        proof {
            lemma_after_is_atomic(wide, i as int);
            lemma_expand_step(wide, i as int);
            lemma_expand_prefix_len(wide, after(wide, i as int));
        }
        let mut count: usize = 1;
        i += 1;
        if i < tokens.len() {
            match tokens[i] {
                Token::Repeat(n) => {
                    count = n;
                    i += 1;
                },
                Token::Range { lower, upper } => {
                    count = upper;
                    i += 1;
                },
                _ => {},
            }
        }
        total = match total.checked_add(count) {
            Some(total) => total,
            None => {
                return false;
            },
        };
    }
    assert(wide.take(i as int) =~= wide);
    true
}

impl Final {
    /// Whether `tokens` can be planned on this machine: the number of length
    /// instances and the length of the longest one fit a `usize`.
    pub fn fits(tokens: &Vec<Token>) -> (ok: bool)
        requires
            plannable(tokens@),
        ensures
            ok == fits(tokens@),
    {
        count_fits(tokens) && length_fits(tokens)
    }

    /// Plans the pattern `src` where it lexes and its plan fits this machine,
    /// as `new` does. A pattern that lexes and does not fit gives `None`.
    pub fn try_new(src: &str, num_threads: usize, part: Partition) -> (r: Option<
        Result<Final, ParseErr>,
    >)
        ensures
            match tokenized(src.spec_bytes()) {
                Err(expected) => r == Some(Err::<Final, ParseErr>(expected)),
                Ok(lexed) => if fits(lexed.tokens) {
                    r matches Some(Ok(plan)) && plan@ == planned(
                        lexed.classes,
                        lexed.tokens,
                        num_threads as nat,
                        part,
                    ) && plan_wf(plan@)
                } else {
                    r is None
                },
            },
    {
        let (statics, tokens) = match Lexer::tokenize(src) {
            Ok(lexed) => lexed,
            Err(e) => {
                return Some(Err(e));
            },
        };
        if Self::fits(&tokens) {
            proof {
                lemma_planned_wf(tokenized(src.spec_bytes())->Ok_0, num_threads as nat, part);
            }
            Some(Ok(Self::plan(statics, &tokens, num_threads, part)))
        } else {
            None
        }
    }

    /// Plans the pattern `src` for `num_threads` workers: lexes it, lays out
    /// one run per length instance, and gives the runs to the workers as
    /// `part` says.
    pub fn new(src: &str, num_threads: usize, part: Partition) -> (r: Result<Final, ParseErr>)
        requires
            tokenized(src.spec_bytes()) matches Ok(lexed) ==> fits(lexed.tokens),
        ensures
            match (r, tokenized(src.spec_bytes())) {
                (Ok(plan), Ok(lexed)) => plan@ == planned(
                    lexed.classes,
                    lexed.tokens,
                    num_threads as nat,
                    part,
                ) && plan_wf(plan@),
                (Err(e), Err(expected)) => e == expected,
                _ => false,
            },
    {
        let (statics, tokens) = match Lexer::tokenize(src) {
            Ok(lexed) => lexed,
            Err(e) => {
                return Err(e);
            },
        };
        proof {
            lemma_planned_wf(tokenized(src.spec_bytes())->Ok_0, num_threads as nat, part);
        }
        Ok(Self::plan(statics, &tokens, num_threads, part))
    }

    /// Plans a lexed pattern.
    pub fn plan(statics: Dict, tokens: &Vec<Token>, num_threads: usize, part: Partition) -> (plan:
        Final)
        requires
            plannable(tokens@),
            fits(tokens@),
        ensures
            plan@ == planned(statics@, tokens@, num_threads as nat, part),
    {
        let runs = Self::runs(tokens);
        let max_size = longest_of(&runs);
        let tasks = match part {
            Partition::Single => {
                let mut tasks: Vec<Vec<Run>> = Vec::new();
                tasks.push(runs);
                assert(tasks_view(tasks@) =~= seq![runs_of(tokens@)]);
                tasks
            },
            Partition::Weak => Self::weak_partition(runs, num_threads),
            Partition::Aggressive => Self::aggressive_partition(runs, num_threads),
        };
        Final { max_size, tasks, statics }
    }

    /// The runs of a lexed pattern: one per length instance, in counting order.
    pub fn runs(tokens: &Vec<Token>) -> (runs: Vec<Run>)
        requires
            plannable(tokens@),
            fits(tokens@),
        ensures
            runs_view(runs@) == runs_of(tokens@),
    {
        let lens = choices_of(tokens);
        let permutor = Permutor::new(lens);
        let total = permutor.total();
        let mut runs: Vec<Run> = Vec::new();
        let mut k: usize = 0;
        while k < total
            invariant
                k <= total,
                total == product(choices(tokens@)),
                permutor.radices() == choices(tokens@),
                positive(choices(tokens@)),
                plannable(tokens@),
                fits(tokens@),
                runs@.len() == k,
                forall|j: int|
                    0 <= j < k ==> (#[trigger] runs@[j])@ == run_of(nth_instance(tokens@, j as nat)),
            decreases total - k,
        {
            let coords = permutor.get_iter(k);
            proof {
                lemma_digits_in_range(choices(tokens@), k as nat);
                lemma_instance_len(tokens@, as_nats(coords@));
                lemma_instance_lowerable(tokens@, as_nats(coords@));
            }
            let inst = instantiate(tokens, &coords);
            runs.push(Run::new(inst.as_slice()));
            k += 1;
        }
        assert(runs_view(runs@) =~= runs_of(tokens@));
        runs
    }

    /// Strong partitioning: the runs are dealt out to `n` tasks in turn, so
    /// that each run belongs to exactly one task.
    pub fn aggressive_partition(runs: Vec<Run>, n: usize) -> (tasks: Vec<Vec<Run>>)
        ensures
            tasks_view(tasks@) == Seq::new(
                n as nat,
                |w: int| share(runs_view(runs@), n as nat, w as nat),
            ),
    {
        let mut tasks: Vec<Vec<Run>> = Vec::new();
        let mut w: usize = 0;
        while w < n
            invariant
                w <= n,
                tasks@.len() == w,
                forall|v: int|
                    0 <= v < w ==> runs_view((#[trigger] tasks@[v])@) == share(
                        runs_view(runs@),
                        n as nat,
                        v as nat,
                    ),
            decreases n - w,
        {
            tasks.push(share_of(&runs, n, w));
            w += 1;
        }
        assert(tasks_view(tasks@) =~= Seq::new(
            n as nat,
            |w: int| share(runs_view(runs@), n as nat, w as nat),
        ));
        tasks
    }

    /// Weak partitioning: each of the `n` tasks holds every run.
    pub fn weak_partition(runs: Vec<Run>, n: usize) -> (tasks: Vec<Vec<Run>>)
        ensures
            tasks_view(tasks@) == Seq::new(n as nat, |w: int| runs_view(runs@)),
    {
        let mut tasks: Vec<Vec<Run>> = Vec::new();
        let mut w: usize = 0;
        while w < n
            invariant
                w <= n,
                tasks@.len() == w,
                forall|v: int|
                    0 <= v < w ==> runs_view((#[trigger] tasks@[v])@) == runs_view(runs@),
            decreases n - w,
        {
            tasks.push(copy_runs(&runs));
            w += 1;
        }
        assert(tasks_view(tasks@) =~= Seq::new(n as nat, |w: int| runs_view(runs@)));
        tasks
    }
}

} // verus!
