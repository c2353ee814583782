//! What the plan of a pattern guarantees: its runs enumerate exactly the
//! strings that match the pattern, every run stays inside the buffer, and
//! the partitioning policies hand each run out as they promise.

use crate::codegen::grammar::{token_ok, well_formed, Lexed, Token};
use crate::codegen::language::{
    all_atomic, candidate, classes_known, count, is_match, lemma_lay_out_wf,
    lemma_match_is_enumerated, lemma_run_enumerates, lemma_strings_differ, lemma_strings_match,
    no_repeats, nth_string, radices_of, run_wf, string_count,
};
use crate::codegen::layout::{
    atomic, choices, expand, fits, instance, lay_out, lemma_choices_positive, lemma_instance_len,
    lemma_instance_lowerable, longest, lowerable, nth_instance, partitioned, plannable, planned,
    run_of, runs_of, share, share_len, RunView,
};
use crate::codegen::layout::FinalView;
use crate::codegen::parser::Partition;
use crate::codegen::radix::{
    digits, in_range, lemma_digits_in_range, lemma_digits_injective, lemma_digits_of_value,
    positive, product, value,
};
use vstd::prelude::*;

verus! {

/// Every position that a lowerable sequence lays out holds one of its
/// characters or classes.
pub proof fn lemma_expand_elements(tokens: Seq<Token>)
    requires
        lowerable(tokens),
    ensures
        all_atomic(expand(tokens)),
        forall|p: int|
            0 <= p < expand(tokens).len() ==> tokens.contains(#[trigger] expand(tokens)[p]),
    decreases tokens.len(),
{
    if tokens.len() > 0 {
        let n = tokens.len() as int;
        let last = tokens[n - 1];
        assert(atomic(last) || (last is Repeat && n - 1 > 0 && atomic(tokens[n - 2])));
        let rest = if last is Repeat {
            tokens.take(n - 2)
        } else {
            tokens.drop_last()
        };
        assert(lowerable(rest)) by {
            assert forall|i: int| 0 <= i < rest.len() implies atomic(#[trigger] rest[i]) || (
            rest[i] is Repeat && i > 0 && atomic(rest[i - 1])) by {
                assert(rest[i] == tokens[i]);
                assert(atomic(tokens[i]) || (tokens[i] is Repeat && i > 0 && atomic(
                    tokens[i - 1],
                )));
            }
        }
        lemma_expand_elements(rest);
        let all = expand(tokens);
        assert forall|p: int| 0 <= p < all.len() implies atomic(#[trigger] all[p])
            && tokens.contains(all[p]) by {
            if p < expand(rest).len() {
                assert(all[p] == expand(rest)[p]);
                assert(atomic(expand(rest)[p]));
                assert(rest.contains(expand(rest)[p]));
                let i = choose|i: int| 0 <= i < rest.len() && rest[i] == expand(rest)[p];
                assert(tokens[i] == all[p]);
            } else if last is Repeat {
                assert(tokens[n - 2] == all[p]);
            } else {
                assert(tokens[n - 1] == all[p]);
            }
        }
    }
}

/// The positions of a length instance of a lexed pattern: characters and
/// classes of the pattern, each class known to the dictionary and not empty.
pub proof fn lemma_instance_atoms(lexed: Lexed, coords: Seq<nat>)
    requires
        well_formed(lexed),
        fits(lexed.tokens),
        in_range(choices(lexed.tokens), coords),
    ensures
        plannable(lexed.tokens),
        all_atomic(expand(instance(lexed.tokens, coords))),
        classes_known(expand(instance(lexed.tokens, coords)), lexed.classes),
        positive(radices_of(expand(instance(lexed.tokens, coords)))),
        expand(instance(lexed.tokens, coords)).len() <= usize::MAX,
{
    let tokens = lexed.tokens;
    let inst = instance(tokens, coords);
    let atoms = expand(inst);
    assert(plannable(tokens)) by {
        assert forall|i: int| 0 <= i < tokens.len() implies (#[trigger] tokens[i] matches Token::Range {
            lower,
            upper,
        } ==> lower < upper) by {
            assert(token_ok(tokens[i], lexed.classes));
        }
    }
    lemma_instance_lowerable(tokens, coords);
    lemma_instance_len(tokens, coords);
    lemma_expand_elements(inst);
    assert forall|p: int| 0 <= p < atoms.len() implies (#[trigger] atoms[p] matches Token::Class {
        id,
        len,
    } ==> 1 <= id <= lexed.classes.len() && lexed.classes[id - 1].len() == len && len > 0) by {
        assert(inst.contains(atoms[p]));
        let i = choose|i: int| 0 <= i < inst.len() && inst[i] == atoms[p];
        if atoms[p] is Class {
            assert(tokens[i] == atoms[p]);
            assert(token_ok(tokens[i], lexed.classes));
            let id = atoms[p]->id;
            assert(lexed.classes[id - 1].len() > 0);
        }
    }
    assert forall|p: int| 0 <= p < atoms.len() implies radices_of(atoms)[p] > 0 by {
        assert(atomic(atoms[p]));
    }
}

/// The runs of a lexed pattern are well formed, and each enumerates the
/// strings of its length instance in order.
pub proof fn lemma_runs_enumerate(lexed: Lexed, i: nat, k: nat)
    requires
        well_formed(lexed),
        fits(lexed.tokens),
        i < product(choices(lexed.tokens)),
    ensures
        runs_of(lexed.tokens).len() == product(choices(lexed.tokens)),
        runs_of(lexed.tokens)[i as int] == lay_out(expand(nth_instance(lexed.tokens, i))),
        run_wf(runs_of(lexed.tokens)[i as int], lexed.classes),
        runs_of(lexed.tokens)[i as int].len == expand(nth_instance(lexed.tokens, i)).len(),
        count(runs_of(lexed.tokens)[i as int]) == string_count(
            expand(nth_instance(lexed.tokens, i)),
        ),
        candidate(runs_of(lexed.tokens)[i as int], lexed.classes, k) == nth_string(
            expand(nth_instance(lexed.tokens, i)),
            lexed.classes,
            k,
        ),
        candidate(runs_of(lexed.tokens)[i as int], lexed.classes, k).len() == runs_of(
            lexed.tokens,
        )[i as int].len,
{
    let tokens = lexed.tokens;
    assert forall|j: int| 0 <= j < tokens.len() implies (#[trigger] tokens[j] matches Token::Range {
        lower,
        upper,
    } ==> lower < upper) by {
        assert(token_ok(tokens[j], lexed.classes));
    }
    lemma_choices_positive(tokens);
    lemma_digits_in_range(choices(tokens), i);
    let coords = digits(choices(tokens), i);
    lemma_instance_atoms(lexed, coords);
    let atoms = expand(instance(tokens, coords));
    lemma_lay_out_wf(atoms, lexed.classes);
    lemma_run_enumerates(atoms, lexed.classes, k);
}

/// Coverage: a string matches a length instance of a lexed pattern exactly
/// if the run of that instance enumerates it.
pub proof fn lemma_coverage(lexed: Lexed, i: nat, s: Seq<u8>)
    requires
        well_formed(lexed),
        fits(lexed.tokens),
        i < product(choices(lexed.tokens)),
    ensures
        is_match(expand(nth_instance(lexed.tokens, i)), lexed.classes, s) <==> exists|k: nat|
            k < count(runs_of(lexed.tokens)[i as int]) && #[trigger] candidate(
                runs_of(lexed.tokens)[i as int],
                lexed.classes,
                k,
            ) == s,
{
    let tokens = lexed.tokens;
    let run = runs_of(tokens)[i as int];
    let atoms = expand(nth_instance(tokens, i));
    lemma_runs_enumerate(lexed, i, 0);
    assert forall|j: int| 0 <= j < tokens.len() implies (#[trigger] tokens[j] matches Token::Range {
        lower,
        upper,
    } ==> lower < upper) by {
        assert(token_ok(tokens[j], lexed.classes));
    }
    lemma_choices_positive(tokens);
    lemma_digits_in_range(choices(tokens), i);
    lemma_instance_atoms(lexed, digits(choices(tokens), i));
    if is_match(atoms, lexed.classes, s) {
        let k = lemma_match_is_enumerated(atoms, lexed.classes, s);
        lemma_runs_enumerate(lexed, i, k);
        assert(candidate(run, lexed.classes, k) == s);
    }
    if exists|k: nat| k < count(run) && #[trigger] candidate(run, lexed.classes, k) == s {
        let k = choose|k: nat| k < count(run) && #[trigger] candidate(run, lexed.classes, k) == s;
        lemma_runs_enumerate(lexed, i, k);
        lemma_strings_match(atoms, lexed.classes, k);
    }
}

/// Each once: where no class of the dictionary repeats a byte, a run
/// enumerates no string twice.
pub proof fn lemma_each_once(lexed: Lexed, i: nat, j: nat, k: nat)
    requires
        well_formed(lexed),
        fits(lexed.tokens),
        i < product(choices(lexed.tokens)),
        forall|c: int| 0 <= c < lexed.classes.len() ==> no_repeats(#[trigger] lexed.classes[c]),
        j < count(runs_of(lexed.tokens)[i as int]),
        k < count(runs_of(lexed.tokens)[i as int]),
        j != k,
    ensures
        candidate(runs_of(lexed.tokens)[i as int], lexed.classes, j) != candidate(
            runs_of(lexed.tokens)[i as int],
            lexed.classes,
            k,
        ),
{
    let tokens = lexed.tokens;
    let atoms = expand(nth_instance(tokens, i));
    lemma_runs_enumerate(lexed, i, j);
    lemma_runs_enumerate(lexed, i, k);
    assert forall|q: int| 0 <= q < tokens.len() implies (#[trigger] tokens[q] matches Token::Range {
        lower,
        upper,
    } ==> lower < upper) by {
        assert(token_ok(tokens[q], lexed.classes));
    }
    lemma_choices_positive(tokens);
    lemma_digits_in_range(choices(tokens), i);
    lemma_instance_atoms(lexed, digits(choices(tokens), i));
    if nth_string(atoms, lexed.classes, j) == nth_string(atoms, lexed.classes, k) {
        lemma_strings_differ(atoms, lexed.classes, j, k);
    }
}

/// The string `s` matches the pattern: it matches one of its length
/// instances.
pub open spec fn accepts(tokens: Seq<Token>, classes: Seq<Seq<u8>>, s: Seq<u8>) -> bool {
    exists|coords: Seq<nat>|
        in_range(choices(tokens), coords) && is_match(
            #[trigger] expand(instance(tokens, coords)),
            classes,
            s,
        )
}

/// Candidate `k` of run `i` of the pattern.
pub open spec fn enumerated(lexed: Lexed, i: nat, k: nat) -> Seq<u8> {
    candidate(runs_of(lexed.tokens)[i as int], lexed.classes, k)
}

/// Coverage of a pattern with ranges: a string matches the pattern exactly
/// if one of the runs of the pattern enumerates it.
pub proof fn lemma_pattern_coverage(lexed: Lexed, s: Seq<u8>)
    requires
        well_formed(lexed),
        fits(lexed.tokens),
    ensures
        accepts(lexed.tokens, lexed.classes, s) <==> exists|i: nat, k: nat|
            i < product(choices(lexed.tokens)) && k < count(runs_of(lexed.tokens)[i as int])
                && #[trigger] enumerated(lexed, i, k) == s,
{
    let tokens = lexed.tokens;
    assert forall|j: int| 0 <= j < tokens.len() implies (#[trigger] tokens[j] matches Token::Range {
        lower,
        upper,
    } ==> lower < upper) by {
        assert(token_ok(tokens[j], lexed.classes));
    }
    lemma_choices_positive(tokens);
    if accepts(tokens, lexed.classes, s) {
        let coords = choose|coords: Seq<nat>|
            in_range(choices(tokens), coords) && is_match(
                #[trigger] expand(instance(tokens, coords)),
                lexed.classes,
                s,
            );
        let i = lemma_instances_once(tokens, coords);
        lemma_coverage(lexed, i, s);
        let k = choose|k: nat|
            k < count(runs_of(tokens)[i as int]) && #[trigger] candidate(
                runs_of(tokens)[i as int],
                lexed.classes,
                k,
            ) == s;
        assert(enumerated(lexed, i, k) == s);
    }
    if exists|i: nat, k: nat|
        i < product(choices(tokens)) && k < count(runs_of(tokens)[i as int])
            && #[trigger] enumerated(lexed, i, k) == s {
        let (i, k) = choose|i: nat, k: nat|
            i < product(choices(tokens)) && k < count(runs_of(tokens)[i as int])
                && #[trigger] enumerated(lexed, i, k) == s;
        lemma_coverage(lexed, i, s);
        lemma_digits_in_range(choices(tokens), i);
        assert(is_match(
            expand(instance(tokens, digits(choices(tokens), i))),
            lexed.classes,
            s,
        ));
    }
}

/// A pattern without ranges has one length instance, itself, and so one run.
pub proof fn lemma_no_ranges(tokens: Seq<Token>)
    requires
        forall|i: int| 0 <= i < tokens.len() ==> !(#[trigger] tokens[i] is Range),
    ensures
        choices(tokens) == Seq::<nat>::empty(),
        product(choices(tokens)) == 1,
        nth_instance(tokens, 0) == tokens,
        runs_of(tokens) == seq![run_of(tokens)],
    decreases tokens.len(),
{
    if tokens.len() > 0 {
        let rest = tokens.drop_last();
        assert forall|i: int| 0 <= i < rest.len() implies !(#[trigger] rest[i] is Range) by {
            assert(rest[i] == tokens[i]);
        }
        lemma_no_ranges(rest);
        assert(!(tokens[tokens.len() - 1] is Range));
    }
    assert(choices(tokens) =~= Seq::<nat>::empty());
    assert(nth_instance(tokens, 0) =~= tokens);
    assert(runs_of(tokens) =~= seq![run_of(tokens)]);
}

/// Each choice of counts for the ranges of a pattern is the length instance
/// of exactly one index.
pub proof fn lemma_instances_once(tokens: Seq<Token>, coords: Seq<nat>) -> (k: nat)
    requires
        plannable(tokens),
        in_range(choices(tokens), coords),
    ensures
        k < product(choices(tokens)),
        digits(choices(tokens), k) == coords,
        forall|j: nat|
            j < product(choices(tokens)) && #[trigger] digits(choices(tokens), j) == coords ==> j
                == k,
{
    lemma_choices_positive(tokens);
    lemma_digits_of_value(choices(tokens), coords);
    let k = value(choices(tokens), coords);
    assert forall|j: nat|
        j < product(choices(tokens)) && #[trigger] digits(choices(tokens), j) == coords implies j
        == k by {
        lemma_digits_injective(choices(tokens), j, k);
    }
    k
}

/// No run is longer than the longest.
pub proof fn lemma_longest(runs: Seq<RunView>, i: int)
    requires
        0 <= i < runs.len(),
    ensures
        runs[i].len <= longest(runs),
    decreases runs.len(),
{
    if i < runs.len() - 1 {
        lemma_longest(runs.drop_last(), i);
    }
}

/// Some run is as long as the longest.
pub proof fn lemma_longest_reached(runs: Seq<RunView>) -> (i: int)
    requires
        runs.len() > 0,
    ensures
        0 <= i < runs.len(),
        runs[i].len == longest(runs),
    decreases runs.len(),
{
    if runs.len() == 1 {
        assert(longest(runs.drop_last()) == 0);
        0
    } else if runs.last().len > longest(runs.drop_last()) {
        runs.len() - 1
    } else {
        lemma_longest_reached(runs.drop_last())
    }
}

/// Under strong partitioning every run belongs to a task: run `i` is
/// element `i / n` of task `i % n`.
pub proof fn lemma_share_holds(runs: Seq<RunView>, n: nat, i: int)
    requires
        n > 0,
        0 <= i < runs.len(),
    ensures
        0 <= i % (n as int) < n,
        0 <= i / (n as int) < share(runs, n, (i % (n as int)) as nat).len(),
        share(runs, n, (i % (n as int)) as nat)[i / (n as int)] == runs[i],
{
    let m = n as int;
    let w = i % m;
    let r = i / m;
    vstd::arithmetic::div_mod::lemma_fundamental_div_mod(i, m);
    vstd::arithmetic::div_mod::lemma_mod_bound(i, m);
    vstd::arithmetic::div_mod::lemma_div_pos_is_pos(i, m);
    assert(i == w + r * m) by (nonlinear_arith)
        requires
            i == m * r + w,
    ;
    lemma_share_len(runs.len(), n, w as nat, r);
}

/// Under strong partitioning the tasks hold nothing but the runs, each in
/// one place only: element `r` of task `w` is run `w + r * n`, which no
/// other place of any task is.
pub proof fn lemma_share_from(runs: Seq<RunView>, n: nat, w: int, r: int)
    requires
        0 <= w < n,
        0 <= r < share(runs, n, w as nat).len(),
    ensures
        0 <= w + r * n < runs.len(),
        share(runs, n, w as nat)[r] == runs[w + r * n],
        (w + r * n) % (n as int) == w,
        (w + r * n) / (n as int) == r,
{
    let m = n as int;
    lemma_share_len(runs.len(), n, w as nat, r);
    assert(0 <= r * m) by (nonlinear_arith)
        requires
            0 <= r,
            0 < m,
    ;
    vstd::arithmetic::div_mod::lemma_fundamental_div_mod_converse(w + r * m, m, r, w);
}

/// Element `r` exists in the share of worker `w` exactly if run `w + r * n`
/// exists.
pub proof fn lemma_share_len(total: nat, n: nat, w: nat, r: int)
    requires
        n > 0,
        w < n,
        0 <= r,
    ensures
        r < share_len(total, n, w) <==> w + r * n < total,
{
    let m = n as int;
    assert(0 <= r * m) by (nonlinear_arith)
        requires
            0 <= r,
            0 < m,
    ;
    if w < total {
        let x = total - 1 - w;
        let q = x / m;
        vstd::arithmetic::div_mod::lemma_fundamental_div_mod(x, m);
        vstd::arithmetic::div_mod::lemma_mod_bound(x, m);
        vstd::arithmetic::div_mod::lemma_div_pos_is_pos(x, m);
        if r <= q {
            assert(r * m <= q * m) by (nonlinear_arith)
                requires
                    r <= q,
                    0 < m,
            ;
            assert(m * q == q * m) by (nonlinear_arith);
        } else {
            assert(r * m >= (q + 1) * m) by (nonlinear_arith)
                requires
                    r >= q + 1,
                    0 < m,
            ;
            assert((q + 1) * m == m * q + m) by (nonlinear_arith);
        }
    }
}

/// Under weak partitioning every task holds every run; without partitioning
/// the one task does.
pub proof fn lemma_weak_covers(runs: Seq<RunView>, n: nat, part: Partition, w: int)
    requires
        part != Partition::Aggressive,
        0 <= w < partitioned(runs, n, part).len(),
    ensures
        partitioned(runs, n, part)[w] == runs,
        part == Partition::Single ==> partitioned(runs, n, part).len() == 1,
        part == Partition::Weak ==> partitioned(runs, n, part).len() == n,
{
}

/// Every run of every task of a plan is one of the runs of the pattern.
pub proof fn lemma_task_runs(runs: Seq<RunView>, n: nat, part: Partition, w: int, r: int) -> (i:
    int)
    requires
        0 <= w < partitioned(runs, n, part).len(),
        0 <= r < partitioned(runs, n, part)[w].len(),
    ensures
        0 <= i < runs.len(),
        partitioned(runs, n, part)[w][r] == runs[i],
{
    match part {
        Partition::Aggressive => {
            assert(partitioned(runs, n, part)[w] == share(runs, n, w as nat));
            lemma_share_from(runs, n, w, r);
            w + r * n
        },
        _ => r,
    }
}

/// Buffer bound: every write and loop of every run of a plan stays below
/// the length of its run, and no run is longer than the buffer.
pub proof fn lemma_buffer_bound(lexed: Lexed, n: nat, part: Partition, w: int, r: int)
    requires
        well_formed(lexed),
        fits(lexed.tokens),
        0 <= w < planned(lexed.classes, lexed.tokens, n, part).tasks.len(),
        0 <= r < planned(lexed.classes, lexed.tokens, n, part).tasks[w].len(),
    ensures
        run_wf(planned(lexed.classes, lexed.tokens, n, part).tasks[w][r], lexed.classes),
        planned(lexed.classes, lexed.tokens, n, part).tasks[w][r].len <= planned(
            lexed.classes,
            lexed.tokens,
            n,
            part,
        ).max_size,
{
    let runs = runs_of(lexed.tokens);
    let i = lemma_task_runs(runs, n, part, w, r);
    lemma_runs_enumerate(lexed, i as nat, 0);
    lemma_longest(runs, i);
}

/// The invariants of a plan: each of its runs is well formed for its
/// classes and no longer than its buffer.
pub open spec fn plan_wf(plan: FinalView) -> bool {
    forall|w: int, r: int|
        0 <= w < plan.tasks.len() && 0 <= r < plan.tasks[w].len() ==> run_wf(
            #[trigger] plan.tasks[w][r],
            plan.statics,
        ) && plan.tasks[w][r].len <= plan.max_size
}

/// The plan of a lexed pattern has the invariants of a plan.
pub proof fn lemma_planned_wf(lexed: Lexed, n: nat, part: Partition)
    requires
        well_formed(lexed),
        fits(lexed.tokens),
    ensures
        plan_wf(planned(lexed.classes, lexed.tokens, n, part)),
{
    let plan = planned(lexed.classes, lexed.tokens, n, part);
    assert forall|w: int, r: int|
        0 <= w < plan.tasks.len() && 0 <= r < plan.tasks[w].len() implies run_wf(
        #[trigger] plan.tasks[w][r],
        plan.statics,
    ) && plan.tasks[w][r].len <= plan.max_size by {
        lemma_buffer_bound(lexed, n, part, w, r);
    }
}

/// Coverage of a pattern without ranges: without partitioning, and under
/// strong partitioning for at least one worker, the plan holds one run in
/// one task and nothing else, and a string matches the pattern exactly if
/// that run enumerates it.
pub proof fn lemma_coverage_without_ranges(lexed: Lexed, n: nat, part: Partition, s: Seq<u8>)
    requires
        well_formed(lexed),
        fits(lexed.tokens),
        forall|i: int| 0 <= i < lexed.tokens.len() ==> !(#[trigger] lexed.tokens[i] is Range),
        part == Partition::Single || (part == Partition::Aggressive && n >= 1),
    ensures
        planned(lexed.classes, lexed.tokens, n, part).tasks.len() >= 1,
        planned(lexed.classes, lexed.tokens, n, part).tasks[0] == seq![run_of(lexed.tokens)],
        forall|w: int|
            1 <= w < planned(lexed.classes, lexed.tokens, n, part).tasks.len() ==> (
            #[trigger] planned(lexed.classes, lexed.tokens, n, part).tasks[w]).len() == 0,
        is_match(expand(lexed.tokens), lexed.classes, s) <==> exists|k: nat|
            k < count(run_of(lexed.tokens)) && #[trigger] candidate(
                run_of(lexed.tokens),
                lexed.classes,
                k,
            ) == s,
{
    let tokens = lexed.tokens;
    let tasks = planned(lexed.classes, tokens, n, part).tasks;
    lemma_no_ranges(tokens);
    lemma_coverage(lexed, 0, s);
    assert(runs_of(tokens)[0] == run_of(tokens));
    if part == Partition::Aggressive {
        let runs = runs_of(tokens);
        assert(share_len(1, n, 0) == 1) by {
            assert(0int / (n as int) == 0) by (nonlinear_arith)
                requires
                    n >= 1,
            ;
        }
        assert(share(runs, n, 0) =~= seq![run_of(tokens)]);
        assert forall|w: int| 1 <= w < tasks.len() implies (#[trigger] tasks[w]).len() == 0 by {
            assert(tasks[w] == share(runs, n, w as nat));
        }
    }
}

} // verus!
