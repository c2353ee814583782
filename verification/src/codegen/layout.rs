//! What the planner computes, as functions on token sequences: the runs of a
//! pattern, one per length instance, and their division into tasks.

use crate::codegen::grammar::Token;
use crate::codegen::parser::{Change, Init, Partition};
use crate::codegen::radix::{digits, in_range, product};
use vstd::prelude::*;

verus! {

/// A token that takes a buffer position of its own.
pub open spec fn atomic(t: Token) -> bool {
    t is Char || t is Class
}

/// A token sequence that can be laid out as one run: characters, classes,
/// and repeats that each follow a character or class.
pub open spec fn lowerable(tokens: Seq<Token>) -> bool {
    forall|i: int|
        0 <= i < tokens.len() ==> atomic(#[trigger] tokens[i]) || (tokens[i] is Repeat && i > 0
            && atomic(tokens[i - 1]))
}

/// `n` times the token `t`.
pub open spec fn copies(t: Token, n: nat) -> Seq<Token> {
    Seq::new(n, |i: int| t)
}

/// The tokens with every repeat written out: one character or class per
/// buffer position.
pub open spec fn expand(tokens: Seq<Token>) -> Seq<Token>
    decreases tokens.len(),
{
    if tokens.len() == 0 {
        Seq::empty()
    } else {
        match tokens.last() {
            Token::Repeat(n) => {
                if tokens.len() >= 2 {
                    expand(tokens.take(tokens.len() - 2)) + copies(
                        tokens[tokens.len() - 2],
                        n as nat,
                    )
                } else {
                    Seq::empty()
                }
            },
            Token::Range { .. } => expand(tokens.drop_last()),
            t => expand(tokens.drop_last()).push(t),
        }
    }
}

/// The writes that fill the fixed positions of `atoms`.
pub open spec fn inits_of(atoms: Seq<Token>) -> Seq<Init>
    decreases atoms.len(),
{
    if atoms.len() == 0 {
        Seq::empty()
    } else {
        let before = inits_of(atoms.drop_last());
        match atoms.last() {
            Token::Char(c) => before.push(Init { val: c, buf_idx: (atoms.len() - 1) as usize }),
            _ => before,
        }
    }
}

/// The loops that run through the class positions of `atoms`.
pub open spec fn changes_of(atoms: Seq<Token>) -> Seq<Change>
    decreases atoms.len(),
{
    if atoms.len() == 0 {
        Seq::empty()
    } else {
        let before = changes_of(atoms.drop_last());
        match atoms.last() {
            Token::Class { id, len } => before.push(
                Change { buf_idx: (atoms.len() - 1) as usize, class_id: id, lower: 0, upper: len },
            ),
            _ => before,
        }
    }
}

/// How often the character or class at `i` is laid out: the count of the
/// repeat that follows it, or once.
pub open spec fn count_at(tokens: Seq<Token>, i: int) -> nat {
    if i + 1 < tokens.len() && tokens[i + 1] is Repeat {
        tokens[i + 1]->Repeat_0 as nat
    } else {
        1
    }
}

/// The index after the character or class at `i` and its repeat, if it has one.
pub open spec fn after(tokens: Seq<Token>, i: int) -> int {
    if i + 1 < tokens.len() && tokens[i + 1] is Repeat {
        i + 2
    } else {
        i + 1
    }
}

/// Laying out one more character or class, with its repeat, appends its copies.
pub proof fn lemma_expand_step(tokens: Seq<Token>, i: int)
    requires
        0 <= i < tokens.len(),
        atomic(tokens[i]),
    ensures
        expand(tokens.take(after(tokens, i))) == expand(tokens.take(i)) + copies(
            tokens[i],
            count_at(tokens, i),
        ),
{
    let next = after(tokens, i);
    let upto = tokens.take(next);
    if next == i + 2 {
        assert(upto.take(upto.len() - 2) =~= tokens.take(i));
    } else {
        assert(upto.drop_last() =~= tokens.take(i));
        assert(expand(tokens.take(i)).push(tokens[i]) =~= expand(tokens.take(i)) + copies(
            tokens[i],
            1,
        ));
    }
}

/// A lowerable sequence continues with a character or class after each one
/// and its repeat.
pub proof fn lemma_after_is_atomic(tokens: Seq<Token>, i: int)
    requires
        lowerable(tokens),
        0 <= i < tokens.len(),
        atomic(tokens[i]),
    ensures
        i < after(tokens, i) <= tokens.len(),
        after(tokens, i) < tokens.len() ==> atomic(tokens[after(tokens, i)]),
{
    let next = after(tokens, i);
    if next < tokens.len() {
        assert(atomic(tokens[next]) || (tokens[next] is Repeat && atomic(tokens[next - 1])));
    }
}

/// What is laid out up to a character or class is no longer than the whole.
pub proof fn lemma_expand_prefix_len(tokens: Seq<Token>, i: int)
    requires
        lowerable(tokens),
        0 <= i <= tokens.len(),
        i < tokens.len() ==> atomic(tokens[i]),
    ensures
        expand(tokens.take(i)).len() <= expand(tokens).len(),
    decreases tokens.len() - i,
{
    if i == tokens.len() {
        assert(tokens.take(i) =~= tokens);
    } else {
        lemma_after_is_atomic(tokens, i);
        lemma_expand_step(tokens, i);
        lemma_expand_prefix_len(tokens, after(tokens, i));
    }
}

/// Copies of a character add one write each and no loop.
pub proof fn lemma_lay_out_chars(base: Seq<Token>, c: u8, n: nat)
    ensures
        inits_of(base + copies(Token::Char(c), n)) == inits_of(base) + Seq::new(
            n,
            |j: int| Init { val: c, buf_idx: (base.len() + j) as usize },
        ),
        changes_of(base + copies(Token::Char(c), n)) == changes_of(base),
    decreases n,
{
    let all = base + copies(Token::Char(c), n);
    if n == 0 {
        assert(all =~= base);
        assert(inits_of(base) =~= inits_of(base) + Seq::new(
            n,
            |j: int| Init { val: c, buf_idx: (base.len() + j) as usize },
        ));
    } else {
        lemma_lay_out_chars(base, c, (n - 1) as nat);
        assert(all.drop_last() =~= base + copies(Token::Char(c), (n - 1) as nat));
        assert(inits_of(all) =~= inits_of(base) + Seq::new(
            n,
            |j: int| Init { val: c, buf_idx: (base.len() + j) as usize },
        ));
    }
}

/// Copies of a class add one loop each and no write.
pub proof fn lemma_lay_out_classes(base: Seq<Token>, id: usize, len: usize, n: nat)
    ensures
        changes_of(base + copies(Token::Class { id, len }, n)) == changes_of(base) + Seq::new(
            n,
            |j: int|
                Change { buf_idx: (base.len() + j) as usize, class_id: id, lower: 0, upper: len },
        ),
        inits_of(base + copies(Token::Class { id, len }, n)) == inits_of(base),
    decreases n,
{
    let all = base + copies(Token::Class { id, len }, n);
    if n == 0 {
        assert(all =~= base);
        assert(changes_of(base) =~= changes_of(base) + Seq::new(
            n,
            |j: int|
                Change { buf_idx: (base.len() + j) as usize, class_id: id, lower: 0, upper: len },
        ));
    } else {
        lemma_lay_out_classes(base, id, len, (n - 1) as nat);
        assert(all.drop_last() =~= base + copies(Token::Class { id, len }, (n - 1) as nat));
        assert(changes_of(all) =~= changes_of(base) + Seq::new(
            n,
            |j: int|
                Change { buf_idx: (base.len() + j) as usize, class_id: id, lower: 0, upper: len },
        ));
    }
}

/// A run as plain data.
pub struct RunView {
    pub inits: Seq<Init>,
    pub changes: Seq<Change>,
    pub len: nat,
}

/// The run that lays out `atoms`, one position each.
pub open spec fn lay_out(atoms: Seq<Token>) -> RunView {
    RunView { inits: inits_of(atoms), changes: changes_of(atoms), len: atoms.len() }
}

/// The run of a token sequence without ranges.
pub open spec fn run_of(tokens: Seq<Token>) -> RunView {
    lay_out(expand(tokens))
}

/// How many ranges stand among the first `i` tokens.
pub open spec fn ranges_before(tokens: Seq<Token>, i: int) -> nat
    decreases i,
{
    if i <= 0 {
        0
    } else {
        ranges_before(tokens, i - 1) + if tokens[i - 1] is Range {
            1nat
        } else {
            0nat
        }
    }
}

/// For each range in order, the number of counts it allows.
pub open spec fn choices(tokens: Seq<Token>) -> Seq<nat>
    decreases tokens.len(),
{
    if tokens.len() == 0 {
        Seq::empty()
    } else {
        let before = choices(tokens.drop_last());
        match tokens.last() {
            Token::Range { lower, upper } => before.push((upper - lower + 1) as nat),
            _ => before,
        }
    }
}

/// The tokens with each range replaced by one repeat: the `j`-th range
/// becomes its lower bound plus `coords[j]`.
pub open spec fn instance(tokens: Seq<Token>, coords: Seq<nat>) -> Seq<Token> {
    Seq::new(
        tokens.len(),
        |i: int|
            match tokens[i] {
                Token::Range { lower, upper } => Token::Repeat(
                    (lower + coords[ranges_before(tokens, i) as int]) as usize,
                ),
                t => t,
            },
    )
}

/// The `k`-th length instance of a pattern. Instances are counted in a mixed
/// radix over the ranges, the last range moving fastest.
pub open spec fn nth_instance(tokens: Seq<Token>, k: nat) -> Seq<Token> {
    instance(tokens, digits(choices(tokens), k))
}

/// The runs of a pattern: one per length instance, in counting order.
pub open spec fn runs_of(tokens: Seq<Token>) -> Seq<RunView> {
    Seq::new(product(choices(tokens)), |k: int| run_of(nth_instance(tokens, k as nat)))
}

/// The tokens with each range replaced by a repeat of its upper bound.
pub open spec fn widest(tokens: Seq<Token>) -> Seq<Token> {
    Seq::new(
        tokens.len(),
        |i: int|
            match tokens[i] {
                Token::Range { lower, upper } => Token::Repeat(upper),
                t => t,
            },
    )
}

/// The pattern can be planned on this machine: the number of its length
/// instances and the length of its longest one fit a `usize`.
pub open spec fn fits(tokens: Seq<Token>) -> bool {
    &&& product(choices(tokens)) <= usize::MAX
    &&& expand(widest(tokens)).len() <= usize::MAX
}

/// The greatest length among `runs`, and 0 for none.
pub open spec fn longest(runs: Seq<RunView>) -> nat
    decreases runs.len(),
{
    if runs.len() == 0 {
        0
    } else {
        let before = longest(runs.drop_last());
        if runs.last().len > before {
            runs.last().len
        } else {
            before
        }
    }
}

/// How many of `r` runs worker `w` of `n` gets when the runs are dealt out
/// in turn.
pub open spec fn share_len(r: nat, n: nat, w: nat) -> nat {
    if w < r && n > 0 {
        ((r - 1 - w) / (n as int) + 1) as nat
    } else {
        0
    }
}

/// The runs of worker `w` of `n` when the runs are dealt out in turn: the
/// runs `w`, `w + n`, `w + 2n`, and so on.
pub open spec fn share(runs: Seq<RunView>, n: nat, w: nat) -> Seq<RunView> {
    Seq::new(share_len(runs.len(), n, w), |j: int| runs[w + j * n])
}

/// The tasks of `n` workers under a partitioning policy.
pub open spec fn partitioned(runs: Seq<RunView>, n: nat, part: Partition) -> Seq<Seq<RunView>> {
    match part {
        Partition::Single => seq![runs],
        Partition::Weak => Seq::new(n, |w: int| runs),
        Partition::Aggressive => Seq::new(n, |w: int| share(runs, n, w as nat)),
    }
}

/// A plan as plain data.
pub struct FinalView {
    pub tasks: Seq<Seq<RunView>>,
    pub max_size: nat,
    pub statics: Seq<Seq<u8>>,
}

/// The plan of a lexed pattern for `n` workers.
pub open spec fn planned(
    classes: Seq<Seq<u8>>,
    tokens: Seq<Token>,
    n: nat,
    part: Partition,
) -> FinalView {
    FinalView {
        tasks: partitioned(runs_of(tokens), n, part),
        max_size: longest(runs_of(tokens)),
        statics: classes,
    }
}

/// The structural rules that the lexer checks: the pattern starts with a
/// character or class, no varying token follows another, and every range
/// rises.
pub open spec fn plannable(tokens: Seq<Token>) -> bool {
    &&& tokens.len() > 0
    &&& !tokens[0].varying()
    &&& forall|i: int|
        1 <= i < tokens.len() ==> !(#[trigger] tokens[i].varying() && tokens[i - 1].varying())
    &&& forall|i: int|
        0 <= i < tokens.len() ==> (#[trigger] tokens[i] matches Token::Range { lower, upper }
            ==> lower < upper)
}

/// The ranges among the first `i` tokens are the first ranges of all.
pub proof fn lemma_choices_prefix(tokens: Seq<Token>, i: int)
    requires
        0 <= i <= tokens.len(),
    ensures
        choices(tokens.take(i)).len() == ranges_before(tokens, i),
        ranges_before(tokens, i) <= choices(tokens).len(),
        forall|j: int|
            0 <= j < ranges_before(tokens, i) ==> choices(tokens.take(i))[j] == choices(tokens)[j],
        i < tokens.len() ==> (tokens[i] matches Token::Range { lower, upper } ==> ranges_before(
            tokens,
            i,
        ) < choices(tokens).len() && choices(tokens)[ranges_before(tokens, i) as int] == (upper
            - lower + 1) as nat),
    decreases tokens.len() - i,
{
    if i == tokens.len() {
        assert(tokens.take(i) =~= tokens);
        lemma_ranges_before_len(tokens, i);
    } else {
        lemma_choices_prefix(tokens, i + 1);
        lemma_ranges_before_len(tokens, i);
        assert(tokens.take(i + 1).drop_last() =~= tokens.take(i));
        assert(tokens.take(i + 1).last() == tokens[i]);
    }
}

/// The ranges among the first `i` tokens, counted either way.
pub proof fn lemma_ranges_before_len(tokens: Seq<Token>, i: int)
    requires
        0 <= i <= tokens.len(),
    ensures
        choices(tokens.take(i)).len() == ranges_before(tokens, i),
    decreases i,
{
    if i > 0 {
        lemma_ranges_before_len(tokens, i - 1);
        assert(tokens.take(i).drop_last() =~= tokens.take(i - 1));
        assert(tokens.take(i).last() == tokens[i - 1]);
    }
}

/// Every range of a plannable pattern allows at least two counts.
pub proof fn lemma_choices_positive(tokens: Seq<Token>)
    requires
        forall|i: int|
            0 <= i < tokens.len() ==> (#[trigger] tokens[i] matches Token::Range { lower, upper }
                ==> lower < upper),
    ensures
        forall|j: int| 0 <= j < choices(tokens).len() ==> choices(tokens)[j] >= 2,
    decreases tokens.len(),
{
    if tokens.len() > 0 {
        let rest = tokens.drop_last();
        assert forall|i: int| 0 <= i < rest.len() implies (#[trigger] rest[i] matches Token::Range {
            lower,
            upper,
        } ==> lower < upper) by {
            assert(rest[i] == tokens[i]);
        }
        lemma_choices_positive(rest);
        let last = tokens[tokens.len() - 1];
        assert(last matches Token::Range { lower, upper } ==> lower < upper);
        assert forall|j: int| 0 <= j < choices(tokens).len() implies choices(tokens)[j] >= 2 by {
            if j < choices(rest).len() {
                assert(choices(tokens)[j] == choices(rest)[j]);
            }
        }
    }
}

/// Every length instance of a plannable pattern can be laid out as a run.
pub proof fn lemma_instance_lowerable(tokens: Seq<Token>, coords: Seq<nat>)
    requires
        plannable(tokens),
    ensures
        lowerable(instance(tokens, coords)),
{
    let inst = instance(tokens, coords);
    assert forall|i: int| 0 <= i < inst.len() implies atomic(#[trigger] inst[i]) || (inst[i] is Repeat
        && i > 0 && atomic(inst[i - 1])) by {
        if tokens[i].varying() {
            if i > 0 {
                assert(!(tokens[i].varying() && tokens[i - 1].varying()));
            }
        }
    }
}

/// Two sequences that differ only in the counts of their repeats, the first
/// never counting more than the second.
pub open spec fn no_longer(a: Seq<Token>, b: Seq<Token>) -> bool {
    &&& a.len() == b.len()
    &&& forall|i: int|
        0 <= i < a.len() ==> #[trigger] a[i] == b[i] || (a[i] is Repeat && b[i] is Repeat
            && a[i]->Repeat_0 <= b[i]->Repeat_0)
}

/// Smaller counts lay out no more positions.
pub proof fn lemma_expand_no_longer(a: Seq<Token>, b: Seq<Token>)
    requires
        no_longer(a, b),
    ensures
        expand(a).len() <= expand(b).len(),
    decreases a.len(),
{
    if a.len() > 0 {
        let n = a.len() as int;
        assert(a[n - 1] == b[n - 1] || (a[n - 1] is Repeat && b[n - 1] is Repeat));
        if a.last() is Repeat {
            if n >= 2 {
                let a2 = a.take(n - 2);
                let b2 = b.take(n - 2);
                assert(no_longer(a2, b2)) by {
                    assert forall|i: int| 0 <= i < a2.len() implies #[trigger] a2[i] == b2[i] || (
                    a2[i] is Repeat && b2[i] is Repeat && a2[i]->Repeat_0 <= b2[i]->Repeat_0) by {
                        assert(a[i] == b[i] || (a[i] is Repeat && b[i] is Repeat
                            && a[i]->Repeat_0 <= b[i]->Repeat_0));
                    }
                }
                lemma_expand_no_longer(a2, b2);
            }
        } else {
            let a1 = a.drop_last();
            let b1 = b.drop_last();
            assert(no_longer(a1, b1)) by {
                assert forall|i: int| 0 <= i < a1.len() implies #[trigger] a1[i] == b1[i] || (
                a1[i] is Repeat && b1[i] is Repeat && a1[i]->Repeat_0 <= b1[i]->Repeat_0) by {
                    assert(a[i] == b[i] || (a[i] is Repeat && b[i] is Repeat && a[i]->Repeat_0
                        <= b[i]->Repeat_0));
                }
            }
            lemma_expand_no_longer(a1, b1);
        }
    }
}

/// No length instance is longer than the one with every range at its upper bound.
pub proof fn lemma_instance_len(tokens: Seq<Token>, coords: Seq<nat>)
    requires
        plannable(tokens),
        in_range(choices(tokens), coords),
    ensures
        expand(instance(tokens, coords)).len() <= expand(widest(tokens)).len(),
        forall|i: int|
            0 <= i < tokens.len() ==> (#[trigger] tokens[i] matches Token::Range { lower, upper }
                ==> lower + coords[ranges_before(tokens, i) as int] <= upper),
{
    let a = instance(tokens, coords);
    let b = widest(tokens);
    assert forall|i: int| 0 <= i < tokens.len() implies (#[trigger] tokens[i] matches Token::Range {
        lower,
        upper,
    } ==> lower + coords[ranges_before(tokens, i) as int] <= upper) by {
        lemma_choices_prefix(tokens, i);
    }
    assert forall|i: int| 0 <= i < a.len() implies #[trigger] a[i] == b[i] || (a[i] is Repeat
        && b[i] is Repeat && a[i]->Repeat_0 <= b[i]->Repeat_0) by {
        if tokens[i] is Range {
            lemma_choices_prefix(tokens, i);
        }
    }
    lemma_expand_no_longer(a, b);
}

/// A plannable pattern with every range at its upper bound can be laid out
/// as a run.
pub proof fn lemma_widest_lowerable(tokens: Seq<Token>)
    requires
        plannable(tokens),
    ensures
        lowerable(widest(tokens)),
{
    let wide = widest(tokens);
    assert forall|i: int| 0 <= i < wide.len() implies atomic(#[trigger] wide[i]) || (wide[i] is Repeat
        && i > 0 && atomic(wide[i - 1])) by {
        if tokens[i].varying() {
            if i > 0 {
                assert(!(tokens[i].varying() && tokens[i - 1].varying()));
            }
        }
    }
}

} // verus!
