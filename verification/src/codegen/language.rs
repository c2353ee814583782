//! What a pattern means: the strings that match it, in the order in which
//! they are enumerated, and the proof that the runs of the planner enumerate
//! exactly those.

use crate::codegen::grammar::Token;
use crate::codegen::layout::{atomic, changes_of, inits_of, lay_out, RunView};
use crate::codegen::radix::{
    digits, lemma_digits_in_range, lemma_digits_injective, lemma_digits_of_value, positive, product,
    value,
};
use vstd::prelude::*;

verus! {

/// Every token takes a buffer position of its own.
pub open spec fn all_atomic(atoms: Seq<Token>) -> bool {
    forall|p: int| 0 <= p < atoms.len() ==> atomic(#[trigger] atoms[p])
}

/// How many bytes a position can show: the length of its class, or one.
pub open spec fn radix(t: Token) -> nat {
    match t {
        Token::Class { id, len } => len as nat,
        _ => 1,
    }
}

/// The number of bytes that each position can show.
pub open spec fn radices_of(atoms: Seq<Token>) -> Seq<nat> {
    Seq::new(atoms.len(), |p: int| radix(atoms[p]))
}

/// The byte that a position shows for the digit `d`: its character, or byte
/// `d` of its class.
pub open spec fn choice(t: Token, classes: Seq<Seq<u8>>, d: nat) -> u8 {
    match t {
        Token::Char(c) => c,
        Token::Class { id, len } => classes[id - 1][d as int],
        _ => 0,
    }
}

/// How many strings a sequence of characters and classes is enumerated as.
pub open spec fn string_count(atoms: Seq<Token>) -> nat {
    product(radices_of(atoms))
}

/// The `k`-th string of a sequence of characters and classes. The strings
/// are ordered by the index that each class position shows, the first
/// position counting most: lexicographic order over the class contents.
pub open spec fn nth_string(atoms: Seq<Token>, classes: Seq<Seq<u8>>, k: nat) -> Seq<u8> {
    Seq::new(atoms.len(), |p: int| choice(atoms[p], classes, digits(radices_of(atoms), k)[p]))
}

/// The position `t` can show the byte `b`.
pub open spec fn admits(t: Token, classes: Seq<Seq<u8>>, b: u8) -> bool {
    match t {
        Token::Char(c) => b == c,
        Token::Class { id, len } => {
            let class = classes[id - 1];
            exists|d: int| 0 <= d < len && #[trigger] class[d] == b
        },
        _ => false,
    }
}

/// The string `s` matches the sequence of characters and classes: it has one
/// byte per position, and each position can show its byte.
pub open spec fn is_match(atoms: Seq<Token>, classes: Seq<Seq<u8>>, s: Seq<u8>) -> bool {
    &&& s.len() == atoms.len()
    &&& forall|p: int| 0 <= p < atoms.len() ==> admits(#[trigger] atoms[p], classes, s[p])
}

/// The number of bytes that each loop of a run goes through.
pub open spec fn spans(run: RunView) -> Seq<nat> {
    Seq::new(run.changes.len(), |i: int| (run.changes[i].upper - run.changes[i].lower) as nat)
}

/// How many candidates a run enumerates.
pub open spec fn count(run: RunView) -> nat {
    product(spans(run))
}

/// Some loop of the run writes position `p`.
pub open spec fn looped(run: RunView, p: int) -> bool {
    exists|i: int| 0 <= i < run.changes.len() && (#[trigger] run.changes[i]).buf_idx == p
}

/// Some write of the run fills position `p` before the loops start.
pub open spec fn filled(run: RunView, p: int) -> bool {
    exists|j: int| 0 <= j < run.inits.len() && (#[trigger] run.inits[j]).buf_idx == p
}

/// The byte at position `p` of the buffer when loop `i` of the run shows
/// byte `d[i]` of its range.
pub open spec fn byte_at(run: RunView, classes: Seq<Seq<u8>>, d: Seq<nat>, p: int) -> u8 {
    if looped(run, p) {
        let i = choose|i: int| 0 <= i < run.changes.len() && (#[trigger] run.changes[i]).buf_idx == p;
        classes[run.changes[i].class_id - 1][run.changes[i].lower + d[i]]
    } else if filled(run, p) {
        let j = choose|j: int| 0 <= j < run.inits.len() && (#[trigger] run.inits[j]).buf_idx == p;
        run.inits[j].val
    } else {
        0
    }
}

/// The first `run.len` bytes of the buffer when loop `i` shows byte `d[i]`
/// of its range: what the handler is given.
pub open spec fn shown(run: RunView, classes: Seq<Seq<u8>>, d: Seq<nat>) -> Seq<u8> {
    Seq::new(run.len, |p: int| byte_at(run, classes, d, p))
}

/// The `k`-th candidate of a run. The loops are nested in the order of
/// `changes`, so the last loop moves fastest.
pub open spec fn candidate(run: RunView, classes: Seq<Seq<u8>>, k: nat) -> Seq<u8> {
    shown(run, classes, digits(spans(run), k))
}

/// The invariants of a run: its writes and loops stay inside its length,
/// each position has exactly one write or loop, and each loop goes through a
/// non-empty part of a class of the dictionary.
pub open spec fn run_wf(run: RunView, classes: Seq<Seq<u8>>) -> bool {
    &&& run.inits.len() + run.changes.len() == run.len
    &&& forall|j: int| 0 <= j < run.inits.len() ==> (#[trigger] run.inits[j]).buf_idx < run.len
    &&& forall|i: int| 0 <= i < run.changes.len() ==> (#[trigger] run.changes[i]).buf_idx < run.len
    &&& forall|i: int|
        0 <= i < run.changes.len() ==> 1 <= (#[trigger] run.changes[i]).class_id <= classes.len()
            && run.changes[i].lower < run.changes[i].upper <= classes[run.changes[i].class_id
            - 1].len()
    &&& forall|i: int, k: int|
        0 <= i < k < run.changes.len() ==> (#[trigger] run.changes[i]).buf_idx != (
        #[trigger] run.changes[k]).buf_idx
    &&& forall|j: int, k: int|
        0 <= j < k < run.inits.len() ==> (#[trigger] run.inits[j]).buf_idx != (
        #[trigger] run.inits[k]).buf_idx
    &&& forall|i: int, j: int|
        0 <= i < run.changes.len() && 0 <= j < run.inits.len() ==> (
        #[trigger] run.changes[i]).buf_idx != (#[trigger] run.inits[j]).buf_idx
    &&& forall|p: int| 0 <= p < run.len ==> looped(run, p) || filled(run, p)
}

/// How the writes and loops of a laid-out sequence relate to its positions:
/// each write stands for a character and each loop for a class, in the order
/// of the positions, and every position has its write or loop.
pub proof fn lemma_lay_out_positions(atoms: Seq<Token>)
    requires
        all_atomic(atoms),
        atoms.len() <= usize::MAX,
    ensures
        inits_of(atoms).len() + changes_of(atoms).len() == atoms.len(),
        forall|j: int|
            0 <= j < inits_of(atoms).len() ==> (#[trigger] inits_of(atoms)[j]).buf_idx < atoms.len()
                && atoms[inits_of(atoms)[j].buf_idx as int] == Token::Char(inits_of(atoms)[j].val),
        forall|i: int|
            0 <= i < changes_of(atoms).len() ==> (#[trigger] changes_of(atoms)[i]).buf_idx
                < atoms.len() && atoms[changes_of(atoms)[i].buf_idx as int] == (Token::Class {
                id: changes_of(atoms)[i].class_id,
                len: changes_of(atoms)[i].upper,
            }) && changes_of(atoms)[i].lower == 0,
        forall|j: int, k: int|
            0 <= j < k < inits_of(atoms).len() ==> (#[trigger] inits_of(atoms)[j]).buf_idx < (
            #[trigger] inits_of(atoms)[k]).buf_idx,
        forall|i: int, k: int|
            0 <= i < k < changes_of(atoms).len() ==> (#[trigger] changes_of(atoms)[i]).buf_idx < (
            #[trigger] changes_of(atoms)[k]).buf_idx,
        forall|p: int|
            0 <= p < atoms.len() && (#[trigger] atoms[p]) is Char ==> filled(lay_out(atoms), p),
        forall|p: int|
            0 <= p < atoms.len() && (#[trigger] atoms[p]) is Class ==> looped(lay_out(atoms), p),
    decreases atoms.len(),
{
    if atoms.len() > 0 {
        let rest = atoms.drop_last();
        let n = atoms.len() as int;
        assert(all_atomic(rest)) by {
            assert forall|p: int| 0 <= p < rest.len() implies atomic(#[trigger] rest[p]) by {
                assert(rest[p] == atoms[p]);
            }
        }
        lemma_lay_out_positions(rest);
        let inits = inits_of(atoms);
        let changes = changes_of(atoms);
        assert(atomic(atoms[n - 1]));
        assert forall|j: int| 0 <= j < inits.len() implies (#[trigger] inits[j]).buf_idx < n
            && atoms[inits[j].buf_idx as int] == Token::Char(inits[j].val) by {
            if j < inits_of(rest).len() {
                assert(inits[j] == inits_of(rest)[j]);
                assert(rest[inits[j].buf_idx as int] == atoms[inits[j].buf_idx as int]);
            }
        }
        assert forall|i: int| 0 <= i < changes.len() implies (#[trigger] changes[i]).buf_idx < n
            && atoms[changes[i].buf_idx as int] == (Token::Class {
            id: changes[i].class_id,
            len: changes[i].upper,
        }) && changes[i].lower == 0 by {
            if i < changes_of(rest).len() {
                assert(changes[i] == changes_of(rest)[i]);
                assert(rest[changes[i].buf_idx as int] == atoms[changes[i].buf_idx as int]);
            }
        }
        assert forall|j: int, k: int| 0 <= j < k < inits.len() implies (#[trigger] inits[j]).buf_idx
            < (#[trigger] inits[k]).buf_idx by {
            if k < inits_of(rest).len() {
                assert(inits[j] == inits_of(rest)[j]);
                assert(inits[k] == inits_of(rest)[k]);
            } else {
                assert(inits[j] == inits_of(rest)[j]);
            }
        }
        assert forall|i: int, k: int| 0 <= i < k < changes.len() implies (
        #[trigger] changes[i]).buf_idx < (#[trigger] changes[k]).buf_idx by {
            if k < changes_of(rest).len() {
                assert(changes[i] == changes_of(rest)[i]);
                assert(changes[k] == changes_of(rest)[k]);
            } else {
                assert(changes[i] == changes_of(rest)[i]);
            }
        }
        assert forall|p: int| 0 <= p < n && (#[trigger] atoms[p]) is Char implies filled(
            lay_out(atoms),
            p,
        ) by {
            if p < n - 1 {
                assert(rest[p] == atoms[p]);
                assert(filled(lay_out(rest), p));
                let j = choose|j: int|
                    0 <= j < inits_of(rest).len() && (#[trigger] inits_of(rest)[j]).buf_idx == p;
                assert(inits[j] == inits_of(rest)[j]);
                assert(lay_out(atoms).inits[j].buf_idx == p);
            } else {
                assert(lay_out(atoms).inits[inits.len() - 1].buf_idx == p);
            }
        }
        assert forall|p: int| 0 <= p < n && (#[trigger] atoms[p]) is Class implies looped(
            lay_out(atoms),
            p,
        ) by {
            if p < n - 1 {
                assert(rest[p] == atoms[p]);
                assert(looped(lay_out(rest), p));
                let i = choose|i: int|
                    0 <= i < changes_of(rest).len() && (#[trigger] changes_of(rest)[i]).buf_idx
                        == p;
                assert(changes[i] == changes_of(rest)[i]);
                assert(lay_out(atoms).changes[i].buf_idx == p);
            } else {
                assert(lay_out(atoms).changes[changes.len() - 1].buf_idx == p);
            }
        }
    }
}

/// Every class token names a class of the dictionary and gives its length,
/// which is not zero.
pub open spec fn classes_known(atoms: Seq<Token>, classes: Seq<Seq<u8>>) -> bool {
    forall|p: int|
        0 <= p < atoms.len() ==> (#[trigger] atoms[p] matches Token::Class { id, len } ==> 1 <= id
            <= classes.len() && classes[id - 1].len() == len && len > 0)
}

/// A laid-out sequence of characters and classes is a well-formed run.
pub proof fn lemma_lay_out_wf(atoms: Seq<Token>, classes: Seq<Seq<u8>>)
    requires
        all_atomic(atoms),
        atoms.len() <= usize::MAX,
        classes_known(atoms, classes),
    ensures
        run_wf(lay_out(atoms), classes),
{
    lemma_lay_out_positions(atoms);
    let run = lay_out(atoms);
    assert forall|i: int| 0 <= i < run.changes.len() implies 1 <= (
    #[trigger] run.changes[i]).class_id <= classes.len() && run.changes[i].lower
        < run.changes[i].upper <= classes[run.changes[i].class_id - 1].len() by {
        let p = run.changes[i].buf_idx as int;
        assert(atoms[p] is Class);
    }
    assert forall|i: int, j: int|
        0 <= i < run.changes.len() && 0 <= j < run.inits.len() implies (
    #[trigger] run.changes[i]).buf_idx != (#[trigger] run.inits[j]).buf_idx by {
        let p = run.changes[i].buf_idx as int;
        let q = run.inits[j].buf_idx as int;
        assert(atoms[p] is Class);
        assert(atoms[q] is Char);
    }
    assert forall|p: int| 0 <= p < run.len implies looped(run, p) || filled(run, p) by {
        assert(atomic(atoms[p]));
    }
}

/// The loops of a laid-out sequence count as its positions do: loop `i`
/// shows the digit of the position that it writes.
pub proof fn lemma_loop_digits(atoms: Seq<Token>, k: nat)
    requires
        all_atomic(atoms),
        atoms.len() <= usize::MAX,
        positive(radices_of(atoms)),
    ensures
        positive(spans(lay_out(atoms))),
        count(lay_out(atoms)) == string_count(atoms),
        digits(spans(lay_out(atoms)), k).len() == changes_of(atoms).len(),
        digits(radices_of(atoms), k).len() == atoms.len(),
        forall|i: int|
            0 <= i < changes_of(atoms).len() ==> #[trigger] digits(spans(lay_out(atoms)), k)[i]
                == digits(radices_of(atoms), k)[changes_of(atoms)[i].buf_idx as int],
    decreases atoms.len(),
{
    let run = lay_out(atoms);
    lemma_lay_out_positions(atoms);
    assert(positive(spans(run))) by {
        assert forall|i: int| 0 <= i < spans(run).len() implies spans(run)[i] > 0 by {
            let p = changes_of(atoms)[i].buf_idx as int;
            assert(radices_of(atoms)[p] > 0);
        }
    }
    lemma_digits_in_range(spans(run), k);
    lemma_digits_in_range(radices_of(atoms), k);
    if atoms.len() == 0 {
        assert(spans(run) =~= Seq::<nat>::empty());
        assert(radices_of(atoms) =~= Seq::<nat>::empty());
    } else {
        let rest = atoms.drop_last();
        let n = atoms.len() as int;
        assert(all_atomic(rest)) by {
            assert forall|p: int| 0 <= p < rest.len() implies atomic(#[trigger] rest[p]) by {
                assert(rest[p] == atoms[p]);
            }
        }
        lemma_lay_out_positions(rest);
        assert(atomic(atoms[n - 1]));
        assert(radices_of(atoms).drop_last() =~= radices_of(rest));
        assert(positive(radices_of(rest))) by {
            assert forall|p: int| 0 <= p < rest.len() implies radices_of(rest)[p] > 0 by {
                assert(radices_of(atoms)[p] > 0);
            }
        }
        match atoms[n - 1] {
            Token::Class { id, len } => {
                let last = len as nat;
                assert(spans(run).drop_last() =~= spans(lay_out(rest)));
                assert(spans(run).last() == last);
                assert(radices_of(atoms).last() == last);
                lemma_loop_digits(rest, k / last);
                lemma_digits_in_range(spans(lay_out(rest)), k / last);
                lemma_digits_in_range(radices_of(rest), k / last);
                assert forall|i: int| 0 <= i < changes_of(atoms).len() implies #[trigger] digits(
                    spans(run),
                    k,
                )[i] == digits(radices_of(atoms), k)[changes_of(atoms)[i].buf_idx as int] by {
                    if i < changes_of(rest).len() {
                        assert(changes_of(atoms)[i] == changes_of(rest)[i]);
                        assert(digits(spans(lay_out(rest)), k / last)[i] == digits(
                            radices_of(rest),
                            k / last,
                        )[changes_of(rest)[i].buf_idx as int]);
                    }
                }
            },
            _ => {
                assert(spans(run) =~= spans(lay_out(rest)));
                assert(radices_of(atoms).last() == 1);
                assert(k / 1 == k);
                lemma_loop_digits(rest, k);
                assert(product(radices_of(rest)) * 1 == product(radices_of(rest)));
                assert forall|i: int| 0 <= i < changes_of(atoms).len() implies #[trigger] digits(
                    spans(run),
                    k,
                )[i] == digits(radices_of(atoms), k)[changes_of(atoms)[i].buf_idx as int] by {
                    assert(changes_of(atoms)[i] == changes_of(rest)[i]);
                    assert(digits(spans(lay_out(rest)), k)[i] == digits(radices_of(rest), k)[changes_of(
                        rest,
                    )[i].buf_idx as int]);
                }
            },
        }
    }
}

/// A run enumerates the strings of the sequence that it lays out, in their
/// order: its `k`-th candidate is the `k`-th string.
pub proof fn lemma_run_enumerates(atoms: Seq<Token>, classes: Seq<Seq<u8>>, k: nat)
    requires
        all_atomic(atoms),
        atoms.len() <= usize::MAX,
        positive(radices_of(atoms)),
    ensures
        count(lay_out(atoms)) == string_count(atoms),
        candidate(lay_out(atoms), classes, k) == nth_string(atoms, classes, k),
{
    let run = lay_out(atoms);
    let d = digits(spans(run), k);
    let full = digits(radices_of(atoms), k);
    lemma_loop_digits(atoms, k);
    lemma_lay_out_positions(atoms);
    assert forall|p: int| 0 <= p < atoms.len() implies byte_at(run, classes, d, p) == choice(
        atoms[p],
        classes,
        full[p],
    ) by {
        assert(atomic(atoms[p]));
        if looped(run, p) {
            let i = choose|i: int|
                0 <= i < run.changes.len() && (#[trigger] run.changes[i]).buf_idx == p;
            assert(changes_of(atoms)[i].buf_idx == p);
            assert(d[i] == full[p]);
        } else {
            assert(!(atoms[p] is Class));
            assert(filled(run, p));
            let j = choose|j: int| 0 <= j < run.inits.len() && (#[trigger] run.inits[j]).buf_idx == p;
            assert(inits_of(atoms)[j].buf_idx == p);
        }
    }
    assert(candidate(run, classes, k) =~= nth_string(atoms, classes, k));
}

/// No byte occurs twice in `class`.
pub open spec fn no_repeats(class: Seq<u8>) -> bool {
    forall|a: int, b: int| 0 <= a < b < class.len() ==> class[a] != class[b]
}

/// Every enumerated string matches.
pub proof fn lemma_strings_match(atoms: Seq<Token>, classes: Seq<Seq<u8>>, k: nat)
    requires
        all_atomic(atoms),
        positive(radices_of(atoms)),
    ensures
        is_match(atoms, classes, nth_string(atoms, classes, k)),
{
    let d = digits(radices_of(atoms), k);
    let s = nth_string(atoms, classes, k);
    lemma_digits_in_range(radices_of(atoms), k);
    assert forall|p: int| 0 <= p < atoms.len() implies admits(
        #[trigger] atoms[p],
        classes,
        s[p],
    ) by {
        assert(atomic(atoms[p]));
        assert(d[p] < radices_of(atoms)[p]);
        match atoms[p] {
            Token::Class { id, len } => {
                let class = classes[id - 1];
                assert(class[d[p] as int] == s[p]);
            },
            _ => {},
        }
    }
}

/// Every matching string is enumerated.
pub proof fn lemma_match_is_enumerated(atoms: Seq<Token>, classes: Seq<Seq<u8>>, s: Seq<u8>) -> (k:
    nat)
    requires
        all_atomic(atoms),
        positive(radices_of(atoms)),
        is_match(atoms, classes, s),
    ensures
        k < string_count(atoms),
        nth_string(atoms, classes, k) == s,
{
    let radices = radices_of(atoms);
    let d = Seq::new(
        atoms.len(),
        |p: int|
            match atoms[p] {
                Token::Class { id, len } => {
                    let class = classes[id - 1];
                    (choose|d: int| 0 <= d < len && #[trigger] class[d] == s[p]) as nat
                },
                _ => 0nat,
            },
    );
    assert forall|p: int| 0 <= p < atoms.len() implies d[p] < radices[p] && choice(
        atoms[p],
        classes,
        d[p],
    ) == s[p] by {
        assert(atomic(atoms[p]));
        assert(admits(atoms[p], classes, s[p]));
    }
    lemma_digits_of_value(radices, d);
    let k = value(radices, d);
    assert(nth_string(atoms, classes, k) =~= s);
    k
}

/// Where no class repeats a byte, no string is enumerated twice.
pub proof fn lemma_strings_differ(atoms: Seq<Token>, classes: Seq<Seq<u8>>, j: nat, k: nat)
    requires
        all_atomic(atoms),
        positive(radices_of(atoms)),
        classes_known(atoms, classes),
        forall|c: int| 0 <= c < classes.len() ==> no_repeats(#[trigger] classes[c]),
        j < string_count(atoms),
        k < string_count(atoms),
        nth_string(atoms, classes, j) == nth_string(atoms, classes, k),
    ensures
        j == k,
{
    let radices = radices_of(atoms);
    let dj = digits(radices, j);
    let dk = digits(radices, k);
    lemma_digits_in_range(radices, j);
    lemma_digits_in_range(radices, k);
    assert forall|p: int| 0 <= p < atoms.len() implies dj[p] == dk[p] by {
        assert(atomic(atoms[p]));
        assert(dj[p] < radices[p] && dk[p] < radices[p]);
        assert(nth_string(atoms, classes, j)[p] == choice(atoms[p], classes, dj[p]));
        assert(nth_string(atoms, classes, k)[p] == choice(atoms[p], classes, dk[p]));
        match atoms[p] {
            Token::Class { id, len } => {
                let class = classes[id - 1];
                assert(1 <= id <= classes.len() && class.len() == len);
                assert(no_repeats(class));
                assert(class[dj[p] as int] == class[dk[p] as int]);
                if dj[p] < dk[p] {
                    assert(class[dj[p] as int] != class[dk[p] as int]);
                }
                if dk[p] < dj[p] {
                    assert(class[dk[p] as int] != class[dj[p] as int]);
                }
            },
            _ => {},
        }
    }
    assert(dj =~= dk);
    lemma_digits_injective(radices, j, k);
}

/// The loops of a well-formed run go through at least one byte each.
pub proof fn lemma_spans_positive(run: RunView, classes: Seq<Seq<u8>>)
    requires
        run_wf(run, classes),
    ensures
        positive(spans(run)),
        count(run) > 0,
{
    assert forall|i: int| 0 <= i < spans(run).len() implies spans(run)[i] > 0 by {
        assert(run.changes[i].lower < run.changes[i].upper);
    }
    crate::codegen::radix::lemma_product_positive(spans(run));
}

/// What a well-formed run shows at each position: the byte of the one write
/// or loop that owns the position.
pub proof fn lemma_shown(run: RunView, classes: Seq<Seq<u8>>, d: Seq<nat>)
    requires
        run_wf(run, classes),
    ensures
        shown(run, classes, d).len() == run.len,
        forall|i: int|
            0 <= i < run.changes.len() ==> shown(run, classes, d)[(
            #[trigger] run.changes[i]).buf_idx as int] == classes[run.changes[i].class_id
                - 1][run.changes[i].lower + d[i]],
        forall|j: int|
            0 <= j < run.inits.len() ==> shown(run, classes, d)[(
            #[trigger] run.inits[j]).buf_idx as int] == run.inits[j].val,
{
    assert forall|i: int| 0 <= i < run.changes.len() implies shown(run, classes, d)[(
    #[trigger] run.changes[i]).buf_idx as int] == classes[run.changes[i].class_id
        - 1][run.changes[i].lower + d[i]] by {
        let p = run.changes[i].buf_idx as int;
        assert(looped(run, p));
        let c = choose|c: int| 0 <= c < run.changes.len() && (#[trigger] run.changes[c]).buf_idx == p;
        assert(c == i);
    }
    assert forall|j: int| 0 <= j < run.inits.len() implies shown(run, classes, d)[(
    #[trigger] run.inits[j]).buf_idx as int] == run.inits[j].val by {
        let p = run.inits[j].buf_idx as int;
        assert(filled(run, p));
        assert(!looped(run, p)) by {
            if looped(run, p) {
                let c = choose|c: int|
                    0 <= c < run.changes.len() && (#[trigger] run.changes[c]).buf_idx == p;
                assert(run.changes[c].buf_idx != run.inits[j].buf_idx);
            }
        }
        let f = choose|f: int| 0 <= f < run.inits.len() && (#[trigger] run.inits[f]).buf_idx == p;
        assert(f == j);
    }
}

/// Class fidelity: in candidate `k` of a well-formed run, the position of
/// loop `i` holds the byte of its class that the `i`-th digit of `k` points
/// at, inside the loop's range.
pub proof fn lemma_class_fidelity(run: RunView, classes: Seq<Seq<u8>>, k: nat, i: int)
    requires
        run_wf(run, classes),
        0 <= i < run.changes.len(),
    ensures
        digits(spans(run), k).len() == run.changes.len(),
        run.changes[i].lower + digits(spans(run), k)[i] < run.changes[i].upper,
        candidate(run, classes, k)[run.changes[i].buf_idx as int] == classes[run.changes[i].class_id
            - 1][run.changes[i].lower + digits(spans(run), k)[i]],
{
    lemma_spans_positive(run, classes);
    lemma_digits_in_range(spans(run), k);
    lemma_shown(run, classes, digits(spans(run), k));
    assert(digits(spans(run), k)[i] < spans(run)[i]);
}

/// Class fidelity, in order: while the innermost loop of a well-formed run
/// goes round once, its position shows the bytes of its range one after
/// another.
pub proof fn lemma_innermost_in_order(run: RunView, classes: Seq<Seq<u8>>, round: nat, j: nat)
    requires
        run_wf(run, classes),
        run.changes.len() > 0,
        j < run.changes.last().upper - run.changes.last().lower,
    ensures
        candidate(
            run,
            classes,
            round * ((run.changes.last().upper - run.changes.last().lower) as nat) + j,
        )[run.changes.last().buf_idx as int] == classes[run.changes.last().class_id
            - 1][run.changes.last().lower + j],
{
    let last = run.changes.len() - 1;
    let span = (run.changes[last].upper - run.changes[last].lower) as nat;
    let k = round * span + j;
    assert(spans(run).last() == span);
    lemma_class_fidelity(run, classes, k, last);
    vstd::arithmetic::div_mod::lemma_fundamental_div_mod_converse(
        k as int,
        span as int,
        round as int,
        j as int,
    );
    assert(digits(spans(run), k)[last] == k % span);
}

} // verus!
