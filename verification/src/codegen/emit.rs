//! The emitter: from a plan to the text of the program that walks it.

use crate::codegen::dict::Dict;
use crate::codegen::layout::{FinalView, RunView};
use crate::codegen::parser::{runs_view, tasks_view, Change, Final, Init, Run};
use vstd::prelude::*;
use vstd::string::StringExecFns;

verus! {

/// The character of a decimal digit.
pub open spec fn digit_char(d: nat) -> char {
    if d == 0 {
        '0'
    } else if d == 1 {
        '1'
    } else if d == 2 {
        '2'
    } else if d == 3 {
        '3'
    } else if d == 4 {
        '4'
    } else if d == 5 {
        '5'
    } else if d == 6 {
        '6'
    } else if d == 7 {
        '7'
    } else if d == 8 {
        '8'
    } else {
        '9'
    }
}

/// The number `n` in decimal digits.
pub open spec fn decimal_text(n: nat) -> Seq<char>
    decreases n,
{
    if n < 10 {
        seq![digit_char(n)]
    } else {
        decimal_text(n / 10).push(digit_char(n % 10))
    }
}

/// A `usize` literal.
pub open spec fn usize_text(n: nat) -> Seq<char> {
    decimal_text(n) + "usize"@
}

/// A `u8` literal.
pub open spec fn byte_text(b: u8) -> Seq<char> {
    decimal_text(b as nat) + "u8"@
}

/// The bytes of a class as the elements of an array.
pub open spec fn bytes_text(content: Seq<u8>) -> Seq<char>
    decreases content.len(),
{
    if content.len() == 0 {
        Seq::empty()
    } else {
        bytes_text(content.drop_last()) + byte_text(content.last()) + ", "@
    }
}

/// The table of the class with the given id.
#[verifier::opaque]
pub open spec fn class_table(id: nat, content: Seq<u8>) -> Seq<char> {
    "static CLASS_"@ + decimal_text(id) + ": &[u8] = &["@ + bytes_text(content) + "];\n"@
}

/// The tables of all classes, in the order of their ids.
pub open spec fn class_tables(classes: Seq<Seq<u8>>) -> Seq<char>
    decreases classes.len(),
{
    if classes.len() == 0 {
        Seq::empty()
    } else {
        class_tables(classes.drop_last()) + class_table(classes.len(), classes.last())
    }
}

/// One write into the buffer.
pub open spec fn init_text(init: Init) -> Seq<char> {
    "buf["@ + usize_text(init.buf_idx as nat) + "] = "@ + byte_text(init.val) + ";\n"@
}

/// The writes of a run, in order.
pub open spec fn inits_text(inits: Seq<Init>) -> Seq<char>
    decreases inits.len(),
{
    if inits.len() == 0 {
        Seq::empty()
    } else {
        inits_text(inits.drop_last()) + init_text(inits.last())
    }
}

/// The head of one loop and the write of its byte.
pub open spec fn loop_head(change: Change) -> Seq<char> {
    "for c_"@ + decimal_text(change.buf_idx as nat) + " in CLASS_"@ + decimal_text(
        change.class_id as nat,
    ) + "["@ + usize_text(change.lower as nat) + ".."@ + usize_text(change.upper as nat)
        + "].iter().copied() {\nbuf["@ + usize_text(change.buf_idx as nat) + "] = c_"@
        + decimal_text(change.buf_idx as nat) + ";\n"@
}

/// The heads of the loops of a run, the outermost first.
pub open spec fn loop_heads(changes: Seq<Change>) -> Seq<char>
    decreases changes.len(),
{
    if changes.len() == 0 {
        Seq::empty()
    } else {
        loop_heads(changes.drop_last()) + loop_head(changes.last())
    }
}

/// `n` closing braces, one per line.
pub open spec fn closers(n: nat) -> Seq<char>
    decreases n,
{
    if n == 0 {
        Seq::empty()
    } else {
        closers((n - 1) as nat) + "}\n"@
    }
}

/// The call that shows the handler the first `len` bytes of the buffer.
pub open spec fn check_text(handler: Seq<char>, len: nat) -> Seq<char> {
    "<"@ + handler + " as ::bonk::Bonk>::check(&mut bonker, &buf[0.."@ + usize_text(len) + "])"@
}

/// What happens to each candidate. In abort mode a match ends the process.
/// A cooperative worker stops at a raised flag or a match, and raises the
/// flag. Otherwise a match returns from the function.
pub open spec fn body_text(handler: Seq<char>, len: nat, abort: bool, threaded: bool) -> Seq<char> {
    if abort {
        "if "@ + check_text(handler, len) + " {\n::std::process::exit(0);\n}\n"@
    } else if threaded {
        "if flag.load(::std::sync::atomic::Ordering::Relaxed) || "@ + check_text(handler, len)
            + " {\nflag.store(true, ::std::sync::atomic::Ordering::Relaxed);\nreturn;\n}\n"@
    } else {
        "if "@ + check_text(handler, len) + " {\nreturn;\n}\n"@
    }
}

/// The text of one run: its writes, then its loops nested in order around
/// the handling of the candidate.
#[verifier::opaque]
pub open spec fn run_text(run: RunView, handler: Seq<char>, abort: bool, threaded: bool) -> Seq<
    char,
> {
    inits_text(run.inits) + loop_heads(run.changes) + body_text(handler, run.len, abort, threaded)
        + closers(run.changes.len())
}

/// The text of the runs of a task, in order.
pub open spec fn runs_text(runs: Seq<RunView>, handler: Seq<char>, abort: bool, threaded: bool) -> Seq<
    char,
>
    decreases runs.len(),
{
    if runs.len() == 0 {
        Seq::empty()
    } else {
        runs_text(runs.drop_last(), handler, abort, threaded) + run_text(
            runs.last(),
            handler,
            abort,
            threaded,
        )
    }
}

/// What stands before the buffer of worker `id`: its copy of the flag where
/// the workers are cooperative, and the start of its thread where they are
/// threaded.
pub open spec fn worker_open(id: nat, abort: bool, threaded: bool) -> Seq<char> {
    (if !abort && threaded {
        "let flag_"@ + decimal_text(id) + " = flag.clone();\n"@
    } else {
        Seq::empty()
    }) + (if threaded {
        "let t_"@ + decimal_text(id) + " = ::std::thread::spawn(move || {\n"@
    } else {
        Seq::empty()
    }) + (if !abort && threaded {
        "let mut flag = flag_"@ + decimal_text(id) + ";\n"@
    } else {
        Seq::empty()
    })
}

/// The text of worker `id`: its buffer, its handler and its runs.
#[verifier::opaque]
pub open spec fn worker_text(
    id: nat,
    task: Seq<RunView>,
    handler: Seq<char>,
    abort: bool,
    threaded: bool,
) -> Seq<char> {
    worker_open(id, abort, threaded) + "let mut buf = [0u8; MAX_SIZE];\n"@
        + "let mut bonker = <"@ + handler + " as ::bonk::Bonk>::new("@ + usize_text(id) + ");\n"@
        + runs_text(task, handler, abort, threaded) + (if threaded {
        "});\n"@
    } else {
        Seq::empty()
    })
}

/// The text of all workers, in the order of their tasks.
pub open spec fn workers_text(
    tasks: Seq<Seq<RunView>>,
    handler: Seq<char>,
    abort: bool,
    threaded: bool,
) -> Seq<char>
    decreases tasks.len(),
{
    if tasks.len() == 0 {
        Seq::empty()
    } else {
        workers_text(tasks.drop_last(), handler, abort, threaded) + worker_text(
            (tasks.len() - 1) as nat,
            tasks.last(),
            handler,
            abort,
            threaded,
        )
    }
}

/// The joins of `n` threads, in order.
pub open spec fn joins_text(n: nat) -> Seq<char>
    decreases n,
{
    if n == 0 {
        Seq::empty()
    } else {
        joins_text((n - 1) as nat) + "t_"@ + decimal_text((n - 1) as nat) + ".join().unwrap();\n"@
    }
}

/// The text of the program of a plan: the shared flag where the workers are
/// cooperative, the buffer size, the class tables, the workers, and the
/// joins where the workers are threaded.
pub open spec fn program_text(plan: FinalView, handler: Seq<char>, abort: bool, threaded: bool) -> Seq<
    char,
> {
    (if !abort && threaded {
        "let flag = ::std::sync::Arc::new(::std::sync::atomic::AtomicBool::new(false));\n"@
    } else {
        Seq::empty()
    }) + "const MAX_SIZE: usize = "@ + usize_text(plan.max_size) + ";\n"@ + class_tables(
        plan.statics,
    ) + workers_text(plan.tasks, handler, abort, threaded) + (if threaded {
        joins_text(plan.tasks.len())
    } else {
        Seq::empty()
    })
}

/// The text of one decimal digit.
fn digit_str(d: usize) -> (text: &'static str)
    requires
        d < 10,
    ensures
        text@ == seq![digit_char(d as nat)],
{
    proof {
        reveal_strlit("0");
        reveal_strlit("1");
        reveal_strlit("2");
        reveal_strlit("3");
        reveal_strlit("4");
        reveal_strlit("5");
        reveal_strlit("6");
        reveal_strlit("7");
        reveal_strlit("8");
        reveal_strlit("9");
    }
    let text = if d == 0 {
        "0"
    } else if d == 1 {
        "1"
    } else if d == 2 {
        "2"
    } else if d == 3 {
        "3"
    } else if d == 4 {
        "4"
    } else if d == 5 {
        "5"
    } else if d == 6 {
        "6"
    } else if d == 7 {
        "7"
    } else if d == 8 {
        "8"
    } else {
        "9"
    };
    assert(text@ =~= seq![digit_char(d as nat)]);
    text
}

/// The digits `v`, the last first.
pub open spec fn reversed_digits(v: Seq<usize>) -> Seq<char> {
    Seq::new(v.len(), |i: int| digit_char(v[v.len() - 1 - i] as nat))
}

/// Appends `n` in decimal digits.
pub fn push_number(out: &mut String, n: usize)
    ensures
        final(out)@ == old(out)@ + decimal_text(n as nat),
{
    let mut low: Vec<usize> = Vec::new();
    let mut m = n;
    assert(decimal_text(m as nat) + reversed_digits(low@) =~= decimal_text(n as nat));
    while m >= 10
        invariant
            decimal_text(n as nat) == decimal_text(m as nat) + reversed_digits(low@),
            forall|i: int| 0 <= i < low@.len() ==> low@[i] < 10,
        decreases m,
    {
        let ghost before = low@;
        low.push(m % 10);
        assert(decimal_text((m / 10) as nat).push(digit_char((m % 10) as nat)) + reversed_digits(
            before,
        ) =~= decimal_text((m / 10) as nat) + reversed_digits(low@));
        m = m / 10;
    }
    out.append(digit_str(m));
    let mut k = low.len();
    assert(old(out)@ + seq![digit_char(m as nat)] + reversed_digits(low@).take(0) =~= old(out)@
        + seq![digit_char(m as nat)]);
    while k > 0
        invariant
            k <= low@.len(),
            m < 10,
            forall|i: int| 0 <= i < low@.len() ==> low@[i] < 10,
            out@ == old(out)@ + seq![digit_char(m as nat)] + reversed_digits(low@).take(
                low@.len() - k,
            ),
        decreases k,
    {
        k -= 1;
        let ghost sofar = out@;
        out.append(digit_str(low[k]));
        assert(out@ =~= old(out)@ + seq![digit_char(m as nat)] + reversed_digits(low@).take(
            low@.len() - k,
        ));
    }
    assert(reversed_digits(low@).take(low@.len() as int) =~= reversed_digits(low@));
    assert(out@ =~= old(out)@ + decimal_text(n as nat));
}

/// Appends a `usize` literal.
fn push_usize(out: &mut String, n: usize)
    ensures
        final(out)@ == old(out)@ + usize_text(n as nat),
{
    push_number(out, n);
    out.append("usize");
    assert(out@ =~= old(out)@ + usize_text(n as nat));
}

/// Appends a `u8` literal.
fn push_byte(out: &mut String, b: u8)
    ensures
        final(out)@ == old(out)@ + byte_text(b),
{
    push_number(out, b as usize);
    out.append("u8");
    assert(out@ =~= old(out)@ + byte_text(b));
}

/// Appends the table of the class with the given id.
fn push_class_table(out: &mut String, id: usize, content: &Vec<u8>)
    ensures
        final(out)@ == old(out)@ + class_table(id as nat, content@),
{
    out.append("static CLASS_");
    push_number(out, id);
    out.append(": &[u8] = &[");
    let ghost opened = out@;
    let mut i: usize = 0;
    assert(content@.take(0) =~= Seq::<u8>::empty());
    assert(out@ =~= opened + bytes_text(content@.take(0)));
    while i < content.len()
        invariant
            i <= content@.len(),
            out@ == opened + bytes_text(content@.take(i as int)),
        decreases content@.len() - i,
    {
        push_byte(out, content[i]);
        out.append(", ");
        assert(content@.take(i + 1).drop_last() =~= content@.take(i as int));
        assert(out@ =~= opened + bytes_text(content@.take(i + 1)));
        i += 1;
    }
    out.append("];\n");
    assert(content@.take(i as int) =~= content@);
    reveal(class_table);
    assert(out@ =~= old(out)@ + class_table(id as nat, content@));
}

/// Appends the tables of all classes, in the order of their ids.
fn push_class_tables(out: &mut String, statics: &Dict)
    ensures
        final(out)@ == old(out)@ + class_tables(statics@),
{
    let mut i: usize = 0;
    let count = statics.len();
    assert(statics@.take(0) =~= Seq::<Seq<u8>>::empty());
    assert(out@ =~= old(out)@ + class_tables(statics@.take(0)));
    while i < count
        invariant
            i <= count,
            count == statics@.len(),
            out@ == old(out)@ + class_tables(statics@.take(i as int)),
        decreases count - i,
    {
        push_class_table(out, i + 1, statics.class(i + 1));
        assert(statics@.take(i + 1).drop_last() =~= statics@.take(i as int));
        assert(out@ =~= old(out)@ + class_tables(statics@.take(i + 1)));
        i += 1;
    }
    assert(statics@.take(count as int) =~= statics@);
}

/// Appends the call that shows the handler the first `len` bytes of the buffer.
fn push_check(out: &mut String, handler: &str, len: usize)
    ensures
        final(out)@ == old(out)@ + check_text(handler@, len as nat),
{
    out.append("<");
    out.append(handler);
    out.append(" as ::bonk::Bonk>::check(&mut bonker, &buf[0..");
    push_usize(out, len);
    out.append("])");
    assert(out@ =~= old(out)@ + check_text(handler@, len as nat));
}

/// Appends what happens to each candidate.
fn push_body(out: &mut String, handler: &str, len: usize, abort: bool, threaded: bool)
    ensures
        final(out)@ == old(out)@ + body_text(handler@, len as nat, abort, threaded),
{
    if abort {
        out.append("if ");
        push_check(out, handler, len);
        out.append(" {\n::std::process::exit(0);\n}\n");
    } else if threaded {
        out.append("if flag.load(::std::sync::atomic::Ordering::Relaxed) || ");
        push_check(out, handler, len);
        out.append(
            " {\nflag.store(true, ::std::sync::atomic::Ordering::Relaxed);\nreturn;\n}\n",
        );
    } else {
        out.append("if ");
        push_check(out, handler, len);
        out.append(" {\nreturn;\n}\n");
    }
    assert(out@ =~= old(out)@ + body_text(handler@, len as nat, abort, threaded));
}

/// Appends the head of one loop and the write of its byte.
fn push_loop_head(out: &mut String, change: &Change)
    ensures
        final(out)@ == old(out)@ + loop_head(*change),
{
    out.append("for c_");
    push_number(out, change.buf_idx);
    out.append(" in CLASS_");
    push_number(out, change.class_id);
    out.append("[");
    push_usize(out, change.lower);
    out.append("..");
    push_usize(out, change.upper);
    out.append("].iter().copied() {\nbuf[");
    push_usize(out, change.buf_idx);
    out.append("] = c_");
    push_number(out, change.buf_idx);
    out.append(";\n");
    assert(out@ =~= old(out)@ + loop_head(*change));
}

/// Appends the text of one run.
fn push_run(out: &mut String, run: &Run, handler: &str, abort: bool, threaded: bool)
    ensures
        final(out)@ == old(out)@ + run_text(run@, handler@, abort, threaded),
{
    let mut j: usize = 0;
    assert(run.inits@.take(0) =~= Seq::<Init>::empty());
    assert(out@ =~= old(out)@ + inits_text(run.inits@.take(0)));
    while j < run.inits.len()
        invariant
            j <= run.inits@.len(),
            out@ == old(out)@ + inits_text(run.inits@.take(j as int)),
        decreases run.inits@.len() - j,
    {
        let ghost start = out@;
        let init = run.inits[j];
        out.append("buf[");
        push_usize(out, init.buf_idx);
        out.append("] = ");
        push_byte(out, init.val);
        out.append(";\n");
        assert(out@ =~= start + init_text(init));
        assert(run.inits@.take(j + 1).drop_last() =~= run.inits@.take(j as int));
        assert(out@ =~= old(out)@ + inits_text(run.inits@.take(j + 1)));
        j += 1;
    }
    assert(run.inits@.take(j as int) =~= run.inits@);
    let ghost written = out@;
    let mut i: usize = 0;
    assert(run.changes@.take(0) =~= Seq::<Change>::empty());
    assert(out@ =~= written + loop_heads(run.changes@.take(0)));
    while i < run.changes.len()
        invariant
            i <= run.changes@.len(),
            out@ == written + loop_heads(run.changes@.take(i as int)),
        decreases run.changes@.len() - i,
    {
        push_loop_head(out, &run.changes[i]);
        assert(run.changes@.take(i + 1).drop_last() =~= run.changes@.take(i as int));
        assert(out@ =~= written + loop_heads(run.changes@.take(i + 1)));
        i += 1;
    }
    assert(run.changes@.take(i as int) =~= run.changes@);
    push_body(out, handler, run.len, abort, threaded);
    let ghost handled = out@;
    let mut k: usize = 0;
    assert(out@ =~= handled + closers(0));
    while k < run.changes.len()
        invariant
            k <= run.changes@.len(),
            out@ == handled + closers(k as nat),
        decreases run.changes@.len() - k,
    {
        out.append("}\n");
        k += 1;
        assert(out@ =~= handled + closers(k as nat));
    }
    reveal(run_text);
    assert(out@ =~= old(out)@ + run_text(run@, handler@, abort, threaded));
}

/// Appends what stands before the buffer of worker `id`.
fn push_worker_open(out: &mut String, id: usize, abort: bool, threaded: bool)
    ensures
        final(out)@ == old(out)@ + worker_open(id as nat, abort, threaded),
{
    if !abort && threaded {
        out.append("let flag_");
        push_number(out, id);
        out.append(" = flag.clone();\n");
    }
    if threaded {
        out.append("let t_");
        push_number(out, id);
        out.append(" = ::std::thread::spawn(move || {\n");
    }
    if !abort && threaded {
        out.append("let mut flag = flag_");
        push_number(out, id);
        out.append(";\n");
    }
    assert(out@ =~= old(out)@ + worker_open(id as nat, abort, threaded));
}

/// Appends the text of the runs of a task, in order.
fn push_runs(out: &mut String, task: &Vec<Run>, handler: &str, abort: bool, threaded: bool)
    ensures
        final(out)@ == old(out)@ + runs_text(runs_view(task@), handler@, abort, threaded),
{
    let ghost runs = runs_view(task@);
    let mut r: usize = 0;
    assert(runs.take(0) =~= Seq::<RunView>::empty());
    assert(out@ =~= old(out)@ + runs_text(runs.take(0), handler@, abort, threaded));
    while r < task.len()
        invariant
            r <= task@.len(),
            runs == runs_view(task@),
            out@ == old(out)@ + runs_text(runs.take(r as int), handler@, abort, threaded),
        decreases task@.len() - r,
    {
        push_run(out, &task[r], handler, abort, threaded);
        assert(runs.take(r + 1).drop_last() =~= runs.take(r as int));
        assert(runs.take(r + 1).last() == task@[r as int]@);
        assert(out@ =~= old(out)@ + runs_text(runs.take(r + 1), handler@, abort, threaded));
        r += 1;
    }
    assert(runs.take(r as int) =~= runs);
}

/// Appends the line that makes the handler of worker `id`.
fn push_handler(out: &mut String, id: usize, handler: &str)
    ensures
        final(out)@ == old(out)@ + "let mut bonker = <"@ + handler@ + " as ::bonk::Bonk>::new("@
            + usize_text(id as nat) + ");\n"@,
{
    out.append("let mut bonker = <");
    out.append(handler);
    out.append(" as ::bonk::Bonk>::new(");
    push_usize(out, id);
    out.append(");\n");
    assert(out@ =~= old(out)@ + "let mut bonker = <"@ + handler@ + " as ::bonk::Bonk>::new("@
        + usize_text(id as nat) + ");\n"@);
}

/// Appends the text of worker `id`.
fn push_worker(
    out: &mut String,
    id: usize,
    task: &Vec<Run>,
    handler: &str,
    abort: bool,
    threaded: bool,
)
    ensures
        final(out)@ == old(out)@ + worker_text(
            id as nat,
            runs_view(task@),
            handler@,
            abort,
            threaded,
        ),
{
    push_worker_open(out, id, abort, threaded);
    out.append("let mut buf = [0u8; MAX_SIZE];\n");
    push_handler(out, id, handler);
    push_runs(out, task, handler, abort, threaded);
    if threaded {
        out.append("});\n");
    }
    reveal(worker_text);
    assert(out@ =~= old(out)@ + worker_text(
        id as nat,
        runs_view(task@),
        handler@,
        abort,
        threaded,
    ));
}

/// The text of the program that walks `plan` with the handler type named
/// `handler`: in abort mode a match ends the process, otherwise threaded
/// workers are cooperative, and without threads a match returns.
pub fn emit(plan: &Final, handler: &str, abort: bool, threaded: bool) -> (text: String)
    ensures
        text@ == program_text(plan@, handler@, abort, threaded),
{
    let mut out = String::new();
    if !abort && threaded {
        out.append(
            "let flag = ::std::sync::Arc::new(::std::sync::atomic::AtomicBool::new(false));\n",
        );
    }
    out.append("const MAX_SIZE: usize = ");
    push_usize(&mut out, plan.max_size);
    out.append(";\n");
    push_class_tables(&mut out, &plan.statics);
    let ghost tabled = out@;
    let ghost tasks = tasks_view(plan.tasks@);
    let mut w: usize = 0;
    assert(tasks.take(0) =~= Seq::<Seq<RunView>>::empty());
    assert(out@ =~= tabled + workers_text(tasks.take(0), handler@, abort, threaded));
    while w < plan.tasks.len()
        invariant
            w <= plan.tasks@.len(),
            tasks == tasks_view(plan.tasks@),
            out@ == tabled + workers_text(tasks.take(w as int), handler@, abort, threaded),
        decreases plan.tasks@.len() - w,
    {
        push_worker(&mut out, w, &plan.tasks[w], handler, abort, threaded);
        assert(tasks.take(w + 1).drop_last() =~= tasks.take(w as int));
        assert(tasks.take(w + 1).last() == runs_view(plan.tasks@[w as int]@));
        assert(out@ =~= tabled + workers_text(tasks.take(w + 1), handler@, abort, threaded));
        w += 1;
    }
    assert(tasks.take(w as int) =~= tasks);
    if threaded {
        let ghost worked = out@;
        let mut t: usize = 0;
        assert(out@ =~= worked + joins_text(0));
        while t < plan.tasks.len()
            invariant
                t <= plan.tasks@.len(),
                out@ == worked + joins_text(t as nat),
            decreases plan.tasks@.len() - t,
        {
            out.append("t_");
            push_number(&mut out, t);
            out.append(".join().unwrap();\n");
            t += 1;
            assert(out@ =~= worked + joins_text(t as nat));
        }
    }
    assert(out@ =~= program_text(plan@, handler@, abort, threaded));
    out
}

} // verus!
