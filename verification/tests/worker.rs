use bonk::codegen::parser::{Change, Final, Init, Partition, Run};
use bonk::codegen::dict::Dict;
use bonk::worker::{plan_is_safe, run_worker, Cursor, Outcome, Walk};
use bonk::Bonk;
use std::sync::atomic::{AtomicBool, Ordering};

/// Records every candidate and never reports a match.
struct Recorder {
    id: usize,
    seen: Vec<Vec<u8>>,
}

impl Bonk for Recorder {
    fn new(thread_id: usize) -> Self {
        Recorder { id: thread_id, seen: Vec::new() }
    }

    fn check(&mut self, buf: &[u8]) -> bool {
        self.seen.push(buf.to_vec());
        false
    }
}

/// Records every candidate and reports a match at `bca`.
struct Finder {
    seen: Vec<Vec<u8>>,
}

impl Bonk for Finder {
    fn new(_thread_id: usize) -> Self {
        Finder { seen: Vec::new() }
    }

    fn check(&mut self, buf: &[u8]) -> bool {
        self.seen.push(buf.to_vec());
        buf == b"bca"
    }
}

fn plan(src: &str, workers: usize, part: Partition) -> Final {
    let plan = Final::new(src, workers, part).unwrap();
    assert!(plan_is_safe(&plan));
    plan
}

fn strings(seen: &[Vec<u8>]) -> Vec<String> {
    seen.iter().map(|s| String::from_utf8(s.clone()).unwrap()).collect()
}

#[test]
fn two_literals_give_one_candidate() {
    let plan = plan("ab", 1, Partition::Single);
    assert_eq!(plan.max_size, 2);
    assert_eq!(plan.tasks.len(), 1);
    assert_eq!(
        plan.tasks[0],
        vec![Run {
            len: 2,
            inits: vec![Init { buf_idx: 0, val: b'a' }, Init { buf_idx: 1, val: b'b' }],
            changes: vec![],
        }]
    );
    let (outcome, handler) = run_worker::<Recorder>(&plan, 0, None);
    assert_eq!(outcome, Outcome::Exhausted);
    assert_eq!(handler.id, 0);
    assert_eq!(strings(&handler.seen), vec!["ab"]);
}

#[test]
fn literal_then_digit_gives_ten_candidates() {
    let plan = plan("a\\d", 1, Partition::Single);
    assert_eq!(plan.statics.len(), 1);
    assert_eq!(plan.statics.id_of(b"0123456789"), Some(1));
    assert_eq!(
        plan.tasks[0],
        vec![Run {
            len: 2,
            inits: vec![Init { buf_idx: 0, val: b'a' }],
            changes: vec![Change { buf_idx: 1, class_id: 1, lower: 0, upper: 10 }],
        }]
    );
    let (outcome, handler) = run_worker::<Recorder>(&plan, 0, None);
    assert_eq!(outcome, Outcome::Exhausted);
    assert_eq!(
        strings(&handler.seen),
        vec!["a0", "a1", "a2", "a3", "a4", "a5", "a6", "a7", "a8", "a9"]
    );
}

#[test]
fn repeated_class_counts_in_order() {
    let plan = plan("\\A{2}", 1, Partition::Single);
    assert_eq!(plan.tasks[0].len(), 1);
    let run = &plan.tasks[0][0];
    assert_eq!(run.len, 2);
    assert!(run.inits.is_empty());
    assert_eq!(
        run.changes,
        vec![
            Change { buf_idx: 0, class_id: 1, lower: 0, upper: 26 },
            Change { buf_idx: 1, class_id: 1, lower: 0, upper: 26 },
        ]
    );
    assert_eq!(
        plan.statics.get(1).unwrap().as_slice(),
        b"ABCDEFGHIJKLMNOPQRSTUVWXYZ"
    );
    let (_, handler) = run_worker::<Recorder>(&plan, 0, None);
    let seen = strings(&handler.seen);
    assert_eq!(seen.len(), 676);
    assert_eq!(seen[0], "AA");
    assert_eq!(seen[1], "AB");
    assert_eq!(seen[26], "BA");
    assert_eq!(seen[675], "ZZ");
    let mut sorted = seen.clone();
    sorted.sort();
    sorted.dedup();
    assert_eq!(sorted, seen);
}

#[test]
fn licence_plate_is_laid_out() {
    let plan = plan("SKY-\\A{4}-\\d{4}", 1, Partition::Single);
    assert_eq!(plan.max_size, 13);
    let run = &plan.tasks[0][0];
    assert_eq!(run.len, 13);
    assert_eq!(
        run.inits,
        vec![
            Init { buf_idx: 0, val: b'S' },
            Init { buf_idx: 1, val: b'K' },
            Init { buf_idx: 2, val: b'Y' },
            Init { buf_idx: 3, val: b'-' },
            Init { buf_idx: 8, val: b'-' },
        ]
    );
    let mut expected = Vec::new();
    for idx in 4..8 {
        expected.push(Change { buf_idx: idx, class_id: 1, lower: 0, upper: 26 });
    }
    for idx in 9..13 {
        expected.push(Change { buf_idx: idx, class_id: 2, lower: 0, upper: 10 });
    }
    assert_eq!(run.changes, expected);
    let candidates: u64 = run.changes.iter().map(|c| (c.upper - c.lower) as u64).product();
    assert_eq!(candidates, 4_569_760_000);
    assert_eq!(run.inits.len() + run.changes.len(), run.len);
}

#[test]
fn range_gives_one_candidate_per_length() {
    let plan = plan("a{2,4}", 1, Partition::Single);
    assert_eq!(plan.max_size, 4);
    let lens: Vec<usize> = plan.tasks[0].iter().map(|run| run.len).collect();
    assert_eq!(lens, vec![2, 3, 4]);
    for run in &plan.tasks[0] {
        assert!(run.changes.is_empty());
        assert_eq!(run.inits.len(), run.len);
        for (i, init) in run.inits.iter().enumerate() {
            assert_eq!(*init, Init { buf_idx: i, val: b'a' });
        }
    }
    let (_, handler) = run_worker::<Recorder>(&plan, 0, None);
    assert_eq!(strings(&handler.seen), vec!["aa", "aaa", "aaaa"]);
}

#[test]
fn cooperative_workers_stop_at_the_flag() {
    let workers = 3;
    let plan = plan("[abc]{3}", workers, Partition::Weak);
    assert_eq!(plan.tasks.len(), workers);

    // Without a match every worker sees all 27 candidates.
    let flag = AtomicBool::new(false);
    for id in 0..workers {
        let (outcome, handler) = run_worker::<Recorder>(&plan, id, Some(&flag));
        assert_eq!(outcome, Outcome::Exhausted);
        assert_eq!(handler.id, id);
        assert_eq!(handler.seen.len(), 27);
        assert_eq!(handler.seen[0], b"aaa");
        assert_eq!(handler.seen[26], b"ccc");
    }
    assert!(!flag.load(Ordering::Relaxed));

    // The first match raises the flag, and every other worker stops at its
    // next look at the flag, before it shows its handler anything.
    let (outcome, finder) = run_worker::<Finder>(&plan, 0, Some(&flag));
    assert_eq!(outcome, Outcome::Matched);
    assert_eq!(finder.seen.last().unwrap(), b"bca");
    assert_eq!(finder.seen.len(), 9 + 6 + 1);
    assert!(flag.load(Ordering::Relaxed));
    for id in 1..workers {
        let (outcome, handler) = run_worker::<Recorder>(&plan, id, Some(&flag));
        assert_eq!(outcome, Outcome::Cancelled);
        assert!(handler.seen.is_empty());
    }
}

#[test]
fn match_without_flag_stops_the_worker() {
    let plan = plan("[abc]{3}", 1, Partition::Single);
    let (outcome, finder) = run_worker::<Finder>(&plan, 0, None);
    assert_eq!(outcome, Outcome::Matched);
    assert_eq!(finder.seen.len(), 16);
}

#[test]
fn candidates_are_the_matching_strings_each_once() {
    let plan = plan("x[ab]\\d{2}[yz]", 1, Partition::Single);
    let (_, handler) = run_worker::<Recorder>(&plan, 0, None);
    let seen = strings(&handler.seen);
    assert_eq!(seen.len(), 2 * 10 * 10 * 2);
    let mut expected = Vec::new();
    for a in ['a', 'b'] {
        for d in 0..100 {
            for y in ['y', 'z'] {
                expected.push(format!("x{}{:02}{}", a, d, y));
            }
        }
    }
    assert_eq!(seen, expected);
}

#[test]
fn class_with_a_repeated_byte_shows_it_twice() {
    let plan = plan("[aa]", 1, Partition::Single);
    let (_, handler) = run_worker::<Recorder>(&plan, 0, None);
    assert_eq!(strings(&handler.seen), vec!["a", "a"]);
}

#[test]
fn every_candidate_fits_the_buffer() {
    let plan = plan("ab{1,3}\\d", 2, Partition::Weak);
    assert_eq!(plan.max_size, 5);
    for task in &plan.tasks {
        for run in task {
            assert!(run.len <= plan.max_size);
            let mut owned = vec![0; run.len];
            for init in &run.inits {
                assert!(init.buf_idx < run.len);
                owned[init.buf_idx] += 1;
            }
            for change in &run.changes {
                assert!(change.buf_idx < run.len);
                owned[change.buf_idx] += 1;
                let class = plan.statics.get(change.class_id).unwrap();
                assert!(change.lower < change.upper && change.upper <= class.len());
            }
            assert!(owned.iter().all(|n| *n == 1));
        }
    }
    let (_, handler) = run_worker::<Recorder>(&plan, 1, None);
    let lens: Vec<usize> = handler.seen.iter().map(|s| s.len()).collect();
    let mut expected = vec![3; 10];
    expected.extend(vec![4; 10]);
    expected.extend(vec![5; 10]);
    assert_eq!(lens, expected);
}

#[test]
fn walk_goes_through_the_runs_of_a_task_in_turn() {
    let plan = plan("a{1,2}[xy]", 1, Partition::Single);
    let mut walk = Walk::new(&plan, 0);
    let mut seen = Vec::new();
    while walk.step() {
        seen.push(walk.shown().to_vec());
    }
    assert_eq!(strings(&seen), vec!["ax", "ay", "aax", "aay"]);
    assert!(!walk.step());
    assert!(!walk.step());

    let none = plan_of_runs(vec![], 4, Dict::new());
    assert!(!Walk::new(&none, 0).step());
}

fn plan_of_runs(runs: Vec<Run>, max_size: usize, statics: Dict) -> Final {
    let plan = Final { tasks: vec![runs], max_size, statics };
    assert!(plan_is_safe(&plan));
    plan
}

#[test]
fn each_loop_shows_its_part_of_its_class_in_order() {
    let mut statics = Dict::new();
    statics.intern(b"abcd".to_vec());
    statics.intern(b"0123".to_vec());
    let run = Run {
        len: 3,
        inits: vec![Init { buf_idx: 1, val: b'-' }],
        changes: vec![
            Change { buf_idx: 2, class_id: 1, lower: 1, upper: 3 },
            Change { buf_idx: 0, class_id: 2, lower: 2, upper: 4 },
        ],
    };
    let plan = plan_of_runs(vec![run], 5, statics);
    let (_, handler) = run_worker::<Recorder>(&plan, 0, None);
    assert_eq!(strings(&handler.seen), vec!["2-b", "3-b", "2-c", "3-c"]);
    // While the inner loop goes round once, its position shows `23`; the
    // position of the outer loop shows `bc` over the whole run.
    let inner: Vec<u8> = handler.seen[..2].iter().map(|s| s[0]).collect();
    assert_eq!(inner, b"23");
    let outer: Vec<u8> = handler.seen.iter().step_by(2).map(|s| s[2]).collect();
    assert_eq!(outer, b"bc");
}

#[test]
fn cursor_counts_like_an_odometer() {
    let mut statics = Dict::new();
    statics.intern(b"xyz".to_vec());
    let run = Run {
        len: 2,
        inits: vec![],
        changes: vec![
            Change { buf_idx: 0, class_id: 1, lower: 0, upper: 2 },
            Change { buf_idx: 1, class_id: 1, lower: 0, upper: 3 },
        ],
    };
    let mut buf = vec![b'?'; 4];
    let mut cursor = Cursor::start(&run, &statics, &mut buf);
    let mut seen = vec![buf.clone()];
    while cursor.advance(&run, &statics, &mut buf) {
        seen.push(buf.clone());
    }
    assert_eq!(
        strings(&seen),
        vec!["xx??", "xy??", "xz??", "yx??", "yy??", "yz??"]
    );
    // After the last candidate the cursor stands at the first again.
    assert_eq!(buf, b"xx??");
    assert!(cursor.advance(&run, &statics, &mut buf));
    assert_eq!(buf, b"xy??");
}

#[test]
fn a_worker_without_runs_is_exhausted_at_once() {
    let plan = plan("ab", 3, Partition::Aggressive);
    assert!(plan.tasks[1].is_empty());
    let (outcome, handler) = run_worker::<Finder>(&plan, 1, None);
    assert_eq!(outcome, Outcome::Exhausted);
    assert!(handler.seen.is_empty());
    // Nothing is asked of the flag either: a raised flag does not cancel a
    // worker that has nothing to show.
    let flag = AtomicBool::new(true);
    let (outcome, handler) = run_worker::<Recorder>(&plan, 2, Some(&flag));
    assert_eq!(outcome, Outcome::Exhausted);
    assert!(handler.seen.is_empty());
    let (outcome, _) = run_worker::<Recorder>(&plan, 0, Some(&flag));
    assert_eq!(outcome, Outcome::Cancelled);
}
