use bonk::codegen::config::Config;
use bonk::codegen::dict::Dict;
use bonk::codegen::parser::{Change, Final, Init, Partition, Run};
use bonk::demo::{secret_bytes, Attacker};
use bonk::executor::{Brute, Executor};
use bonk::worker::{plan_is_safe, run_is_safe, verdict, Outcome};
use bonk::Bonk;

struct Guess {
    id: usize,
}

impl Brute for Guess {
    fn brute(&mut self, current_guess: &[u8]) -> bool {
        current_guess.len() == self.id
    }
}

#[test]
fn one_handler_per_worker() {
    let executor = Executor::with_workers(3, |id| Guess { id });
    assert_eq!(executor.len(), 3);
    let ids: Vec<usize> = executor.brutes().iter().map(|guess| guess.id).collect();
    assert_eq!(ids, vec![0, 1, 2]);
    let mut calls = 0;
    let none = Executor::with_workers(0, |id| {
        calls += 1;
        Guess { id }
    });
    assert_eq!(none.len(), 0);
    assert_eq!(calls, 0);
}

#[test]
fn one_handler_per_processor() {
    let mut made = Vec::new();
    let executor = Executor::run("a\\d", |id| {
        made.push(id);
        Guess { id }
    });
    assert!(executor.len() >= 1);
    assert_eq!(executor.len(), num_cpus::get());
    assert_eq!(made, (0..num_cpus::get()).collect::<Vec<usize>>());
    let mut last = Guess { id: 2 };
    assert!(last.brute(b"ab"));
    assert!(!last.brute(b"abc"));
}

#[test]
fn invocation_picks_policy_and_workers() {
    assert_eq!(Config::partition(false), Partition::Single);
    assert_eq!(Config::partition(true), Partition::Weak);

    let inline = Config::for_host("ab", "H".to_string(), false, false).unwrap().unwrap();
    assert_eq!(inline.result.tasks.len(), 1);
    assert_eq!(inline.handler, "H");
    assert!(!inline.abort && !inline.threaded);

    let threaded = Config::for_host("ab", "H".to_string(), true, true).unwrap().unwrap();
    assert_eq!(threaded.result.tasks.len(), num_cpus::get());
    assert!(threaded.abort && threaded.threaded);
    assert!(plan_is_safe(&threaded.result));

    let fixed = Config::new("a{1,2}", "Attacker".to_string(), false, true, 5).unwrap().unwrap();
    assert_eq!(fixed.result.tasks.len(), 5);
    assert!(fixed.emit().contains("<Attacker as ::bonk::Bonk>::new(4usize)"));
    assert!(fixed.emit().ends_with("t_4.join().unwrap();\n"));

    let err = Config::for_host("a{", "H".to_string(), false, true).unwrap().unwrap_err();
    assert_eq!((err.msg, err.offset), ("unexpected end of input", 1));
    let huge = format!("a{{{}}}b", usize::MAX);
    assert!(Config::for_host(&huge, "H".to_string(), false, true).is_none());
    assert!(Config::new(&huge, "H".to_string(), false, true, 1).is_none());
}

#[test]
fn attacker_takes_only_the_secret() {
    let mut attacker = Attacker::new(0);
    assert_eq!(&secret_bytes(), b"CTF{bru3e_f0rc3}");
    assert!(attacker.check(b"CTF{bru3e_f0rc3}"));
    assert!(!attacker.check(b"CTF{bru3e_f0rc3"));
    assert!(!attacker.check(b"CTF{bru3e_f0rc3}}"));
    assert!(!attacker.check(b"CTF{bru3e_f0rc4}"));
    assert!(!attacker.check(b"LOLabc"));
    assert!(!attacker.check(b""));
}

#[test]
fn a_worker_stops_at_a_flag_or_a_match() {
    assert_eq!(verdict(false, false), None);
    assert_eq!(verdict(false, true), Some(Outcome::Matched));
    assert_eq!(verdict(true, false), Some(Outcome::Cancelled));
    assert_eq!(verdict(true, true), Some(Outcome::Cancelled));
}

#[test]
fn plans_made_by_hand_are_checked() {
    let mut dict = Dict::new();
    dict.intern(b"abc".to_vec());
    let good = Run {
        len: 2,
        inits: vec![Init::new(0, b'x')],
        changes: vec![Change { buf_idx: 1, class_id: 1, lower: 1, upper: 3 }],
    };
    assert!(run_is_safe(&good, &dict, 2));
    assert!(!run_is_safe(&good, &dict, 1));
    let mut bad = good.clone();
    bad.inits[0].buf_idx = 2;
    assert!(!run_is_safe(&bad, &dict, 4));
    for change in [
        Change { buf_idx: 2, class_id: 1, lower: 0, upper: 3 },
        Change { buf_idx: 1, class_id: 0, lower: 0, upper: 3 },
        Change { buf_idx: 1, class_id: 2, lower: 0, upper: 3 },
        Change { buf_idx: 1, class_id: 1, lower: 0, upper: 4 },
        Change { buf_idx: 1, class_id: 1, lower: 2, upper: 2 },
    ] {
        let mut bad = good.clone();
        bad.changes[0] = change;
        assert!(!run_is_safe(&bad, &dict, 4));
    }
    let plan = Final { tasks: vec![vec![good.clone()], vec![]], max_size: 2, statics: dict.clone() };
    assert!(plan_is_safe(&plan));
    let plan = Final { tasks: vec![vec![], vec![good]], max_size: 1, statics: dict };
    assert!(!plan_is_safe(&plan));
}
