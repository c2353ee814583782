use bonk::codegen::dict::Dict;
use bonk::codegen::lexer::{Lexer, Token};
use bonk::codegen::parser::{Change, Final, Init, Partition, Permutor, Run};

fn lens(runs: &[Run]) -> Vec<usize> {
    runs.iter().map(|run| run.len).collect()
}

#[test]
fn counter_moves_its_last_place_fastest() {
    let permutor = Permutor::new(vec![2, 3]);
    assert_eq!(permutor.total(), 6);
    assert_eq!(
        permutor.permutations(),
        vec![
            vec![0, 0],
            vec![0, 1],
            vec![0, 2],
            vec![1, 0],
            vec![1, 1],
            vec![1, 2],
        ]
    );
    assert_eq!(Permutor::new(vec![4, 1, 5]).get_iter(13), vec![2, 0, 3]);
    let none = Permutor::new(vec![]);
    assert_eq!(none.total(), 1);
    assert_eq!(none.permutations(), vec![Vec::<usize>::new()]);
}

#[test]
fn repeat_counts_lay_out_that_many_positions() {
    let run = Run::new(&[
        Token::Char(b'x'),
        Token::Repeat(3),
        Token::Class { id: 1, len: 4 },
        Token::Char(b'y'),
        Token::Class { id: 2, len: 2 },
        Token::Repeat(2),
    ]);
    assert_eq!(run.len, 7);
    assert_eq!(
        run.inits,
        vec![Init::new(0, b'x'), Init::new(1, b'x'), Init::new(2, b'x'), Init::new(4, b'y')]
    );
    assert_eq!(
        run.changes,
        vec![Change::new(3, 1, 4), Change::new(5, 2, 2), Change::new(6, 2, 2)]
    );
}

#[test]
fn repeat_of_none_or_one() {
    let run = Run::new(&[Token::Char(b'a'), Token::Repeat(0), Token::Char(b'b')]);
    assert_eq!(run, Run { len: 1, inits: vec![Init::new(0, b'b')], changes: vec![] });
    let run = Run::new(&[Token::Class { id: 1, len: 3 }, Token::Repeat(1), Token::Char(b'b')]);
    assert_eq!(
        run,
        Run { len: 2, inits: vec![Init::new(1, b'b')], changes: vec![Change::new(0, 1, 3)] }
    );
    let run = Run::new(&[]);
    assert_eq!(run, Run { len: 0, inits: vec![], changes: vec![] });
}

#[test]
fn append_lays_out_one_token_with_its_repeat() {
    let tokens = [Token::Char(b'a'), Token::Repeat(3), Token::Char(b'b')];
    let mut pos = 0;
    let mut target = vec![100usize];
    Run::append(|idx| idx * 2, &tokens, &mut pos, &mut target, 5);
    assert_eq!(pos, 2);
    assert_eq!(target, vec![100, 12, 14, 16]);
    Run::append(|idx| idx * 2, &tokens, &mut pos, &mut target, 0);
    assert_eq!(pos, 3);
    assert_eq!(target, vec![100, 12, 14, 16, 8]);
}

#[test]
fn ranges_give_one_run_per_length_instance() {
    let plan = Final::new("a{1,2}b{1,3}", 1, Partition::Single).unwrap();
    assert_eq!(lens(&plan.tasks[0]), vec![2, 3, 4, 3, 4, 5]);
    assert_eq!(plan.max_size, 5);
    let third = &plan.tasks[0][3];
    assert_eq!(
        third.inits,
        vec![Init::new(0, b'a'), Init::new(1, b'a'), Init::new(2, b'b')]
    );
    let plan = Final::new("a{0,1}", 1, Partition::Single).unwrap();
    assert_eq!(lens(&plan.tasks[0]), vec![0, 1]);
    assert_eq!(plan.max_size, 1);
    let plan = Final::new("LOL\\a{0,3}", 1, Partition::Single).unwrap();
    assert_eq!(lens(&plan.tasks[0]), vec![3, 4, 5, 6]);
}

#[test]
fn the_policies_hand_the_runs_out() {
    let single = Final::new("a{1,6}", 4, Partition::Single).unwrap();
    assert_eq!(single.tasks.len(), 1);
    assert_eq!(lens(&single.tasks[0]), vec![1, 2, 3, 4, 5, 6]);

    let weak = Final::new("a{1,6}", 3, Partition::Weak).unwrap();
    assert_eq!(weak.tasks.len(), 3);
    for task in &weak.tasks {
        assert_eq!(task, &single.tasks[0]);
    }

    let strong = Final::new("a{1,6}", 4, Partition::Aggressive).unwrap();
    assert_eq!(strong.tasks.len(), 4);
    assert_eq!(lens(&strong.tasks[0]), vec![1, 5]);
    assert_eq!(lens(&strong.tasks[1]), vec![2, 6]);
    assert_eq!(lens(&strong.tasks[2]), vec![3]);
    assert_eq!(lens(&strong.tasks[3]), vec![4]);
    let mut all: Vec<usize> = strong.tasks.iter().flat_map(|task| lens(task)).collect();
    all.sort();
    assert_eq!(all, vec![1, 2, 3, 4, 5, 6]);

    let more_workers = Final::new("ab", 3, Partition::Aggressive).unwrap();
    assert_eq!(lens(&more_workers.tasks[0]), vec![2]);
    assert!(more_workers.tasks[1].is_empty());
    assert!(more_workers.tasks[2].is_empty());

    for part in [Partition::Weak, Partition::Aggressive] {
        let none = Final::new("ab", 0, part).unwrap();
        assert!(none.tasks.is_empty());
        assert_eq!(none.max_size, 2);
    }
    assert_eq!(single.max_size, 6);
    assert_eq!(weak.max_size, 6);
    assert_eq!(strong.max_size, 6);
}

#[test]
fn partition_functions_by_themselves() {
    let runs = vec![Run::new(&[Token::Char(b'a')]), Run::new(&[])];
    let weak = Final::weak_partition(runs.clone(), 2);
    assert_eq!(weak, vec![runs.clone(), runs.clone()]);
    let strong = Final::aggressive_partition(runs.clone(), 2);
    assert_eq!(strong, vec![vec![runs[0].clone()], vec![runs[1].clone()]]);
}

#[test]
fn lexer_errors_pass_through_the_planner() {
    let err = Final::new("a{3,3}", 2, Partition::Weak).unwrap_err();
    assert_eq!(err.offset, 1);
    assert_eq!(
        err.msg,
        "a range's bounds should not be equal; consider using the repeat syntax"
    );
    let err = Final::try_new("", 2, Partition::Weak).unwrap().unwrap_err();
    assert_eq!((err.msg, err.offset), ("pattern should be nonempty", 0));
}

#[test]
fn plans_that_do_not_fit_a_word() {
    let too_long = format!("a{{{}}}b", usize::MAX);
    assert!(Final::try_new(&too_long, 1, Partition::Single).is_none());
    let too_many = format!("a{{0,{}}}", usize::MAX);
    assert!(Final::try_new(&too_many, 1, Partition::Single).is_none());
    let half = usize::MAX / 2 + 1;
    let product = format!("a{{1,{}}}b{{1,2}}", half);
    assert!(Final::try_new(&product, 1, Partition::Single).is_none());

    let (_, tokens) = Lexer::tokenize(&too_long).unwrap();
    assert!(!Final::fits(&tokens));
    let (_, tokens) = Lexer::tokenize("a{1,3}\\d{2,5}").unwrap();
    assert!(Final::fits(&tokens));
    let plan = Final::try_new("a{1,3}\\d{2}", 1, Partition::Single).unwrap().unwrap();
    assert_eq!(lens(&plan.tasks[0]), vec![3, 4, 5]);
}

#[test]
fn plan_from_tokens() {
    let (dict, tokens) = Lexer::tokenize("[xy]a{2,3}").unwrap();
    let plan = Final::plan(dict.clone(), &tokens, 2, Partition::Weak);
    assert_eq!(plan, Final::new("[xy]a{2,3}", 2, Partition::Weak).unwrap());
    assert_eq!(plan.statics, dict);
    assert_eq!(Final::runs(&tokens), plan.tasks[0]);
}

#[test]
fn dictionary_interns_in_order_of_first_mention() {
    let mut dict = Dict::new();
    assert_eq!(dict.len(), 0);
    assert_eq!(dict.intern(b"ab".to_vec()), 1);
    assert_eq!(dict.intern(b"cd".to_vec()), 2);
    assert_eq!(dict.intern(b"ab".to_vec()), 1);
    assert_eq!(dict.intern(b"ef".to_vec()), 3);
    assert_eq!(dict.intern(b"cd".to_vec()), 2);
    assert_eq!(dict.len(), 3);
    assert_eq!(dict.class(3).as_slice(), b"ef");
    assert_eq!(dict.get(2).unwrap().as_slice(), b"cd");
    assert_eq!(dict.id_of(b"ef"), Some(3));
    assert_eq!(dict.id_of(b"e"), None);
}
