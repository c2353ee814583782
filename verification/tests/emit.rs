use bonk::codegen::emit::emit;
use bonk::codegen::parser::{Final, Partition};

#[test]
fn emits_inline_program() {
    let plan = Final::new("a\\d", 1, Partition::Single).unwrap();
    let text = emit(&plan, "Attacker", false, false);
    let expected = "\
const MAX_SIZE: usize = 2usize;
static CLASS_1: &[u8] = &[48u8, 49u8, 50u8, 51u8, 52u8, 53u8, 54u8, 55u8, 56u8, 57u8, ];
let mut buf = [0u8; MAX_SIZE];
let mut bonker = <Attacker as ::bonk::Bonk>::new(0usize);
buf[0usize] = 97u8;
for c_1 in CLASS_1[0usize..10usize].iter().copied() {
buf[1usize] = c_1;
if <Attacker as ::bonk::Bonk>::check(&mut bonker, &buf[0..2usize]) {
return;
}
}
";
    assert_eq!(text, expected);
}

#[test]
fn emits_abort_program() {
    let plan = Final::new("ab", 1, Partition::Single).unwrap();
    let text = emit(&plan, "H", true, false);
    let expected = "\
const MAX_SIZE: usize = 2usize;
let mut buf = [0u8; MAX_SIZE];
let mut bonker = <H as ::bonk::Bonk>::new(0usize);
buf[0usize] = 97u8;
buf[1usize] = 98u8;
if <H as ::bonk::Bonk>::check(&mut bonker, &buf[0..2usize]) {
::std::process::exit(0);
}
";
    assert_eq!(text, expected);
}

#[test]
fn emits_cooperative_threads() {
    let plan = Final::new("[xy]{2}", 2, Partition::Weak).unwrap();
    let text = emit(&plan, "H", false, true);
    let worker = |id: usize| {
        format!(
            "\
let flag_{id} = flag.clone();
let t_{id} = ::std::thread::spawn(move || {{
let mut flag = flag_{id};
let mut buf = [0u8; MAX_SIZE];
let mut bonker = <H as ::bonk::Bonk>::new({id}usize);
for c_0 in CLASS_1[0usize..2usize].iter().copied() {{
buf[0usize] = c_0;
for c_1 in CLASS_1[0usize..2usize].iter().copied() {{
buf[1usize] = c_1;
if flag.load(::std::sync::atomic::Ordering::Relaxed) || <H as ::bonk::Bonk>::check(&mut bonker, &buf[0..2usize]) {{
flag.store(true, ::std::sync::atomic::Ordering::Relaxed);
return;
}}
}}
}}
}});
",
            id = id
        )
    };
    let expected = format!(
        "\
let flag = ::std::sync::Arc::new(::std::sync::atomic::AtomicBool::new(false));
const MAX_SIZE: usize = 2usize;
static CLASS_1: &[u8] = &[120u8, 121u8, ];
{}{}t_0.join().unwrap();
t_1.join().unwrap();
",
        worker(0),
        worker(1)
    );
    assert_eq!(text, expected);
}

#[test]
fn emits_abort_threads_without_flag() {
    let plan = Final::new("a", 1, Partition::Weak).unwrap();
    let text = emit(&plan, "H", true, true);
    assert!(!text.contains("flag"));
    assert!(text.contains("let t_0 = ::std::thread::spawn(move || {\n"));
    assert!(text.ends_with("});\nt_0.join().unwrap();\n"));
}

#[test]
fn emits_class_tables_in_order_of_first_mention() {
    let plan = Final::new("[\"z]\\d[\"z]", 1, Partition::Single).unwrap();
    let text = emit(&plan, "H", false, false);
    let first = text.find("static CLASS_1: &[u8] = &[34u8, 122u8, ];").unwrap();
    let second = text.find("static CLASS_2: &[u8] = &[48u8,").unwrap();
    assert!(first < second);
    assert!(!text.contains("CLASS_3"));
    assert!(text.contains("const MAX_SIZE: usize = 3usize;"));
}

#[test]
fn emits_large_numbers_in_full() {
    let plan = Final::new("a{1234567}", 1, Partition::Single).unwrap();
    let text = emit(&plan, "H", false, false);
    assert!(text.starts_with("const MAX_SIZE: usize = 1234567usize;\n"));
    assert!(text.contains("buf[1234566usize] = 97u8;\n"));
    assert!(text.contains("&buf[0..1234567usize]"));
}
