//! Tests of the interpreter core, the byte store and the transpiler,
//! running finalized programs against fixed inputs.

use bfuck::code::{process_code, Token};
use bfuck::interpret::execute;
use bfuck::storage::Storage;
use bfuck::text::text_2_bf;
use bfuck::transpile::{generate_cargo_toml, generate_rust_code, parse_brainfuck, transpile};

const BUDGET: u64 = 10_000_000;

#[test]
fn echo_program_echoes_and_terminates() {
    // the loop counter is overwritten by each read; a final input byte
    // of one makes the post-subtract reach zero and the loop exit
    let tokens = process_code("++[>++<,.-]").unwrap();
    let output = execute(&tokens, &vec![b'A', 1], BUDGET).expect("program should terminate");
    assert_eq!(output, vec![b'A', 1]);
}

#[test]
fn pointer_wraps_backward_around_the_tape() {
    let tokens = process_code("<.").unwrap();
    let output = execute(&tokens, &Vec::new(), BUDGET).expect("program should terminate");
    assert_eq!(output, vec![0]);
}

#[test]
fn raw_clear_loops_zero_the_cell() {
    // the unoptimized subtracting and adding loops, as the interpreter
    // sees them when no pattern was recognized
    let sub_loop = vec![
        Token::Add(3),
        Token::OpenBr(2),
        Token::Add(255),
        Token::CloseBr(2),
        Token::Output,
    ];
    assert_eq!(execute(&sub_loop, &Vec::new(), BUDGET), Some(vec![0]));

    let add_loop = vec![
        Token::Add(3),
        Token::OpenBr(2),
        Token::Add(1),
        Token::CloseBr(2),
        Token::Output,
    ];
    assert_eq!(execute(&add_loop, &Vec::new(), BUDGET), Some(vec![0]));

    // and the optimized form behaves the same
    let optimized = process_code("+++[-].").unwrap();
    assert_eq!(execute(&optimized, &Vec::new(), BUDGET), Some(vec![0]));
}

#[test]
fn raw_add_to_loop_matches_add_to_opcode() {
    // [->>+<<] written out against its recognized form, on cell value 5
    let raw = vec![
        Token::Add(5),
        Token::OpenBr(5),
        Token::Add(255),
        Token::Move(2),
        Token::Add(1),
        Token::Move(bfuck::STORAGE_SIZE - 2),
        Token::CloseBr(5),
        Token::Move(2),
        Token::Output,
    ];
    let opt = vec![
        Token::Add(5),
        Token::AddTo(2),
        Token::Move(2),
        Token::Output,
    ];
    assert_eq!(execute(&raw, &Vec::new(), BUDGET), Some(vec![5]));
    assert_eq!(execute(&opt, &Vec::new(), BUDGET), Some(vec![5]));
}

#[test]
fn budget_exhaustion_reports_nothing() {
    // an endless loop: one more iteration is always due
    let tokens = process_code("+[]").unwrap();
    assert_eq!(execute(&tokens, &Vec::new(), 1000), None);
}

#[test]
fn generated_greeting_prints_itself() {
    let text = "Hello, World!";
    let code = text_2_bf(text).unwrap();
    let tokens = process_code(&code).unwrap();
    let output = execute(&tokens, &Vec::new(), BUDGET).expect("program should terminate");
    assert_eq!(output, text.bytes().collect::<Vec<u8>>());
}

#[test]
fn input_past_end_of_file_reads_zero() {
    let tokens = process_code(",.,.").unwrap();
    let output = execute(&tokens, &vec![7], BUDGET).expect("program should terminate");
    assert_eq!(output, vec![7, 0]);
}

#[test]
fn high_output_bytes_are_suppressed() {
    // 128 in the cell is not written to the output
    let tokens = process_code("++[>++++++++<-].>.").unwrap();
    let output = execute(&tokens, &Vec::new(), BUDGET).expect("program should terminate");
    // cell zero ends at zero, cell one holds 16; both are printed
    assert_eq!(output, vec![0, 16]);

    let program = vec![Token::Add(128), Token::Output, Token::Add(200), Token::Output];
    let output = execute(&program, &Vec::new(), BUDGET).expect("program should terminate");
    assert_eq!(output, vec![72]);
}

#[test]
fn storage_reads_zero_until_written() {
    let mut storage = Storage::default();
    assert_eq!(storage.get(5), 0);
    storage.set(5, 42);
    assert_eq!(storage.get(5), 42);
    assert_eq!(storage.get(4), 0);
    assert_eq!(storage.get(6), 0);
    storage.set(2, 7);
    assert_eq!(storage.get(2), 7);
    assert_eq!(storage.get(5), 42);
}

#[test]
fn parse_brainfuck_groups_runs() {
    let parsed = parse_brainfuck(String::from("+++[->>]"));
    assert_eq!(
        parsed,
        vec![('+', 3), ('[', 1), ('-', 1), ('>', 2), (']', 1)]
    );
}

#[test]
fn generated_manifest_names_the_package() {
    let manifest = generate_cargo_toml("example");
    assert_eq!(
        manifest,
        "[package]\nname = \"example\"\nversion = \"0.1.0\"\nedition = \"2021\"\n\n[dependencies]\n"
    );
}

#[test]
fn generated_rust_code_realizes_the_commands() {
    let code = generate_rust_code(String::from("+."));
    assert_eq!(
        code,
        "    storage[ptr] = storage[ptr].wrapping_add((1 % 256_usize) as u8);\n    print!(\"{}\", storage[ptr] as char);\n    io::stdout().flush().unwrap();}\n"
    );
}

#[test]
fn transpiled_project_holds_the_program() {
    let project = transpile(String::from("[-]"), "prog");
    assert!(project.cargo_toml.contains("name = \"prog\""));
    assert!(project.main_rs.starts_with("#![allow(unused_imports)]"));
    assert!(project.main_rs.contains("while storage[ptr] != 0 {"));
    assert!(project.main_rs.ends_with("}\n"));
    assert!(project.storage_rs.contains("pub struct Storage"));
    assert!(project.config_toml.contains("[target.x86_64-unknown-linux-gnu]"));
}
