use brainfuck_jit::brainfuck::{default_vec, Brainfuck, CompileError, Inst};
use brainfuck_jit::codegen::compile;

#[test]
fn close_without_open_fails() {
    assert!(Brainfuck::new("]").is_err());
}

#[test]
fn open_without_close_fails() {
    assert!(Brainfuck::new("[").is_err());
}

#[test]
fn balanced_pair_succeeds() {
    assert!(Brainfuck::new("[]").is_ok());
}

#[test]
fn nested_pair_succeeds() {
    assert!(Brainfuck::new("[[]]").is_ok());
}

#[test]
fn unclosed_nested_fails() {
    assert!(Brainfuck::new("[[]").is_err());
}

#[test]
fn close_before_open_fails() {
    assert!(Brainfuck::new("][ ").is_err());
}

#[test]
fn error_is_unbalanced_brackets() {
    let e = Brainfuck::new("]").err().unwrap();
    assert_eq!(e, CompileError::UnbalancedBrackets);
}

#[test]
fn move_and_adjust_runs_collapse() {
    let bf = Brainfuck::new(">>><<+++--..,,").unwrap();
    assert_eq!(
        bf.insts(),
        &vec![
            Inst::IncPtr(3),
            Inst::DecPtr(2),
            Inst::IncVal(3),
            Inst::DecVal(2),
            Inst::PrintCell,
            Inst::PrintCell,
            Inst::ReadChar,
            Inst::ReadChar,
        ]
    );
}

#[test]
fn non_symbols_are_filtered() {
    let a = Brainfuck::new("a > b < c\n+!").unwrap();
    let b = Brainfuck::new("><+").unwrap();
    assert_eq!(a.insts(), b.insts());
    assert_eq!(a.jit_code(), b.jit_code());
}

#[test]
fn bracket_pair_targets() {
    let bf = Brainfuck::new("[]").unwrap();
    assert_eq!(bf.insts(), &vec![Inst::JmpFwd(1), Inst::JmpBack(0)]);
}

#[test]
fn bracket_runs_resolve_individually() {
    let bf = Brainfuck::new("[[]]").unwrap();
    assert_eq!(
        bf.insts(),
        &vec![Inst::JmpFwd(3), Inst::JmpFwd(2), Inst::JmpBack(1), Inst::JmpBack(0)]
    );
}

#[test]
fn single_step_encodings() {
    assert_eq!(Brainfuck::new("+").unwrap().jit_code(), &vec![0xfe, 0x06, 0xc3]);
    assert_eq!(Brainfuck::new("-").unwrap().jit_code(), &vec![0xfe, 0x0e, 0xc3]);
    assert_eq!(Brainfuck::new(">").unwrap().jit_code(), &vec![0x48, 0xff, 0xc6, 0xc3]);
    assert_eq!(Brainfuck::new("<").unwrap().jit_code(), &vec![0x48, 0xff, 0xce, 0xc3]);
}

#[test]
fn long_form_encodings() {
    assert_eq!(Brainfuck::new("+++").unwrap().jit_code(), &vec![0x80, 0x06, 0x03, 0xc3]);
    assert_eq!(Brainfuck::new("--").unwrap().jit_code(), &vec![0x80, 0x2e, 0x02, 0xc3]);
    assert_eq!(
        Brainfuck::new(">>").unwrap().jit_code(),
        &vec![0x48, 0x81, 0xc6, 0x02, 0x00, 0x00, 0x00, 0xc3]
    );
    assert_eq!(
        Brainfuck::new("<<<").unwrap().jit_code(),
        &vec![0x48, 0x81, 0xee, 0x03, 0x00, 0x00, 0x00, 0xc3]
    );
}

#[test]
fn loop_displacements_are_patched() {
    let bf = Brainfuck::new("[]").unwrap();
    assert_eq!(
        bf.jit_code(),
        &vec![
            0x80, 0x3e, 0x00, 0x0f, 0x84, 0x09, 0x00, 0x00, 0x00,
            0x80, 0x3e, 0x00, 0x0f, 0x85, 0xf7, 0xff, 0xff, 0xff,
            0xc3,
        ]
    );
}

#[test]
fn codegen_is_deterministic() {
    let bf = Brainfuck::new("++[>,.<-]").unwrap();
    let c1 = compile(bf.insts());
    let c2 = compile(bf.insts());
    assert_eq!(c1, c2);
    assert_eq!(&c1, bf.jit_code());
}

#[test]
fn hello_world_compiles() {
    let src = "++++++++[>++++[>++>+++>+++>+<<<<-]>+>+>->>+[<]<-]>>.>---.+++++++..+++.>>.<-.<.+++.------.--------.>>+.>++.";
    let bf = Brainfuck::new(src).unwrap();
    assert_eq!(bf.tape_size(), 30000);
    assert_eq!(*bf.jit_code().last().unwrap(), 0xc3);
    assert!(bf.insts().len() > 0);
}

#[test]
fn tape_size_configurable() {
    let mut bf = Brainfuck::new("+").unwrap();
    assert_eq!(bf.tape_size(), 30000);
    bf.set_tape_size(1234);
    assert_eq!(bf.tape_size(), 1234);
}

#[test]
fn default_vec_fills() {
    let v = default_vec(5, 0u8);
    assert_eq!(v, vec![0, 0, 0, 0, 0]);
    assert_eq!(default_vec(0, 7u8), Vec::<u8>::new());
}

#[test]
fn jump_instruction_predicates() {
    assert!(Inst::JmpFwd(0).is_jmp_fwd());
    assert!(!Inst::JmpFwd(0).is_jmp_back());
    assert!(Inst::JmpBack(0).is_jmp_back());
    assert!(!Inst::IncPtr(1).is_jmp_fwd());
}
