use bf_compiler::brainfuck::BrainFuckProgram;
use bf_compiler::interpreter::BrainFuckInterpreter;
use bf_compiler::low_intermediate::LowLevelIntermediateProgram;

const FUEL: u64 = 1_000_000;

fn chars(s: &str) -> Vec<char> {
    s.chars().collect()
}

fn run_source(source: &str, input: Vec<Vec<u8>>) -> Vec<u8> {
    let interm = LowLevelIntermediateProgram::parse(chars(source)).expect("program parses");
    let bf = interm.compile();
    let mut interpreter = BrainFuckInterpreter::new(input);
    assert!(interpreter.execute(bf, FUEL));
    interpreter.output().to_vec()
}

fn run_raw(text: &str, input: Vec<Vec<u8>>) -> Vec<u8> {
    let program = BrainFuckProgram::from_chars(&chars(text));
    let desugared = program.desugar().expect("balanced");
    let mut interpreter = BrainFuckInterpreter::new(input);
    assert!(interpreter.execute(desugared, FUEL));
    interpreter.output().to_vec()
}

#[test]
fn constant() {
    assert_eq!(run_source("a = 3; print a;", vec![]), vec![3]);
}

#[test]
fn add() {
    assert_eq!(run_source("a = 3; b = 4; a += b; print a;", vec![]), vec![7]);
}

#[test]
fn sub_to_zero() {
    let source = "
a = 4;
one = 1;
while a != 0 {
    a -= one;
}
print a;
";
    assert_eq!(run_source(source, vec![]), vec![0]);
}

#[test]
fn copy() {
    let source = "
a = 4;
one = 1;
res = 0;
while a != 0 {
    a -= one;
    res += one;
}
print res;
";
    assert_eq!(run_source(source, vec![]), vec![4]);
}

#[test]
fn copy_statement_keeps_source() {
    for d in [0u32, 1, 7, 128, 200, 255] {
        for s in [0u32, 1, 5, 127, 129, 255] {
            let source = format!("a = {d}; b = {s}; a = b; print a; print b;");
            assert_eq!(run_source(&source, vec![]), vec![s as u8, s as u8]);
        }
    }
}

#[test]
fn add_and_sub_wrap_round() {
    for d in [0u32, 3, 100, 250, 255] {
        for m in [0u32, 1, 6, 200, 255] {
            let add = format!("a = {d}; b = {m}; a += b; print a; print b;");
            assert_eq!(run_source(&add, vec![]), vec![((d + m) % 256) as u8, m as u8]);
            let sub = format!("a = {d}; b = {m}; a -= b; print a; print b;");
            assert_eq!(run_source(&sub, vec![]), vec![((d + 256 - m) % 256) as u8, m as u8]);
        }
    }
}

#[test]
fn input_reads_lines_then_zeroes() {
    let source = "input a; print a; input a; print a; input a; print a; input a; print a;";
    assert_eq!(run_source(source, vec![b"x".to_vec(), b"".to_vec()]), vec![b'x', 10, 10, 0]);
}

#[test]
fn whitespace_of_all_kinds_separates() {
    assert_eq!(run_source("\ta\t=\t3;\r\n\n  print\ta ;", vec![]), vec![3]);
}

#[test]
fn names_are_alphanumeric() {
    assert_eq!(run_source("x1 = 2; x2 = 5; x1 += x2; print x1;", vec![]), vec![7]);
}

#[test]
fn syntax_errors_give_none() {
    assert!(LowLevelIntermediateProgram::parse(chars("a = 256;")).is_none());
    assert!(LowLevelIntermediateProgram::parse(chars("1a = 3;")).is_none());
    assert!(LowLevelIntermediateProgram::parse(chars("a = 3")).is_none());
    assert!(LowLevelIntermediateProgram::parse(chars("while a != 0 { a = 1;")).is_none());
    assert!(LowLevelIntermediateProgram::parse(chars("a * 3;")).is_none());
}

#[test]
fn raw_program_and_its_round_trip_agree() {
    let programs = [
        "++++++++[>++++++++<-]>+.+.+.",
        "+++[-][-]>++[+]<.>.",
        ",.,.,.",
        "++++[>+++[>++<-]<-]>>.",
        "+[-]-.>[-]+++++[<+>-]<.",
    ];
    for text in programs {
        let direct = run_raw(text, vec![b"ab".to_vec()]);
        let program = BrainFuckProgram::from_chars(&chars(text));
        let round = program.desugar().ok().unwrap().resugar();
        let again = round.desugar().ok().unwrap();
        let mut interpreter = BrainFuckInterpreter::new(vec![b"ab".to_vec()]);
        assert!(interpreter.execute(again, FUEL));
        assert_eq!(interpreter.output().to_vec(), direct);
    }
}

#[test]
fn hello_digits() {
    assert_eq!(run_raw("++++++[>++++++++<-]>.+.+.", vec![]), b"012".to_vec());
}

#[test]
fn unicode_whitespace_separates() {
    assert_eq!(run_source("a\u{3000}=\u{2003}3;\u{85}print\u{a0}a;", vec![]), vec![3]);
}
