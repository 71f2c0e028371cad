use bf_compiler::desugared_brainfuck::DesugaredBrainFuckInstruction;
use bf_compiler::low_intermediate::{CompileState, LowLevelIntermediateExpr, LowLevelIntermediateProgram, VariableAllocator};

fn chars(s: &str) -> Vec<char> {
    s.chars().collect()
}

fn net(v: &[DesugaredBrainFuckInstruction]) -> i64 {
    let mut d = 0i64;
    for i in v {
        match i {
            DesugaredBrainFuckInstruction::Left(k) => d += *k as i64,
            DesugaredBrainFuckInstruction::Right(k) => d -= *k as i64,
            DesugaredBrainFuckInstruction::Loop(body) => {
                assert_eq!(net(body), 0);
            }
            _ => {}
        }
    }
    d
}

#[test]
fn loops_return_the_pointer() {
    let source = "a = 5; b = 1; c = 0; while a != 0 { a -= b; c += a; d = c; while d != 0 { d -= b; } } print c;";
    let p = LowLevelIntermediateProgram::parse(chars(source)).unwrap();
    let bf = p.compile();
    net(bf.as_slice());
}

#[test]
fn move_to_goes_left_towards_higher_cells() {
    let mut st = CompileState::new();
    assert!(matches!(st.move_to(4), DesugaredBrainFuckInstruction::Left(4)));
    assert!(matches!(st.move_to(1), DesugaredBrainFuckInstruction::Right(3)));
}

#[test]
fn temporaries_come_after_variables_and_are_reused() {
    let mut st = CompileState::new();
    st.mark_used(0);
    st.mark_used(3);
    assert!(st.used(&3));
    assert!(!st.used(&1));
    let t = st.allocate_temp();
    assert_eq!(t, 4);
    assert!(st.used(&4));
    st.free_temp(t);
    assert_eq!(st.allocate_temp(), 4);
    assert_eq!(st.allocate_temp(), 5);
}

#[test]
fn create_loop_wraps_the_body() {
    let st = CompileState::new();
    let l = st.create_loop(0, vec![DesugaredBrainFuckInstruction::Sub(1)]);
    assert_eq!(format!("{:?}", l), "Loop([Sub(1)])");
}

#[test]
fn variables_get_cells_in_order_of_first_use() {
    let mut alloc = VariableAllocator::new();
    assert_eq!(alloc.variable(chars("a")), 0);
    assert_eq!(alloc.variable(chars("b")), 1);
    assert_eq!(alloc.variable(chars("a")), 0);
    assert_eq!(alloc.variable(chars("c")), 2);
}

#[test]
fn built_program_compiles() {
    let p = LowLevelIntermediateProgram::from_statements(vec![
        LowLevelIntermediateExpr::Const(0, 2),
        LowLevelIntermediateExpr::Const(1, 1),
        LowLevelIntermediateExpr::WhileNotZero(0, vec![LowLevelIntermediateExpr::SubAssign { dest: 0, modifier: 1 }]),
        LowLevelIntermediateExpr::Print(0),
    ]);
    let bf = p.compile();
    let text: String = bf.resugar().to_chars().into_iter().collect();
    assert_eq!(text, "[-]++<[-]+>[<<[-]>[>-<<+>-]<[>+<-]>>].");
}

#[test]
fn compilable_needs_declared_operands() {
    let ok = LowLevelIntermediateProgram::parse(chars("a = 1; b = 2; a += b; print a;")).unwrap();
    assert!(ok.is_compilable());
    let undeclared = LowLevelIntermediateProgram::parse(chars("a = 1; a += b;")).unwrap();
    assert!(!undeclared.is_compilable());
    let print_only = LowLevelIntermediateProgram::parse(chars("print x;")).unwrap();
    assert!(print_only.is_compilable());
    let far = LowLevelIntermediateProgram::from_statements(vec![LowLevelIntermediateExpr::Const(29999, 1)]);
    assert!(!far.is_compilable());
    let near = LowLevelIntermediateProgram::from_statements(vec![LowLevelIntermediateExpr::Const(29998, 1)]);
    assert!(near.is_compilable());
}

#[test]
fn loop_conditions_are_marked_before_temporaries() {
    let p = LowLevelIntermediateProgram::from_statements(vec![
        LowLevelIntermediateExpr::Const(0, 1),
        LowLevelIntermediateExpr::Const(1, 2),
        LowLevelIntermediateExpr::WhileNotZero(2, vec![LowLevelIntermediateExpr::AddAssign { dest: 0, modifier: 1 }]),
    ]);
    let text: String = p.compile().resugar().to_chars().into_iter().collect();
    assert_eq!(text, "[-]+<[-]++<[<[-]>>[>+<<<+>>-]<<[>>+<<-]>]");
}

#[test]
fn parser_reports_its_location() {
    let mut p = bf_compiler::parser::Parser::new(chars("ab\ncd"));
    assert!(p.accept_str(&['a', 'b', '\n', 'c']).is_some());
    assert_eq!(p.location(), (1, 1));
}
