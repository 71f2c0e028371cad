use bf_compiler::brainfuck::{BrainFuckInstruction, BrainFuckProgram, UnbalancedLoop};
use bf_compiler::desugared_brainfuck::{DesugaredBrainFuckInstruction, DesugaredBrainFuckProgram};
use bf_compiler::interpreter::{BrainFuckInterpreter, MEMORY_SIZE};

fn chars(s: &str) -> Vec<char> {
    s.chars().collect()
}

fn desugar_text(s: &str) -> Result<DesugaredBrainFuckProgram, UnbalancedLoop> {
    BrainFuckProgram::from_chars(&chars(s)).desugar()
}

fn text_of(p: &BrainFuckProgram) -> String {
    p.to_chars().into_iter().collect()
}

#[test]
fn unterminated_loop_is_open_without_close() {
    assert!(matches!(desugar_text("["), Err(UnbalancedLoop::OpenWithoutClose)));
}

#[test]
fn lone_close_is_too_many_close() {
    assert!(matches!(desugar_text("]"), Err(UnbalancedLoop::TooManyClose)));
}

#[test]
fn first_imbalance_decides() {
    assert!(matches!(desugar_text("[]]["), Err(UnbalancedLoop::TooManyClose)));
    assert!(matches!(desugar_text("[[]"), Err(UnbalancedLoop::OpenWithoutClose)));
    assert!(desugar_text("[[]][]").is_ok());
    assert!(desugar_text("").is_ok());
}

#[test]
fn runs_are_coalesced() {
    let d = desugar_text("+++-->>><<,.").ok().unwrap();
    let s = format!("{:?}", d.as_slice());
    assert_eq!(s, "[Add(3), Sub(2), Right(3), Left(2), Input, Output]");
}

#[test]
fn zero_idiom_and_its_dedup() {
    let d = desugar_text("[-][+]+[+]").ok().unwrap();
    assert_eq!(format!("{:?}", d.as_slice()), "[Zero, Add(1), Zero]");
    let d = desugar_text("[--]").ok().unwrap();
    assert_eq!(format!("{:?}", d.as_slice()), "[Loop([Sub(2)])]");
    let d = desugar_text("[>[-]<-]").ok().unwrap();
    assert_eq!(format!("{:?}", d.as_slice()), "[Loop([Right(1), Zero, Left(1), Sub(1)])]");
}

#[test]
fn comments_are_ignored() {
    let p = BrainFuckProgram::from_chars(&chars("a+b-c>d<e[f]g,h.i"));
    assert_eq!(text_of(&p), "+-><[],.");
}

#[test]
fn resugar_expands_each_instruction() {
    let p = DesugaredBrainFuckProgram::from_instructions(vec![
        DesugaredBrainFuckInstruction::Add(2),
        DesugaredBrainFuckInstruction::Right(3),
        DesugaredBrainFuckInstruction::Loop(vec![
            DesugaredBrainFuckInstruction::Sub(1),
            DesugaredBrainFuckInstruction::Left(1),
        ]),
        DesugaredBrainFuckInstruction::Zero,
        DesugaredBrainFuckInstruction::SetTo(3),
        DesugaredBrainFuckInstruction::Input,
        DesugaredBrainFuckInstruction::Output,
    ]);
    assert_eq!(text_of(&p.resugar()), "++>>>[-<][-][-]+++,.");
}

#[test]
fn set_takes_the_shorter_way() {
    assert_eq!(BrainFuckInstruction::set(0), vec![BrainFuckInstruction::LoopStart, BrainFuckInstruction::Sub, BrainFuckInstruction::LoopEnd]);
    assert_eq!(BrainFuckInstruction::set(128).len(), 3 + 128);
    assert_eq!(BrainFuckInstruction::set(129).len(), 3 + 127);
    assert_eq!(BrainFuckInstruction::set(255)[3..], [BrainFuckInstruction::Sub]);
    for v in 0..=255u8 {
        let seq = BrainFuckInstruction::set(v);
        let steps = (v as usize).min(256 - v as usize);
        assert_eq!(seq.len(), 3 + steps);
        let adds = seq[3..].iter().filter(|i| **i == BrainFuckInstruction::Add).count() as i32;
        let subs = seq[3..].iter().filter(|i| **i == BrainFuckInstruction::Sub).count() as i32;
        assert_eq!((adds - subs).rem_euclid(256), v as i32);
    }
}

#[test]
fn set_reaches_every_value() {
    for v in 0..=255u8 {
        let mut it = BrainFuckInterpreter::new(vec![]);
        let p = DesugaredBrainFuckProgram::from_instructions(vec![
            DesugaredBrainFuckInstruction::SetTo(v),
            DesugaredBrainFuckInstruction::Output,
        ]);
        assert!(it.execute(p, 10));
        assert_eq!(it.output(), &[v]);
        let text = BrainFuckProgram::from_instructions(BrainFuckInstruction::set(v));
        let mut it = BrainFuckInterpreter::new(vec![]);
        assert!(it.execute(text.desugar().ok().unwrap(), 10));
        assert_eq!(it.cell(0), v);
    }
}

#[test]
fn from_char_maps_the_eight_primitives() {
    assert_eq!(BrainFuckInstruction::from_char('+'), Some(BrainFuckInstruction::Add));
    assert_eq!(BrainFuckInstruction::from_char('-'), Some(BrainFuckInstruction::Sub));
    assert_eq!(BrainFuckInstruction::from_char('>'), Some(BrainFuckInstruction::Right));
    assert_eq!(BrainFuckInstruction::from_char('<'), Some(BrainFuckInstruction::Left));
    assert_eq!(BrainFuckInstruction::from_char('['), Some(BrainFuckInstruction::LoopStart));
    assert_eq!(BrainFuckInstruction::from_char(']'), Some(BrainFuckInstruction::LoopEnd));
    assert_eq!(BrainFuckInstruction::from_char(','), Some(BrainFuckInstruction::Input));
    assert_eq!(BrainFuckInstruction::from_char('.'), Some(BrainFuckInstruction::Output));
    assert_eq!(BrainFuckInstruction::from_char('x'), None);
}

#[test]
fn pointer_wraps_both_ways() {
    let mut it = BrainFuckInterpreter::new(vec![]);
    let left = DesugaredBrainFuckProgram::from_instructions(vec![DesugaredBrainFuckInstruction::Left(1)]);
    assert!(it.execute(left, 1));
    assert_eq!(it.pointer(), MEMORY_SIZE - 1);
    let right = DesugaredBrainFuckProgram::from_instructions(vec![DesugaredBrainFuckInstruction::Right(1)]);
    assert!(it.execute(right, 1));
    assert_eq!(it.pointer(), 0);
    let far = DesugaredBrainFuckProgram::from_instructions(vec![DesugaredBrainFuckInstruction::Right(2 * MEMORY_SIZE + 5)]);
    assert!(it.execute(far, 1));
    assert_eq!(it.pointer(), 5);
}

#[test]
fn cells_wrap_modulo_256() {
    let mut it = BrainFuckInterpreter::new(vec![]);
    let p = DesugaredBrainFuckProgram::from_instructions(vec![
        DesugaredBrainFuckInstruction::Sub(1),
        DesugaredBrainFuckInstruction::Output,
        DesugaredBrainFuckInstruction::Add(513),
        DesugaredBrainFuckInstruction::Output,
    ]);
    assert!(it.execute(p, 1));
    assert_eq!(it.output(), &[255, 0]);
}

#[test]
fn fuel_bounds_a_loop() {
    let mut it = BrainFuckInterpreter::new(vec![]);
    let p = DesugaredBrainFuckProgram::from_instructions(vec![
        DesugaredBrainFuckInstruction::Add(1),
        DesugaredBrainFuckInstruction::Loop(vec![DesugaredBrainFuckInstruction::Output]),
    ]);
    assert!(!it.execute(p, 3));
    assert_eq!(it.output(), &[1, 1, 1]);
}

#[test]
fn runs_zero_idiom_and_loops_together() {
    let d = desugar_text("++[-][+]>>.[--]").ok().unwrap();
    assert_eq!(format!("{:?}", d.as_slice()), "[Add(2), Zero, Right(2), Output, Loop([Sub(2)])]");
}

#[test]
fn duplicate_copies_the_tree() {
    let d = desugar_text("+[>[-]<-].").ok().unwrap();
    let copies: Vec<DesugaredBrainFuckInstruction> = d.as_slice().iter().map(|i| i.duplicate()).collect();
    assert_eq!(format!("{:?}", copies), format!("{:?}", d.as_slice()));
}
