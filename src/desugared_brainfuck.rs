use vstd::prelude::*;

use crate::brainfuck::{BrainFuckInstruction, BrainFuckProgram, repeated, set_sequence, zero_loop};

verus! {

/// A coalesced instruction: counted moves and changes, loops, and the
/// zero / set idioms.
#[derive(Debug)]
pub enum DesugaredBrainFuckInstruction {
    Add(usize),
    Sub(usize),
    Left(usize),
    Right(usize),
    Loop(Vec<DesugaredBrainFuckInstruction>),
    Zero,
    SetTo(u8),
    Input,
    Output,
}

/// A coalesced instruction as a mathematical value: loops hold a `Seq`.
pub enum Coalesced {
    Add(nat),
    Sub(nat),
    Left(nat),
    Right(nat),
    Loop(Seq<Coalesced>),
    Zero,
    SetTo(u8),
    Input,
    Output,
}

/// The value that an instruction stands for.
pub open spec fn shape(i: DesugaredBrainFuckInstruction) -> Coalesced
    decreases i,
{
    match i {
        DesugaredBrainFuckInstruction::Add(n) => Coalesced::Add(n as nat),
        DesugaredBrainFuckInstruction::Sub(n) => Coalesced::Sub(n as nat),
        DesugaredBrainFuckInstruction::Left(n) => Coalesced::Left(n as nat),
        DesugaredBrainFuckInstruction::Right(n) => Coalesced::Right(n as nat),
        DesugaredBrainFuckInstruction::Loop(body) => Coalesced::Loop(shapes(body@)),
        DesugaredBrainFuckInstruction::Zero => Coalesced::Zero,
        DesugaredBrainFuckInstruction::SetTo(v) => Coalesced::SetTo(v),
        DesugaredBrainFuckInstruction::Input => Coalesced::Input,
        DesugaredBrainFuckInstruction::Output => Coalesced::Output,
    }
}

/// The values that a sequence of instructions stands for, in order.
pub open spec fn shapes(s: Seq<DesugaredBrainFuckInstruction>) -> Seq<Coalesced>
    decreases s,
{
    if s.len() == 0 {
        seq![]
    } else {
        shapes(s.drop_last()).push(shape(s.last()))
    }
}

pub proof fn lemma_shapes(s: Seq<DesugaredBrainFuckInstruction>)
    ensures
        shapes(s).len() == s.len(),
        forall|k: int| 0 <= k < s.len() ==> #[trigger] shapes(s)[k] == shape(s[k]),
    decreases s.len(),
{
    if s.len() > 0 {
        lemma_shapes(s.drop_last());
    }
}

pub proof fn lemma_shapes_push(s: Seq<DesugaredBrainFuckInstruction>, i: DesugaredBrainFuckInstruction)
    ensures
        shapes(s.push(i)) == shapes(s).push(shape(i)),
{
    assert(s.push(i).drop_last() =~= s);
}

/// The primitives that one coalesced instruction expands to.
pub open spec fn resugar_instruction(i: DesugaredBrainFuckInstruction) -> Seq<BrainFuckInstruction>
    decreases i,
{
    match i {
        DesugaredBrainFuckInstruction::Add(n) => repeated(BrainFuckInstruction::Add, n as nat),
        DesugaredBrainFuckInstruction::Sub(n) => repeated(BrainFuckInstruction::Sub, n as nat),
        DesugaredBrainFuckInstruction::Left(n) => repeated(BrainFuckInstruction::Left, n as nat),
        DesugaredBrainFuckInstruction::Right(n) => repeated(BrainFuckInstruction::Right, n as nat),
        DesugaredBrainFuckInstruction::Loop(body) => seq![BrainFuckInstruction::LoopStart]
            + resugar_sequence(body@) + seq![BrainFuckInstruction::LoopEnd],
        DesugaredBrainFuckInstruction::Zero => zero_loop(),
        DesugaredBrainFuckInstruction::SetTo(v) => set_sequence(v),
        DesugaredBrainFuckInstruction::Input => seq![BrainFuckInstruction::Input],
        DesugaredBrainFuckInstruction::Output => seq![BrainFuckInstruction::Output],
    }
}

/// The primitives that a sequence of coalesced instructions expands to, in order.
pub open spec fn resugar_sequence(s: Seq<DesugaredBrainFuckInstruction>) -> Seq<BrainFuckInstruction>
    decreases s,
{
    if s.len() == 0 {
        seq![]
    } else {
        resugar_sequence(s.drop_last()) + resugar_instruction(s.last())
    }
}

impl DesugaredBrainFuckInstruction {
    /// A copy of this instruction tree.
    pub fn duplicate(&self) -> (r: Self)
        ensures
            shape(r) == shape(*self),
        decreases self,
    {
        match self {
            DesugaredBrainFuckInstruction::Add(n) => DesugaredBrainFuckInstruction::Add(*n),
            DesugaredBrainFuckInstruction::Sub(n) => DesugaredBrainFuckInstruction::Sub(*n),
            DesugaredBrainFuckInstruction::Left(n) => DesugaredBrainFuckInstruction::Left(*n),
            DesugaredBrainFuckInstruction::Right(n) => DesugaredBrainFuckInstruction::Right(*n),
            DesugaredBrainFuckInstruction::Loop(v) => {
                let mut res: Vec<DesugaredBrainFuckInstruction> = Vec::new();
                let mut k: usize = 0;
                assert forall|j: int| 0 <= j < v@.len() implies decreases_to!(*self => v@[j]) by {
                    assert(decreases_to!(*v => v[j]));
                }
                assert(v@.take(0) =~= Seq::<DesugaredBrainFuckInstruction>::empty());
                while k < v.len()
                    invariant
                        k <= v@.len(),
                        shapes(res@) == shapes(v@.take(k as int)),
                        forall|j: int| 0 <= j < v@.len() ==> decreases_to!(*self => #[trigger] v@[j]),
                    decreases v.len() - k,
                {
                    let x = v[k].duplicate();
                    proof {
                        lemma_shapes_push(res@, x);
                        lemma_shapes_push(v@.take(k as int), v@[k as int]);
                        assert(v@.take(k as int).push(v@[k as int]) =~= v@.take(k + 1));
                    }
                    res.push(x);
                    k = k + 1;
                }
                assert(v@.take(k as int) =~= v@);
                DesugaredBrainFuckInstruction::Loop(res)
            },
            DesugaredBrainFuckInstruction::Zero => DesugaredBrainFuckInstruction::Zero,
            DesugaredBrainFuckInstruction::SetTo(v) => DesugaredBrainFuckInstruction::SetTo(*v),
            DesugaredBrainFuckInstruction::Input => DesugaredBrainFuckInstruction::Input,
            DesugaredBrainFuckInstruction::Output => DesugaredBrainFuckInstruction::Output,
        }
    }

    /// Expands this instruction into primitives.
    pub fn resugar(&self) -> (r: Vec<BrainFuckInstruction>)
        ensures
            r@ == resugar_instruction(*self),
        decreases self,
    {
        match self {
            DesugaredBrainFuckInstruction::Add(n) => repeat_instruction(BrainFuckInstruction::Add, *n),
            DesugaredBrainFuckInstruction::Sub(n) => repeat_instruction(BrainFuckInstruction::Sub, *n),
            DesugaredBrainFuckInstruction::Left(n) => repeat_instruction(BrainFuckInstruction::Left, *n),
            DesugaredBrainFuckInstruction::Right(n) => repeat_instruction(BrainFuckInstruction::Right, *n),
            DesugaredBrainFuckInstruction::Loop(v) => {
                let mut res: Vec<BrainFuckInstruction> = Vec::new();
                res.push(BrainFuckInstruction::LoopStart);
                let mut k: usize = 0;
                assert forall|j: int| 0 <= j < v@.len() implies decreases_to!(*self => v@[j]) by {
                    assert(decreases_to!(*v => v[j]));
                }
                while k < v.len()
                    invariant
                        k <= v@.len(),
                        forall|j: int| 0 <= j < v@.len() ==> decreases_to!(*self => #[trigger] v@[j]),
                        res@ == seq![BrainFuckInstruction::LoopStart] + resugar_sequence(v@.take(k as int)),
                    decreases v.len() - k,
                {
                    let mut part = v[k].resugar();
                    res.append(&mut part);
                    proof {
                        assert(v@.take(k + 1).drop_last() =~= v@.take(k as int));
                    }
                    k = k + 1;
                    assert(res@ =~= seq![BrainFuckInstruction::LoopStart] + resugar_sequence(v@.take(k as int)));
                }
                res.push(BrainFuckInstruction::LoopEnd);
                assert(v@.take(k as int) =~= v@);
                res
            },
            DesugaredBrainFuckInstruction::Zero => {
                vec![BrainFuckInstruction::LoopStart, BrainFuckInstruction::Sub, BrainFuckInstruction::LoopEnd]
            },
            DesugaredBrainFuckInstruction::SetTo(n) => BrainFuckInstruction::set(*n),
            DesugaredBrainFuckInstruction::Input => vec![BrainFuckInstruction::Input],
            DesugaredBrainFuckInstruction::Output => vec![BrainFuckInstruction::Output],
        }
    }
}

/// A program of coalesced instructions.
pub struct DesugaredBrainFuckProgram(Vec<DesugaredBrainFuckInstruction>);

impl View for DesugaredBrainFuckProgram {
    type V = Seq<DesugaredBrainFuckInstruction>;

    closed spec fn view(&self) -> Seq<DesugaredBrainFuckInstruction> {
        self.0@
    }
}

impl DesugaredBrainFuckProgram {
    /// A program of the given instructions.
    pub fn from_instructions(v: Vec<DesugaredBrainFuckInstruction>) -> (r: Self)
        ensures
            r@ == v@,
    {
        DesugaredBrainFuckProgram(v)
    }

    /// The instructions of the program, in order.
    pub fn as_slice(&self) -> (r: &[DesugaredBrainFuckInstruction])
        ensures
            r@ == self@,
    {
        self.0.as_slice()
    }

    /// The instructions of the program, taken out of it.
    pub fn into_instructions(self) -> (r: Vec<DesugaredBrainFuckInstruction>)
        ensures
            r@ == self@,
    {
        self.0
    }

    /// Expands every instruction into primitives, in order.
    pub fn resugar(&self) -> (r: BrainFuckProgram)
        ensures
            r@ == resugar_sequence(self@),
    {
        let mut res: Vec<BrainFuckInstruction> = Vec::new();
        let mut k: usize = 0;
        while k < self.0.len()
            invariant
                k <= self@.len(),
                res@ == resugar_sequence(self@.take(k as int)),
            decreases self@.len() - k,
        {
            let mut part = self.0[k].resugar();
            res.append(&mut part);
            proof {
                assert(self@.take(k + 1).drop_last() =~= self@.take(k as int));
            }
            k = k + 1;
        }
        assert(self@.take(k as int) =~= self@);
        BrainFuckProgram::from_instructions(res)
    }
}

/// `n` copies of one primitive.
fn repeat_instruction(i: BrainFuckInstruction, n: usize) -> (r: Vec<BrainFuckInstruction>)
    ensures
        r@ == repeated(i, n as nat),
{
    let mut res: Vec<BrainFuckInstruction> = Vec::new();
    let mut k: usize = 0;
    while k < n
        invariant
            k <= n,
            res@ == repeated(i, k as nat),
        decreases n - k,
    {
        res.push(i);
        k = k + 1;
        assert(res@ =~= repeated(i, k as nat));
    }
    res
}

} // verus!
