use vstd::prelude::*;

use crate::desugared_brainfuck::{Coalesced, shapes, lemma_shapes, lemma_shapes_push, DesugaredBrainFuckInstruction, DesugaredBrainFuckProgram, resugar_instruction, resugar_sequence};

verus! {

/// One primitive operation of the tape machine.
#[derive(Clone, Copy, PartialEq, Eq, Structural, Debug)]
pub enum BrainFuckInstruction {
    Add,
    Sub,
    Left,
    Right,
    LoopStart,
    LoopEnd,
    Input,
    Output,
}

/// The primitive that a character of program text stands for, if any.
pub open spec fn char_instruction(c: char) -> Option<BrainFuckInstruction> {
    if c == '+' {
        Some(BrainFuckInstruction::Add)
    } else if c == '-' {
        Some(BrainFuckInstruction::Sub)
    } else if c == '>' {
        Some(BrainFuckInstruction::Right)
    } else if c == '<' {
        Some(BrainFuckInstruction::Left)
    } else if c == '[' {
        Some(BrainFuckInstruction::LoopStart)
    } else if c == ']' {
        Some(BrainFuckInstruction::LoopEnd)
    } else if c == ',' {
        Some(BrainFuckInstruction::Input)
    } else if c == '.' {
        Some(BrainFuckInstruction::Output)
    } else {
        None
    }
}

/// The character that writes a primitive.
pub open spec fn instruction_char(i: BrainFuckInstruction) -> char {
    match i {
        BrainFuckInstruction::Add => '+',
        BrainFuckInstruction::Sub => '-',
        BrainFuckInstruction::Left => '<',
        BrainFuckInstruction::Right => '>',
        BrainFuckInstruction::LoopStart => '[',
        BrainFuckInstruction::LoopEnd => ']',
        BrainFuckInstruction::Input => ',',
        BrainFuckInstruction::Output => '.',
    }
}

/// `n` copies of one primitive.
pub open spec fn repeated(i: BrainFuckInstruction, n: nat) -> Seq<BrainFuckInstruction> {
    Seq::new(n, |_k: int| i)
}

/// The canonical zeroing loop `[-]`.
pub open spec fn zero_loop() -> Seq<BrainFuckInstruction> {
    seq![BrainFuckInstruction::LoopStart, BrainFuckInstruction::Sub, BrainFuckInstruction::LoopEnd]
}

/// Zeroing loop, then the shorter way from 0 to `n`: `n` increments up to 128,
/// else `256 - n` decrements that wrap round.
pub open spec fn set_sequence(n: u8) -> Seq<BrainFuckInstruction> {
    zero_loop() + if n > 128 {
        repeated(BrainFuckInstruction::Sub, (256 - n) as nat)
    } else {
        repeated(BrainFuckInstruction::Add, n as nat)
    }
}

/// Increments minus decrements in `s`.
pub open spec fn net_change(s: Seq<BrainFuckInstruction>) -> int
    decreases s.len(),
{
    if s.len() == 0 {
        0
    } else {
        net_change(s.drop_last()) + match s.last() {
            BrainFuckInstruction::Add => 1,
            BrainFuckInstruction::Sub => -1,
            _ => 0,
        }
    }
}

proof fn lemma_repeated_net(i: BrainFuckInstruction, n: nat)
    requires
        i is Add || i is Sub,
    ensures
        net_change(repeated(i, n)) == if i is Add { n as int } else { -(n as int) },
    decreases n,
{
    if n > 0 {
        lemma_repeated_net(i, (n - 1) as nat);
        assert(repeated(i, n).drop_last() =~= repeated(i, (n - 1) as nat));
    } else {
        assert(repeated(i, n) =~= Seq::<BrainFuckInstruction>::empty());
    }
}

/// The primitives that set a cell to `v` are the zeroing loop and then
/// `min(v, 256 - v)` increments or decrements, whose net change from 0 is `v`
/// modulo 256.
pub proof fn lemma_set_reaches(v: u8)
    ensures
        set_sequence(v).len() == 3 + if v <= 128 { v as int } else { 256 - v },
        set_sequence(v).take(3) == zero_loop(),
        net_change(set_sequence(v).skip(3)) % 256 == v,
{
    let tail = if v > 128 {
        repeated(BrainFuckInstruction::Sub, (256 - v) as nat)
    } else {
        repeated(BrainFuckInstruction::Add, v as nat)
    };
    assert(set_sequence(v).take(3) =~= zero_loop());
    assert(set_sequence(v).skip(3) =~= tail);
    if v > 128 {
        lemma_repeated_net(BrainFuckInstruction::Sub, (256 - v) as nat);
        assert((-(256 - v)) % 256 == v);
    } else {
        lemma_repeated_net(BrainFuckInstruction::Add, v as nat);
    }
}

impl BrainFuckInstruction {
    /// The primitives that set the current cell to `n`.
    pub fn set(n: u8) -> (r: Vec<Self>)
        ensures
            r@ == set_sequence(n),
    {
        let mut res: Vec<Self> = Vec::new();
        res.push(BrainFuckInstruction::LoopStart);
        res.push(BrainFuckInstruction::Sub);
        res.push(BrainFuckInstruction::LoopEnd);
        let (op, count) = if n > 128 {
            (BrainFuckInstruction::Sub, 256 - n as u16)
        } else {
            (BrainFuckInstruction::Add, n as u16)
        };
        let mut k: u16 = 0;
        while k < count
            invariant
                k <= count,
                res@ == zero_loop() + repeated(op, k as nat),
            decreases count - k,
        {
            res.push(op);
            k = k + 1;
            assert(res@ =~= zero_loop() + repeated(op, k as nat));
        }
        assert(set_sequence(n) =~= zero_loop() + repeated(op, count as nat));
        res
    }

    /// The primitive written by `c`; `None` for any other character.
    pub fn from_char(c: char) -> (r: Option<Self>)
        ensures
            r == char_instruction(c),
    {
        match c {
            '+' => Some(Self::Add),
            '-' => Some(Self::Sub),
            '>' => Some(Self::Right),
            '<' => Some(Self::Left),
            '[' => Some(Self::LoopStart),
            ']' => Some(Self::LoopEnd),
            ',' => Some(Self::Input),
            '.' => Some(Self::Output),
            _ => None,
        }
    }

    /// The character that writes this primitive.
    pub fn to_char(&self) -> (r: char)
        ensures
            r == instruction_char(*self),
    {
        match self {
            BrainFuckInstruction::Add => '+',
            BrainFuckInstruction::Sub => '-',
            BrainFuckInstruction::Left => '<',
            BrainFuckInstruction::Right => '>',
            BrainFuckInstruction::LoopStart => '[',
            BrainFuckInstruction::LoopEnd => ']',
            BrainFuckInstruction::Input => ',',
            BrainFuckInstruction::Output => '.',
        }
    }
}


/// A program of raw primitives.
pub struct BrainFuckProgram(Vec<BrainFuckInstruction>);

impl View for BrainFuckProgram {
    type V = Seq<BrainFuckInstruction>;

    closed spec fn view(&self) -> Seq<BrainFuckInstruction> {
        self.0@
    }
}

/// Why a program's loops do not pair up.
#[derive(Clone, Copy, PartialEq, Eq, Structural, Debug)]
pub enum UnbalancedLoop {
    TooManyClose,
    OpenWithoutClose,
}

/// How a primitive changes the loop nesting depth.
pub open spec fn depth_change(i: BrainFuckInstruction) -> int {
    match i {
        BrainFuckInstruction::LoopStart => 1,
        BrainFuckInstruction::LoopEnd => -1,
        _ => 0,
    }
}

/// Loop starts minus loop ends in `s`.
pub open spec fn depth(s: Seq<BrainFuckInstruction>) -> int
    decreases s.len(),
{
    if s.len() == 0 {
        0
    } else {
        depth(s.drop_last()) + depth_change(s.last())
    }
}

/// Some prefix of `s` closes more loops than it opened.
pub open spec fn closes_unopened(s: Seq<BrainFuckInstruction>) -> bool {
    exists|k: int| 0 <= k <= s.len() && #[trigger] depth(s.take(k)) < 0
}

/// What `desugar` of `s` fails with, if it fails.
pub open spec fn imbalance(s: Seq<BrainFuckInstruction>) -> Option<UnbalancedLoop> {
    if closes_unopened(s) {
        Some(UnbalancedLoop::TooManyClose)
    } else if depth(s) != 0 {
        Some(UnbalancedLoop::OpenWithoutClose)
    } else {
        None
    }
}

/// Some loop of `s` has a body of exactly one increment or one decrement.
#[verifier::opaque]
pub open spec fn has_zero_idiom(s: Seq<BrainFuckInstruction>) -> bool {
    exists|k: int| 0 <= k && k + 2 < s.len() && #[trigger] s[k] is LoopStart && (s[k + 1] is Add || s[k + 1] is Sub)
        && s[k + 2] is LoopEnd
}

/// The primitives of open loops, outermost first: each level's instructions
/// followed by the loop start that opened the next level.
pub open spec fn open_levels(levels: Seq<Seq<DesugaredBrainFuckInstruction>>) -> Seq<BrainFuckInstruction>
    decreases levels.len(),
{
    if levels.len() == 0 {
        seq![]
    } else {
        open_levels(levels.drop_last()) + resugar_sequence(levels.last()) + seq![BrainFuckInstruction::LoopStart]
    }
}

proof fn lemma_resugar_push(s: Seq<DesugaredBrainFuckInstruction>, x: DesugaredBrainFuckInstruction)
    ensures
        resugar_sequence(s.push(x)) == resugar_sequence(s) + resugar_instruction(x),
{
    assert(s.push(x).drop_last() =~= s);
}

/// The counted instruction for a run of `n` of the coalescable primitive `t`.
pub open spec fn counted_of(t: BrainFuckInstruction, n: nat) -> Coalesced {
    match t {
        BrainFuckInstruction::Add => Coalesced::Add(n),
        BrainFuckInstruction::Sub => Coalesced::Sub(n),
        BrainFuckInstruction::Left => Coalesced::Left(n),
        _ => Coalesced::Right(n),
    }
}

/// The count of a counted instruction.
pub open spec fn count_of(c: Coalesced) -> nat {
    match c {
        Coalesced::Add(n) => n,
        Coalesced::Sub(n) => n,
        Coalesced::Left(n) => n,
        Coalesced::Right(n) => n,
        _ => 0,
    }
}

/// The level around a loop once the loop's body `body` is closed: a body
/// of one increment or one decrement becomes `Zero`, unless `parent` ends
/// with `Zero` already; any other body becomes a loop.
pub open spec fn close_level(parent: Seq<Coalesced>, body: Seq<Coalesced>) -> Seq<Coalesced> {
    if body == seq![Coalesced::Add(1)] || body == seq![Coalesced::Sub(1)] {
        if parent.len() > 0 && parent.last() == Coalesced::Zero {
            parent
        } else {
            parent.push(Coalesced::Zero)
        }
    } else {
        parent.push(Coalesced::Loop(body))
    }
}

/// One primitive `t`, after `prev`, read into the open levels and the
/// innermost one: a run grows its count, a loop start opens a level, a loop
/// end closes one.
pub open spec fn coalesce_step(
    levels: Seq<Seq<Coalesced>>,
    cur: Seq<Coalesced>,
    prev: Option<BrainFuckInstruction>,
    t: BrainFuckInstruction,
) -> (Seq<Seq<Coalesced>>, Seq<Coalesced>) {
    match t {
        BrainFuckInstruction::LoopStart => (levels.push(cur), seq![]),
        BrainFuckInstruction::LoopEnd => if levels.len() == 0 {
            (levels, cur)
        } else {
            (levels.drop_last(), close_level(levels.last(), cur))
        },
        BrainFuckInstruction::Input => (levels, cur.push(Coalesced::Input)),
        BrainFuckInstruction::Output => (levels, cur.push(Coalesced::Output)),
        _ => if prev == Some(t) && cur.len() > 0 {
            (levels, cur.drop_last().push(counted_of(t, count_of(cur.last()) + 1)))
        } else {
            (levels, cur.push(counted_of(t, 1)))
        },
    }
}

/// The open levels and the innermost level after reading `s` left to right.
pub open spec fn coalesce(s: Seq<BrainFuckInstruction>) -> (Seq<Seq<Coalesced>>, Seq<Coalesced>)
    decreases s.len(),
{
    if s.len() == 0 {
        (seq![], seq![])
    } else {
        coalesce_step(
            coalesce(s.drop_last()).0,
            coalesce(s.drop_last()).1,
            if s.len() >= 2 { Some(s[s.len() - 2]) } else { None },
            s.last(),
        )
    }
}

/// What the instructions of a balanced program coalesce to.
pub open spec fn coalesced(s: Seq<BrainFuckInstruction>) -> Seq<Coalesced> {
    coalesce(s).1
}

/// The values of the open levels.
pub open spec fn level_shapes(lv: Seq<Seq<DesugaredBrainFuckInstruction>>) -> Seq<Seq<Coalesced>> {
    lv.map_values(|v: Seq<DesugaredBrainFuckInstruction>| shapes(v))
}

/// The open levels and the innermost one are what reading `prefix` gives.
#[verifier::opaque]
pub open spec fn reads(
    levels: Seq<Seq<DesugaredBrainFuckInstruction>>,
    current: Seq<DesugaredBrainFuckInstruction>,
    prefix: Seq<BrainFuckInstruction>,
) -> bool {
    coalesce(prefix) == (level_shapes(levels), shapes(current))
}

proof fn lemma_coalesce_next(s: Seq<BrainFuckInstruction>, i: int)
    requires
        0 <= i < s.len(),
    ensures
        coalesce(s.take(i + 1)) == coalesce_step(
            coalesce(s.take(i)).0,
            coalesce(s.take(i)).1,
            if i >= 1 { Some(s[i - 1]) } else { None },
            s[i],
        ),
{
    assert(s.take(i + 1).drop_last() =~= s.take(i));
}

proof fn lemma_coalesce_run(s: Seq<BrainFuckInstruction>, start: int, j: int)
    requires
        0 <= start < j <= s.len(),
        s[start] is Add || s[start] is Sub || s[start] is Left || s[start] is Right,
        forall|k: int| start <= k < j ==> s[k] == s[start],
        start == 0 || s[start - 1] != s[start],
    ensures
        coalesce(s.take(j)) == (coalesce(s.take(start)).0, coalesce(s.take(start)).1.push(
            counted_of(s[start], (j - start) as nat),
        )),
    decreases j - start,
{
    lemma_coalesce_next(s, j - 1);
    if j - 1 > start {
        lemma_coalesce_run(s, start, j - 1);
        let c = coalesce(s.take(start)).1;
        let x = counted_of(s[start], (j - 1 - start) as nat);
        assert(c.push(x).drop_last() =~= c);
        assert(count_of(x) == j - 1 - start);
    }
}

proof fn lemma_reads_open(
    lv: Seq<Seq<DesugaredBrainFuckInstruction>>,
    c: Seq<DesugaredBrainFuckInstruction>,
    s: Seq<BrainFuckInstruction>,
    i: int,
)
    requires
        0 <= i < s.len(),
        s[i] is LoopStart,
        reads(lv, c, s.take(i)),
    ensures
        reads(lv.push(c), Seq::<DesugaredBrainFuckInstruction>::empty(), s.take(i + 1)),
{
    reveal(reads);
    lemma_coalesce_next(s, i);
    assert(level_shapes(lv.push(c)) =~= level_shapes(lv).push(shapes(c)));
    assert(shapes(Seq::<DesugaredBrainFuckInstruction>::empty()) =~= Seq::<Coalesced>::empty());
}

proof fn lemma_reads_close(
    lv: Seq<Seq<DesugaredBrainFuckInstruction>>,
    c: Seq<DesugaredBrainFuckInstruction>,
    c2: Seq<DesugaredBrainFuckInstruction>,
    s: Seq<BrainFuckInstruction>,
    i: int,
)
    requires
        0 <= i < s.len(),
        s[i] is LoopEnd,
        lv.len() > 0,
        reads(lv, c, s.take(i)),
        shapes(c2) == close_level(shapes(lv.last()), shapes(c)),
    ensures
        reads(lv.drop_last(), c2, s.take(i + 1)),
{
    reveal(reads);
    lemma_coalesce_next(s, i);
    assert(level_shapes(lv.drop_last()) =~= level_shapes(lv).drop_last());
}

proof fn lemma_reads_push(
    lv: Seq<Seq<DesugaredBrainFuckInstruction>>,
    c: Seq<DesugaredBrainFuckInstruction>,
    x: DesugaredBrainFuckInstruction,
    s: Seq<BrainFuckInstruction>,
    i: int,
)
    requires
        0 <= i < s.len(),
        (s[i] is Input && x is Input) || (s[i] is Output && x is Output),
        reads(lv, c, s.take(i)),
    ensures
        reads(lv, c.push(x), s.take(i + 1)),
{
    reveal(reads);
    lemma_coalesce_next(s, i);
    lemma_shapes_push(c, x);
}

proof fn lemma_reads_run(
    lv: Seq<Seq<DesugaredBrainFuckInstruction>>,
    c: Seq<DesugaredBrainFuckInstruction>,
    x: DesugaredBrainFuckInstruction,
    s: Seq<BrainFuckInstruction>,
    start: int,
    j: int,
)
    requires
        0 <= start < j <= s.len(),
        s[start] is Add || s[start] is Sub || s[start] is Left || s[start] is Right,
        forall|k: int| start <= k < j ==> s[k] == s[start],
        start == 0 || s[start - 1] != s[start],
        reads(lv, c, s.take(start)),
        crate::desugared_brainfuck::shape(x) == counted_of(s[start], (j - start) as nat),
    ensures
        reads(lv, c.push(x), s.take(j)),
{
    reveal(reads);
    lemma_coalesce_run(s, start, j);
    lemma_shapes_push(c, x);
}

/// The instruction sequences of the open levels.
pub open spec fn levels_of(outer: Seq<Vec<DesugaredBrainFuckInstruction>>) -> Seq<Seq<DesugaredBrainFuckInstruction>> {
    outer.map_values(|v: Vec<DesugaredBrainFuckInstruction>| v@)
}

/// The open levels and the innermost one expand to `prefix`.
#[verifier::opaque]
pub open spec fn tracks(
    levels: Seq<Seq<DesugaredBrainFuckInstruction>>,
    current: Seq<DesugaredBrainFuckInstruction>,
    prefix: Seq<BrainFuckInstruction>,
) -> bool {
    open_levels(levels) + resugar_sequence(current) == prefix
}

proof fn lemma_tracks_extend(
    lv: Seq<Seq<DesugaredBrainFuckInstruction>>,
    c: Seq<DesugaredBrainFuckInstruction>,
    lv2: Seq<Seq<DesugaredBrainFuckInstruction>>,
    c2: Seq<DesugaredBrainFuckInstruction>,
    prefix: Seq<BrainFuckInstruction>,
    x: Seq<BrainFuckInstruction>,
    whole: Seq<BrainFuckInstruction>,
)
    requires
        tracks(lv, c, prefix),
        open_levels(lv2) + resugar_sequence(c2) == open_levels(lv) + resugar_sequence(c) + x,
        whole == prefix + x,
    ensures
        tracks(lv2, c2, whole),
{
    reveal(tracks);
}

proof fn lemma_tracks_push(
    lv: Seq<Seq<DesugaredBrainFuckInstruction>>,
    c: Seq<DesugaredBrainFuckInstruction>,
    c2: Seq<DesugaredBrainFuckInstruction>,
    prefix: Seq<BrainFuckInstruction>,
    x: Seq<BrainFuckInstruction>,
    whole: Seq<BrainFuckInstruction>,
)
    requires
        tracks(lv, c, prefix),
        resugar_sequence(c2) == resugar_sequence(c) + x,
        whole == prefix + x,
    ensures
        tracks(lv, c2, whole),
{
    reveal(tracks);
    assert(open_levels(lv) + (resugar_sequence(c) + x) =~= open_levels(lv) + resugar_sequence(c) + x);
}

proof fn lemma_idiom_found(
    s: Seq<BrainFuckInstruction>,
    i: int,
    lv: Seq<Seq<DesugaredBrainFuckInstruction>>,
    c: Seq<DesugaredBrainFuckInstruction>,
)
    requires
        0 <= i < s.len(),
        s[i] is LoopEnd,
        lv.len() > 0,
        tracks(lv, c, s.take(i)),
        resugar_sequence(c) == seq![BrainFuckInstruction::Add] || resugar_sequence(c) == seq![BrainFuckInstruction::Sub],
    ensures
        has_zero_idiom(s),
{
    reveal(tracks);
    reveal(has_zero_idiom);
    let pre = open_levels(lv);
    assert(pre == open_levels(lv.drop_last()) + resugar_sequence(lv.last()) + seq![BrainFuckInstruction::LoopStart]);
    let whole = pre + resugar_sequence(c);
    assert(whole.len() == i);
    let k = i - 2;
    assert(whole[k] == s.take(i)[k]);
    assert(whole[k + 1] == s.take(i)[k + 1]);
    assert(whole[k] is LoopStart);
    assert(s[k] is LoopStart && (s[k + 1] is Add || s[k + 1] is Sub) && s[k + 2] is LoopEnd);
}

/// Appends one instruction to the innermost level.
fn push_instruction(current: &mut Vec<DesugaredBrainFuckInstruction>, x: DesugaredBrainFuckInstruction)
    ensures
        resugar_sequence(final(current)@) == resugar_sequence(old(current)@) + resugar_instruction(x),
        final(current)@ == old(current)@.push(x),
{
    proof {
        lemma_resugar_push(old(current)@, x);
    }
    current.push(x);
}

/// Starts a new innermost level.
fn open_loop(outer: &mut Vec<Vec<DesugaredBrainFuckInstruction>>, current: &mut Vec<DesugaredBrainFuckInstruction>)
    ensures
        final(outer)@.len() == old(outer)@.len() + 1,
        open_levels(levels_of(final(outer)@)) + resugar_sequence(final(current)@) == open_levels(levels_of(old(outer)@))
            + resugar_sequence(old(current)@) + seq![BrainFuckInstruction::LoopStart],
        levels_of(final(outer)@) == levels_of(old(outer)@).push(old(current)@),
        final(current)@ == Seq::<DesugaredBrainFuckInstruction>::empty(),
{
    let ghost before = current@;
    let mut body: Vec<DesugaredBrainFuckInstruction> = Vec::new();
    core::mem::swap(current, &mut body);
    outer.push(body);
    proof {
        let lv = levels_of(outer@);
        assert(lv.drop_last() =~= levels_of(old(outer)@));
        assert(lv.last() == before);
        assert(resugar_sequence(current@) =~= Seq::<BrainFuckInstruction>::empty());
        assert(open_levels(lv) + resugar_sequence(current@) =~= open_levels(levels_of(old(outer)@))
            + resugar_sequence(before) + seq![BrainFuckInstruction::LoopStart]);
    }
}

/// Ends the innermost level: a one-step body becomes `Zero` (none if the
/// level around already ends with one), any other body a loop. Returns
/// whether the body was one step.
fn close_loop(outer: &mut Vec<Vec<DesugaredBrainFuckInstruction>>, current: &mut Vec<DesugaredBrainFuckInstruction>) -> (zeroed: bool)
    requires
        old(outer)@.len() > 0,
    ensures
        final(outer)@.len() == old(outer)@.len() - 1,
        zeroed ==> resugar_sequence(old(current)@) == seq![BrainFuckInstruction::Add]
            || resugar_sequence(old(current)@) == seq![BrainFuckInstruction::Sub],
        !zeroed ==> open_levels(levels_of(final(outer)@)) + resugar_sequence(final(current)@) == open_levels(
            levels_of(old(outer)@),
        ) + resugar_sequence(old(current)@) + seq![BrainFuckInstruction::LoopEnd],
        levels_of(final(outer)@) == levels_of(old(outer)@).drop_last(),
        shapes(final(current)@) == close_level(shapes(levels_of(old(outer)@).last()), shapes(old(current)@)),
{
    let mut body: Vec<DesugaredBrainFuckInstruction> = Vec::new();
    core::mem::swap(current, &mut body);
    let mut parent = outer.pop().unwrap();
    core::mem::swap(current, &mut parent);
    let ghost levels = levels_of(old(outer)@);
    proof {
        assert(levels.drop_last() =~= levels_of(outer@));
        assert(levels.last() == current@);
        lemma_shapes(body@);
        lemma_shapes(current@);
        if shapes(body@) == seq![Coalesced::Add(1)] || shapes(body@) == seq![Coalesced::Sub(1)] {
            assert(body@.len() == 1);
            assert(shapes(body@)[0] == crate::desugared_brainfuck::shape(body@[0]));
            assert(body@[0] == DesugaredBrainFuckInstruction::Add(1) || body@[0] == DesugaredBrainFuckInstruction::Sub(1));
        }
    }
    let ghost pshape = shapes(current@);
    if is_zeroing_body(&body) {
        proof {
            let one = body@[0];
            assert(body@ =~= Seq::<DesugaredBrainFuckInstruction>::empty().push(one));
            lemma_resugar_push(Seq::<DesugaredBrainFuckInstruction>::empty(), one);
            assert(resugar_instruction(one) =~= seq![if one is Add { BrainFuckInstruction::Add } else { BrainFuckInstruction::Sub }]);
            assert(resugar_sequence(body@) =~= resugar_instruction(one));
            lemma_shapes_push(Seq::<DesugaredBrainFuckInstruction>::empty(), one);
            assert(shapes(Seq::<DesugaredBrainFuckInstruction>::empty()) =~= Seq::<Coalesced>::empty());
            assert(shapes(body@) =~= seq![crate::desugared_brainfuck::shape(one)]);
            assert(shapes(body@) == seq![Coalesced::Add(1)] || shapes(body@) == seq![Coalesced::Sub(1)]);
        }
        if !ends_with_zero(current) {
            proof {
                lemma_shapes_push(current@, DesugaredBrainFuckInstruction::Zero);
            }
            current.push(DesugaredBrainFuckInstruction::Zero);
        } else {
            assert(pshape.last() == Coalesced::Zero);
        }
        true
    } else {
        let ghost b = body@;
        let ghost parent_seq = current@;
        proof {
            lemma_shapes_push(current@, DesugaredBrainFuckInstruction::Loop(body));
        }
        push_instruction(current, DesugaredBrainFuckInstruction::Loop(body));
        assert(open_levels(levels_of(outer@)) + resugar_sequence(current@) =~= open_levels(levels)
            + resugar_sequence(b) + seq![BrainFuckInstruction::LoopEnd]);
        false
    }
}

/// `s[start..j]` is one primitive repeated, and not a loop bracket.
proof fn lemma_run(s: Seq<BrainFuckInstruction>, start: int, j: int)
    requires
        0 <= start < j <= s.len(),
        s[start] is Add || s[start] is Sub || s[start] is Left || s[start] is Right,
        forall|k: int| start <= k < j ==> s[k] == s[start],
    ensures
        s.take(j) == s.take(start) + repeated(s[start], (j - start) as nat),
        forall|k: int| start <= k <= j ==> #[trigger] depth(s.take(k)) == depth(s.take(start)),
    decreases j - start,
{
    if j - 1 > start {
        lemma_run(s, start, j - 1);
    }
    lemma_depth_step(s, j - 1);
    assert(s.take(j) =~= s.take(start) + repeated(s[start], (j - start) as nat));
    assert forall|k: int| start <= k <= j implies #[trigger] depth(s.take(k)) == depth(s.take(start)) by {
        if k == j {
        } else if j - 1 > start {
        }
    }
}

proof fn lemma_depth_step(s: Seq<BrainFuckInstruction>, i: int)
    requires
        0 <= i < s.len(),
    ensures
        depth(s.take(i + 1)) == depth(s.take(i)) + depth_change(s[i]),
{
    assert(s.take(i + 1).drop_last() =~= s.take(i));
}

/// A coalescable primitive and the counted instruction for a run of `n` of it.
fn counted(i: BrainFuckInstruction, n: usize) -> (r: DesugaredBrainFuckInstruction)
    requires
        i is Add || i is Sub || i is Left || i is Right,
    ensures
        i is Add ==> r == DesugaredBrainFuckInstruction::Add(n),
        i is Sub ==> r == DesugaredBrainFuckInstruction::Sub(n),
        i is Left ==> r == DesugaredBrainFuckInstruction::Left(n),
        i is Right ==> r == DesugaredBrainFuckInstruction::Right(n),
{
    match i {
        BrainFuckInstruction::Add => DesugaredBrainFuckInstruction::Add(n),
        BrainFuckInstruction::Sub => DesugaredBrainFuckInstruction::Sub(n),
        BrainFuckInstruction::Left => DesugaredBrainFuckInstruction::Left(n),
        _ => DesugaredBrainFuckInstruction::Right(n),
    }
}

/// The body is exactly one increment or one decrement: a loop of it zeroes the cell.
fn is_zeroing_body(body: &Vec<DesugaredBrainFuckInstruction>) -> (r: bool)
    ensures
        r == (body@.len() == 1 && (body@[0] == DesugaredBrainFuckInstruction::Add(1)
            || body@[0] == DesugaredBrainFuckInstruction::Sub(1))),
{
    if body.len() != 1 {
        return false;
    }
    match &body[0] {
        DesugaredBrainFuckInstruction::Add(n) => *n == 1,
        DesugaredBrainFuckInstruction::Sub(n) => *n == 1,
        _ => false,
    }
}

/// The last instruction of `v` is `Zero`.
fn ends_with_zero(v: &Vec<DesugaredBrainFuckInstruction>) -> (r: bool)
    ensures
        r == (v@.len() > 0 && v@.last() == DesugaredBrainFuckInstruction::Zero),
{
    if v.len() == 0 {
        return false;
    }
    match &v[v.len() - 1] {
        DesugaredBrainFuckInstruction::Zero => true,
        _ => false,
    }
}

impl BrainFuckProgram {
    /// A program of the given primitives.
    pub fn from_instructions(v: Vec<BrainFuckInstruction>) -> (r: Self)
        ensures
            r@ == v@,
    {
        BrainFuckProgram(v)
    }

    /// The primitives of the program, in order.
    pub fn as_slice(&self) -> (r: &[BrainFuckInstruction])
        ensures
            r@ == self@,
    {
        self.0.as_slice()
    }

    /// The program's primitives read from text; other characters are comments.
    pub fn from_chars(text: &[char]) -> (r: Self)
        ensures
            r@ == text@.filter_map(|c: char| char_instruction(c)),
    {
        let ghost f = |c: char| char_instruction(c);
        let mut res: Vec<BrainFuckInstruction> = Vec::new();
        let mut k: usize = 0;
        while k < text.len()
            invariant
                k <= text@.len(),
                f == (|c: char| char_instruction(c)),
                res@ == text@.take(k as int).filter_map(f),
            decreases text.len() - k,
        {
            let c = text[k];
            proof {
                text@.lemma_filter_map_take_succ(f, k as int);
                assert(f(text@[k as int]) == char_instruction(c));
            }
            match BrainFuckInstruction::from_char(c) {
                Some(i) => {
                    res.push(i);
                },
                None => {},
            }
            k = k + 1;
        }
        assert(text@.take(k as int) =~= text@);
        BrainFuckProgram(res)
    }

    /// The program as text, one character per primitive.
    pub fn to_chars(&self) -> (r: Vec<char>)
        ensures
            r@ == self@.map_values(|i: BrainFuckInstruction| instruction_char(i)),
    {
        let mut res: Vec<char> = Vec::new();
        let mut k: usize = 0;
        while k < self.0.len()
            invariant
                k <= self@.len(),
                res@ == self@.take(k as int).map_values(|i: BrainFuckInstruction| instruction_char(i)),
            decreases self@.len() - k,
        {
            res.push(self.0[k].to_char());
            k = k + 1;
            assert(res@ =~= self@.take(k as int).map_values(|i: BrainFuckInstruction| instruction_char(i)));
        }
        assert(self@.take(k as int) =~= self@);
        res
    }

    /// The end of the run of equal primitives that starts at `start`.
    fn run_end(&self, start: usize) -> (j: usize)
        requires
            start < self@.len(),
        ensures
            start < j <= self@.len(),
            forall|k: int| start <= k < j ==> self@[k] == self@[start as int],
            j == self@.len() || self@[j as int] != self@[start as int],
    {
        let n = self.0.len();
        let t = self.0[start];
        let mut j = start + 1;
        while j < n && self.0[j] == t
            invariant
                n == self@.len(),
                start < j <= self@.len(),
                t == self@[start as int],
                forall|k: int| start <= k < j ==> self@[k] == t,
            decreases self@.len() - j,
        {
            j = j + 1;
        }
        j
    }

    /// Coalesces runs, turns one-step loops into `Zero` (dropping one that
    /// directly follows another `Zero`), and checks that the loops pair up.
    #[verifier::rlimit(50)]
    pub fn desugar(&self) -> (r: Result<DesugaredBrainFuckProgram, UnbalancedLoop>)
        ensures
            match r {
                Ok(_) => imbalance(self@) is None,
                Err(e) => imbalance(self@) == Some(e),
            },
            !has_zero_idiom(self@) ==> (r matches Ok(d) ==> resugar_sequence(d@) == self@),
            r matches Ok(d) ==> shapes(d@) == coalesced(self@),
    {
        let ghost s = self@;
        let ghost plain = !has_zero_idiom(s);
        let n = self.0.len();
        let mut current: Vec<DesugaredBrainFuckInstruction> = Vec::new();
        let mut outer: Vec<Vec<DesugaredBrainFuckInstruction>> = Vec::new();
        let mut i: usize = 0;
        assert(depth(s.take(0)) == 0) by {
            assert(s.take(0).len() == 0);
        }
        assert(tracks(levels_of(outer@), current@, s.take(0))) by {
            reveal(tracks);
            assert(levels_of(outer@) =~= Seq::<Seq<DesugaredBrainFuckInstruction>>::empty());
            assert(s.take(0) =~= Seq::<BrainFuckInstruction>::empty());
            assert(open_levels(levels_of(outer@)) + resugar_sequence(current@) =~= s.take(0));
        }
        assert(reads(levels_of(outer@), current@, s.take(0))) by {
            reveal(reads);
            assert(s.take(0) =~= Seq::<BrainFuckInstruction>::empty());
            assert(level_shapes(levels_of(outer@)) =~= Seq::<Seq<Coalesced>>::empty());
            assert(shapes(current@) =~= Seq::<Coalesced>::empty());
        }
        while i < n
            invariant
                n == s.len(),
                s == self@,
                plain == !has_zero_idiom(s),
                reads(levels_of(outer@), current@, s.take(i as int)),
                0 < i < n && (s[i - 1] is Add || s[i - 1] is Sub || s[i - 1] is Left || s[i - 1] is Right)
                    ==> s[i as int] != s[i - 1],
                i <= n,
                outer@.len() == depth(s.take(i as int)),
                forall|k: int| 0 <= k <= i ==> #[trigger] depth(s.take(k)) >= 0,
                plain ==> tracks(levels_of(outer@), current@, s.take(i as int)),
            decreases n - i,
        {
            let t = self.0[i];
            proof {
                lemma_depth_step(s, i as int);
            }
            let ghost lv0 = levels_of(outer@);
            let ghost c0 = current@;
            match t {
                BrainFuckInstruction::LoopStart => {
                    open_loop(&mut outer, &mut current);
                    proof {
                        lemma_reads_open(lv0, c0, s, i as int);
                    }
                    proof {
                        if plain {
                            assert(s.take(i + 1) =~= s.take(i as int) + seq![t]);
                            lemma_tracks_extend(lv0, c0, levels_of(outer@), current@, s.take(i as int), seq![t], s.take(i + 1));
                        }
                    }
                    i = i + 1;
                },
                BrainFuckInstruction::LoopEnd => {
                    if outer.len() == 0 {
                        assert(depth(s.take(i + 1)) < 0);
                        return Err(UnbalancedLoop::TooManyClose);
                    }
                    let zeroed = close_loop(&mut outer, &mut current);
                    proof {
                        lemma_reads_close(lv0, c0, current@, s, i as int);
                    }
                    proof {
                        if plain {
                            if zeroed {
                                lemma_idiom_found(s, i as int, lv0, c0);
                            }
                            assert(s.take(i + 1) =~= s.take(i as int) + seq![t]);
                            lemma_tracks_extend(lv0, c0, levels_of(outer@), current@, s.take(i as int), seq![t], s.take(i + 1));
                        }
                    }
                    i = i + 1;
                },
                BrainFuckInstruction::Input => {
                    push_instruction(&mut current, DesugaredBrainFuckInstruction::Input);
                    proof {
                        lemma_reads_push(lv0, c0, DesugaredBrainFuckInstruction::Input, s, i as int);
                    }
                    proof {
                        if plain {
                            assert(s.take(i + 1) =~= s.take(i as int) + seq![t]);
                            assert(resugar_instruction(DesugaredBrainFuckInstruction::Input) =~= seq![t]);
                            lemma_tracks_push(lv0, c0, current@, s.take(i as int), seq![t], s.take(i + 1));
                        }
                    }
                    i = i + 1;
                },
                BrainFuckInstruction::Output => {
                    push_instruction(&mut current, DesugaredBrainFuckInstruction::Output);
                    proof {
                        lemma_reads_push(lv0, c0, DesugaredBrainFuckInstruction::Output, s, i as int);
                    }
                    proof {
                        if plain {
                            assert(s.take(i + 1) =~= s.take(i as int) + seq![t]);
                            assert(resugar_instruction(DesugaredBrainFuckInstruction::Output) =~= seq![t]);
                            lemma_tracks_push(lv0, c0, current@, s.take(i as int), seq![t], s.take(i + 1));
                        }
                    }
                    i = i + 1;
                },
                _ => {
                    let start = i;
                    i = self.run_end(start);
                    proof {
                        lemma_run(s, start as int, i as int);
                    }
                    let c = counted(t, i - start);
                    push_instruction(&mut current, c);
                    proof {
                        lemma_reads_run(lv0, c0, c, s, start as int, i as int);
                    }
                    proof {
                        if plain {
                            assert(resugar_instruction(c) =~= repeated(t, (i - start) as nat));
                            lemma_tracks_push(lv0, c0, current@, s.take(start as int), repeated(t, (i - start) as nat), s.take(i as int));
                        }
                    }
                },
            }
        }
        assert(s.take(n as int) =~= s);
        assert(!closes_unopened(s));
        if outer.len() != 0 {
            return Err(UnbalancedLoop::OpenWithoutClose);
        }
        assert(shapes(current@) == coalesced(s)) by {
            reveal(reads);
        }
        assert(plain ==> resugar_sequence(current@) == s) by {
            reveal(tracks);
            assert(levels_of(outer@) =~= Seq::<Seq<DesugaredBrainFuckInstruction>>::empty());
            assert(open_levels(levels_of(outer@)) + resugar_sequence(current@) =~= resugar_sequence(current@));
        }
        Ok(DesugaredBrainFuckProgram::from_instructions(current))
    }
}

} // verus!
