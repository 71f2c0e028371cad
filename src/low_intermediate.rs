use vstd::prelude::*;

use crate::interpreter::MEMORY_SIZE;
use crate::parser::{Parser, lemma_span_bounds, alnum_end, digit_end, ident_at, number_at, skip_ws, word_at};
use crate::desugared_brainfuck::{
    Coalesced, DesugaredBrainFuckInstruction, DesugaredBrainFuckProgram, lemma_shapes_push, shape, shapes,
};

verus! {

/// A cell index that names a variable or a temporary.
pub type Variable = usize;

/// A statement of the variable language, over resolved cell indices.
pub enum LowLevelIntermediateExpr {
    Const(Variable, u8),
    Copy { dest: Variable, src: Variable },
    AddAssign { dest: Variable, modifier: Variable },
    SubAssign { dest: Variable, modifier: Variable },
    Print(Variable),
    Input(Variable),
    WhileNotZero(Variable, Vec<LowLevelIntermediateExpr>),
}

/// Net movement of a sequence in cell indices (a left move raises the index),
/// loops not counted.
pub open spec fn displacement(s: Seq<Coalesced>) -> int
    decreases s.len(),
{
    if s.len() == 0 {
        0
    } else {
        displacement(s.drop_last()) + match s.last() {
            Coalesced::Left(k) => k as int,
            Coalesced::Right(k) => -(k as int),
            _ => 0,
        }
    }
}

/// Every loop in `s`, at any depth, leaves the pointer where it found it.
pub open spec fn loops_balanced(s: Seq<Coalesced>) -> bool
    decreases s,
{
    if s.len() == 0 {
        true
    } else {
        loops_balanced(s.drop_last()) && match s.last() {
            Coalesced::Loop(body) => displacement(body) == 0 && loops_balanced(body),
            _ => true,
        }
    }
}

proof fn lemma_concat(a: Seq<Coalesced>, b: Seq<Coalesced>)
    ensures
        displacement(a + b) == displacement(a) + displacement(b),
        loops_balanced(a + b) == (loops_balanced(a) && loops_balanced(b)),
    decreases b.len(),
{
    if b.len() == 0 {
        assert(a + b =~= a);
    } else {
        lemma_concat(a, b.drop_last());
        assert((a + b).drop_last() =~= a + b.drop_last());
    }
}

proof fn lemma_single(x: Coalesced)
    ensures
        displacement(seq![x]) == match x {
            Coalesced::Left(k) => k as int,
            Coalesced::Right(k) => -(k as int),
            _ => 0,
        },
        loops_balanced(seq![x]) == match x {
            Coalesced::Loop(body) => displacement(body) == 0 && loops_balanced(body),
            _ => true,
        },
{
    let e = Seq::<Coalesced>::empty();
    assert(seq![x].drop_last() =~= e);
    assert(seq![x].last() == x);
    assert(displacement(e) == 0);
    assert(loops_balanced(e));
    assert(displacement(seq![x]) == displacement(e) + match x {
        Coalesced::Left(k) => k as int,
        Coalesced::Right(k) => -(k as int),
        _ => 0,
    });
}

/// The move from cell `from` to cell `to`: higher cell indices lie to the left.
pub open spec fn move_op(from: int, to: int) -> Coalesced {
    if to > from {
        Coalesced::Left((to - from) as nat)
    } else {
        Coalesced::Right((from - to) as nat)
    }
}

/// The moves from `from` to `to`: none when they are the same cell.
pub open spec fn moves(from: int, to: int) -> Seq<Coalesced> {
    if from == to {
        seq![]
    } else {
        seq![move_op(from, to)]
    }
}

proof fn lemma_moves(from: int, to: int)
    ensures
        displacement(moves(from, to)) == to - from,
        loops_balanced(moves(from, to)),
{
    let e = Seq::<Coalesced>::empty();
    assert(displacement(e) == 0);
    assert(loops_balanced(e));
    lemma_single(move_op(from, to));
    if to > from {
        assert(move_op(from, to) == Coalesced::Left((to - from) as nat));
        assert(displacement(seq![move_op(from, to)]) == to - from);
    } else if to < from {
        assert(move_op(from, to) == Coalesced::Right((from - to) as nat));
        assert(displacement(seq![move_op(from, to)]) == to - from);
    }
}

/// Drains `from` into `a` (by `op`) and `t` (by one), with the pointer on `from`
/// before and after each pass.
pub open spec fn drain_body(from: int, a: int, op: Coalesced, t: int) -> Seq<Coalesced> {
    moves(from, a) + seq![op] + moves(a, t) + seq![Coalesced::Add(1)] + moves(t, from) + seq![Coalesced::Sub(1)]
}

/// Drains the temporary `t` back into `from`.
pub open spec fn restore_body(t: int, from: int) -> Seq<Coalesced> {
    moves(t, from) + seq![Coalesced::Add(1)] + moves(from, t) + seq![Coalesced::Sub(1)]
}

/// The drain-and-restore idiom from pointer `p`: zero `t`, add `src` into `a` by
/// `op` while counting it in `t`, then give it back to `src` from `t`.
pub open spec fn drain_restore(p: int, a: int, op: Coalesced, src: int, t: int) -> Seq<Coalesced> {
    moves(p, t) + seq![Coalesced::Zero] + moves(t, src) + seq![Coalesced::Loop(drain_body(src, a, op, t))]
        + moves(src, t) + seq![Coalesced::Loop(restore_body(t, src))]
}

/// `dest = src` from pointer `p` with temporary `t`.
pub open spec fn copy_code(p: int, dest: int, src: int, t: int) -> Seq<Coalesced> {
    moves(p, t) + seq![Coalesced::Zero] + moves(t, dest) + seq![Coalesced::Zero] + moves(dest, src)
        + seq![Coalesced::Loop(drain_body(src, dest, Coalesced::Add(1), t))] + moves(src, t)
        + seq![Coalesced::Loop(restore_body(t, src))]
}

/// `dest += modifier` from pointer `p` with temporary `t`.
pub open spec fn add_code(p: int, dest: int, modifier: int, t: int) -> Seq<Coalesced> {
    drain_restore(p, dest, Coalesced::Add(1), modifier, t)
}

/// `dest -= modifier` from pointer `p` with temporary `t`.
pub open spec fn sub_code(p: int, dest: int, modifier: int, t: int) -> Seq<Coalesced> {
    drain_restore(p, dest, Coalesced::Sub(1), modifier, t)
}

/// Facts of `a + b` from those of `a` and of `b`.
proof fn lemma_join(a: Seq<Coalesced>, b: Seq<Coalesced>, da: int, db: int)
    requires
        displacement(a) == da,
        displacement(b) == db,
        loops_balanced(a),
        loops_balanced(b),
    ensures
        displacement(a + b) == da + db,
        loops_balanced(a + b),
{
    lemma_concat(a, b);
}

proof fn lemma_step_op(x: Coalesced)
    requires
        x == Coalesced::Add(1) || x == Coalesced::Sub(1) || x == Coalesced::Zero,
    ensures
        displacement(seq![x]) == 0,
        loops_balanced(seq![x]),
{
    lemma_single(x);
}

proof fn lemma_balanced_loop(body: Seq<Coalesced>)
    requires
        displacement(body) == 0,
        loops_balanced(body),
    ensures
        displacement(seq![Coalesced::Loop(body)]) == 0,
        loops_balanced(seq![Coalesced::Loop(body)]),
{
    lemma_single(Coalesced::Loop(body));
}

proof fn lemma_drain_body(from: int, a: int, op: Coalesced, t: int)
    requires
        op == Coalesced::Add(1) || op == Coalesced::Sub(1),
    ensures
        displacement(drain_body(from, a, op, t)) == 0,
        loops_balanced(drain_body(from, a, op, t)),
{
    lemma_moves(from, a);
    lemma_moves(a, t);
    lemma_moves(t, from);
    lemma_step_op(op);
    lemma_step_op(Coalesced::Add(1));
    lemma_step_op(Coalesced::Sub(1));
    let s1 = moves(from, a) + seq![op];
    lemma_join(moves(from, a), seq![op], a - from, 0);
    let s2 = s1 + moves(a, t);
    lemma_join(s1, moves(a, t), a - from, t - a);
    let s3 = s2 + seq![Coalesced::Add(1)];
    lemma_join(s2, seq![Coalesced::Add(1)], t - from, 0);
    let s4 = s3 + moves(t, from);
    lemma_join(s3, moves(t, from), t - from, from - t);
    lemma_join(s4, seq![Coalesced::Sub(1)], 0, 0);
}

proof fn lemma_restore_body(t: int, from: int)
    ensures
        displacement(restore_body(t, from)) == 0,
        loops_balanced(restore_body(t, from)),
{
    lemma_moves(t, from);
    lemma_moves(from, t);
    lemma_step_op(Coalesced::Add(1));
    lemma_step_op(Coalesced::Sub(1));
    let s1 = moves(t, from) + seq![Coalesced::Add(1)];
    lemma_join(moves(t, from), seq![Coalesced::Add(1)], from - t, 0);
    let s2 = s1 + moves(from, t);
    lemma_join(s1, moves(from, t), from - t, t - from);
    lemma_join(s2, seq![Coalesced::Sub(1)], 0, 0);
}

proof fn lemma_idioms(p: int, dest: int, src: int, t: int, op: Coalesced)
    requires
        op == Coalesced::Add(1) || op == Coalesced::Sub(1),
    ensures
        displacement(copy_code(p, dest, src, t)) == t - p,
        loops_balanced(copy_code(p, dest, src, t)),
        displacement(drain_restore(p, dest, op, src, t)) == t - p,
        loops_balanced(drain_restore(p, dest, op, src, t)),
{
    lemma_drain_body(src, dest, op, t);
    lemma_drain_body(src, dest, Coalesced::Add(1), t);
    lemma_restore_body(t, src);
    lemma_balanced_loop(drain_body(src, dest, op, t));
    lemma_balanced_loop(drain_body(src, dest, Coalesced::Add(1), t));
    lemma_balanced_loop(restore_body(t, src));
    lemma_step_op(Coalesced::Zero);
    lemma_moves(p, t);
    lemma_moves(t, dest);
    lemma_moves(dest, src);
    lemma_moves(src, t);
    lemma_moves(t, src);
    let z = seq![Coalesced::Zero];
    // copy
    let c1 = moves(p, t) + z;
    lemma_join(moves(p, t), z, t - p, 0);
    let c2 = c1 + moves(t, dest);
    lemma_join(c1, moves(t, dest), t - p, dest - t);
    let c3 = c2 + z;
    lemma_join(c2, z, dest - p, 0);
    let c4 = c3 + moves(dest, src);
    lemma_join(c3, moves(dest, src), dest - p, src - dest);
    let c5 = c4 + seq![Coalesced::Loop(drain_body(src, dest, Coalesced::Add(1), t))];
    lemma_join(c4, seq![Coalesced::Loop(drain_body(src, dest, Coalesced::Add(1), t))], src - p, 0);
    let c6 = c5 + moves(src, t);
    lemma_join(c5, moves(src, t), src - p, t - src);
    lemma_join(c6, seq![Coalesced::Loop(restore_body(t, src))], t - p, 0);
    // add / sub
    let d2 = c1 + moves(t, src);
    lemma_join(c1, moves(t, src), t - p, src - t);
    let d3 = d2 + seq![Coalesced::Loop(drain_body(src, dest, op, t))];
    lemma_join(d2, seq![Coalesced::Loop(drain_body(src, dest, op, t))], src - p, 0);
    let d4 = d3 + moves(src, t);
    lemma_join(d3, moves(src, t), src - p, t - src);
    lemma_join(d4, seq![Coalesced::Loop(restore_body(t, src))], t - p, 0);
}

/// What the cell allocator tracks.
pub struct Allocation {
    pub ptr: int,
    pub used: Set<Variable>,
    pub free: Seq<Variable>,
    pub next: int,
}

/// The compiler's pointer position and cell bookkeeping.
pub struct CompileState {
    data_ptr: usize,
    used: Vec<Variable>,
    free_temps: Vec<Variable>,
    smallest_unused: usize,
}

impl View for CompileState {
    type V = Allocation;

    closed spec fn view(&self) -> Allocation {
        Allocation {
            ptr: self.data_ptr as int,
            used: self.used@.to_set(),
            free: self.free_temps@,
            next: self.smallest_unused as int,
        }
    }
}

/// Appends one instruction.
fn emit(out: &mut Vec<DesugaredBrainFuckInstruction>, i: DesugaredBrainFuckInstruction)
    ensures
        final(out)@ == old(out)@.push(i),
        shapes(final(out)@) == shapes(old(out)@).push(shape(i)),
{
    proof {
        lemma_shapes_push(old(out)@, i);
    }
    out.push(i);
}

impl CompileState {
    /// Every used cell lies below the allocation counter, and every freed
    /// temporary was used.
    pub open spec fn wf(&self) -> bool {
        &&& forall|u: Variable| #[trigger] self@.used.contains(u) ==> u < self@.next
        &&& forall|k: int| 0 <= k < self@.free.len() ==> self@.used.contains(#[trigger] self@.free[k])
        &&& self@.free.no_duplicates()
    }

    /// Pointer on cell 0, nothing used, no temporaries.
    pub fn new() -> (r: Self)
        ensures
            r.wf(),
            r@.ptr == 0,
            r@.used.is_empty(),
            r@.free.len() == 0,
            r@.next == 0,
    {
        let r = CompileState { data_ptr: 0, used: Vec::new(), free_temps: Vec::new(), smallest_unused: 0 };
        assert(r@.used =~= Set::<Variable>::empty());
        r
    }

    /// The move from the current cell to `to`, which becomes the current cell.
    pub fn move_to(&mut self, to: Variable) -> (r: DesugaredBrainFuckInstruction)
        requires
            to != old(self)@.ptr,
        ensures
            shape(r) == move_op(old(self)@.ptr, to as int),
            final(self)@ == (Allocation { ptr: to as int, ..old(self)@ }),
    {
        if to > self.data_ptr {
            let lefts = to - self.data_ptr;
            self.data_ptr = to;
            DesugaredBrainFuckInstruction::Left(lefts)
        } else {
            let rights = self.data_ptr - to;
            self.data_ptr = to;
            DesugaredBrainFuckInstruction::Right(rights)
        }
    }

    /// Appends the move to `to`, if the pointer is not there already.
    fn emit_move(&mut self, to: Variable, out: &mut Vec<DesugaredBrainFuckInstruction>)
        ensures
            shapes(final(out)@) == shapes(old(out)@) + moves(old(self)@.ptr, to as int),
            final(self)@ == (Allocation { ptr: to as int, ..old(self)@ }),
    {
        if to != self.data_ptr {
            let m = self.move_to(to);
            emit(out, m);
        } else {
            assert(shapes(old(out)@) + moves(old(self)@.ptr, to as int) =~= shapes(old(out)@));
        }
    }

    /// Records `variable` as occupied.
    pub fn mark_used(&mut self, variable: Variable)
        requires
            old(self).wf(),
            variable < usize::MAX,
        ensures
            final(self).wf(),
            final(self)@ == (Allocation {
                used: old(self)@.used.insert(variable),
                next: if variable >= old(self)@.next { variable + 1 } else { old(self)@.next },
                ..old(self)@
            }),
    {
        if variable >= self.smallest_unused {
            self.smallest_unused = variable + 1;
        }
        self.used.push(variable);
        proof {
            assert(self.used@.to_set() =~= old(self).used@.to_set().insert(variable)) by {
                assert forall|u: Variable| self.used@.contains(u) <==> (old(self).used@.contains(u) || u == variable) by {
                    if self.used@.contains(u) {
                        let k = choose|k: int| 0 <= k < self.used@.len() && self.used@[k] == u;
                        if k < old(self).used@.len() {
                            assert(old(self).used@[k] == u);
                        }
                    }
                    if old(self).used@.contains(u) {
                        let k = choose|k: int| 0 <= k < old(self).used@.len() && old(self).used@[k] == u;
                        assert(self.used@[k] == u);
                    }
                    if u == variable {
                        assert(self.used@[self.used@.len() - 1] == u);
                    }
                }
            }
            assert forall|u: Variable| #[trigger] self@.used.contains(u) implies u < self@.next by {
                if u != variable {
                    assert(old(self)@.used.contains(u));
                }
            }
            assert forall|k: int| 0 <= k < self@.free.len() implies self@.used.contains(#[trigger] self@.free[k]) by {
                assert(old(self)@.used.contains(old(self)@.free[k]));
            }
        }
    }

    /// Whether `variable` is occupied.
    pub fn used(&self, variable: &Variable) -> (r: bool)
        ensures
            r == self@.used.contains(*variable),
    {
        let mut k: usize = 0;
        while k < self.used.len()
            invariant
                k <= self.used@.len(),
                forall|j: int| 0 <= j < k ==> self.used@[j] != *variable,
            decreases self.used.len() - k,
        {
            if self.used[k] == *variable {
                return true;
            }
            k = k + 1;
        }
        false
    }

    /// A freed temporary if there is one (the last one freed), else the
    /// counter's cell, which no one has used, now marked used.
    pub fn allocate_temp(&mut self) -> (r: Variable)
        requires
            old(self).wf(),
            old(self)@.next < usize::MAX,
        ensures
            final(self).wf(),
            !final(self)@.free.contains(r),
            old(self)@.free.len() > 0 ==> r == old(self)@.free.last() && final(self)@ == (Allocation {
                free: old(self)@.free.drop_last(),
                ..old(self)@
            }),
            old(self)@.free.len() == 0 ==> r == old(self)@.next && !old(self)@.used.contains(r)
                && final(self)@ == (Allocation {
                used: old(self)@.used.insert(r),
                next: old(self)@.next + 1,
                ..old(self)@
            }),
    {
        if let Some(i) = self.free_temps.pop() {
            proof {
                let f = old(self)@.free;
                assert(f.drop_last().push(i) == f) by {
                    assert(f.drop_last().push(i) =~= f);
                }
                assert forall|k: int| 0 <= k < self@.free.len() implies self@.free[k] != i by {
                    assert(f[k] != f[f.len() - 1]);
                }
            }
            return i;
        }
        let smallest_unused = self.smallest_unused;
        self.mark_used(smallest_unused);
        smallest_unused
    }

    /// Returns `var` to the pool of temporaries.
    pub fn free_temp(&mut self, var: Variable)
        requires
            old(self).wf(),
            old(self)@.used.contains(var),
            !old(self)@.free.contains(var),
        ensures
            final(self).wf(),
            final(self)@ == (Allocation { free: old(self)@.free.push(var), ..old(self)@ }),
    {
        self.free_temps.push(var);
        proof {
            assert forall|i: int, j: int| 0 <= i < j < self@.free.len() implies self@.free[i] != self@.free[j] by {
                if j == self@.free.len() - 1 {
                    assert(old(self)@.free[i] == self@.free[i]);
                }
            }
        }
    }

    /// The loop that drains `from` into `a` (by `op`) and `t`.
    fn drain_loop(&mut self, from: Variable, a: Variable, op: DesugaredBrainFuckInstruction, t: Variable) -> (r:
        DesugaredBrainFuckInstruction)
        requires
            old(self)@.ptr == from,
        ensures
            shape(r) == Coalesced::Loop(drain_body(from as int, a as int, shape(op), t as int)),
            final(self)@ == old(self)@,
    {
        let mut body: Vec<DesugaredBrainFuckInstruction> = Vec::new();
        self.emit_move(a, &mut body);
        emit(&mut body, op);
        self.emit_move(t, &mut body);
        emit(&mut body, DesugaredBrainFuckInstruction::Add(1));
        self.emit_move(from, &mut body);
        emit(&mut body, DesugaredBrainFuckInstruction::Sub(1));
        assert(shapes(body@) =~= drain_body(from as int, a as int, shape(op), t as int));
        self.create_loop(from, body)
    }

    /// The loop that drains the temporary `t` back into `from`.
    fn restore_loop(&mut self, t: Variable, from: Variable) -> (r: DesugaredBrainFuckInstruction)
        requires
            old(self)@.ptr == t,
        ensures
            shape(r) == Coalesced::Loop(restore_body(t as int, from as int)),
            final(self)@ == old(self)@,
    {
        let mut back: Vec<DesugaredBrainFuckInstruction> = Vec::new();
        self.emit_move(from, &mut back);
        emit(&mut back, DesugaredBrainFuckInstruction::Add(1));
        self.emit_move(t, &mut back);
        emit(&mut back, DesugaredBrainFuckInstruction::Sub(1));
        assert(shapes(back@) =~= restore_body(t as int, from as int));
        self.create_loop(t, back)
    }

    /// Wraps `body` in a loop. The body must bring the pointer back to where
    /// the loop started, `entry`.
    pub fn create_loop(&self, entry: Variable, body: Vec<DesugaredBrainFuckInstruction>) -> (r:
        DesugaredBrainFuckInstruction)
        requires
            self@.ptr == entry,
        ensures
            r == DesugaredBrainFuckInstruction::Loop(body),
            shape(r) == Coalesced::Loop(shapes(body@)),
    {
        DesugaredBrainFuckInstruction::Loop(body)
    }
}

/// Every cell the statement names lies below `bound`, and the cells that
/// it writes a constant to or reads and changes arithmetically are in `used`.
pub open spec fn statement_ok(e: LowLevelIntermediateExpr, used: Set<Variable>, bound: int) -> bool
    decreases e,
{
    match e {
        LowLevelIntermediateExpr::Const(v, _) => used.contains(v) && v < bound,
        LowLevelIntermediateExpr::Copy { dest, src } => used.contains(dest) && used.contains(src) && dest
            < bound && src < bound,
        LowLevelIntermediateExpr::AddAssign { dest, modifier } => used.contains(dest) && used.contains(
            modifier,
        ) && dest < bound && modifier < bound,
        LowLevelIntermediateExpr::SubAssign { dest, modifier } => used.contains(dest) && used.contains(
            modifier,
        ) && dest < bound && modifier < bound,
        LowLevelIntermediateExpr::Print(v) => v < bound,
        LowLevelIntermediateExpr::Input(v) => v < bound,
        LowLevelIntermediateExpr::WhileNotZero(v, body) => v < bound && statements_ok(body@, used, bound),
    }
}

/// `statement_ok` of every statement, at every depth.
pub open spec fn statements_ok(s: Seq<LowLevelIntermediateExpr>, used: Set<Variable>, bound: int) -> bool
    decreases s,
{
    if s.len() == 0 {
        true
    } else {
        statements_ok(s.drop_last(), used, bound) && statement_ok(s.last(), used, bound)
    }
}

/// The cells that the pre-pass marks: targets of constants and of input, and
/// loop conditions, at every depth.
pub open spec fn declared_in(e: LowLevelIntermediateExpr) -> Set<Variable>
    decreases e,
{
    match e {
        LowLevelIntermediateExpr::Const(v, _) => set![v],
        LowLevelIntermediateExpr::Input(v) => set![v],
        LowLevelIntermediateExpr::WhileNotZero(v, body) => set![v].union(declared(body@)),
        _ => Set::empty(),
    }
}

/// `declared_in` of every statement.
pub open spec fn declared(s: Seq<LowLevelIntermediateExpr>) -> Set<Variable>
    decreases s,
{
    if s.len() == 0 {
        Set::empty()
    } else {
        declared(s.drop_last()).union(declared_in(s.last()))
    }
}

proof fn lemma_statements_ok(s: Seq<LowLevelIntermediateExpr>, used: Set<Variable>, bound: int)
    ensures
        statements_ok(s, used, bound) <==> forall|k: int| 0 <= k < s.len() ==> statement_ok(#[trigger] s[k], used, bound),
    decreases s.len(),
{
    if s.len() > 0 {
        lemma_statements_ok(s.drop_last(), used, bound);
        assert forall|k: int| 0 <= k < s.len() - 1 implies s.drop_last()[k] == #[trigger] s[k] by {}
    }
}

/// Every cell the program names lies below `MEMORY_SIZE - 1`, and each cell
/// that gets a constant or takes part in a copy or an arithmetic statement is
/// marked by the pre-pass.
pub open spec fn compilable(s: Seq<LowLevelIntermediateExpr>) -> bool {
    statements_ok(s, declared(s), (MEMORY_SIZE - 1) as int)
}

/// A program of the variable language.
pub struct LowLevelIntermediateProgram {
    program: Vec<LowLevelIntermediateExpr>,
}

impl View for LowLevelIntermediateProgram {
    type V = Seq<LowLevelIntermediateExpr>;

    closed spec fn view(&self) -> Seq<LowLevelIntermediateExpr> {
        self.program@
    }
}

/// The temporary that `allocate_temp` hands out next.
pub open spec fn temp_of(a: Allocation) -> int {
    if a.free.len() > 0 {
        a.free.last() as int
    } else {
        a.next
    }
}

/// The allocation after taking the temporary `t` and giving it back, with
/// the pointer left on it.
pub open spec fn after_temp(a: Allocation, t: int) -> Allocation {
    if a.free.len() > 0 {
        Allocation { ptr: t, ..a }
    } else {
        Allocation { ptr: t, used: a.used.insert(t as Variable), free: a.free.push(t as Variable), next: a.next + 1 }
    }
}

/// The allocation counter after the pre-pass marks the cells of `e`, from `n`.
pub open spec fn next_after_statement(e: LowLevelIntermediateExpr, n: int) -> int
    decreases e,
{
    match e {
        LowLevelIntermediateExpr::Const(v, _) => if v >= n { v + 1 } else { n },
        LowLevelIntermediateExpr::Input(v) => if v >= n { v + 1 } else { n },
        LowLevelIntermediateExpr::WhileNotZero(v, body) => next_after(body@, if v >= n { v + 1 } else { n }),
        _ => n,
    }
}

/// The allocation counter after the pre-pass over `s`, from `n`.
pub open spec fn next_after(s: Seq<LowLevelIntermediateExpr>, n: int) -> int
    decreases s,
{
    if s.len() == 0 {
        n
    } else {
        next_after_statement(s.last(), next_after(s.drop_last(), n))
    }
}

/// The code for statement `e` from allocation `a`, and the allocation after it.
pub open spec fn lower_statement(e: LowLevelIntermediateExpr, a: Allocation) -> (Seq<Coalesced>, Allocation)
    decreases e,
{
    match e {
        LowLevelIntermediateExpr::Const(v, c) => (
            moves(a.ptr, v as int) + seq![Coalesced::SetTo(c)],
            Allocation { ptr: v as int, ..a },
        ),
        LowLevelIntermediateExpr::Print(v) => (
            moves(a.ptr, v as int) + seq![Coalesced::Output],
            Allocation { ptr: v as int, ..a },
        ),
        LowLevelIntermediateExpr::Input(v) => (
            moves(a.ptr, v as int) + seq![Coalesced::Input],
            Allocation { ptr: v as int, ..a },
        ),
        LowLevelIntermediateExpr::Copy { dest, src } => (
            copy_code(a.ptr, dest as int, src as int, temp_of(a)),
            after_temp(a, temp_of(a)),
        ),
        LowLevelIntermediateExpr::AddAssign { dest, modifier } => (
            add_code(a.ptr, dest as int, modifier as int, temp_of(a)),
            after_temp(a, temp_of(a)),
        ),
        LowLevelIntermediateExpr::SubAssign { dest, modifier } => (
            sub_code(a.ptr, dest as int, modifier as int, temp_of(a)),
            after_temp(a, temp_of(a)),
        ),
        LowLevelIntermediateExpr::WhileNotZero(v, body) => {
            let inner = lower_sequence(body@, Allocation { ptr: v as int, ..a });
            (
                moves(a.ptr, v as int) + seq![Coalesced::Loop(inner.0 + moves(inner.1.ptr, v as int))],
                Allocation { ptr: v as int, ..inner.1 },
            )
        },
    }
}

/// The code for statements `s` in order from allocation `a`, and the
/// allocation after them.
pub open spec fn lower_sequence(s: Seq<LowLevelIntermediateExpr>, a: Allocation) -> (Seq<Coalesced>, Allocation)
    decreases s,
{
    if s.len() == 0 {
        (seq![], a)
    } else {
        let before = lower_sequence(s.drop_last(), a);
        let last = lower_statement(s.last(), before.1);
        (before.0 + last.0, last.1)
    }
}

/// The allocation that code generation starts from: pointer on cell 0, the
/// pre-pass's cells used, no temporaries.
pub open spec fn start_allocation(s: Seq<LowLevelIntermediateExpr>) -> Allocation {
    Allocation { ptr: 0, used: declared(s), free: seq![], next: next_after(s, 0) }
}

/// Allocation state at a statement boundary: `bound` past every variable, and
/// at most one temporary ever taken from the counter, now back in the pool.
pub open spec fn at_boundary(a: Allocation, bound: int) -> bool {
    &&& a.next == bound || (a.free.len() > 0 && a.next == bound + 1)
    &&& forall|k: int| 0 <= k < a.free.len() ==> a.free[k] >= bound
}

/// At a statement boundary, the temporary that code generation takes next
/// lies at or past `bound`, so it is none of the cells below it.
pub proof fn lemma_temporary_is_fresh(a: Allocation, bound: int, names: Set<Variable>)
    requires
        at_boundary(a, bound),
        0 <= bound < MEMORY_SIZE,
        forall|u: Variable| #[trigger] names.contains(u) ==> u < bound,
    ensures
        temp_of(a) >= bound,
        !names.contains(temp_of(a) as Variable),
{
    let t = temp_of(a);
    assert(0 <= t <= usize::MAX);
    assert((t as Variable) as int == t);
}

impl LowLevelIntermediateProgram {
    /// The program of the given statements.
    pub fn from_statements(program: Vec<LowLevelIntermediateExpr>) -> (r: Self)
        ensures
            r@ == program@,
    {
        LowLevelIntermediateProgram { program }
    }

    /// `dest = src` by the drain-and-restore idiom.
    #[verifier::rlimit(40)]
    fn compile_copy(
        state: &mut CompileState,
        dest: Variable,
        src: Variable,
        out: &mut Vec<DesugaredBrainFuckInstruction>,
    )
        requires
            old(state).wf(),
            old(state)@.next < usize::MAX,
        ensures
            final(state).wf(),
            ({
                let t = temp_of(old(state)@);
                &&& final(state)@ == after_temp(old(state)@, t)
                &&& shapes(final(out)@) == shapes(old(out)@) + copy_code(old(state)@.ptr, dest as int, src as int, t)
            }),
    {
        let ghost p = state@.ptr;
        let ghost out0 = shapes(out@);
        let ghost a0 = state@;
        let temp0 = state.allocate_temp();
        let ghost t = temp0 as int;
        let ghost z = seq![Coalesced::Zero];
        state.emit_move(temp0, out);
        emit(out, DesugaredBrainFuckInstruction::Zero);
        let ghost c1 = moves(p, t) + z;
        assert(shapes(out@) =~= out0 + c1);
        state.emit_move(dest, out);
        emit(out, DesugaredBrainFuckInstruction::Zero);
        let ghost c3 = c1 + moves(t, dest as int) + z;
        assert(shapes(out@) =~= out0 + c3);
        state.emit_move(src, out);
        let l = state.drain_loop(src, dest, DesugaredBrainFuckInstruction::Add(1), temp0);
        emit(out, l);
        let ghost c5 = c3 + moves(dest as int, src as int) + seq![shape(l)];
        assert(shapes(out@) =~= out0 + c5);
        state.emit_move(temp0, out);
        let l2 = state.restore_loop(temp0, src);
        emit(out, l2);
        let ghost c7 = c5 + moves(src as int, t) + seq![shape(l2)];
        assert(shapes(out@) =~= out0 + c7);
        assert(c7 =~= copy_code(p, dest as int, src as int, t));
        state.free_temp(temp0);
        proof {
            if a0.free.len() > 0 {
                assert(a0.free.drop_last().push(temp0) =~= a0.free);
            }
            assert(state@ =~= after_temp(a0, t));
        }
    }

    /// `dest += modifier` (`op` an increment) or `dest -= modifier` (`op` a
    /// decrement) by the drain-and-restore idiom.
    #[verifier::rlimit(40)]
    fn compile_arith(
        state: &mut CompileState,
        dest: Variable,
        modifier: Variable,
        op: DesugaredBrainFuckInstruction,
        out: &mut Vec<DesugaredBrainFuckInstruction>,
    )
        requires
            old(state).wf(),
            old(state)@.next < usize::MAX,
        ensures
            final(state).wf(),
            ({
                let t = temp_of(old(state)@);
                &&& final(state)@ == after_temp(old(state)@, t)
                &&& shapes(final(out)@) == shapes(old(out)@) + drain_restore(
                    old(state)@.ptr,
                    dest as int,
                    shape(op),
                    modifier as int,
                    t,
                )
            }),
    {
        let ghost p = state@.ptr;
        let ghost out0 = shapes(out@);
        let ghost a0 = state@;
        let temp0 = state.allocate_temp();
        let ghost t = temp0 as int;
        let ghost z = seq![Coalesced::Zero];
        state.emit_move(temp0, out);
        emit(out, DesugaredBrainFuckInstruction::Zero);
        let ghost c1 = moves(p, t) + z;
        assert(shapes(out@) =~= out0 + c1);
        state.emit_move(modifier, out);
        let l = state.drain_loop(modifier, dest, op, temp0);
        emit(out, l);
        let ghost c3 = c1 + moves(t, modifier as int) + seq![shape(l)];
        assert(shapes(out@) =~= out0 + c3);
        state.emit_move(temp0, out);
        let l2 = state.restore_loop(temp0, modifier);
        emit(out, l2);
        let ghost c5 = c3 + moves(modifier as int, t) + seq![shape(l2)];
        assert(shapes(out@) =~= out0 + c5);
        assert(c5 =~= drain_restore(p, dest as int, shape(op), modifier as int, t));
        state.free_temp(temp0);
        proof {
            if a0.free.len() > 0 {
                assert(a0.free.drop_last().push(temp0) =~= a0.free);
            }
            assert(state@ =~= after_temp(a0, t));
        }
    }

    /// Marks, in a fixed order, every cell that is a constant's target, an
    /// input's target or a loop's condition, loop bodies before what follows.
    fn allocate_variables(
        program: &Vec<LowLevelIntermediateExpr>,
        state: &mut CompileState,
        Ghost(names): Ghost<Set<Variable>>,
        Ghost(bound): Ghost<int>,
    )
        requires
            old(state).wf(),
            old(state)@.next <= bound <= MEMORY_SIZE,
            statements_ok(program@, names, bound),
        ensures
            final(state).wf(),
            final(state)@.used == old(state)@.used.union(declared(program@)),
            final(state)@.ptr == old(state)@.ptr,
            final(state)@.free == old(state)@.free,
            old(state)@.next <= final(state)@.next <= bound,
            final(state)@.next == next_after(program@, old(state)@.next),
        decreases program,
    {
        proof {
            lemma_statements_ok(program@, names, bound);
        }
        let ghost used0 = state@.used;
        let mut k: usize = 0;
        assert(program@.take(0) =~= Seq::<LowLevelIntermediateExpr>::empty());
        assert(declared(program@.take(0)) =~= Set::<Variable>::empty());
        assert(next_after(program@.take(0), old(state)@.next) == old(state)@.next);
        assert(used0.union(Set::<Variable>::empty()) =~= used0);
        while k < program.len()
            invariant
                state.wf(),
                k <= program@.len(),
                state@.used == used0.union(declared(program@.take(k as int))),
                state@.ptr == old(state)@.ptr,
                state@.free == old(state)@.free,
                old(state)@.next <= state@.next <= bound,
                state@.next == next_after(program@.take(k as int), old(state)@.next),
                bound <= MEMORY_SIZE,
                used0 == old(state)@.used,
                forall|j: int| 0 <= j < program@.len() ==> statement_ok(#[trigger] program@[j], names, bound),
                forall|j: int| 0 <= j < program@.len() ==> decreases_to!(*program => #[trigger] program@[j]),
            decreases program.len() - k,
        {
            let ghost before = state@.used;
            let ghost nb = state@.next;
            proof {
                assert(program@.take(k + 1).drop_last() =~= program@.take(k as int));
                assert(program@.take(k + 1).last() == program@[k as int]);
            }
            match &program[k] {
                LowLevelIntermediateExpr::Const(v, _) => {
                    state.mark_used(*v);
                },
                LowLevelIntermediateExpr::Input(v) => {
                    state.mark_used(*v);
                },
                LowLevelIntermediateExpr::WhileNotZero(v, body) => {
                    proof {
                        assert(decreases_to!(program@[k as int] => *body));
                    }
                    state.mark_used(*v);
                    Self::allocate_variables(body, state, Ghost(names), Ghost(bound));
                },
                _ => {},
            }
            proof {
                assert(state@.used =~= before.union(declared_in(program@[k as int])));
                assert(state@.used =~= used0.union(declared(program@.take(k + 1))));
                assert(state@.next == next_after_statement(program@[k as int], nb));
            }
            k = k + 1;
        }
        assert(program@.take(k as int) =~= program@);
    }

    /// Lowers statements in order. Every loop emitted brings the pointer back
    /// to where it started, and the emitted moves add up to the pointer change.
    fn compile_iter(
        program: &Vec<LowLevelIntermediateExpr>,
        state: &mut CompileState,
        Ghost(names): Ghost<Set<Variable>>,
        Ghost(bound): Ghost<int>,
    ) -> (r: Vec<DesugaredBrainFuckInstruction>)
        requires
            old(state).wf(),
            at_boundary(old(state)@, bound),
            bound < MEMORY_SIZE,
            names.subset_of(old(state)@.used),
            statements_ok(program@, names, (MEMORY_SIZE - 1) as int),
        ensures
            final(state).wf(),
            at_boundary(final(state)@, bound),
            names.subset_of(final(state)@.used),
            loops_balanced(shapes(r@)),
            displacement(shapes(r@)) == final(state)@.ptr - old(state)@.ptr,
            (shapes(r@), final(state)@) == lower_sequence(program@, old(state)@),
        decreases program,
    {
        proof {
            lemma_statements_ok(program@, names, (MEMORY_SIZE - 1) as int);
        }
        let mut res: Vec<DesugaredBrainFuckInstruction> = Vec::new();
        let mut k: usize = 0;
        assert(program@.take(0) =~= Seq::<LowLevelIntermediateExpr>::empty());
        assert(shapes(res@) =~= Seq::<Coalesced>::empty());
        while k < program.len()
            invariant
                state.wf(),
                k <= program@.len(),
                at_boundary(state@, bound),
                bound < MEMORY_SIZE,
                names.subset_of(state@.used),
                loops_balanced(shapes(res@)),
                displacement(shapes(res@)) == state@.ptr - old(state)@.ptr,
                (shapes(res@), state@) == lower_sequence(program@.take(k as int), old(state)@),
                forall|j: int| 0 <= j < program@.len() ==> statement_ok(#[trigger] program@[j], names, (MEMORY_SIZE - 1) as int),
                forall|j: int| 0 <= j < program@.len() ==> decreases_to!(*program => #[trigger] program@[j]),
            decreases program.len() - k,
        {
            let ghost p = state@.ptr;
            let ghost before = shapes(res@);
            let ghost code: Seq<Coalesced>;
            let ghost a0 = state@;
            match &program[k] {
                LowLevelIntermediateExpr::Const(var, val) => {
                    state.emit_move(*var, &mut res);
                    emit(&mut res, DesugaredBrainFuckInstruction::SetTo(*val));
                    proof {
                        code = moves(p, *var as int) + seq![Coalesced::SetTo(*val)];
                        lemma_moves(p, *var as int);
                        lemma_single(Coalesced::SetTo(*val));
                        lemma_join(moves(p, *var as int), seq![Coalesced::SetTo(*val)], *var - p, 0);
                    }
                },
                LowLevelIntermediateExpr::Print(var) => {
                    state.emit_move(*var, &mut res);
                    emit(&mut res, DesugaredBrainFuckInstruction::Output);
                    proof {
                        code = moves(p, *var as int) + seq![Coalesced::Output];
                        lemma_moves(p, *var as int);
                        lemma_single(Coalesced::Output);
                        lemma_join(moves(p, *var as int), seq![Coalesced::Output], *var - p, 0);
                    }
                },
                LowLevelIntermediateExpr::Input(var) => {
                    state.emit_move(*var, &mut res);
                    emit(&mut res, DesugaredBrainFuckInstruction::Input);
                    proof {
                        code = moves(p, *var as int) + seq![Coalesced::Input];
                        lemma_moves(p, *var as int);
                        lemma_single(Coalesced::Input);
                        lemma_join(moves(p, *var as int), seq![Coalesced::Input], *var - p, 0);
                    }
                },
                LowLevelIntermediateExpr::Copy { dest, src } => {
                    Self::compile_copy(state, *dest, *src, &mut res);
                    proof {
                        code = copy_code(p, *dest as int, *src as int, temp_of(a0));
                        lemma_idioms(p, *dest as int, *src as int, temp_of(a0), Coalesced::Add(1));
                    }
                },
                LowLevelIntermediateExpr::AddAssign { dest, modifier } => {
                    Self::compile_arith(state, *dest, *modifier, DesugaredBrainFuckInstruction::Add(1), &mut res);
                    proof {
                        code = drain_restore(p, *dest as int, Coalesced::Add(1), *modifier as int, temp_of(a0));
                        lemma_idioms(p, *dest as int, *modifier as int, temp_of(a0), Coalesced::Add(1));
                    }
                },
                LowLevelIntermediateExpr::SubAssign { dest, modifier } => {
                    Self::compile_arith(state, *dest, *modifier, DesugaredBrainFuckInstruction::Sub(1), &mut res);
                    proof {
                        code = drain_restore(p, *dest as int, Coalesced::Sub(1), *modifier as int, temp_of(a0));
                        lemma_idioms(p, *dest as int, *modifier as int, temp_of(a0), Coalesced::Sub(1));
                    }
                },
                LowLevelIntermediateExpr::WhileNotZero(var, body) => {
                    state.emit_move(*var, &mut res);
                    proof {
                        assert(decreases_to!(program@[k as int] => *body));
                    }
                    let mut inner = Self::compile_iter(body, state, Ghost(names), Ghost(bound));
                    let ghost inner0 = shapes(inner@);
                    let ghost q = state@.ptr;
                    state.emit_move(*var, &mut inner);
                    proof {
                        lemma_moves(q, *var as int);
                        lemma_join(inner0, moves(q, *var as int), q - *var, *var - q);
                    }
                    let l = state.create_loop(*var, inner);
                    emit(&mut res, l);
                    proof {
                        code = moves(p, *var as int) + seq![shape(l)];
                        lemma_moves(p, *var as int);
                        lemma_single(shape(l));
                        lemma_join(moves(p, *var as int), seq![shape(l)], *var - p, 0);
                    }
                },
            }
            proof {
                assert(shapes(res@) =~= before + code);
                lemma_join(before, code, p - old(state)@.ptr, state@.ptr - p);
                assert(program@.take(k + 1).drop_last() =~= program@.take(k as int));
                assert(program@.take(k + 1).last() == program@[k as int]);
                assert(lower_statement(program@[k as int], a0) == (code, state@));
            }
            k = k + 1;
        }
        assert(program@.take(k as int) =~= program@);
        res
    }

    /// Compiles the program: a pre-pass fixes the variables' cells, then each
    /// statement is lowered in order from cell 0.
    pub fn compile(&self) -> (r: DesugaredBrainFuckProgram)
        requires
            compilable(self@),
        ensures
            loops_balanced(shapes(r@)),
            shapes(r@) == lower_sequence(self@, start_allocation(self@)).0,
    {
        let mut state = CompileState::new();
        let ghost names = declared(self@);
        Self::allocate_variables(&self.program, &mut state, Ghost(names), Ghost((MEMORY_SIZE - 1) as int));
        assert(state@.used =~= names);
        assert(state@.free =~= Seq::<Variable>::empty());
        assert(state@ == start_allocation(self@));
        let ghost bound = state@.next;
        let r = Self::compile_iter(&self.program, &mut state, Ghost(names), Ghost(bound));
        DesugaredBrainFuckProgram::from_instructions(r)
    }

    /// Whether `compile` may be called on this program.
    pub fn is_compilable(&self) -> (r: bool)
        ensures
            r == compilable(self@),
    {
        let mut marks: Vec<bool> = Vec::new();
        let mut k: usize = 0;
        while k < MEMORY_SIZE - 1
            invariant
                k <= MEMORY_SIZE - 1,
                marks@.len() == k,
                forall|v: int| 0 <= v < k ==> !#[trigger] marks@[v],
            decreases MEMORY_SIZE - 1 - k,
        {
            marks.push(false);
            k = k + 1;
        }
        mark_declared(&self.program, &mut marks);
        check_statements(&self.program, &marks, Ghost(declared(self@)))
    }

    /// One statement, with the whitespace after it. Names become cells
    /// through `alloc`. `None` on a syntax error.
    pub fn parse_expr(s: &mut Parser, alloc: &mut VariableAllocator) -> (r: Option<LowLevelIntermediateExpr>)
        requires
            old(s).wf(),
            old(alloc).wf(),
        ensures
            final(s).wf(),
            final(alloc).wf(),
            final(s)@.text == old(s)@.text,
            old(s)@.pos <= final(s)@.pos,
            r is Some <==> parse_statement(old(s)@.text, old(s)@.pos, old(alloc)@) is Some,
            r matches Some(e) ==> parse_statement(old(s)@.text, old(s)@.pos, old(alloc)@) == Some(
                (statement_of(e), final(s)@.pos, final(alloc)@),
            ),
            r is Some ==> final(s)@.pos > old(s)@.pos,
        decreases old(s)@.text.len() - old(s)@.pos,
    {
        let ghost t = s@.text;
        let ghost p = s@.pos;
        let ghost names = alloc@;
        let kw_print: &[char] = &['p', 'r', 'i', 'n', 't'];
        let kw_input: &[char] = &['i', 'n', 'p', 'u', 't'];
        let kw_while: &[char] = &['w', 'h', 'i', 'l', 'e'];
        let kw_ne: &[char] = &['!', '='];
        let kw_add: &[char] = &['+', '='];
        let kw_sub: &[char] = &['-', '='];
        assert(kw_print@ =~= seq!['p', 'r', 'i', 'n', 't']);
        assert(kw_input@ =~= seq!['i', 'n', 'p', 'u', 't']);
        assert(kw_while@ =~= seq!['w', 'h', 'i', 'l', 'e']);
        assert(kw_ne@ =~= seq!['!', '=']);
        assert(kw_add@ =~= seq!['+', '=']);
        assert(kw_sub@ =~= seq!['-', '=']);
        proof {
            lemma_char_word(t, ';');
            lemma_char_word(t, '=');
            lemma_char_word(t, '0');
            lemma_char_word(t, '{');
        }
        let printing = s.accept_str(kw_print).is_some();
        let reading = if printing { false } else { s.accept_str(kw_input).is_some() };
        if printing || reading {
            s.whitespace();
            let name = s.parse_ident()?;
            s.whitespace();
            s.accept(';')?;
            s.whitespace();
            let var = alloc.variable(name);
            if printing {
                return Some(LowLevelIntermediateExpr::Print(var));
            } else {
                return Some(LowLevelIntermediateExpr::Input(var));
            }
        }
        if s.accept_str(kw_while).is_some() {
            s.whitespace();
            let name = s.parse_ident()?;
            s.whitespace();
            s.accept_str(kw_ne)?;
            s.whitespace();
            s.accept('0')?;
            s.whitespace();
            s.accept('{')?;
            s.whitespace();
            let ghost p5 = s@.pos;
            proof {
                lemma_span_bounds(t, p + 5, |c: char| crate::parser::whitespace_char(c));
            }
            let mut res: Vec<LowLevelIntermediateExpr> = Vec::new();
            proof {
                if let Some(y) = parse_block(t, p5, names) {
                    assert(Seq::<Statement>::empty() + y.0 =~= y.0);
                }
                assert(statements_of(res@) =~= Seq::<Statement>::empty());
            }
            loop
                invariant_except_break
                    parse_block(t, p5, names) == prefix_block(statements_of(res@), parse_block(t, s@.pos, alloc@)),
                invariant
                    s.wf(),
                    alloc.wf(),
                    s@.text == t,
                    t == old(s)@.text,
                    p == old(s)@.pos,
                    names == old(alloc)@,
                    p < p5 <= s@.pos,
                    parse_statement(t, p, names) == (match parse_block(t, p5, names) {
                        None => None,
                        Some(b) => Some((Statement::While(cell_of(b.2, name@).0, b.0), b.1, cell_of(b.2, name@).1)),
                    }),
                ensures
                    s.wf(),
                    alloc.wf(),
                    s@.text == t,
                    p < s@.pos,
                    parse_block(t, p5, names) == Some((statements_of(res@), s@.pos, alloc@)),
                    parse_statement(t, p, names) == (match parse_block(t, p5, names) {
                        None => None,
                        Some(b) => Some((Statement::While(cell_of(b.2, name@).0, b.0), b.1, cell_of(b.2, name@).1)),
                    }),
                decreases s@.text.len() - s@.pos,
            {
                let ghost cur = s@.pos;
                s.whitespace();
                let ghost q = s@.pos;
                proof {
                    lemma_span_bounds(t, cur, |c: char| crate::parser::whitespace_char(c));
                }
                if s.is_empty() {
                    assert(parse_block(t, cur, alloc@) is None);
                    return None;
                }
                if s.accept('}').is_some() {
                    assert(statements_of(res@) + Seq::<Statement>::empty() =~= statements_of(res@));
                    break;
                }
                s.whitespace();
                proof {
                    crate::parser::lemma_span_end(t, q, q, |c: char| crate::parser::whitespace_char(c));
                }
                let ghost n_old = alloc@;
                let parsed = Self::parse_expr(s, alloc);
                let e = match parsed {
                    Some(e) => e,
                    None => {
                        assert(parse_block(t, cur, n_old) is None);
                        return None;
                    },
                };
                let ghost after = s@.pos;
                let ghost before_res = statements_of(res@);
                let ghost old_res = res@;
                res.push(e);
                s.whitespace();
                proof {
                    lemma_span_bounds(t, after, |c: char| crate::parser::whitespace_char(c));
                    lemma_statements_of_push(old_res, e);
                    assert(parse_block(t, cur, n_old) == prefix_block(seq![statement_of(e)], parse_block(t, s@.pos, alloc@)));
                    lemma_prefix_block(before_res, seq![statement_of(e)], parse_block(t, s@.pos, alloc@));
                    assert(before_res + seq![statement_of(e)] =~= statements_of(res@));
                }
            }
            let var = alloc.variable(name);
            return Some(LowLevelIntermediateExpr::WhileNotZero(var, res));
        }
        s.whitespace();
        let dest_name = s.parse_ident()?;
        let dest = alloc.variable(dest_name);
        s.whitespace();
        let adding = s.accept_str(kw_add).is_some();
        let subtracting = if adding { false } else { s.accept_str(kw_sub).is_some() };
        if adding || subtracting {
            s.whitespace();
            let name = s.parse_ident()?;
            s.whitespace();
            s.accept(';')?;
            s.whitespace();
            let modifier = alloc.variable(name);
            if adding {
                return Some(LowLevelIntermediateExpr::AddAssign { dest, modifier });
            } else {
                return Some(LowLevelIntermediateExpr::SubAssign { dest, modifier });
            }
        }
        s.accept('=')?;
        s.whitespace();
        if let Some(value) = s.parse_num() {
            s.whitespace();
            s.accept(';')?;
            s.whitespace();
            return Some(LowLevelIntermediateExpr::Const(dest, value));
        }
        let name = s.parse_ident()?;
        s.whitespace();
        s.accept(';')?;
        s.whitespace();
        let src = alloc.variable(name);
        Some(LowLevelIntermediateExpr::Copy { dest, src })
    }

    /// A program from its text; `None` on a syntax error. Names get cells
    /// 0, 1, 2, ... in order of first use.
    pub fn parse(text: Vec<char>) -> (r: Option<Self>)
        ensures
            r is Some <==> parse_program(text@, 0, seq![]) is Some,
            r matches Some(p) ==> parse_program(text@, 0, seq![]) == Some(statements_of(p@)),
    {
        let ghost t = text@;
        let mut variable_allocator = VariableAllocator::new();
        let mut res: Vec<LowLevelIntermediateExpr> = Vec::new();
        let mut stream = Parser::new(text);
        proof {
            lemma_span_bounds(t, 0, |c: char| crate::parser::whitespace_char(c));
            assert(variable_allocator@ =~= Seq::<Seq<char>>::empty());
        }
        stream.whitespace();
        proof {
            crate::parser::lemma_span_end(t, stream@.pos, stream@.pos, |c: char| crate::parser::whitespace_char(c));
            assert(parse_program(t, 0, seq![]) == parse_program(t, stream@.pos, seq![]));
            assert(statements_of(res@) =~= Seq::<Statement>::empty());
            if let Some(y) = parse_program(t, 0, seq![]) {
                assert(Seq::<Statement>::empty() + y =~= y);
            }
        }
        while !stream.is_empty()
            invariant
                stream.wf(),
                variable_allocator.wf(),
                stream@.text == t,
                t == text@,
                stream@.pos == skip_ws(t, stream@.pos),
                parse_program(t, 0, seq![]) == prefix_program(
                    statements_of(res@),
                    parse_program(t, stream@.pos, variable_allocator@),
                ),
            decreases stream@.text.len() - stream@.pos,
        {
            let ghost q = stream@.pos;
            let ghost n_old = variable_allocator@;
            stream.whitespace();
            proof {
                crate::parser::lemma_span_end(t, q, q, |c: char| crate::parser::whitespace_char(c));
            }
            let parsed = Self::parse_expr(&mut stream, &mut variable_allocator);
            let e = match parsed {
                Some(e) => e,
                None => {
                    assert(parse_program(t, q, n_old) is None);
                    assert(parse_program(t, 0, seq![]) is None);
                    return None;
                },
            };
            let ghost after = stream@.pos;
            let ghost before_res = statements_of(res@);
            let ghost old_res = res@;
            res.push(e);
            stream.whitespace();
            proof {
                lemma_span_bounds(t, after, |c: char| crate::parser::whitespace_char(c));
                crate::parser::lemma_span_end(t, stream@.pos, stream@.pos, |c: char| crate::parser::whitespace_char(c));
                lemma_statements_of_push(old_res, e);
                assert(parse_program(t, q, n_old) == prefix_program(seq![statement_of(e)], parse_program(t, stream@.pos, variable_allocator@)));
                lemma_prefix_program(before_res, seq![statement_of(e)], parse_program(t, stream@.pos, variable_allocator@));
                assert(before_res + seq![statement_of(e)] =~= statements_of(res@));
            }
        }
        proof {
            assert(statements_of(res@) + Seq::<Statement>::empty() =~= statements_of(res@));
        }
        Some(LowLevelIntermediateProgram { program: res })
    }
}

/// Marks every cell of `declared(program@)` that lies below the length of `marks`.
fn mark_declared(program: &Vec<LowLevelIntermediateExpr>, marks: &mut Vec<bool>)
    ensures
        final(marks)@.len() == old(marks)@.len(),
        forall|v: int| 0 <= v < old(marks)@.len() ==> #[trigger] final(marks)@[v] == (old(marks)@[v]
            || declared(program@).contains(v as Variable)),
    decreases program,
{
    let ghost m0 = marks@;
    let mut k: usize = 0;
    assert(declared(program@.take(0)) =~= Set::<Variable>::empty()) by {
        assert(program@.take(0) =~= Seq::<LowLevelIntermediateExpr>::empty());
    }
    while k < program.len()
        invariant
            k <= program@.len(),
            marks@.len() == m0.len(),
            forall|v: int| 0 <= v < m0.len() ==> #[trigger] marks@[v] == (m0[v] || declared(
                program@.take(k as int),
            ).contains(v as Variable)),
            forall|j: int| 0 <= j < program@.len() ==> decreases_to!(*program => #[trigger] program@[j]),
        decreases program.len() - k,
    {
        let ghost before = marks@;
        proof {
            assert(program@.take(k + 1).drop_last() =~= program@.take(k as int));
            assert(program@.take(k + 1).last() == program@[k as int]);
        }
        match &program[k] {
            LowLevelIntermediateExpr::Const(v, _) => {
                if *v < marks.len() {
                    marks.set(*v, true);
                }
            },
            LowLevelIntermediateExpr::Input(v) => {
                if *v < marks.len() {
                    marks.set(*v, true);
                }
            },
            LowLevelIntermediateExpr::WhileNotZero(v, body) => {
                proof {
                    assert(decreases_to!(program@[k as int] => *body));
                }
                if *v < marks.len() {
                    marks.set(*v, true);
                }
                mark_declared(body, marks);
            },
            _ => {},
        }
        proof {
            assert forall|v: int| 0 <= v < m0.len() implies #[trigger] marks@[v] == (m0[v] || declared(
                program@.take(k + 1),
            ).contains(v as Variable)) by {
                assert(marks@[v] == (before[v] || declared_in(program@[k as int]).contains(v as Variable)));
            }
        }
        k = k + 1;
    }
    assert(program@.take(k as int) =~= program@);
}

/// Whether every statement, at every depth, satisfies `statement_ok` below
/// `MEMORY_SIZE - 1` for `names`, the cells marked in `marks`.
fn check_statements(program: &Vec<LowLevelIntermediateExpr>, marks: &Vec<bool>, Ghost(names): Ghost<Set<Variable>>)
    -> (r: bool)
    requires
        marks@.len() == MEMORY_SIZE - 1,
        forall|v: int| 0 <= v < MEMORY_SIZE - 1 ==> #[trigger] marks@[v] == names.contains(v as Variable),
    ensures
        r == statements_ok(program@, names, (MEMORY_SIZE - 1) as int),
    decreases program,
{
    proof {
        lemma_statements_ok(program@, names, (MEMORY_SIZE - 1) as int);
    }
    let bound = MEMORY_SIZE - 1;
    let mut k: usize = 0;
    while k < program.len()
        invariant
            k <= program@.len(),
            bound == MEMORY_SIZE - 1,
            marks@.len() == MEMORY_SIZE - 1,
            forall|v: int| 0 <= v < MEMORY_SIZE - 1 ==> #[trigger] marks@[v] == names.contains(v as Variable),
            forall|j: int| 0 <= j < k ==> statement_ok(#[trigger] program@[j], names, (MEMORY_SIZE - 1) as int),
            forall|j: int| 0 <= j < program@.len() ==> decreases_to!(*program => #[trigger] program@[j]),
            statements_ok(program@, names, (MEMORY_SIZE - 1) as int) <==> forall|j: int| 0 <= j < program@.len()
                ==> statement_ok(#[trigger] program@[j], names, (MEMORY_SIZE - 1) as int),
        decreases program.len() - k,
    {
        let ok = match &program[k] {
            LowLevelIntermediateExpr::Const(v, _) => *v < bound && marks[*v],
            LowLevelIntermediateExpr::Copy { dest, src } => *dest < bound && *src < bound && marks[*dest]
                && marks[*src],
            LowLevelIntermediateExpr::AddAssign { dest, modifier } => *dest < bound && *modifier < bound
                && marks[*dest] && marks[*modifier],
            LowLevelIntermediateExpr::SubAssign { dest, modifier } => *dest < bound && *modifier < bound
                && marks[*dest] && marks[*modifier],
            LowLevelIntermediateExpr::Print(v) => *v < bound,
            LowLevelIntermediateExpr::Input(v) => *v < bound,
            LowLevelIntermediateExpr::WhileNotZero(v, body) => {
                proof {
                    assert(decreases_to!(program@[k as int] => *body));
                }
                *v < bound && check_statements(body, marks, Ghost(names))
            },
        };
        if !ok {
            return false;
        }
        k = k + 1;
    }
    true
}

/// A statement as a mathematical value: a loop's body is a `Seq`.
pub enum Statement {
    Const(int, u8),
    Copy(int, int),
    AddAssign(int, int),
    SubAssign(int, int),
    Print(int),
    Input(int),
    While(int, Seq<Statement>),
}

/// The value that a statement stands for.
pub open spec fn statement_of(e: LowLevelIntermediateExpr) -> Statement
    decreases e,
{
    match e {
        LowLevelIntermediateExpr::Const(v, c) => Statement::Const(v as int, c),
        LowLevelIntermediateExpr::Copy { dest, src } => Statement::Copy(dest as int, src as int),
        LowLevelIntermediateExpr::AddAssign { dest, modifier } => Statement::AddAssign(dest as int, modifier as int),
        LowLevelIntermediateExpr::SubAssign { dest, modifier } => Statement::SubAssign(dest as int, modifier as int),
        LowLevelIntermediateExpr::Print(v) => Statement::Print(v as int),
        LowLevelIntermediateExpr::Input(v) => Statement::Input(v as int),
        LowLevelIntermediateExpr::WhileNotZero(v, body) => Statement::While(v as int, statements_of(body@)),
    }
}

/// The values that statements stand for, in order.
pub open spec fn statements_of(s: Seq<LowLevelIntermediateExpr>) -> Seq<Statement>
    decreases s,
{
    if s.len() == 0 {
        seq![]
    } else {
        statements_of(s.drop_last()).push(statement_of(s.last()))
    }
}

proof fn lemma_statements_of_push(s: Seq<LowLevelIntermediateExpr>, e: LowLevelIntermediateExpr)
    ensures
        statements_of(s.push(e)) == statements_of(s).push(statement_of(e)),
{
    assert(s.push(e).drop_last() =~= s);
}

/// The cell of name `n` among the known `names`, and the names after: a known
/// name keeps its cell, a new one gets the next.
pub open spec fn cell_of(names: Seq<Seq<char>>, n: Seq<char>) -> (int, Seq<Seq<char>>) {
    if names.contains(n) {
        (choose|i: int| 0 <= i < names.len() && names[i] == n, names)
    } else {
        (names.len() as int, names.push(n))
    }
}

/// A statement parsed at `p`: the statement, where the parser stops (after
/// the whitespace that follows) and the names known then. `None`: a syntax error.
pub open spec fn parse_statement(t: Seq<char>, p: int, names: Seq<Seq<char>>) -> Option<
    (Statement, int, Seq<Seq<char>>),
>
    decreases t.len() - p, 1int,
{
    if !(0 <= p <= t.len()) {
        None
    } else if word_at(t, p, seq!['p', 'r', 'i', 'n', 't']) || word_at(t, p, seq!['i', 'n', 'p', 'u', 't']) {
        let p1 = skip_ws(t, p + 5);
        match ident_at(t, p1) {
            None => None,
            Some(name) => {
                let p2 = skip_ws(t, alnum_end(t, p1));
                if word_at(t, p2, seq![';']) {
                    let c = cell_of(names, name);
                    let st = if word_at(t, p, seq!['p', 'r', 'i', 'n', 't']) {
                        Statement::Print(c.0)
                    } else {
                        Statement::Input(c.0)
                    };
                    Some((st, skip_ws(t, p2 + 1), c.1))
                } else {
                    None
                }
            },
        }
    } else if word_at(t, p, seq!['w', 'h', 'i', 'l', 'e']) {
        let p1 = skip_ws(t, p + 5);
        match ident_at(t, p1) {
            None => None,
            Some(name) => {
                let p2 = skip_ws(t, alnum_end(t, p1));
                if !word_at(t, p2, seq!['!', '=']) {
                    None
                } else {
                    let p3 = skip_ws(t, p2 + 2);
                    if !word_at(t, p3, seq!['0']) {
                        None
                    } else {
                        let p4 = skip_ws(t, p3 + 1);
                        if !word_at(t, p4, seq!['{']) {
                            None
                        } else {
                            let p5 = skip_ws(t, p4 + 1);
                            if !(p < p5 <= t.len()) {
                                None
                            } else {
                                match parse_block(t, p5, names) {
                                    None => None,
                                    Some(b) => {
                                        let c = cell_of(b.2, name);
                                        Some((Statement::While(c.0, b.0), b.1, c.1))
                                    },
                                }
                            }
                        }
                    }
                }
            },
        }
    } else {
        let p0 = skip_ws(t, p);
        match ident_at(t, p0) {
            None => None,
            Some(dest_name) => {
                let d = cell_of(names, dest_name);
                let p1 = skip_ws(t, alnum_end(t, p0));
                if word_at(t, p1, seq!['+', '=']) || word_at(t, p1, seq!['-', '=']) {
                    let p2 = skip_ws(t, p1 + 2);
                    match ident_at(t, p2) {
                        None => None,
                        Some(m) => {
                            let p3 = skip_ws(t, alnum_end(t, p2));
                            if word_at(t, p3, seq![';']) {
                                let c = cell_of(d.1, m);
                                let st = if word_at(t, p1, seq!['+', '=']) {
                                    Statement::AddAssign(d.0, c.0)
                                } else {
                                    Statement::SubAssign(d.0, c.0)
                                };
                                Some((st, skip_ws(t, p3 + 1), c.1))
                            } else {
                                None
                            }
                        },
                    }
                } else if word_at(t, p1, seq!['=']) {
                    let p2 = skip_ws(t, p1 + 1);
                    match number_at(t, p2) {
                        Some(v) => {
                            let p3 = skip_ws(t, digit_end(t, p2));
                            if word_at(t, p3, seq![';']) {
                                Some((Statement::Const(d.0, v), skip_ws(t, p3 + 1), d.1))
                            } else {
                                None
                            }
                        },
                        None => {
                            let q = digit_end(t, p2);
                            match ident_at(t, q) {
                                None => None,
                                Some(src_name) => {
                                    let p3 = skip_ws(t, alnum_end(t, q));
                                    if word_at(t, p3, seq![';']) {
                                        let c = cell_of(d.1, src_name);
                                        Some((Statement::Copy(d.0, c.0), skip_ws(t, p3 + 1), c.1))
                                    } else {
                                        None
                                    }
                                },
                            }
                        },
                    }
                } else {
                    None
                }
            },
        }
    }
}

/// The statements of a loop body parsed at `p` up to its `}`: the statements,
/// where the parser stops (just after the `}`) and the names known then.
pub open spec fn parse_block(t: Seq<char>, p: int, names: Seq<Seq<char>>) -> Option<
    (Seq<Statement>, int, Seq<Seq<char>>),
>
    decreases t.len() - p, 2int,
{
    if !(0 <= p <= t.len()) {
        None
    } else {
        let q = skip_ws(t, p);
        if !(p <= q <= t.len()) || q == t.len() {
            None
        } else if t[q] == '}' {
            Some((seq![], q + 1, names))
        } else {
            match parse_statement(t, q, names) {
                None => None,
                Some(st) => {
                    let r = skip_ws(t, st.1);
                    if !(q < r <= t.len()) {
                        None
                    } else {
                        match parse_block(t, r, st.2) {
                            None => None,
                            Some(rest) => Some((seq![st.0] + rest.0, rest.1, rest.2)),
                        }
                    }
                }
            }
        }
    }
}

/// `r` with `pre` put before its statements.
pub open spec fn prefix_block(pre: Seq<Statement>, r: Option<(Seq<Statement>, int, Seq<Seq<char>>)>) -> Option<
    (Seq<Statement>, int, Seq<Seq<char>>),
> {
    match r {
        Some(x) => Some((pre + x.0, x.1, x.2)),
        None => None,
    }
}

/// `r` with `pre` put before its statements.
pub open spec fn prefix_program(pre: Seq<Statement>, r: Option<Seq<Statement>>) -> Option<Seq<Statement>> {
    match r {
        Some(x) => Some(pre + x),
        None => None,
    }
}

proof fn lemma_prefix_block(a: Seq<Statement>, b: Seq<Statement>, x: Option<(Seq<Statement>, int, Seq<Seq<char>>)>)
    ensures
        prefix_block(a, prefix_block(b, x)) == prefix_block(a + b, x),
{
    if let Some(y) = x {
        assert(a + (b + y.0) =~= (a + b) + y.0);
    }
}

proof fn lemma_prefix_program(a: Seq<Statement>, b: Seq<Statement>, x: Option<Seq<Statement>>)
    ensures
        prefix_program(a, prefix_program(b, x)) == prefix_program(a + b, x),
{
    if let Some(y) = x {
        assert(a + (b + y) =~= (a + b) + y);
    }
}

proof fn lemma_char_word(t: Seq<char>, c: char)
    ensures
        forall|p: int| #[trigger] word_at(t, p, seq![c]) <==> (0 <= p < t.len() && t[p] == c),
{
    assert forall|p: int| #[trigger] word_at(t, p, seq![c]) <==> (0 <= p < t.len() && t[p] == c) by {
        if 0 <= p < t.len() && t[p] == c {
            assert(t.subrange(p, p + 1) =~= seq![c]);
        }
        if word_at(t, p, seq![c]) {
            assert(t.subrange(p, p + 1)[0] == t[p]);
        }
    }
}

/// The statements of a program text from `p` to its end. `None`: a syntax error.
pub open spec fn parse_program(t: Seq<char>, p: int, names: Seq<Seq<char>>) -> Option<Seq<Statement>>
    decreases t.len() - p,
{
    if !(0 <= p <= t.len()) {
        None
    } else {
        let q = skip_ws(t, p);
        if !(p <= q <= t.len()) {
            None
        } else if q == t.len() {
            Some(seq![])
        } else {
            match parse_statement(t, q, names) {
                None => None,
                Some(st) => {
                    let r = skip_ws(t, st.1);
                    if !(q < r <= t.len()) {
                        None
                    } else {
                        match parse_program(t, r, st.2) {
                            None => None,
                            Some(rest) => Some(seq![st.0] + rest),
                        }
                    }
                }
            }
        }
    }
}

/// Gives each distinct name a cell: 0, 1, 2, ... in order of first use.
pub struct VariableAllocator {
    vars: Vec<Vec<char>>,
}

impl View for VariableAllocator {
    type V = Seq<Seq<char>>;

    closed spec fn view(&self) -> Seq<Seq<char>> {
        self.vars@.map_values(|v: Vec<char>| v@)
    }
}

/// Whether two names are the same.
fn same_name(a: &Vec<char>, b: &Vec<char>) -> (r: bool)
    ensures
        r == (a@ == b@),
{
    if a.len() != b.len() {
        return false;
    }
    let mut k: usize = 0;
    while k < a.len()
        invariant
            a@.len() == b@.len(),
            k <= a@.len(),
            forall|j: int| 0 <= j < k ==> a@[j] == b@[j],
        decreases a.len() - k,
    {
        if a[k] != b[k] {
            return false;
        }
        k = k + 1;
    }
    assert(a@ =~= b@);
    true
}

impl VariableAllocator {
    /// No name appears twice.
    pub open spec fn wf(&self) -> bool {
        forall|i: int, j: int| 0 <= i < j < self@.len() ==> self@[i] != self@[j]
    }

    /// An allocator that knows no names.
    pub fn new() -> (r: Self)
        ensures
            r.wf(),
            r@.len() == 0,
    {
        VariableAllocator { vars: Vec::new() }
    }

    /// The cell of name `v`: the one it already has, else the next one.
    pub fn variable(&mut self, v: Vec<char>) -> (r: usize)
        requires
            old(self).wf(),
        ensures
            final(self).wf(),
            old(self)@.contains(v@) ==> final(self)@ == old(self)@ && old(self)@[r as int] == v@,
            !old(self)@.contains(v@) ==> final(self)@ == old(self)@.push(v@) && r == old(self)@.len(),
            r < final(self)@.len(),
            (r as int, final(self)@) == cell_of(old(self)@, v@),
    {
        let mut k: usize = 0;
        while k < self.vars.len()
            invariant
                self@ == old(self)@,
                self.wf(),
                self.vars@.len() == self@.len(),
                k <= self@.len(),
                forall|j: int| 0 <= j < k ==> self@[j] != v@,
            decreases self.vars.len() - k,
        {
            if same_name(&self.vars[k], &v) {
                proof {
                    assert(self@[k as int] == v@);
                    assert(self@.contains(v@));
                    let i = choose|i: int| 0 <= i < self@.len() && self@[i] == v@;
                    assert(i == k);
                }
                return k;
            }
            k = k + 1;
        }
        let i = self.vars.len();
        self.vars.push(v);
        proof {
            assert(self@ =~= old(self)@.push(v@));
        }
        i
    }
}

} // verus!
