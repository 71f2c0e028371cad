use vstd::prelude::*;

use crate::desugared_brainfuck::Coalesced;
use crate::interpreter::{MEMORY_SIZE, Machine, run_instruction, run_sequence, step};
use crate::low_intermediate::{Allocation, LowLevelIntermediateExpr, lower_statement, temp_of, add_code, copy_code, drain_body, drain_restore, move_op, moves, restore_body, sub_code};

verus! {

/// The tape has its size and the pointer is on it.
pub open spec fn on_tape(m: Machine) -> bool {
    m.tape.len() == MEMORY_SIZE && 0 <= m.ptr < MEMORY_SIZE
}

/// A cell index on the tape.
pub open spec fn cell(c: int) -> bool {
    0 <= c < MEMORY_SIZE
}

/// The tape position of cell `c` when cell 0 is at position 0: higher cells
/// lie to the left, round the end of the tape.
pub open spec fn addr(c: int) -> int {
    if c == 0 {
        0
    } else {
        MEMORY_SIZE - c
    }
}

/// Position `c` changed by `d`, modulo 256.
pub open spec fn bump(m: Machine, c: int, d: int) -> Machine {
    Machine { tape: m.tape.update(c, ((m.tape[c] + d) % 256) as u8), ..m }
}

proof fn lemma_run_concat(a: Seq<Coalesced>, b: Seq<Coalesced>, m: Machine, fuel: nat)
    ensures
        run_sequence(a + b, m, fuel) == match run_sequence(a, m, fuel) {
            Some(m2) => run_sequence(b, m2, fuel),
            None => None,
        },
    decreases a.len(),
{
    if a.len() == 0 {
        assert(a + b =~= b);
    } else {
        assert((a + b).skip(1) =~= a.skip(1) + b);
        assert((a + b)[0] == a[0]);
        match run_instruction(a[0], m, fuel) {
            Some(m2) => lemma_run_concat(a.skip(1), b, m2, fuel),
            None => {},
        }
    }
}

proof fn lemma_run_single(x: Coalesced, m: Machine, fuel: nat)
    ensures
        run_sequence(seq![x], m, fuel) == run_instruction(x, m, fuel),
{
    let e = Seq::<Coalesced>::empty();
    assert(seq![x].skip(1) =~= e);
    assert(seq![x][0] == x);
    match run_instruction(x, m, fuel) {
        Some(m2) => {
            assert(run_sequence(e, m2, fuel) == Some(m2));
        },
        None => {},
    }
}

proof fn lemma_run_moves(p: int, q: int, m: Machine, fuel: nat)
    requires
        on_tape(m),
        m.ptr == addr(p),
        cell(p),
        cell(q),
    ensures
        run_sequence(moves(p, q), m, fuel) == Some(Machine { ptr: addr(q), ..m }),
{
    if p == q {
        assert(Machine { ptr: addr(q), ..m } == m);
    } else {
        lemma_run_single(move_op(p, q), m, fuel);
        let n = MEMORY_SIZE as int;
        if q > p {
            assert((addr(p) - (q - p)) % n == addr(q));
        } else {
            assert((addr(p) + (p - q)) % n == addr(q));
        }
    }
}

/// Runs `a` then `b` when each is known to finish.
proof fn lemma_run_then(a: Seq<Coalesced>, b: Seq<Coalesced>, m: Machine, m1: Machine, m2: Machine, fuel: nat)
    requires
        run_sequence(a, m, fuel) == Some(m1),
        run_sequence(b, m1, fuel) == Some(m2),
    ensures
        run_sequence(a + b, m, fuel) == Some(m2),
{
    lemma_run_concat(a, b, m, fuel);
}

proof fn lemma_run_step(x: Coalesced, m: Machine, fuel: nat)
    requires
        !(x is Loop),
    ensures
        run_sequence(seq![x], m, fuel) == Some(step(x, m)),
{
    lemma_run_single(x, m, fuel);
}

proof fn lemma_mod_add(x: int, d1: int, d2: int)
    ensures
        (((x + d1) % 256) + d2) % 256 == (x + d1 + d2) % 256,
{
    assert((((x + d1) % 256) + d2) % 256 == (x + d1 + d2) % 256) by (nonlinear_arith);
}

/// One pass of the drain body: `a` changed by `sa`, `t` up by one, `from` down by one.
proof fn lemma_drain_pass(m: Machine, from: int, a: int, op: Coalesced, sa: int, t: int, fuel: nat)
    requires
        on_tape(m),
        m.ptr == addr(from),
        cell(from),
        cell(a),
        cell(t),
        from != a,
        from != t,
        a != t,
        (op == Coalesced::Add(1) && sa == 1) || (op == Coalesced::Sub(1) && sa == -1),
    ensures
        run_sequence(drain_body(from, a, op, t), m, fuel) == Some(bump(bump(bump(m, addr(a), sa), addr(t), 1), addr(from), -1)),
{
    let m1 = Machine { ptr: addr(a), ..m };
    lemma_run_moves(from, a, m, fuel);
    let m2 = step(op, m1);
    lemma_run_step(op, m1, fuel);
    assert(m2 == Machine { ptr: addr(a), ..bump(m, addr(a), sa) });
    let m3 = Machine { ptr: addr(t), ..m2 };
    lemma_run_moves(a, t, m2, fuel);
    let m4 = step(Coalesced::Add(1), m3);
    lemma_run_step(Coalesced::Add(1), m3, fuel);
    let m5 = Machine { ptr: addr(from), ..m4 };
    lemma_run_moves(t, from, m4, fuel);
    let m6 = step(Coalesced::Sub(1), m5);
    lemma_run_step(Coalesced::Sub(1), m5, fuel);
    let s1 = moves(from, a) + seq![op];
    lemma_run_then(moves(from, a), seq![op], m, m1, m2, fuel);
    let s2 = s1 + moves(a, t);
    lemma_run_then(s1, moves(a, t), m, m2, m3, fuel);
    let s3 = s2 + seq![Coalesced::Add(1)];
    lemma_run_then(s2, seq![Coalesced::Add(1)], m, m3, m4, fuel);
    let s4 = s3 + moves(t, from);
    lemma_run_then(s3, moves(t, from), m, m4, m5, fuel);
    lemma_run_then(s4, seq![Coalesced::Sub(1)], m, m5, m6, fuel);
    assert(m6.tape =~= bump(bump(bump(m, addr(a), sa), addr(t), 1), addr(from), -1).tape);
}

/// The machine after `k` passes of the drain body.
pub open spec fn drained(m: Machine, from: int, a: int, sa: int, t: int, k: int) -> Machine {
    bump(bump(bump(m, addr(a), sa * k), addr(t), k), addr(from), -k)
}

proof fn lemma_drain_loop(m: Machine, from: int, a: int, op: Coalesced, sa: int, t: int, fuel: nat)
    requires
        on_tape(m),
        m.ptr == addr(from),
        cell(from),
        cell(a),
        cell(t),
        from != a,
        from != t,
        a != t,
        (op == Coalesced::Add(1) && sa == 1) || (op == Coalesced::Sub(1) && sa == -1),
        fuel >= m.tape[addr(from)],
    ensures
        run_instruction(Coalesced::Loop(drain_body(from, a, op, t)), m, fuel) == Some(
            drained(m, from, a, sa, t, m.tape[addr(from)] as int),
        ),
    decreases m.tape[addr(from)],
{
    let k = m.tape[addr(from)] as int;
    if k == 0 {
        assert(drained(m, from, a, sa, t, 0).tape =~= m.tape) by {
            assert(sa * 0 == 0);
        }
    } else {
        let m1 = bump(bump(bump(m, addr(a), sa), addr(t), 1), addr(from), -1);
        lemma_drain_pass(m, from, a, op, sa, t, (fuel - 1) as nat);
        assert(m1.tape[addr(from)] == k - 1);
        lemma_drain_loop(m1, from, a, op, sa, t, (fuel - 1) as nat);
        lemma_mod_add(m.tape[addr(a)] as int, sa, sa * (k - 1));
        lemma_mod_add(m.tape[addr(t)] as int, 1, k - 1);
        assert(sa + sa * (k - 1) == sa * k) by (nonlinear_arith);
        assert(drained(m1, from, a, sa, t, k - 1).tape =~= drained(m, from, a, sa, t, k).tape);
    }
}

/// One pass of the restore body: `from` up by one, `t` down by one.
proof fn lemma_restore_pass(m: Machine, t: int, from: int, fuel: nat)
    requires
        on_tape(m),
        m.ptr == addr(t),
        cell(from),
        cell(t),
        from != t,
    ensures
        run_sequence(restore_body(t, from), m, fuel) == Some(bump(bump(m, addr(from), 1), addr(t), -1)),
{
    let m1 = Machine { ptr: addr(from), ..m };
    lemma_run_moves(t, from, m, fuel);
    let m2 = step(Coalesced::Add(1), m1);
    lemma_run_step(Coalesced::Add(1), m1, fuel);
    let m3 = Machine { ptr: addr(t), ..m2 };
    lemma_run_moves(from, t, m2, fuel);
    let m4 = step(Coalesced::Sub(1), m3);
    lemma_run_step(Coalesced::Sub(1), m3, fuel);
    let s1 = moves(t, from) + seq![Coalesced::Add(1)];
    lemma_run_then(moves(t, from), seq![Coalesced::Add(1)], m, m1, m2, fuel);
    let s2 = s1 + moves(from, t);
    lemma_run_then(s1, moves(from, t), m, m2, m3, fuel);
    lemma_run_then(s2, seq![Coalesced::Sub(1)], m, m3, m4, fuel);
    assert(m4.tape =~= bump(bump(m, addr(from), 1), addr(t), -1).tape);
}

proof fn lemma_restore_loop(m: Machine, t: int, from: int, fuel: nat)
    requires
        on_tape(m),
        m.ptr == addr(t),
        cell(from),
        cell(t),
        from != t,
        fuel >= m.tape[addr(t)],
    ensures
        run_instruction(Coalesced::Loop(restore_body(t, from)), m, fuel) == Some(
            bump(bump(m, addr(from), m.tape[addr(t)] as int), addr(t), -(m.tape[addr(t)] as int)),
        ),
    decreases m.tape[addr(t)],
{
    let k = m.tape[addr(t)] as int;
    if k == 0 {
        assert(bump(bump(m, addr(from), 0), addr(t), 0).tape =~= m.tape);
    } else {
        let m1 = bump(bump(m, addr(from), 1), addr(t), -1);
        lemma_restore_pass(m, t, from, (fuel - 1) as nat);
        assert(m1.tape[addr(t)] == k - 1);
        lemma_restore_loop(m1, t, from, (fuel - 1) as nat);
        lemma_mod_add(m.tape[addr(from)] as int, 1, k - 1);
        assert(bump(bump(m1, addr(from), k - 1), addr(t), -(k - 1)).tape =~= bump(bump(m, addr(from), k), addr(t), -k).tape);
    }
}

/// The drain-and-restore idiom from any pointer position: `a` changed by
/// `sa` times the value of `src`, `src` as it was, `t` zero, pointer on `t`.
proof fn lemma_drain_restore_runs(m: Machine, p: int, a: int, op: Coalesced, sa: int, src: int, t: int, fuel: nat)
    requires
        on_tape(m),
        cell(p),
        m.ptr == addr(p),
        cell(a),
        cell(src),
        cell(t),
        a != src,
        a != t,
        src != t,
        (op == Coalesced::Add(1) && sa == 1) || (op == Coalesced::Sub(1) && sa == -1),
        fuel >= 256,
    ensures
        run_sequence(drain_restore(p, a, op, src, t), m, fuel) == Some(
            Machine { tape: m.tape.update(addr(a), ((m.tape[addr(a)] + sa * m.tape[addr(src)]) % 256) as u8).update(addr(t), 0), ptr: addr(t), ..m },
        ),
{
    let v = m.tape[addr(src)] as int;
    let z = seq![Coalesced::Zero];
    let m1 = Machine { ptr: addr(t), ..m };
    lemma_run_moves(p, t, m, fuel);
    let m2 = step(Coalesced::Zero, m1);
    lemma_run_step(Coalesced::Zero, m1, fuel);
    let m3 = Machine { ptr: addr(src), ..m2 };
    lemma_run_moves(t, src, m2, fuel);
    assert(m3.tape[addr(src)] == v);
    let m4 = drained(m3, src, a, sa, t, v);
    lemma_drain_loop(m3, src, a, op, sa, t, fuel);
    lemma_run_single(Coalesced::Loop(drain_body(src, a, op, t)), m3, fuel);
    let m5 = Machine { ptr: addr(t), ..m4 };
    lemma_run_moves(src, t, m4, fuel);
    assert(m5.tape[addr(t)] == v) by {
        assert(v % 256 == v);
    }
    let m6 = bump(bump(m5, addr(src), v), addr(t), -v);
    lemma_restore_loop(m5, t, src, fuel);
    lemma_run_single(Coalesced::Loop(restore_body(t, src)), m5, fuel);
    let s1 = moves(p, t) + z;
    lemma_run_then(moves(p, t), z, m, m1, m2, fuel);
    let s2 = s1 + moves(t, src);
    lemma_run_then(s1, moves(t, src), m, m2, m3, fuel);
    let s3 = s2 + seq![Coalesced::Loop(drain_body(src, a, op, t))];
    lemma_run_then(s2, seq![Coalesced::Loop(drain_body(src, a, op, t))], m, m3, m4, fuel);
    let s4 = s3 + moves(src, t);
    lemma_run_then(s3, moves(src, t), m, m4, m5, fuel);
    lemma_run_then(s4, seq![Coalesced::Loop(restore_body(t, src))], m, m5, m6, fuel);
    assert(m6.tape[addr(src)] == v) by {
        assert((v - v) % 256 == 0);
        assert((0 + v) % 256 == v);
    }
    assert(m6.tape[addr(t)] == 0) by {
        assert((v - v) % 256 == 0);
    }
    assert(m6.tape =~= m.tape.update(addr(a), ((m.tape[addr(a)] + sa * v) % 256) as u8).update(addr(t), 0));
}

/// Copying `src` into `dest` through the temporary `t`, from the pointer on
/// cell `p`, leaves `dest` equal to `src`, `src` as it was, `t` zero and the
/// pointer on `t`, whatever the cells held.
pub proof fn lemma_copy_runs(m: Machine, p: int, dest: int, src: int, t: int, fuel: nat)
    requires
        on_tape(m),
        cell(p),
        m.ptr == addr(p),
        cell(dest),
        cell(src),
        cell(t),
        dest != src,
        dest != t,
        src != t,
        fuel >= 256,
    ensures
        run_sequence(copy_code(p, dest, src, t), m, fuel) == Some(
            Machine { tape: m.tape.update(addr(dest), m.tape[addr(src)]).update(addr(t), 0), ptr: addr(t), ..m },
        ),
{
    let v = m.tape[addr(src)] as int;
    let z = seq![Coalesced::Zero];
    let m1 = Machine { ptr: addr(t), ..m };
    lemma_run_moves(p, t, m, fuel);
    let m2 = step(Coalesced::Zero, m1);
    lemma_run_step(Coalesced::Zero, m1, fuel);
    let m3 = Machine { ptr: addr(dest), ..m2 };
    lemma_run_moves(t, dest, m2, fuel);
    let m4 = step(Coalesced::Zero, m3);
    lemma_run_step(Coalesced::Zero, m3, fuel);
    let m5 = Machine { ptr: addr(src), ..m4 };
    lemma_run_moves(dest, src, m4, fuel);
    assert(m5.tape[addr(src)] == v);
    let body = drain_body(src, dest, Coalesced::Add(1), t);
    let m6 = drained(m5, src, dest, 1, t, v);
    lemma_drain_loop(m5, src, dest, Coalesced::Add(1), 1, t, fuel);
    lemma_run_single(Coalesced::Loop(body), m5, fuel);
    let m7 = Machine { ptr: addr(t), ..m6 };
    lemma_run_moves(src, t, m6, fuel);
    assert(m7.tape[addr(t)] == v) by {
        assert(1 * v == v);
        assert(v % 256 == v);
    }
    let m8 = bump(bump(m7, addr(src), v), addr(t), -v);
    lemma_restore_loop(m7, t, src, fuel);
    lemma_run_single(Coalesced::Loop(restore_body(t, src)), m7, fuel);
    let s1 = moves(p, t) + z;
    lemma_run_then(moves(p, t), z, m, m1, m2, fuel);
    let s2 = s1 + moves(t, dest);
    lemma_run_then(s1, moves(t, dest), m, m2, m3, fuel);
    let s3 = s2 + z;
    lemma_run_then(s2, z, m, m3, m4, fuel);
    let s4 = s3 + moves(dest, src);
    lemma_run_then(s3, moves(dest, src), m, m4, m5, fuel);
    let s5 = s4 + seq![Coalesced::Loop(body)];
    lemma_run_then(s4, seq![Coalesced::Loop(body)], m, m5, m6, fuel);
    let s6 = s5 + moves(src, t);
    lemma_run_then(s5, moves(src, t), m, m6, m7, fuel);
    lemma_run_then(s6, seq![Coalesced::Loop(restore_body(t, src))], m, m7, m8, fuel);
    assert(m8.tape[addr(src)] == v) by {
        assert((v - v) % 256 == 0);
        assert((0 + v) % 256 == v);
    }
    assert(m8.tape[addr(dest)] == v) by {
        assert(1 * v == v);
        assert((0 + v) % 256 == v);
    }
    assert(m8.tape[addr(t)] == 0) by {
        assert((v - v) % 256 == 0);
    }
    assert(m8.tape =~= m.tape.update(addr(dest), m.tape[addr(src)]).update(addr(t), 0));
}

/// `dest += modifier` through the temporary `t`: `dest` becomes the sum modulo
/// 256, `modifier` keeps its value, `t` is zero and the pointer on `t`.
pub proof fn lemma_add_runs(m: Machine, p: int, dest: int, modifier: int, t: int, fuel: nat)
    requires
        on_tape(m),
        cell(p),
        m.ptr == addr(p),
        cell(dest),
        cell(modifier),
        cell(t),
        dest != modifier,
        dest != t,
        modifier != t,
        fuel >= 256,
    ensures
        run_sequence(add_code(p, dest, modifier, t), m, fuel) == Some(
            Machine {
                tape: m.tape.update(addr(dest), ((m.tape[addr(dest)] + m.tape[addr(modifier)]) % 256) as u8).update(addr(t), 0),
                ptr: addr(t),
                ..m
            },
        ),
{
    lemma_drain_restore_runs(m, p, dest, Coalesced::Add(1), 1, modifier, t, fuel);
    assert(1 * m.tape[addr(modifier)] == m.tape[addr(modifier)]);
}

/// `dest -= modifier` through the temporary `t`: `dest` becomes the
/// difference modulo 256, `modifier` keeps its value, `t` is zero and the
/// pointer on `t`.
pub proof fn lemma_sub_runs(m: Machine, p: int, dest: int, modifier: int, t: int, fuel: nat)
    requires
        on_tape(m),
        cell(p),
        m.ptr == addr(p),
        cell(dest),
        cell(modifier),
        cell(t),
        dest != modifier,
        dest != t,
        modifier != t,
        fuel >= 256,
    ensures
        run_sequence(sub_code(p, dest, modifier, t), m, fuel) == Some(
            Machine {
                tape: m.tape.update(addr(dest), ((m.tape[addr(dest)] - m.tape[addr(modifier)]) % 256) as u8).update(addr(t), 0),
                ptr: addr(t),
                ..m
            },
        ),
{
    lemma_drain_restore_runs(m, p, dest, Coalesced::Sub(1), -1, modifier, t, fuel);
    assert(-1 * m.tape[addr(modifier)] == -m.tape[addr(modifier)]);
}

proof fn lemma_count_down(m: Machine, fuel: nat)
    requires
        on_tape(m),
        fuel >= m.tape[m.ptr],
    ensures
        run_instruction(Coalesced::Loop(seq![Coalesced::Sub(1)]), m, fuel) == Some(step(Coalesced::Zero, m)),
    decreases m.tape[m.ptr],
{
    let k = m.tape[m.ptr] as int;
    if k == 0 {
        assert(step(Coalesced::Zero, m).tape =~= m.tape);
        assert(step(Coalesced::Zero, m) == m);
    } else {
        let m1 = step(Coalesced::Sub(1), m);
        lemma_run_step(Coalesced::Sub(1), m, (fuel - 1) as nat);
        lemma_count_down(m1, (fuel - 1) as nat);
        assert(step(Coalesced::Zero, m1).tape =~= step(Coalesced::Zero, m).tape);
    }
}

proof fn lemma_count_up(m: Machine, fuel: nat)
    requires
        on_tape(m),
        m.tape[m.ptr] == 0 || fuel >= 256 - m.tape[m.ptr],
    ensures
        run_instruction(Coalesced::Loop(seq![Coalesced::Add(1)]), m, fuel) == Some(step(Coalesced::Zero, m)),
    decreases 256 - m.tape[m.ptr],
{
    let k = m.tape[m.ptr] as int;
    if k == 0 {
        assert(step(Coalesced::Zero, m).tape =~= m.tape);
        assert(step(Coalesced::Zero, m) == m);
    } else {
        let m1 = step(Coalesced::Add(1), m);
        lemma_run_step(Coalesced::Add(1), m, (fuel - 1) as nat);
        if k == 255 {
            assert(m1.tape[m1.ptr] == 0);
            assert(step(Coalesced::Zero, m1).tape =~= m1.tape);
            assert(step(Coalesced::Zero, m1) == m1);
            assert(run_instruction(Coalesced::Loop(seq![Coalesced::Add(1)]), m1, (fuel - 1) as nat) == Some(m1));
        } else {
            lemma_count_up(m1, (fuel - 1) as nat);
        }
        assert(step(Coalesced::Zero, m1).tape =~= step(Coalesced::Zero, m).tape);
    }
}

/// A loop whose body is one decrement, or one increment, leaves the current
/// cell zero like `Zero` does, given fuel for 256 passes; and `Zero` after
/// `Zero` changes nothing more.
pub proof fn lemma_zero_idiom(m: Machine, fuel: nat)
    requires
        on_tape(m),
        fuel >= 256,
    ensures
        run_instruction(Coalesced::Loop(seq![Coalesced::Sub(1)]), m, fuel) == Some(step(Coalesced::Zero, m)),
        run_instruction(Coalesced::Loop(seq![Coalesced::Add(1)]), m, fuel) == Some(step(Coalesced::Zero, m)),
        step(Coalesced::Zero, step(Coalesced::Zero, m)) == step(Coalesced::Zero, m),
{
    lemma_count_down(m, fuel);
    lemma_count_up(m, fuel);
    assert(step(Coalesced::Zero, step(Coalesced::Zero, m)).tape =~= step(Coalesced::Zero, m).tape);
}

/// What `compile` emits for `dest = src` from allocation `a` copies `src`
/// into `dest`, leaving `src` as it was and the temporary zero.
pub proof fn lemma_compiled_copy(a: Allocation, dest: usize, src: usize, m: Machine, fuel: nat)
    requires
        on_tape(m),
        cell(a.ptr),
        m.ptr == addr(a.ptr),
        cell(dest as int),
        cell(src as int),
        cell(temp_of(a)),
        dest != src,
        dest != temp_of(a),
        src != temp_of(a),
        fuel >= 256,
    ensures
        run_sequence(lower_statement(LowLevelIntermediateExpr::Copy { dest, src }, a).0, m, fuel) == Some(
            Machine {
                tape: m.tape.update(addr(dest as int), m.tape[addr(src as int)]).update(addr(temp_of(a)), 0),
                ptr: addr(temp_of(a)),
                ..m
            },
        ),
{
    lemma_copy_runs(m, a.ptr, dest as int, src as int, temp_of(a), fuel);
}

/// What `compile` emits for `dest += modifier` from allocation `a` adds
/// modulo 256, leaving `modifier` as it was and the temporary zero.
pub proof fn lemma_compiled_add(a: Allocation, dest: usize, modifier: usize, m: Machine, fuel: nat)
    requires
        on_tape(m),
        cell(a.ptr),
        m.ptr == addr(a.ptr),
        cell(dest as int),
        cell(modifier as int),
        cell(temp_of(a)),
        dest != modifier,
        dest != temp_of(a),
        modifier != temp_of(a),
        fuel >= 256,
    ensures
        run_sequence(lower_statement(LowLevelIntermediateExpr::AddAssign { dest, modifier }, a).0, m, fuel)
            == Some(
            Machine {
                tape: m.tape.update(
                    addr(dest as int),
                    ((m.tape[addr(dest as int)] + m.tape[addr(modifier as int)]) % 256) as u8,
                ).update(addr(temp_of(a)), 0),
                ptr: addr(temp_of(a)),
                ..m
            },
        ),
{
    lemma_add_runs(m, a.ptr, dest as int, modifier as int, temp_of(a), fuel);
}

/// What `compile` emits for `dest -= modifier` from allocation `a` subtracts
/// modulo 256, leaving `modifier` as it was and the temporary zero.
pub proof fn lemma_compiled_sub(a: Allocation, dest: usize, modifier: usize, m: Machine, fuel: nat)
    requires
        on_tape(m),
        cell(a.ptr),
        m.ptr == addr(a.ptr),
        cell(dest as int),
        cell(modifier as int),
        cell(temp_of(a)),
        dest != modifier,
        dest != temp_of(a),
        modifier != temp_of(a),
        fuel >= 256,
    ensures
        run_sequence(lower_statement(LowLevelIntermediateExpr::SubAssign { dest, modifier }, a).0, m, fuel)
            == Some(
            Machine {
                tape: m.tape.update(
                    addr(dest as int),
                    ((m.tape[addr(dest as int)] - m.tape[addr(modifier as int)]) % 256) as u8,
                ).update(addr(temp_of(a)), 0),
                ptr: addr(temp_of(a)),
                ..m
            },
        ),
{
    lemma_sub_runs(m, a.ptr, dest as int, modifier as int, temp_of(a), fuel);
}

/// From cell 0 one step left lands on the last cell, and from the last cell
/// one step right lands on cell 0.
pub proof fn lemma_pointer_wraps(m: Machine)
    ensures
        m.ptr == 0 ==> step(Coalesced::Left(1), m).ptr == MEMORY_SIZE - 1,
        m.ptr == MEMORY_SIZE - 1 ==> step(Coalesced::Right(1), m).ptr == 0,
{
}

} // verus!
