use vstd::prelude::*;

use crate::optimize::{
    absorb, coalesce_fold, coalesce_seq, dead_at, flush, flush_unless_overwritten, is_cell_op,
    is_move, lemma_zero_seq, optimize_node, resume, sat_sum, strip_node, strip_seq, zero_node, zero_seq, Fold,
};
use crate::semantics::{add_wrap, done, move_to, on_tape, put, sub_wrap, Outcome, run_loop, run_seq, step, Config};
use crate::syntax::{built, built_seq, model, model_seq, BFSyntax, Node};

verus! {

/// A run of a sequence that ends without fault runs every prefix without
/// fault; its last node runs from where the rest left off.
proof fn lemma_seq_split(s: Seq<Node>, c: Config, fuel: nat)
    requires
        s.len() > 0,
        run_seq(s, c, fuel).fault is None,
    ensures
        run_seq(s.subrange(0, s.len() - 1), c, fuel).fault is None,
        run_seq(s, c, fuel) == step(
            s[s.len() - 1],
            run_seq(s.subrange(0, s.len() - 1), c, fuel).cfg,
            fuel,
        ),
{
}

/// `Loop([Dec(1)])` that runs to its end leaves the current cell at 0 and
/// changes nothing else, as `Assign(0)` does.
proof fn lemma_zeroing_loop(c: Config, fuel: nat)
    requires
        run_loop(seq![Node::Dec(1)], c, fuel).fault is None,
    ensures
        run_loop(seq![Node::Dec(1)], c, fuel) == step(Node::Assign(0), c, fuel),
    decreases fuel,
{
    let body = seq![Node::Dec(1)];
    if on_tape(c) && c.cells[c.pos] != 0 && fuel > 0 {
        let f = (fuel - 1) as nat;
        assert(body.subrange(0, 0) =~= Seq::<Node>::empty());
        let c1 = run_seq(body, c, f).cfg;
        assert(body[0] == Node::Dec(1));
        assert(run_seq(body.subrange(0, 0), c, f) == done(c));
        assert(step(Node::Dec(1), c, f) == done(put(c, sub_wrap(c.cells[c.pos], 1))));
        assert(run_seq(body, c, f) == step(Node::Dec(1), c, f));
        lemma_zeroing_loop(c1, f);
        assert(put(c1, 0).cells =~= put(c, 0).cells);
    } else if on_tape(c) && c.cells[c.pos] == 0 {
        assert(put(c, 0).cells =~= c.cells);
    }
}

/// Where a node runs to its end, zeroing-loop recognition does not change
/// what it does.
pub proof fn lemma_zero_preserves(n: Node, c: Config, fuel: nat)
    requires
        step(n, c, fuel).fault is None,
    ensures
        step(zero_node(n), c, fuel) == step(n, c, fuel),
    decreases fuel, n,
{
    match n {
        Node::Root(b) => lemma_zero_seq_preserves(b, c, fuel),
        Node::Loop(b) => {
            if b == seq![Node::Dec(1)] {
                lemma_zeroing_loop(c, fuel);
            } else {
                lemma_zero_loop_preserves(b, c, fuel);
            }
        },
        _ => {},
    }
}

proof fn lemma_zero_seq_preserves(s: Seq<Node>, c: Config, fuel: nat)
    requires
        run_seq(s, c, fuel).fault is None,
    ensures
        run_seq(zero_seq(s), c, fuel) == run_seq(s, c, fuel),
    decreases fuel, s,
{
    if s.len() > 0 {
        let k = s.len() - 1;
        let front = s.subrange(0, k);
        lemma_seq_split(s, c, fuel);
        lemma_zero_seq_preserves(front, c, fuel);
        lemma_zero_preserves(s[k], run_seq(front, c, fuel).cfg, fuel);
        lemma_zero_seq(s);
        let z = zero_seq(s);
        assert(z.subrange(0, k) =~= zero_seq(front));
    }
}

proof fn lemma_zero_loop_preserves(b: Seq<Node>, c: Config, fuel: nat)
    requires
        run_loop(b, c, fuel).fault is None,
    ensures
        run_loop(zero_seq(b), c, fuel) == run_loop(b, c, fuel),
    decreases fuel, b,
{
    if on_tape(c) && c.cells[c.pos] != 0 && fuel > 0 {
        let f = (fuel - 1) as nat;
        lemma_zero_seq_preserves(b, c, f);
        lemma_zero_loop_preserves(b, run_seq(b, c, f).cfg, f);
    }
}

/// The node holds no `Root`: the program node stands only at the top.
pub open spec fn root_free(n: Node) -> bool
    decreases n,
{
    match n {
        Node::Root(_) => false,
        Node::Loop(b) => root_free_seq(b),
        _ => true,
    }
}

/// No node of the sequence holds a `Root`.
pub open spec fn root_free_seq(s: Seq<Node>) -> bool
    decreases s,
{
    if s.len() == 0 {
        true
    } else {
        root_free_seq(s.subrange(0, s.len() - 1)) && root_free(s[s.len() - 1])
    }
}

/// A loop that runs to its end leaves the cursor on a cell that holds 0.
proof fn lemma_loop_exit(b: Seq<Node>, c: Config, fuel: nat)
    requires
        run_loop(b, c, fuel).fault is None,
    ensures
        on_tape(run_loop(b, c, fuel).cfg),
        run_loop(b, c, fuel).cfg.cells[run_loop(b, c, fuel).cfg.pos] == 0,
    decreases fuel,
{
    if on_tape(c) && c.cells[c.pos] != 0 && fuel > 0 {
        let f = (fuel - 1) as nat;
        lemma_loop_exit(b, run_seq(b, c, f).cfg, f);
    }
}

/// Where a node without a nested `Root` runs to its end, dead-loop
/// elimination does not change what it does.
pub proof fn lemma_strip_preserves(n: Node, c: Config, fuel: nat)
    requires
        step(n, c, fuel).fault is None,
        root_free(n),
    ensures
        step(strip_node(n), c, fuel) == step(n, c, fuel),
    decreases fuel, n,
{
    if let Node::Loop(b) = n {
        lemma_strip_loop_preserves(b, c, fuel);
    }
}

/// Dead-loop elimination on a sequence keeps what a run of it does. For the
/// whole program the current cell must hold 0 at the start, as on a fresh
/// tape.
pub proof fn lemma_strip_seq_preserves(s: Seq<Node>, c: Config, fuel: nat, top: bool)
    requires
        run_seq(s, c, fuel).fault is None,
        root_free_seq(s),
        top ==> on_tape(c) && c.cells[c.pos] == 0,
    ensures
        run_seq(strip_seq(s, top), c, fuel) == run_seq(s, c, fuel),
    decreases fuel, s,
{
    if s.len() > 0 {
        let k = s.len() - 1;
        let front = s.subrange(0, k);
        lemma_seq_split(s, c, fuel);
        lemma_strip_seq_preserves(front, c, fuel, top);
        let c1 = run_seq(front, c, fuel).cfg;
        if dead_at(s, k, top) {
            if k == 0 {
                assert(front =~= Seq::<Node>::empty());
            } else {
                let front2 = front.subrange(0, k - 1);
                lemma_seq_split(front, c, fuel);
                assert(front[k - 1] == s[k - 1]);
                if let Node::Loop(b2) = s[k - 1] {
                    lemma_loop_exit(b2, run_seq(front2, c, fuel).cfg, fuel);
                }
            }
        } else {
            let t0 = strip_seq(front, top);
            lemma_strip_preserves(s[k], c1, fuel);
            assert(t0.push(strip_node(s[k])).subrange(0, t0.len() as int) =~= t0);
        }
    }
}

proof fn lemma_strip_loop_preserves(b: Seq<Node>, c: Config, fuel: nat)
    requires
        run_loop(b, c, fuel).fault is None,
        root_free_seq(b),
    ensures
        run_loop(strip_seq(b, false), c, fuel) == run_loop(b, c, fuel),
    decreases fuel, b,
{
    if on_tape(c) && c.cells[c.pos] != 0 && fuel > 0 {
        let f = (fuel - 1) as nat;
        lemma_strip_seq_preserves(b, c, f, false);
        lemma_strip_loop_preserves(b, run_seq(b, c, f).cfg, f);
    }
}

/// The tape and the cursor fit in `usize`, as on the machine.
pub open spec fn machine_sized(c: Config) -> bool {
    0 <= c.pos <= usize::MAX && c.cells.len() <= usize::MAX
}

/// No run changes the length of the tape, and every run keeps the cursor
/// within `usize`.
proof fn lemma_tape_len(n: Node, c: Config, fuel: nat)
    ensures
        step(n, c, fuel).cfg.cells.len() == c.cells.len(),
        machine_sized(c) ==> machine_sized(step(n, c, fuel).cfg),
    decreases fuel, n,
{
    match n {
        Node::Root(b) => lemma_tape_len_seq(b, c, fuel),
        Node::Loop(b) => lemma_tape_len_loop(b, c, fuel),
        _ => {},
    }
}

proof fn lemma_tape_len_seq(s: Seq<Node>, c: Config, fuel: nat)
    ensures
        run_seq(s, c, fuel).cfg.cells.len() == c.cells.len(),
        machine_sized(c) ==> machine_sized(run_seq(s, c, fuel).cfg),
    decreases fuel, s,
{
    if s.len() > 0 {
        let front = s.subrange(0, s.len() - 1);
        lemma_tape_len_seq(front, c, fuel);
        lemma_tape_len(s[s.len() - 1], run_seq(front, c, fuel).cfg, fuel);
    }
}

proof fn lemma_tape_len_loop(b: Seq<Node>, c: Config, fuel: nat)
    ensures
        run_loop(b, c, fuel).cfg.cells.len() == c.cells.len(),
        machine_sized(c) ==> machine_sized(run_loop(b, c, fuel).cfg),
    decreases fuel, b,
{
    if on_tape(c) && c.cells[c.pos] != 0 && fuel > 0 {
        let f = (fuel - 1) as nat;
        lemma_tape_len_seq(b, c, f);
        lemma_tape_len_loop(b, run_seq(b, c, f).cfg, f);
    }
}

/// A run of a sequence with one more node at its end.
proof fn lemma_run_push(t: Seq<Node>, y: Node, c: Config, fuel: nat)
    ensures
        run_seq(t.push(y), c, fuel) == if run_seq(t, c, fuel).fault is Some {
            run_seq(t, c, fuel)
        } else {
            step(y, run_seq(t, c, fuel).cfg, fuel)
        },
{
    assert(t.push(y).subrange(0, t.len() as int) =~= t);
}

/// Two cell updates in a row are the last one alone.
proof fn lemma_put_put(c: Config, a: u8, b: u8)
    requires
        on_tape(c),
    ensures
        put(put(c, a), b) == put(c, b),
        put(c, c.cells[c.pos]) == c,
{
    assert(put(put(c, a), b).cells =~= put(c, b).cells);
    assert(put(c, c.cells[c.pos]).cells =~= c.cells);
}

proof fn lemma_wrap_def(a: u8, n: u8)
    ensures
        add_wrap(a, n) == if a + n >= 256 {
            a + n - 256
        } else {
            a + n
        },
        sub_wrap(a, n) == if a >= n {
            a - n
        } else {
            a + 256 - n
        },
{
}

/// The arithmetic of fused cell counts, modulo 256.
proof fn lemma_wrap_arith(v: u8, m: u8, n: u8)
    ensures
        add_wrap(add_wrap(v, m), n) == add_wrap(v, add_wrap(m, n)),
        sub_wrap(sub_wrap(v, m), n) == sub_wrap(v, add_wrap(m, n)),
        n > m ==> add_wrap(sub_wrap(v, m), n) == add_wrap(v, (n - m) as u8),
        n < m ==> add_wrap(sub_wrap(v, m), n) == sub_wrap(v, (m - n) as u8),
        n > m ==> sub_wrap(add_wrap(v, m), n) == sub_wrap(v, (n - m) as u8),
        n < m ==> sub_wrap(add_wrap(v, m), n) == add_wrap(v, (m - n) as u8),
        add_wrap(sub_wrap(v, m), m) == v,
        sub_wrap(add_wrap(v, m), m) == v,
{
    lemma_wrap_def(v, m);
    lemma_wrap_def(m, n);
    lemma_wrap_def(add_wrap(v, m), n);
    lemma_wrap_def(sub_wrap(v, m), n);
    lemma_wrap_def(add_wrap(v, m), m);
    lemma_wrap_def(sub_wrap(v, m), m);
    lemma_wrap_def(v, add_wrap(m, n));
    if n > m {
        lemma_wrap_def(v, (n - m) as u8);
    }
    if n < m {
        lemma_wrap_def(v, (m - n) as u8);
    }
}

/// Taking one more node into the fold keeps what the emitted and held nodes
/// do, where the node runs to its end.
proof fn lemma_absorb_preserves(f: Fold, x: Node, c: Config, fuel: nat)
    requires
        !(x is Root || x is Loop),
        machine_sized(c),
        run_seq(flush(f), c, fuel).fault is None,
        step(x, run_seq(flush(f), c, fuel).cfg, fuel).fault is None,
    ensures
        run_seq(flush(absorb(f, x)), c, fuel) == step(x, run_seq(flush(f), c, fuel).cfg, fuel),
{
    lemma_run_push(flush(f), x, c, fuel);
    match f.pending {
        Some(p) => {
            let out = f.out;
            lemma_run_push(out, p, c, fuel);
            assert(f == Fold { out, pending: Some(p) });
            if is_cell_op(p) && (x is Inc || x is Dec || x is Assign || x is Read) {
                match p {
                    Node::Inc(m) => lemma_after_inc(out, m, x, c, fuel),
                    Node::Dec(m) => lemma_after_dec(out, m, x, c, fuel),
                    _ => lemma_after_assign(out, p->Assign_0, x, c, fuel),
                }
            } else if is_move(p) && is_move(x) {
                lemma_tape_len_seq(out, c, fuel);
                match p {
                    Node::Right(m) => lemma_after_right(out, m, x, c, fuel),
                    _ => lemma_after_left(out, p->Left_0, x, c, fuel),
                }
            } else {
                assert(flush(absorb(f, x)) == flush(f).push(x));
            }
        },
        None => {
            assert(flush(absorb(f, x)) == flush(f).push(x));
        },
    }
}

proof fn lemma_after_inc(out: Seq<Node>, m: u8, x: Node, c: Config, fuel: nat)
    requires
        x is Inc || x is Dec || x is Assign || x is Read,
        run_seq(out.push(Node::Inc(m)), c, fuel).fault is None,
        step(x, run_seq(out.push(Node::Inc(m)), c, fuel).cfg, fuel).fault is None,
    ensures
        run_seq(flush(absorb(Fold { out, pending: Some(Node::Inc(m)) }, x)), c, fuel) == step(
            x,
            run_seq(out.push(Node::Inc(m)), c, fuel).cfg,
            fuel,
        ),
{
    let co = run_seq(out, c, fuel).cfg;
    lemma_run_push(out, Node::Inc(m), c, fuel);
    lemma_run_push(out, x, c, fuel);
    let fused = absorb(Fold { out, pending: Some(Node::Inc(m)) }, x);
    if let Some(q) = fused.pending {
        lemma_run_push(fused.out, q, c, fuel);
    }
    let v = co.cells[co.pos];
    let w = add_wrap(v, m);
    lemma_put_put(co, w, v);
    match x {
        Node::Inc(n) => {
            lemma_wrap_arith(v, m, n);
            lemma_put_put(co, w, add_wrap(w, n));
        },
        Node::Dec(n) => {
            lemma_wrap_arith(v, m, n);
            lemma_put_put(co, w, sub_wrap(w, n));
        },
        Node::Assign(n) => {
            lemma_put_put(co, w, n);
        },
        _ => {
            lemma_put_put(co, w, co.input[0]);
        },
    }
}

proof fn lemma_after_dec(out: Seq<Node>, m: u8, x: Node, c: Config, fuel: nat)
    requires
        x is Inc || x is Dec || x is Assign || x is Read,
        run_seq(out.push(Node::Dec(m)), c, fuel).fault is None,
        step(x, run_seq(out.push(Node::Dec(m)), c, fuel).cfg, fuel).fault is None,
    ensures
        run_seq(flush(absorb(Fold { out, pending: Some(Node::Dec(m)) }, x)), c, fuel) == step(
            x,
            run_seq(out.push(Node::Dec(m)), c, fuel).cfg,
            fuel,
        ),
{
    let co = run_seq(out, c, fuel).cfg;
    lemma_run_push(out, Node::Dec(m), c, fuel);
    lemma_run_push(out, x, c, fuel);
    let fused = absorb(Fold { out, pending: Some(Node::Dec(m)) }, x);
    if let Some(q) = fused.pending {
        lemma_run_push(fused.out, q, c, fuel);
    }
    let v = co.cells[co.pos];
    let w = sub_wrap(v, m);
    lemma_put_put(co, w, v);
    match x {
        Node::Inc(n) => {
            lemma_wrap_arith(v, m, n);
            lemma_put_put(co, w, add_wrap(w, n));
        },
        Node::Dec(n) => {
            lemma_wrap_arith(v, m, n);
            lemma_put_put(co, w, sub_wrap(w, n));
        },
        Node::Assign(n) => {
            lemma_put_put(co, w, n);
        },
        _ => {
            lemma_put_put(co, w, co.input[0]);
        },
    }
}

proof fn lemma_after_assign(out: Seq<Node>, m: u8, x: Node, c: Config, fuel: nat)
    requires
        x is Inc || x is Dec || x is Assign || x is Read,
        run_seq(out.push(Node::Assign(m)), c, fuel).fault is None,
        step(x, run_seq(out.push(Node::Assign(m)), c, fuel).cfg, fuel).fault is None,
    ensures
        run_seq(flush(absorb(Fold { out, pending: Some(Node::Assign(m)) }, x)), c, fuel) == step(
            x,
            run_seq(out.push(Node::Assign(m)), c, fuel).cfg,
            fuel,
        ),
{
    let co = run_seq(out, c, fuel).cfg;
    lemma_run_push(out, Node::Assign(m), c, fuel);
    lemma_run_push(out, x, c, fuel);
    let fused = absorb(Fold { out, pending: Some(Node::Assign(m)) }, x);
    if let Some(q) = fused.pending {
        lemma_run_push(fused.out, q, c, fuel);
    }
    match x {
        Node::Inc(n) => {
            lemma_put_put(co, m, add_wrap(m, n));
        },
        Node::Dec(n) => {
            lemma_put_put(co, m, sub_wrap(m, n));
        },
        Node::Assign(n) => {
            lemma_put_put(co, m, n);
        },
        _ => {
            lemma_put_put(co, m, co.input[0]);
        },
    }
}

proof fn lemma_after_right(out: Seq<Node>, m: usize, x: Node, c: Config, fuel: nat)
    requires
        is_move(x),
        machine_sized(run_seq(out, c, fuel).cfg),
        run_seq(out.push(Node::Right(m)), c, fuel).fault is None,
        step(x, run_seq(out.push(Node::Right(m)), c, fuel).cfg, fuel).fault is None,
    ensures
        run_seq(flush(absorb(Fold { out, pending: Some(Node::Right(m)) }, x)), c, fuel) == step(
            x,
            run_seq(out.push(Node::Right(m)), c, fuel).cfg,
            fuel,
        ),
{
    let co = run_seq(out, c, fuel).cfg;
    lemma_run_push(out, Node::Right(m), c, fuel);
    lemma_run_push(out, x, c, fuel);
    let fused = absorb(Fold { out, pending: Some(Node::Right(m)) }, x);
    if let Some(q) = fused.pending {
        lemma_run_push(fused.out, q, c, fuel);
    }
    match x {
        Node::Right(n) => {
            let c2 = Config { pos: co.pos + m, ..co };
            assert(run_seq(out.push(Node::Right(m)), c, fuel) == done(c2));
            assert(0 <= c2.pos + n < co.cells.len());
            assert(sat_sum(m, n) == m + n);
            assert(co.pos + (m + n) == c2.pos + n);
        },
        _ => {
            assert(Config { pos: co.pos + m - m, ..co } == co);
        },
    }
}

proof fn lemma_after_left(out: Seq<Node>, m: usize, x: Node, c: Config, fuel: nat)
    requires
        is_move(x),
        machine_sized(run_seq(out, c, fuel).cfg),
        run_seq(out.push(Node::Left(m)), c, fuel).fault is None,
        step(x, run_seq(out.push(Node::Left(m)), c, fuel).cfg, fuel).fault is None,
    ensures
        run_seq(flush(absorb(Fold { out, pending: Some(Node::Left(m)) }, x)), c, fuel) == step(
            x,
            run_seq(out.push(Node::Left(m)), c, fuel).cfg,
            fuel,
        ),
{
    let co = run_seq(out, c, fuel).cfg;
    lemma_run_push(out, Node::Left(m), c, fuel);
    lemma_run_push(out, x, c, fuel);
    let fused = absorb(Fold { out, pending: Some(Node::Left(m)) }, x);
    if let Some(q) = fused.pending {
        lemma_run_push(fused.out, q, c, fuel);
    }
    match x {
        Node::Left(n) => {
            let c2 = Config { pos: co.pos - m, ..co };
            assert(run_seq(out.push(Node::Left(m)), c, fuel) == done(c2));
            assert(0 <= c2.pos - n);
            assert(sat_sum(m, n) == m + n);
            assert(co.pos - (m + n) == c2.pos - n);
        },
        _ => {
            assert(Config { pos: co.pos - m + m, ..co } == co);
        },
    }
}

/// Where a sequence runs to its end, constant coalescing does not change
/// what it does.
pub proof fn lemma_coalesce_seq_preserves(s: Seq<Node>, c: Config, fuel: nat)
    requires
        run_seq(s, c, fuel).fault is None,
        machine_sized(c),
    ensures
        run_seq(coalesce_seq(s), c, fuel) == run_seq(s, c, fuel),
    decreases fuel, s, 1nat,
{
    lemma_coalesce_fold_preserves(s, c, fuel);
}

proof fn lemma_coalesce_fold_preserves(s: Seq<Node>, c: Config, fuel: nat)
    requires
        run_seq(s, c, fuel).fault is None,
        machine_sized(c),
    ensures
        run_seq(flush(coalesce_fold(s)), c, fuel) == run_seq(s, c, fuel),
    decreases fuel, s, 0nat,
{
    if s.len() > 0 {
        let k = s.len() - 1;
        let front = s.subrange(0, k);
        lemma_seq_split(s, c, fuel);
        lemma_coalesce_fold_preserves(front, c, fuel);
        let f = coalesce_fold(front);
        let c1 = run_seq(front, c, fuel).cfg;
        lemma_tape_len_seq(front, c, fuel);
        match s[k] {
            Node::Root(b) => {
                lemma_run_push(flush(f), Node::Root(coalesce_seq(b)), c, fuel);
                lemma_coalesce_seq_preserves(b, c1, fuel);
            },
            Node::Loop(b) => {
                lemma_run_push(flush(f), Node::Loop(coalesce_seq(b)), c, fuel);
                lemma_coalesce_loop_preserves(b, c1, fuel);
            },
            x => {
                lemma_absorb_preserves(f, x, c, fuel);
            },
        }
    }
}

proof fn lemma_coalesce_loop_preserves(b: Seq<Node>, c: Config, fuel: nat)
    requires
        run_loop(b, c, fuel).fault is None,
        machine_sized(c),
    ensures
        run_loop(coalesce_seq(b), c, fuel) == run_loop(b, c, fuel),
    decreases fuel, b, 0nat,
{
    if on_tape(c) && c.cells[c.pos] != 0 && fuel > 0 {
        let f = (fuel - 1) as nat;
        lemma_coalesce_seq_preserves(b, c, f);
        lemma_tape_len_seq(b, c, f);
        lemma_coalesce_loop_preserves(b, run_seq(b, c, f).cfg, f);
    }
}

/// Optimizing keeps what a program does. Where the program runs to its end
/// from a state whose current cell holds 0, as on a fresh tape, the program
/// that `perform_all` makes of it runs to the same end: the same tape,
/// cursor, input left over and output, with no more loop iterations.
pub proof fn lemma_optimize_preserves(b: Seq<Node>, c: Config, fuel: nat)
    requires
        root_free_seq(b),
        machine_sized(c),
        on_tape(c),
        c.cells[c.pos] == 0,
        step(Node::Root(b), c, fuel).fault is None,
    ensures
        step(optimize_node(Node::Root(b)), c, fuel) == step(Node::Root(b), c, fuel),
{
    lemma_strip_seq_preserves(b, c, fuel, true);
    let b1 = strip_seq(b, true);
    lemma_zero_seq_preserves(b1, c, fuel);
    let b2 = zero_seq(b1);
    lemma_coalesce_seq_preserves(b2, c, fuel);
}

/// A tree as the builder makes it holds no nested `Root`.
pub proof fn lemma_built_root_free(i: BFSyntax)
    requires
        built(i),
    ensures
        root_free(model(i)),
    decreases i,
{
    if let BFSyntax::Loop(b) = i {
        lemma_built_seq_root_free(b@);
    }
}

/// The nodes that the builder makes hold no nested `Root`.
pub proof fn lemma_built_seq_root_free(s: Seq<BFSyntax>)
    requires
        built_seq(s),
    ensures
        root_free_seq(model_seq(s)),
    decreases s,
{
    if s.len() > 0 {
        let front = s.subrange(0, s.len() - 1);
        lemma_built_seq_root_free(front);
        lemma_built_root_free(s[s.len() - 1]);
        assert(model_seq(s).subrange(0, model_seq(s).len() - 1) =~= model_seq(front));
    }
}

} // verus!
