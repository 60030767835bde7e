use vstd::prelude::*;

use crate::error::BFError;
use crate::syntax::{depth, Node};
use crate::tokens::BFToken;

verus! {

/// The state of a run: the tape, the cursor, the input still to be read and
/// the output written so far.
pub struct Config {
    pub cells: Seq<u8>,
    pub pos: int,
    pub input: Seq<u8>,
    pub output: Seq<u8>,
}

/// Where a run ends: its last state, and the fault that stopped it if any.
pub struct Outcome {
    pub cfg: Config,
    pub fault: Option<BFError>,
}

/// A run that ended without fault.
pub open spec fn done(c: Config) -> Outcome {
    Outcome { cfg: c, fault: None }
}

/// A run stopped by the fault `e`, in the state where it happened.
pub open spec fn fail(c: Config, e: BFError) -> Outcome {
    Outcome { cfg: c, fault: Some(e) }
}

/// The cursor stands on a cell of the tape.
pub open spec fn on_tape(c: Config) -> bool {
    0 <= c.pos < c.cells.len()
}

/// `a + n` modulo 256.
pub open spec fn add_wrap(a: u8, n: u8) -> u8 {
    ((a as int + n as int) % 256) as u8
}

/// `a - n` modulo 256.
pub open spec fn sub_wrap(a: u8, n: u8) -> u8 {
    ((a as int + 256 - n as int) % 256) as u8
}

/// The state with the current cell set to `v`.
pub open spec fn put(c: Config, v: u8) -> Config {
    Config { cells: c.cells.update(c.pos, v), ..c }
}

/// The state with the cursor moved to `p`, or the fault of leaving the tape.
pub open spec fn move_to(c: Config, p: int) -> Outcome {
    if 0 <= p < c.cells.len() {
        done(Config { pos: p, ..c })
    } else {
        fail(c, BFError::OutOfBounds)
    }
}

/// What one node does. `fuel` bounds the iterations of each loop: a loop
/// that would iterate once more than its fuel allows stops the run with
/// `LoopLimit`, and each iteration runs its body with one less.
pub open spec fn step(i: Node, c: Config, fuel: nat) -> Outcome
    decreases fuel, i,
{
    match i {
        Node::Root(b) => run_seq(b, c, fuel),
        Node::Loop(b) => run_loop(b, c, fuel),
        Node::Left(n) => move_to(c, c.pos - n),
        Node::Right(n) => move_to(c, c.pos + n),
        _ => if !on_tape(c) {
            fail(c, BFError::OutOfBounds)
        } else {
            let v = c.cells[c.pos];
            match i {
                Node::Inc(n) => done(put(c, add_wrap(v, n))),
                Node::Dec(n) => done(put(c, sub_wrap(v, n))),
                Node::Assign(n) => done(put(c, n)),
                Node::Read => if c.input.len() == 0 {
                    fail(c, BFError::EndOfInput)
                } else {
                    done(Config { input: c.input.drop_first(), ..put(c, c.input[0]) })
                },
                _ => done(Config { output: c.output.push(v), ..c }),
            }
        },
    }
}

/// What a sequence of nodes does, run in order until one faults.
pub open spec fn run_seq(s: Seq<Node>, c: Config, fuel: nat) -> Outcome
    decreases fuel, s,
{
    if s.len() == 0 {
        done(c)
    } else {
        let o = run_seq(s.subrange(0, s.len() - 1), c, fuel);
        if o.fault is Some {
            o
        } else {
            step(s[s.len() - 1], o.cfg, fuel)
        }
    }
}

/// What a loop with the given body does: while the current cell is not 0,
/// run the body.
pub open spec fn run_loop(body: Seq<Node>, c: Config, fuel: nat) -> Outcome
    decreases fuel, body,
{
    if !on_tape(c) {
        fail(c, BFError::OutOfBounds)
    } else if c.cells[c.pos] == 0 {
        done(c)
    } else if fuel == 0 {
        fail(c, BFError::LoopLimit)
    } else {
        let o = run_seq(body, c, (fuel - 1) as nat);
        if o.fault is Some {
            o
        } else {
            run_loop(body, o.cfg, (fuel - 1) as nat)
        }
    }
}

/// Once a prefix of a sequence faults, the rest of the sequence is not run.
pub proof fn lemma_seq_fault_prefix(s: Seq<Node>, j: int, c: Config, fuel: nat)
    requires
        0 <= j <= s.len(),
        run_seq(s.take(j), c, fuel).fault is Some,
    ensures
        run_seq(s, c, fuel) == run_seq(s.take(j), c, fuel),
    decreases s.len(),
{
    if s.len() == j {
        assert(s.take(j) =~= s);
    } else {
        let front = s.subrange(0, s.len() - 1);
        assert(front.take(j) =~= s.take(j));
        lemma_seq_fault_prefix(front, j, c, fuel);
    }
}

/// `j` is the close bracket that matches the open bracket at `i`: the first
/// close bracket after `i` with as many open as close brackets between them.
pub open spec fn forward_match(p: Seq<BFToken>, i: int, j: int) -> bool {
    &&& 0 <= i < j < p.len()
    &&& p[j] == BFToken::EndLoop
    &&& depth(p.subrange(i + 1, j)) == 0
    &&& forall|k: int|
        i < k < j ==> !(p[k] == BFToken::EndLoop && #[trigger] depth(p.subrange(i + 1, k)) == 0)
}

/// `j` is the open bracket that matches the close bracket at `i`: the last
/// open bracket before `i` with as many open as close brackets between them.
pub open spec fn backward_match(p: Seq<BFToken>, i: int, j: int) -> bool {
    &&& 0 <= j < i < p.len()
    &&& p[j] == BFToken::BeginLoop
    &&& depth(p.subrange(j + 1, i)) == 0
    &&& forall|k: int|
        j < k < i ==> !(p[k] == BFToken::BeginLoop && #[trigger] depth(p.subrange(k + 1, i)) == 0)
}

/// The node that a symbol other than a bracket stands for.
pub open spec fn node_of(t: BFToken) -> Node {
    match t {
        BFToken::Inc => Node::Inc(1),
        BFToken::Dec => Node::Dec(1),
        BFToken::Left => Node::Left(1),
        BFToken::Right => Node::Right(1),
        BFToken::Read => Node::Read,
        _ => Node::Write,
    }
}

/// One instruction of a flat symbol program at `ip`: the position of the
/// last symbol it covers, and its outcome. A bracket that jumps to a partner
/// it does not have is a `SyntaxError`.
pub open spec fn flat_step(p: Seq<BFToken>, ip: int, c: Config) -> (int, Outcome) {
    match p[ip] {
        BFToken::BeginLoop => if !on_tape(c) {
            (ip, fail(c, BFError::OutOfBounds))
        } else if c.cells[c.pos] != 0 {
            (ip, done(c))
        } else if exists|j: int| forward_match(p, ip, j) {
            (choose|j: int| forward_match(p, ip, j), done(c))
        } else {
            (ip, fail(c, BFError::SyntaxError))
        },
        BFToken::EndLoop => if !on_tape(c) {
            (ip, fail(c, BFError::OutOfBounds))
        } else if c.cells[c.pos] == 0 {
            (ip, done(c))
        } else if exists|j: int| backward_match(p, ip, j) {
            (choose|j: int| backward_match(p, ip, j), done(c))
        } else {
            (ip, fail(c, BFError::SyntaxError))
        },
        t => (ip, step(node_of(t), c, 0)),
    }
}

/// A flat symbol program run from `ip` for at most `fuel` instructions.
pub open spec fn flat_run(p: Seq<BFToken>, ip: int, c: Config, fuel: nat) -> Outcome
    decreases fuel,
{
    if ip < 0 || ip >= p.len() {
        done(c)
    } else if fuel == 0 {
        fail(c, BFError::LoopLimit)
    } else {
        let (j, o) = flat_step(p, ip, c);
        if o.fault is Some {
            o
        } else {
            flat_run(p, j + 1, o.cfg, (fuel - 1) as nat)
        }
    }
}

/// The state with `y` appended to the input still to be read.
pub open spec fn feed(c: Config, y: Seq<u8>) -> Config {
    Config { input: c.input + y, ..c }
}

/// A node that runs to its end reads only from the front of its input:
/// more input behind it is left over unread.
pub proof fn lemma_step_frame(i: Node, c: Config, fuel: nat, y: Seq<u8>)
    requires
        step(i, c, fuel).fault is None,
    ensures
        step(i, feed(c, y), fuel) == done(feed(step(i, c, fuel).cfg, y)),
    decreases fuel, i,
{
    match i {
        Node::Root(b) => lemma_seq_frame(b, c, fuel, y),
        Node::Loop(b) => lemma_loop_frame(b, c, fuel, y),
        Node::Read => {
            assert((c.input + y).drop_first() == c.input.drop_first() + y);
        },
        _ => {},
    }
}

/// The frame property for a sequence of nodes.
pub proof fn lemma_seq_frame(s: Seq<Node>, c: Config, fuel: nat, y: Seq<u8>)
    requires
        run_seq(s, c, fuel).fault is None,
    ensures
        run_seq(s, feed(c, y), fuel) == done(feed(run_seq(s, c, fuel).cfg, y)),
    decreases fuel, s,
{
    if s.len() > 0 {
        let front = s.subrange(0, s.len() - 1);
        lemma_seq_frame(front, c, fuel, y);
        lemma_step_frame(s[s.len() - 1], run_seq(front, c, fuel).cfg, fuel, y);
    }
}

/// The frame property for a loop.
pub proof fn lemma_loop_frame(body: Seq<Node>, c: Config, fuel: nat, y: Seq<u8>)
    requires
        run_loop(body, c, fuel).fault is None,
    ensures
        run_loop(body, feed(c, y), fuel) == done(feed(run_loop(body, c, fuel).cfg, y)),
    decreases fuel, body,
{
    if on_tape(c) && c.cells[c.pos] != 0 && fuel > 0 {
        let f = (fuel - 1) as nat;
        lemma_seq_frame(body, c, f, y);
        lemma_loop_frame(body, run_seq(body, c, f).cfg, f, y);
    }
}

/// Cell arithmetic wraps around: adding 1 to a cell that holds 255 gives 0,
/// and taking 1 from a cell that holds 0 gives 255.
pub proof fn lemma_wraparound(c: Config, fuel: nat)
    requires
        on_tape(c),
    ensures
        c.cells[c.pos] == 255 ==> step(Node::Inc(1), c, fuel) == done(put(c, 0)),
        c.cells[c.pos] == 0 ==> step(Node::Dec(1), c, fuel) == done(put(c, 255)),
{
}

/// A loop whose current cell already holds 0 runs its body no time: it
/// leaves the state as it found it.
pub proof fn lemma_loop_on_zero(body: Seq<Node>, c: Config, fuel: nat)
    requires
        on_tape(c),
        c.cells[c.pos] == 0,
    ensures
        step(Node::Loop(body), c, fuel) == done(c),
{
}

} // verus!
