use vstd::prelude::*;

use crate::error::BFError;
use crate::semantics::{
    backward_match, done, feed, flat_run, flat_step, forward_match, lemma_seq_fault_prefix,
    lemma_seq_frame, lemma_step_frame, node_of, run_loop, run_seq, step, Config, Outcome,
};
use crate::syntax::{depth, lemma_model_seq, model, model_seq, BFSyntax, Node};
use crate::tokens::BFToken;

verus! {

/// The number of cells of a fresh tape.
pub const TAPE_LEN: usize = 30000;

/// A source of input bytes, read one at a time.
pub trait ByteInput {
    /// The next byte, or `None` once the stream is exhausted.
    fn read_byte(&mut self) -> Option<u8>;
}

/// A sink for output bytes, written one at a time and flushed at once.
pub trait ByteOutput {
    fn write_byte(&mut self, b: u8);
}

/// Input held in memory, handed out from the front.
pub struct InputBuffer {
    data: Vec<u8>,
    next: usize,
}

impl InputBuffer {
    #[verifier::type_invariant]
    spec fn next_in_range(&self) -> bool {
        self.next <= self.data@.len()
    }

    /// The bytes not yet handed out.
    pub closed spec fn remaining(&self) -> Seq<u8> {
        self.data@.subrange(self.next as int, self.data@.len() as int)
    }

    pub fn new(data: Vec<u8>) -> (r: InputBuffer)
        ensures
            r.remaining() == data@,
    {
        proof {
            assert(data@.subrange(0, data@.len() as int) == data@);
        }
        InputBuffer { data, next: 0 }
    }

    /// Takes the next byte, `None` once all are taken.
    pub fn take_byte(&mut self) -> (r: Option<u8>)
        ensures
            old(self).remaining().len() == 0 ==> r is None && final(self).remaining() == old(
                self,
            ).remaining(),
            old(self).remaining().len() > 0 ==> r == Some(old(self).remaining()[0])
                && final(self).remaining() == old(self).remaining().drop_first(),
    {
        proof {
            use_type_invariant(&*self);
        }
        if self.next < self.data.len() {
            let b = self.data[self.next];
            self.next = self.next + 1;
            proof {
                assert(final(self).remaining() == old(self).remaining().drop_first());
            }
            Some(b)
        } else {
            None
        }
    }
}

impl ByteInput for InputBuffer {
    fn read_byte(&mut self) -> Option<u8> {
        self.take_byte()
    }
}

impl ByteOutput for Vec<u8> {
    fn write_byte(&mut self, b: u8) {
        self.push(b);
    }
}

/// The tape machine that walks a program tree.
///
/// `consumed` and `emitted` record, for proofs only, every byte that the
/// machine has read from its input and written to its output.
pub struct Machine {
    pub cells: Vec<u8>,
    pub position: usize,
    pub loop_limit: u64,
    pub consumed: Ghost<Seq<u8>>,
    pub emitted: Ghost<Seq<u8>>,
}

impl Default for Machine {
    fn default() -> (r: Machine)
        ensures
            r.cells@ == Seq::new(TAPE_LEN as nat, |i: int| 0u8),
            r.position == 0,
            r.loop_limit == u64::MAX,
    {
        Machine::new()
    }
}

/// The outcome that a result of the machine and its state after a run stand for.
pub open spec fn outcome_of(c: Config, r: Result<(), BFError>) -> Outcome {
    Outcome {
        cfg: c,
        fault: match r {
            Ok(_) => None,
            Err(e) => Some(e),
        },
    }
}

impl Machine {
    /// The machine's state as a run sees it, with `input` still to be read.
    pub open spec fn config(&self, input: Seq<u8>) -> Config {
        Config {
            cells: self.cells@,
            pos: self.position as int,
            input,
            output: self.emitted@,
        }
    }

    /// The bytes read after the first `from` of all that were read.
    pub open spec fn read_since(&self, from: int) -> Seq<u8> {
        self.consumed@.subrange(from, self.consumed@.len() as int)
    }

    /// A fresh machine: 30000 cells of 0, the cursor on the first, and no
    /// bound on loops that a run could reach.
    pub fn new() -> (r: Machine)
        ensures
            r.cells@ == Seq::new(TAPE_LEN as nat, |i: int| 0u8),
            r.position == 0,
            r.loop_limit == u64::MAX,
            r.consumed@ == Seq::<u8>::empty(),
            r.emitted@ == Seq::<u8>::empty(),
    {
        let mut cells: Vec<u8> = Vec::new();
        let mut i: usize = 0;
        while i < TAPE_LEN
            invariant
                i <= TAPE_LEN,
                cells@ == Seq::new(i as nat, |k: int| 0u8),
            decreases TAPE_LEN - i,
        {
            cells.push(0);
            i = i + 1;
        }
        Machine {
            cells,
            position: 0,
            loop_limit: u64::MAX,
            consumed: Ghost(Seq::empty()),
            emitted: Ghost(Seq::empty()),
        }
    }

    /// Runs a program on this machine. The run is the one that the bytes read
    /// from `input` give: it leaves the state, output and fault that
    /// `step` gives for exactly that input, each loop bounded by
    /// `loop_limit`.
    pub fn execute<I: ByteInput, O: ByteOutput>(
        &mut self,
        program: BFSyntax,
        input: &mut I,
        output: &mut O,
    ) -> (r: Result<(), BFError>)
        ensures
            final(self).loop_limit == old(self).loop_limit,
            old(self).consumed@.len() <= final(self).consumed@.len(),
            final(self).consumed@.subrange(0, old(self).consumed@.len() as int) =~= old(
                self,
            ).consumed@,
            step(
                model(program),
                old(self).config(final(self).read_since(old(self).consumed@.len() as int)),
                old(self).loop_limit as nat,
            ) == outcome_of(final(self).config(Seq::empty()), r),
    {
        let fuel = self.loop_limit;
        self.run_node(&program, input, output, fuel)
    }

    fn run_node<I: ByteInput, O: ByteOutput>(
        &mut self,
        node: &BFSyntax,
        input: &mut I,
        output: &mut O,
        fuel: u64,
    ) -> (r: Result<(), BFError>)
        ensures
            final(self).loop_limit == old(self).loop_limit,
            old(self).consumed@.len() <= final(self).consumed@.len(),
            final(self).consumed@.subrange(0, old(self).consumed@.len() as int) =~= old(
                self,
            ).consumed@,
            step(
                model(*node),
                old(self).config(final(self).read_since(old(self).consumed@.len() as int)),
                fuel as nat,
            ) == outcome_of(final(self).config(Seq::empty()), r),
        decreases fuel, node,
    {
        match node {
            BFSyntax::Root(b) => self.run_block(b, input, output, fuel),
            BFSyntax::Loop(b) => self.run_loop(b, input, output, fuel),
            BFSyntax::Left(n) => {
                proof {
                    assert(self.read_since(self.consumed@.len() as int) =~= Seq::<u8>::empty());
                }
                if *n <= self.position && self.position - *n < self.cells.len() {
                    self.position = self.position - *n;
                    Ok(())
                } else {
                    Err(BFError::OutOfBounds)
                }
            },
            BFSyntax::Right(n) => {
                proof {
                    assert(self.read_since(self.consumed@.len() as int) =~= Seq::<u8>::empty());
                }
                if *n < self.cells.len() && self.position < self.cells.len() - *n {
                    self.position = self.position + *n;
                    Ok(())
                } else {
                    Err(BFError::OutOfBounds)
                }
            },
            _ => self.run_cell_op(node, input, output, Ghost(fuel as nat)),
        }
    }

    /// Runs a node that uses the current cell.
    fn run_cell_op<I: ByteInput, O: ByteOutput>(
        &mut self,
        node: &BFSyntax,
        input: &mut I,
        output: &mut O,
        Ghost(fuel): Ghost<nat>,
    ) -> (r: Result<(), BFError>)
        requires
            !(node is Root || node is Loop || node is Left || node is Right),
        ensures
            final(self).loop_limit == old(self).loop_limit,
            old(self).consumed@.len() <= final(self).consumed@.len(),
            final(self).consumed@.subrange(0, old(self).consumed@.len() as int) =~= old(
                self,
            ).consumed@,
            step(
                model(*node),
                old(self).config(final(self).read_since(old(self).consumed@.len() as int)),
                fuel,
            ) == outcome_of(final(self).config(Seq::empty()), r),
    {
        let ghost n0 = self.consumed@.len() as int;
        proof {
            assert(self.read_since(n0) =~= Seq::<u8>::empty());
        }
        if self.position >= self.cells.len() {
            return Err(BFError::OutOfBounds);
        }
        let p = self.position;
        let v = self.cells[p];
        match node {
            BFSyntax::Inc(n) => {
                let w = v.wrapping_add(*n);
                self.cells.set(p, w);
                Ok(())
            },
            BFSyntax::Dec(n) => {
                let w = v.wrapping_sub(*n);
                self.cells.set(p, w);
                Ok(())
            },
            BFSyntax::Assign(n) => {
                self.cells.set(p, *n);
                Ok(())
            },
            BFSyntax::Read => {
                match input.read_byte() {
                    Some(b) => {
                        self.cells.set(p, b);
                        self.consumed = Ghost(self.consumed@.push(b));
                        proof {
                            assert(self.read_since(n0) =~= seq![b]);
                            assert(seq![b].drop_first() =~= Seq::<u8>::empty());
                        }
                        Ok(())
                    },
                    None => Err(BFError::EndOfInput),
                }
            },
            _ => {
                output.write_byte(v);
                self.emitted = Ghost(self.emitted@.push(v));
                Ok(())
            },
        }
    }

    fn run_block<I: ByteInput, O: ByteOutput>(
        &mut self,
        body: &Vec<BFSyntax>,
        input: &mut I,
        output: &mut O,
        fuel: u64,
    ) -> (r: Result<(), BFError>)
        ensures
            final(self).loop_limit == old(self).loop_limit,
            old(self).consumed@.len() <= final(self).consumed@.len(),
            final(self).consumed@.subrange(0, old(self).consumed@.len() as int) =~= old(
                self,
            ).consumed@,
            run_seq(
                model_seq(body@),
                old(self).config(final(self).read_since(old(self).consumed@.len() as int)),
                fuel as nat,
            ) == outcome_of(final(self).config(Seq::empty()), r),
        decreases fuel, body,
    {
        let ghost start = *self;
        let ghost n0 = self.consumed@.len() as int;
        let ghost ms = model_seq(body@);
        proof {
            lemma_model_seq(body@);
        }
        let mut i: usize = 0;
        proof {
            assert(ms.take(0) =~= Seq::<Node>::empty());
            assert(self.read_since(n0) =~= Seq::<u8>::empty());
        }
        while i < body.len()
            invariant
                i <= ms.len(),
                ms == model_seq(body@),
                ms.len() == body@.len(),
                start == *old(self),
                self.loop_limit == start.loop_limit,
                n0 == start.consumed@.len(),
                n0 <= self.consumed@.len(),
                self.consumed@.subrange(0, n0) =~= start.consumed@,
                run_seq(ms.take(i as int), start.config(self.read_since(n0)), fuel as nat)
                    == done(self.config(Seq::empty())),
            decreases ms.len() - i,
        {
            let ghost mid = *self;
            let ghost g0 = self.read_since(n0);
            let r = self.run_node(&body[i], input, output, fuel);
            proof {
                lemma_model_seq(body@);
            }
            proof {
                let g = self.read_since(mid.consumed@.len() as int);
                assert(self.read_since(n0) =~= g0 + g);
                lemma_block_step(ms, i as int, start, g0, fuel as nat, mid, g);
            }
            if r.is_err() {
                proof {
                    lemma_seq_fault_prefix(
                        ms,
                        i + 1,
                        start.config(self.read_since(n0)),
                        fuel as nat,
                    );
                }
                return r;
            }
            i = i + 1;
        }
        proof {
            assert(ms.take(i as int) =~= ms);
        }
        Ok(())
    }

    fn run_loop<I: ByteInput, O: ByteOutput>(
        &mut self,
        body: &Vec<BFSyntax>,
        input: &mut I,
        output: &mut O,
        fuel: u64,
    ) -> (r: Result<(), BFError>)
        ensures
            final(self).loop_limit == old(self).loop_limit,
            old(self).consumed@.len() <= final(self).consumed@.len(),
            final(self).consumed@.subrange(0, old(self).consumed@.len() as int) =~= old(
                self,
            ).consumed@,
            run_loop(
                model_seq(body@),
                old(self).config(final(self).read_since(old(self).consumed@.len() as int)),
                fuel as nat,
            ) == outcome_of(final(self).config(Seq::empty()), r),
        decreases fuel, body,
    {
        let ghost start = *self;
        let ghost n0 = self.consumed@.len() as int;
        let ghost ms = model_seq(body@);
        let mut k: u64 = fuel;
        proof {
            assert forall|z: Seq<u8>|
                #![trigger self.config(z)]
                run_loop(ms, start.config(self.read_since(n0) + z), fuel as nat)
                    == run_loop(ms, self.config(z), k as nat) by {
                assert(self.read_since(n0) + z =~= z);
            }
        }
        loop
            invariant
                k <= fuel,
                ms == model_seq(body@),
                start == *old(self),
                self.loop_limit == start.loop_limit,
                n0 == start.consumed@.len(),
                n0 <= self.consumed@.len(),
                self.consumed@.subrange(0, n0) =~= start.consumed@,
                forall|z: Seq<u8>|
                    #![trigger self.config(z)]
                    run_loop(ms, start.config(self.read_since(n0) + z), fuel as nat)
                        == run_loop(ms, self.config(z), k as nat),
            decreases k,
        {
            proof {
                assert(self.read_since(n0) + Seq::<u8>::empty() =~= self.read_since(n0));
                assert(run_loop(ms, start.config(self.read_since(n0) + Seq::<u8>::empty()), fuel as nat)
                        == run_loop(ms, self.config(Seq::<u8>::empty()), k as nat));
            }
            if self.position >= self.cells.len() {
                return Err(BFError::OutOfBounds);
            }
            if self.cells[self.position] == 0 {
                return Ok(());
            }
            if k == 0 {
                return Err(BFError::LoopLimit);
            }
            k = k - 1;
            let ghost mid = *self;
            let ghost g0 = self.read_since(n0);
            let r = self.run_block(body, input, output, k);
            proof {
                let g = self.read_since(mid.consumed@.len() as int);
                assert(self.read_since(n0) =~= g0 + g);
                lemma_loop_iteration(ms, start, g0, fuel as nat, mid, g, *self, k as nat);
            }
            if r.is_err() {
                return r;
            }
        }
    }
}

/// One more node of a block run on the machine: the run of the first `i + 1`
/// nodes is the run of the first `i` followed by node `i`.
proof fn lemma_block_step(
    body: Seq<Node>,
    i: int,
    start: Machine,
    pre: Seq<u8>,
    fuel: nat,
    mid: Machine,
    g: Seq<u8>,
)
    requires
        0 <= i < body.len(),
        run_seq(body.take(i), start.config(pre), fuel) == done(mid.config(Seq::empty())),
    ensures
        forall|after: Machine, r: Result<(), BFError>|
            step(body[i], mid.config(g), fuel) == outcome_of(after.config(Seq::empty()), r)
                ==> run_seq(body.take(i + 1), start.config(pre + g), fuel) == outcome_of(
                after.config(Seq::empty()),
                r,
            ),
{
    lemma_seq_frame(body.take(i), start.config(pre), fuel, g);
    assert(feed(start.config(pre), g) == start.config(pre + g));
    assert(Seq::<u8>::empty() + g =~= g);
    assert(feed(mid.config(Seq::empty()), g) == mid.config(g));
    assert(body.take(i + 1).subrange(0, i) =~= body.take(i));
}

/// One more iteration of a loop run on the machine.
proof fn lemma_loop_iteration(
    body: Seq<Node>,
    start: Machine,
    pre: Seq<u8>,
    fuel: nat,
    mid: Machine,
    g: Seq<u8>,
    next: Machine,
    k: nat,
)
    requires
        forall|z: Seq<u8>|
            #![trigger mid.config(z)]
            run_loop(body, start.config(pre + z), fuel) == run_loop(body, mid.config(z), k + 1),
        0 <= mid.position < mid.cells@.len(),
        mid.cells@[mid.position as int] != 0,
    ensures
        forall|r: Result<(), BFError>|
            run_seq(body, mid.config(g), k) == outcome_of(next.config(Seq::empty()), r) ==> {
                &&& r is Err ==> run_loop(body, start.config(pre + g), fuel) == outcome_of(
                    next.config(Seq::empty()),
                    r,
                )
                &&& r is Ok ==> forall|z: Seq<u8>|
                    #![trigger next.config(z)]
                    run_loop(body, start.config(pre + g + z), fuel) == run_loop(
                        body,
                        next.config(z),
                        k,
                    )
            },
{
    assert forall|r: Result<(), BFError>|
        run_seq(body, mid.config(g), k) == outcome_of(next.config(Seq::empty()), r) implies {
        &&& r is Err ==> run_loop(body, start.config(pre + g), fuel) == outcome_of(
            next.config(Seq::empty()),
            r,
        )
        &&& r is Ok ==> forall|z: Seq<u8>|
            #![trigger next.config(z)]
            run_loop(body, start.config(pre + g + z), fuel) == run_loop(body, next.config(z), k)
    } by {
        assert(run_loop(body, start.config(pre + g), fuel) == run_loop(body, mid.config(g), k + 1));
        if r is Ok {
            assert forall|z: Seq<u8>|
                #![trigger next.config(z)]
                run_loop(body, start.config(pre + g + z), fuel) == run_loop(
                    body,
                    next.config(z),
                    k,
                ) by {
                assert(pre + g + z =~= pre + (g + z));
                assert(run_loop(body, start.config(pre + (g + z)), fuel) == run_loop(
                    body,
                    mid.config(g + z),
                    k + 1,
                ));
                lemma_seq_frame(body, mid.config(g), k, z);
                assert(feed(mid.config(g), z) == mid.config(g + z));
                assert(Seq::<u8>::empty() + z =~= z);
                assert(feed(next.config(Seq::empty()), z) == next.config(z));
            }
        }
    }
}

/// An interpreter that runs the symbols as a flat program, finding the
/// partner of a bracket by scanning whenever it jumps.
pub struct Interpreter {
    pub program: Vec<BFToken>,
    pub ip: usize,
    pub tape: Machine,
    pub step_limit: u64,
}

impl Interpreter {
    /// An interpreter at the first symbol of `program`, with a fresh tape and
    /// no bound on steps that a run could reach.
    pub fn new(program: Vec<BFToken>) -> (r: Interpreter)
        ensures
            r.program == program,
            r.ip == 0,
            r.tape.cells@ == Seq::new(TAPE_LEN as nat, |i: int| 0u8),
            r.tape.position == 0,
            r.tape.consumed@ == Seq::<u8>::empty(),
            r.tape.emitted@ == Seq::<u8>::empty(),
            r.step_limit == u64::MAX,
    {
        Interpreter { program, ip: 0, tape: Machine::new(), step_limit: u64::MAX }
    }

    /// Runs the program from the current symbol to its end. The run is the
    /// one that the bytes read from `input` give, at most `step_limit`
    /// symbols long.
    pub fn execute<I: ByteInput, O: ByteOutput>(&mut self, input: &mut I, output: &mut O) -> (r:
        Result<(), BFError>)
        ensures
            final(self).program == old(self).program,
            old(self).tape.consumed@.len() <= final(self).tape.consumed@.len(),
            flat_run(
                old(self).program@,
                old(self).ip as int,
                old(self).tape.config(
                    final(self).tape.read_since(old(self).tape.consumed@.len() as int),
                ),
                old(self).step_limit as nat,
            ) == outcome_of(final(self).tape.config(Seq::empty()), r),
    {
        let ghost start = *self;
        let ghost n0 = self.tape.consumed@.len() as int;
        let ghost p = self.program@;
        let mut k: u64 = self.step_limit;
        proof {
            assert forall|z: Seq<u8>|
                #![trigger self.tape.config(z)]
                flat_run(p, start.ip as int, start.tape.config(self.tape.read_since(n0) + z), start.step_limit as nat)
                    == flat_run(p, self.ip as int, self.tape.config(z), k as nat) by {
                assert(self.tape.read_since(n0) + z =~= z);
            }
        }
        while self.ip < self.program.len()
            invariant
                k <= start.step_limit,
                start == *old(self),
                p == self.program@,
                self.program == start.program,
                n0 == start.tape.consumed@.len(),
                n0 <= self.tape.consumed@.len(),
                self.tape.consumed@.subrange(0, n0) =~= start.tape.consumed@,
                forall|z: Seq<u8>|
                    #![trigger self.tape.config(z)]
                    flat_run(p, start.ip as int, start.tape.config(self.tape.read_since(n0) + z), start.step_limit as nat)
                        == flat_run(p, self.ip as int, self.tape.config(z), k as nat),
            decreases k,
        {
            proof {
                assert(self.tape.read_since(n0) + Seq::<u8>::empty() =~= self.tape.read_since(n0));
                assert(flat_run(p, start.ip as int, start.tape.config(self.tape.read_since(n0) + Seq::<u8>::empty()), start.step_limit as nat)
                        == flat_run(p, self.ip as int, self.tape.config(Seq::<u8>::empty()), k as nat));
            }
            if k == 0 {
                return Err(BFError::LoopLimit);
            }
            k = k - 1;
            let ghost mid = self.tape;
            let ghost ip = self.ip as int;
            let ghost g0 = self.tape.read_since(n0);
            let r = self.interpret(input, output);
            proof {
                let g = self.tape.read_since(mid.consumed@.len() as int);
                assert(self.tape.read_since(n0) =~= g0 + g);
                lemma_flat_iteration(
                    p,
                    start.ip as int,
                    start.tape,
                    g0,
                    start.step_limit as nat,
                    ip,
                    mid,
                    g,
                    self.tape,
                    k as nat,
                    self.ip as int,
                    r,
                );
                assert(self.tape.read_since(n0) + Seq::<u8>::empty() =~= self.tape.read_since(n0));
            }
            if r.is_err() {
                return r;
            }
            self.ip = self.ip + 1;
        }
        proof {
            assert(self.tape.read_since(n0) + Seq::<u8>::empty() =~= self.tape.read_since(n0));
        }
        Ok(())
    }

    /// Runs the symbol at `ip`, leaving `ip` on the last symbol it covers.
    fn interpret<I: ByteInput, O: ByteOutput>(&mut self, input: &mut I, output: &mut O) -> (r:
        Result<(), BFError>)
        requires
            old(self).ip < old(self).program@.len(),
        ensures
            final(self).program == old(self).program,
            final(self).step_limit == old(self).step_limit,
            final(self).ip < final(self).program@.len(),
            old(self).tape.consumed@.len() <= final(self).tape.consumed@.len(),
            final(self).tape.consumed@.subrange(0, old(self).tape.consumed@.len() as int) =~= old(
                self,
            ).tape.consumed@,
            flat_step(
                old(self).program@,
                old(self).ip as int,
                old(self).tape.config(
                    final(self).tape.read_since(old(self).tape.consumed@.len() as int),
                ),
            ) == (final(self).ip as int, outcome_of(final(self).tape.config(Seq::empty()), r)),
    {
        let ghost n0 = self.tape.consumed@.len() as int;
        proof {
            assert(self.tape.read_since(n0) =~= Seq::<u8>::empty());
        }
        let t = self.program[self.ip];
        match t {
            BFToken::BeginLoop => {
                if self.tape.position >= self.tape.cells.len() {
                    return Err(BFError::OutOfBounds);
                }
                if self.tape.cells[self.tape.position] != 0 {
                    return Ok(());
                }
                match self.advance_to_end() {
                    Some(j) => {
                        proof {
                            let ghost p = self.program@;
                            let ghost i = self.ip as int;
                            assert forall|j2: int| forward_match(p, i, j2) implies j2 == j by {
                                lemma_forward_unique(p, i, j as int, j2);
                            }
                        }
                        self.ip = j;
                        Ok(())
                    },
                    None => Err(BFError::SyntaxError),
                }
            },
            BFToken::EndLoop => {
                if self.tape.position >= self.tape.cells.len() {
                    return Err(BFError::OutOfBounds);
                }
                if self.tape.cells[self.tape.position] == 0 {
                    return Ok(());
                }
                match self.retreat_to_start() {
                    Some(j) => {
                        proof {
                            let ghost p = self.program@;
                            let ghost i = self.ip as int;
                            assert forall|j2: int| backward_match(p, i, j2) implies j2 == j by {
                                lemma_backward_unique(p, i, j as int, j2);
                            }
                        }
                        self.ip = j;
                        Ok(())
                    },
                    None => Err(BFError::SyntaxError),
                }
            },
            _ => {
                let node = match t {
                    BFToken::Inc => BFSyntax::Inc(1),
                    BFToken::Dec => BFSyntax::Dec(1),
                    BFToken::Left => BFSyntax::Left(1),
                    BFToken::Right => BFSyntax::Right(1),
                    BFToken::Read => BFSyntax::Read,
                    _ => BFSyntax::Write,
                };
                proof {
                    assert(model(node) == node_of(t));
                }
                self.tape.run_node(&node, input, output, 0)
            },
        }
    }

    /// The position of the close bracket that matches the open bracket at
    /// `ip`, if it has one.
    fn advance_to_end(&self) -> (r: Option<usize>)
        requires
            self.ip < self.program@.len(),
        ensures
            r matches Some(j) ==> forward_match(self.program@, self.ip as int, j as int),
            r is None ==> !exists|j: int| forward_match(self.program@, self.ip as int, j),
    {
        let ghost p = self.program@;
        let ghost i = self.ip as int;
        let mut depth_now: usize = 0;
        let len = self.program.len();
        let mut at: usize = self.ip + 1;
        proof {
            assert(p.subrange(i + 1, i + 1) =~= Seq::<BFToken>::empty());
        }
        while at < len
            invariant
                len == p.len(),
                p == self.program@,
                i == self.ip,
                i < at <= p.len(),
                depth_now as int == depth(p.subrange(i + 1, at as int)),
                depth_now <= at - i,
                forall|k: int|
                    i < k < at ==> !(p[k] == BFToken::EndLoop && #[trigger] depth(
                        p.subrange(i + 1, k),
                    ) == 0),
            decreases p.len() - at,
        {
            proof {
                assert(p.subrange(i + 1, at as int + 1).drop_last() =~= p.subrange(i + 1, at as int));
            }
            match self.program[at] {
                BFToken::EndLoop => {
                    if depth_now == 0 {
                        return Some(at);
                    }
                    depth_now = depth_now - 1;
                },
                BFToken::BeginLoop => {
                    depth_now = depth_now + 1;
                },
                _ => {},
            }
            at = at + 1;
        }
        None
    }

    /// The position of the open bracket that matches the close bracket at
    /// `ip`, if it has one.
    fn retreat_to_start(&self) -> (r: Option<usize>)
        requires
            self.ip < self.program@.len(),
        ensures
            r matches Some(j) ==> backward_match(self.program@, self.ip as int, j as int),
            r is None ==> !exists|j: int| backward_match(self.program@, self.ip as int, j),
    {
        let ghost p = self.program@;
        let ghost i = self.ip as int;
        let mut depth_now: usize = 0;
        let mut at: usize = self.ip;
        proof {
            assert(p.subrange(i, i) =~= Seq::<BFToken>::empty());
        }
        while at > 0
            invariant
                p == self.program@,
                i == self.ip,
                i < p.len(),
                0 <= at <= i,
                depth_now as int == -depth(p.subrange(at as int, i)),
                depth_now <= i - at,
                forall|k: int|
                    at <= k < i ==> !(p[k] == BFToken::BeginLoop && #[trigger] depth(
                        p.subrange(k + 1, i),
                    ) == 0),
            decreases at,
        {
            let cur = at - 1;
            proof {
                lemma_depth_front(p.subrange(cur as int, i));
                assert(p.subrange(cur as int, i).drop_first() =~= p.subrange(at as int, i));
            }
            match self.program[cur] {
                BFToken::BeginLoop => {
                    if depth_now == 0 {
                        return Some(cur);
                    }
                    depth_now = depth_now - 1;
                },
                BFToken::EndLoop => {
                    depth_now = depth_now + 1;
                },
                _ => {},
            }
            at = cur;
        }
        None
    }
}

proof fn lemma_forward_unique(p: Seq<BFToken>, i: int, j1: int, j2: int)
    requires
        forward_match(p, i, j1),
        forward_match(p, i, j2),
    ensures
        j1 == j2,
{
    if j1 < j2 {
        assert(depth(p.subrange(i + 1, j1)) == 0);
    } else if j2 < j1 {
        assert(depth(p.subrange(i + 1, j2)) == 0);
    }
}

proof fn lemma_backward_unique(p: Seq<BFToken>, i: int, j1: int, j2: int)
    requires
        backward_match(p, i, j1),
        backward_match(p, i, j2),
    ensures
        j1 == j2,
{
    if j1 < j2 {
        assert(depth(p.subrange(j2 + 1, i)) == 0);
    } else if j2 < j1 {
        assert(depth(p.subrange(j1 + 1, i)) == 0);
    }
}

/// The depth of a sequence counted from its first symbol.
proof fn lemma_depth_front(s: Seq<BFToken>)
    requires
        s.len() > 0,
    ensures
        depth(s) == depth(s.drop_first()) + match s[0] {
            BFToken::BeginLoop => 1int,
            BFToken::EndLoop => -1int,
            _ => 0int,
        },
    decreases s.len(),
{
    if s.len() > 1 {
        lemma_depth_front(s.drop_last());
        assert(s.drop_last().drop_first() =~= s.drop_first().drop_last());
    } else {
        assert(s.drop_first() =~= Seq::<BFToken>::empty());
        assert(s.drop_last() =~= Seq::<BFToken>::empty());
    }
}

/// One more symbol of a flat run on the machine.
proof fn lemma_flat_iteration(
    p: Seq<BFToken>,
    ip0: int,
    start: Machine,
    pre: Seq<u8>,
    fuel: nat,
    ip: int,
    mid: Machine,
    g: Seq<u8>,
    next: Machine,
    k: nat,
    j: int,
    r: Result<(), BFError>,
)
    requires
        forall|z: Seq<u8>|
            #![trigger mid.config(z)]
            flat_run(p, ip0, start.config(pre + z), fuel) == flat_run(p, ip, mid.config(z), k + 1),
        0 <= ip < p.len(),
        flat_step(p, ip, mid.config(g)) == (j, outcome_of(next.config(Seq::empty()), r)),
    ensures
        r is Err ==> flat_run(p, ip0, start.config(pre + g), fuel) == outcome_of(
            next.config(Seq::empty()),
            r,
        ),
        r is Ok ==> forall|z: Seq<u8>|
            #![trigger next.config(z)]
            flat_run(p, ip0, start.config(pre + g + z), fuel) == flat_run(p, j + 1, next.config(z), k),
{
    assert(flat_run(p, ip0, start.config(pre + g), fuel) == flat_run(p, ip, mid.config(g), k + 1));
    if r is Ok {
        assert forall|z: Seq<u8>|
            #![trigger next.config(z)]
            flat_run(p, ip0, start.config(pre + g + z), fuel) == flat_run(
                p,
                j + 1,
                next.config(z),
                k,
            ) by {
            assert(pre + g + z =~= pre + (g + z));
            assert(flat_run(p, ip0, start.config(pre + (g + z)), fuel) == flat_run(
                p,
                ip,
                mid.config(g + z),
                k + 1,
            ));
            assert(feed(mid.config(g), z) == mid.config(g + z));
            assert(Seq::<u8>::empty() + z =~= z);
            assert(feed(next.config(Seq::empty()), z) == next.config(z));
            match p[ip] {
                BFToken::BeginLoop => {},
                BFToken::EndLoop => {},
                t => {
                    lemma_step_frame(node_of(t), mid.config(g), 0, z);
                },
            }
        }
    }
}

} // verus!
