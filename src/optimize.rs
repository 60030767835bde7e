use vstd::prelude::*;

use crate::semantics::{add_wrap, sub_wrap};
use crate::syntax::{lemma_model_seq, lemma_model_seq_push, model, model_seq, BFSyntax, Node};

verus! {

/// Node `k` of a sequence is a loop that can never run: it follows another
/// loop, which leaves the current cell at 0, or it stands first in the
/// program, where the whole tape is 0.
pub open spec fn dead_at(s: Seq<Node>, k: int, top: bool) -> bool {
    &&& s[k] is Loop
    &&& if k == 0 {
        top
    } else {
        s[k - 1] is Loop
    }
}

/// A sequence with its dead loops dropped, and the pass applied inside the
/// loops that stay. `top` says whether the sequence is the whole program.
pub open spec fn strip_seq(s: Seq<Node>, top: bool) -> Seq<Node>
    decreases s,
{
    if s.len() == 0 {
        Seq::empty()
    } else {
        let k = s.len() - 1;
        let front = strip_seq(s.subrange(0, k), top);
        if dead_at(s, k, top) {
            front
        } else {
            front.push(strip_node(s[k]))
        }
    }
}

/// Dead-loop elimination on a tree.
pub open spec fn strip_node(n: Node) -> Node
    decreases n,
{
    match n {
        Node::Root(b) => Node::Root(strip_seq(b, true)),
        Node::Loop(b) => Node::Loop(strip_seq(b, false)),
        _ => n,
    }
}

/// Zeroing-loop recognition on a tree: `Loop([Dec(1)])` becomes `Assign(0)`.
pub open spec fn zero_node(n: Node) -> Node
    decreases n,
{
    match n {
        Node::Root(b) => Node::Root(zero_seq(b)),
        Node::Loop(b) => if b == seq![Node::Dec(1)] {
            Node::Assign(0)
        } else {
            Node::Loop(zero_seq(b))
        },
        _ => n,
    }
}

/// Zeroing-loop recognition on each node of a sequence.
pub open spec fn zero_seq(s: Seq<Node>) -> Seq<Node>
    decreases s,
{
    if s.len() == 0 {
        Seq::empty()
    } else {
        zero_seq(s.subrange(0, s.len() - 1)).push(zero_node(s[s.len() - 1]))
    }
}

fn strip_vec(v: &Vec<BFSyntax>, top: bool) -> (r: Vec<BFSyntax>)
    ensures
        model_seq(r@) == strip_seq(model_seq(v@), top),
    decreases v,
{
    let ghost ms = model_seq(v@);
    proof {
        lemma_model_seq(v@);
        assert(ms.take(0) =~= Seq::<Node>::empty());
    }
    let mut out: Vec<BFSyntax> = Vec::new();
    let mut i: usize = 0;
    while i < v.len()
        invariant
            i <= v@.len(),
            ms == model_seq(v@),
            ms.len() == v@.len(),
            forall|k: int| 0 <= k < v@.len() ==> #[trigger] ms[k] == model(v@[k]),
            model_seq(out@) == strip_seq(ms.take(i as int), top),
        decreases v@.len() - i,
    {
        let dead = v[i].is_loop() && if i == 0 {
            top
        } else {
            v[i - 1].is_loop()
        };
        proof {
            let t = ms.take(i as int + 1);
            assert(t.subrange(0, i as int) =~= ms.take(i as int));
            assert(dead == dead_at(t, i as int, top));
        }
        if !dead {
            let x = strip_tree(&v[i]);
            proof {
                lemma_model_seq_push(out@, x);
            }
            out.push(x);
        }
        i = i + 1;
    }
    proof {
        assert(ms.take(i as int) =~= ms);
    }
    out
}

fn strip_tree(n: &BFSyntax) -> (r: BFSyntax)
    ensures
        model(r) == strip_node(model(*n)),
    decreases n,
{
    match n {
        BFSyntax::Root(b) => BFSyntax::Root(strip_vec(b, true)),
        BFSyntax::Loop(b) => BFSyntax::Loop(strip_vec(b, false)),
        _ => n.copy_leaf(),
    }
}

/// Dead-loop elimination: drops each loop that directly follows another loop
/// in the same sequence, and each loop that stands first in the program.
pub fn strip_dead_loops(input: BFSyntax) -> (r: BFSyntax)
    ensures
        model(r) == strip_node(model(input)),
{
    strip_tree(&input)
}

fn zero_vec(v: &Vec<BFSyntax>) -> (r: Vec<BFSyntax>)
    ensures
        model_seq(r@) == zero_seq(model_seq(v@)),
    decreases v,
{
    let ghost ms = model_seq(v@);
    proof {
        lemma_model_seq(v@);
        assert(ms.take(0) =~= Seq::<Node>::empty());
    }
    let mut out: Vec<BFSyntax> = Vec::new();
    let mut i: usize = 0;
    while i < v.len()
        invariant
            i <= v@.len(),
            ms == model_seq(v@),
            ms.len() == v@.len(),
            forall|k: int| 0 <= k < v@.len() ==> #[trigger] ms[k] == model(v@[k]),
            model_seq(out@) == zero_seq(ms.take(i as int)),
        decreases v@.len() - i,
    {
        let x = zero_tree(&v[i]);
        proof {
            lemma_model_seq_push(out@, x);
            assert(ms.take(i as int + 1).subrange(0, i as int) =~= ms.take(i as int));
        }
        out.push(x);
        i = i + 1;
    }
    proof {
        assert(ms.take(i as int) =~= ms);
    }
    out
}

fn zero_tree(n: &BFSyntax) -> (r: BFSyntax)
    ensures
        model(r) == zero_node(model(*n)),
    decreases n,
{
    match n {
        BFSyntax::Root(b) => BFSyntax::Root(zero_vec(b)),
        BFSyntax::Loop(b) => {
            proof {
                lemma_model_seq(b@);
            }
            let single_dec = b.len() == 1 && match &b[0] {
                BFSyntax::Dec(k) => *k == 1,
                _ => false,
            };
            if single_dec {
                proof {
                    assert(model_seq(b@) =~= seq![Node::Dec(1)]);
                }
                BFSyntax::Assign(0)
            } else {
                proof {
                    if model_seq(b@) == seq![Node::Dec(1)] {
                        assert(seq![Node::Dec(1)][0] == Node::Dec(1));
                        assert(model_seq(b@)[0] == Node::Dec(1));
                        assert(model(b@[0]) == Node::Dec(1));
                    }
                }
                BFSyntax::Loop(zero_vec(b))
            }
        },
        _ => n.copy_leaf(),
    }
}

/// Zeroing-loop recognition: each `Loop([Dec(1)])`, at any depth, becomes
/// `Assign(0)`.
pub fn optimize_zeroing_loops(input: BFSyntax) -> (r: BFSyntax)
    ensures
        model(r) == zero_node(model(input)),
{
    zero_tree(&input)
}

/// What constant coalescing has made of a prefix of a sequence: the nodes
/// emitted, and the node held back because what follows may still combine
/// with it.
pub struct Fold {
    pub out: Seq<Node>,
    pub pending: Option<Node>,
}

/// The node only writes the current cell: `Inc`, `Dec` or `Assign`.
pub open spec fn is_cell_op(n: Node) -> bool {
    n is Inc || n is Dec || n is Assign
}

/// The node only moves the cursor.
pub open spec fn is_move(n: Node) -> bool {
    n is Left || n is Right
}

/// The node may be held back to combine with what follows.
pub open spec fn holdable(n: Node) -> bool {
    is_cell_op(n) || is_move(n)
}

/// The output with the held node emitted.
pub open spec fn flush(f: Fold) -> Seq<Node> {
    match f.pending {
        Some(p) => f.out.push(p),
        None => f.out,
    }
}

/// The output with the held node emitted, unless it only wrote the current
/// cell: the node that comes next overwrites that cell.
pub open spec fn flush_unless_overwritten(f: Fold) -> Seq<Node> {
    match f.pending {
        Some(p) => if is_cell_op(p) {
            f.out
        } else {
            f.out.push(p)
        },
        None => f.out,
    }
}

/// After the held node cancelled out: the node emitted last is held again
/// when it can combine with what follows.
pub open spec fn resume(out: Seq<Node>) -> Fold {
    if out.len() > 0 && holdable(out.last()) {
        Fold { out: out.drop_last(), pending: Some(out.last()) }
    } else {
        Fold { out, pending: None }
    }
}

pub open spec fn hold(f: Fold, p: Node) -> Fold {
    Fold { out: f.out, pending: Some(p) }
}

/// The held node emitted and `x` held in its place.
pub open spec fn emit_and_hold(f: Fold, x: Node) -> Fold {
    Fold { out: flush(f), pending: Some(x) }
}

/// `a + b`, or `usize::MAX` where the sum does not fit.
pub open spec fn sat_sum(a: usize, b: usize) -> usize {
    if a + b > usize::MAX {
        usize::MAX
    } else {
        (a + b) as usize
    }
}

/// One node without children taken into the fold.
pub open spec fn absorb(f: Fold, x: Node) -> Fold {
    match x {
        Node::Read => Fold { out: flush_unless_overwritten(f).push(Node::Read), pending: None },
        Node::Assign(_) => Fold { out: flush_unless_overwritten(f), pending: Some(x) },
        Node::Inc(n) => match f.pending {
            Some(Node::Inc(m)) => hold(f, Node::Inc(add_wrap(m, n))),
            Some(Node::Dec(m)) => if n > m {
                hold(f, Node::Inc((n - m) as u8))
            } else if n < m {
                hold(f, Node::Dec((m - n) as u8))
            } else {
                resume(f.out)
            },
            Some(Node::Assign(m)) => hold(f, Node::Assign(add_wrap(m, n))),
            _ => emit_and_hold(f, x),
        },
        Node::Dec(n) => match f.pending {
            Some(Node::Dec(m)) => hold(f, Node::Dec(add_wrap(m, n))),
            Some(Node::Inc(m)) => if n > m {
                hold(f, Node::Dec((n - m) as u8))
            } else if n < m {
                hold(f, Node::Inc((m - n) as u8))
            } else {
                resume(f.out)
            },
            Some(Node::Assign(m)) => hold(f, Node::Assign(sub_wrap(m, n))),
            _ => emit_and_hold(f, x),
        },
        Node::Right(n) => match f.pending {
            Some(Node::Right(m)) => hold(f, Node::Right(sat_sum(m, n))),
            Some(Node::Left(m)) => if n > m {
                hold(f, Node::Right((n - m) as usize))
            } else if n < m {
                hold(f, Node::Left((m - n) as usize))
            } else {
                resume(f.out)
            },
            _ => emit_and_hold(f, x),
        },
        Node::Left(n) => match f.pending {
            Some(Node::Left(m)) => hold(f, Node::Left(sat_sum(m, n))),
            Some(Node::Right(m)) => if n > m {
                hold(f, Node::Left((n - m) as usize))
            } else if n < m {
                hold(f, Node::Right((m - n) as usize))
            } else {
                resume(f.out)
            },
            _ => emit_and_hold(f, x),
        },
        _ => Fold { out: flush(f).push(x), pending: None },
    }
}

/// Constant coalescing over a sequence, left to right.
pub open spec fn coalesce_fold(s: Seq<Node>) -> Fold
    decreases s, 0nat,
{
    if s.len() == 0 {
        Fold { out: Seq::empty(), pending: None }
    } else {
        let f = coalesce_fold(s.subrange(0, s.len() - 1));
        match s[s.len() - 1] {
            Node::Root(b) => Fold { out: flush(f).push(Node::Root(coalesce_seq(b))), pending: None },
            Node::Loop(b) => Fold { out: flush(f).push(Node::Loop(coalesce_seq(b))), pending: None },
            x => absorb(f, x),
        }
    }
}

/// A sequence after constant coalescing.
pub open spec fn coalesce_seq(s: Seq<Node>) -> Seq<Node>
    decreases s, 1nat,
{
    flush(coalesce_fold(s))
}

/// Constant coalescing on a tree.
pub open spec fn coalesce_node(n: Node) -> Node {
    match n {
        Node::Root(b) => Node::Root(coalesce_seq(b)),
        Node::Loop(b) => Node::Loop(coalesce_seq(b)),
        _ => n,
    }
}

/// The fold that emitted nodes and a held node stand for.
pub open spec fn fold_of(out: Seq<BFSyntax>, p: Option<BFSyntax>) -> Fold {
    Fold {
        out: model_seq(out),
        pending: match p {
            Some(x) => Some(model(x)),
            None => None,
        },
    }
}

/// A held node is a node without children that may be held.
pub open spec fn held_ok(p: Option<BFSyntax>) -> bool {
    match p {
        Some(x) => x.is_leaf() && holdable(model(x)),
        None => true,
    }
}

fn is_holdable(x: &BFSyntax) -> (r: bool)
    ensures
        r == holdable(model(*x)),
{
    match x {
        BFSyntax::Inc(_) | BFSyntax::Dec(_) | BFSyntax::Assign(_) => true,
        BFSyntax::Left(_) | BFSyntax::Right(_) => true,
        _ => false,
    }
}

fn emit(out: &mut Vec<BFSyntax>, pending: Option<BFSyntax>)
    ensures
        model_seq(final(out)@) == flush(fold_of(old(out)@, pending)),
{
    if let Some(p) = pending {
        proof {
            lemma_model_seq_push(out@, p);
        }
        out.push(p);
    }
}

fn emit_unless_overwritten(out: &mut Vec<BFSyntax>, pending: Option<BFSyntax>)
    requires
        held_ok(pending),
    ensures
        model_seq(final(out)@) == flush_unless_overwritten(fold_of(old(out)@, pending)),
{
    if let Some(p) = pending {
        match p {
            BFSyntax::Inc(_) | BFSyntax::Dec(_) | BFSyntax::Assign(_) => {},
            _ => {
                proof {
                    lemma_model_seq_push(out@, p);
                }
                out.push(p);
            },
        }
    }
}

fn resume_held(out: &mut Vec<BFSyntax>) -> (p: Option<BFSyntax>)
    ensures
        fold_of(final(out)@, p) == resume(model_seq(old(out)@)),
        held_ok(p),
{
    proof {
        lemma_model_seq(out@);
    }
    let n = out.len();
    if n > 0 && is_holdable(&out[n - 1]) {
        let ghost before = out@;
        let p = out.pop();
        proof {
            assert(before =~= out@.push(before.last()));
            lemma_model_seq_push(out@, before.last());
            assert(model_seq(before).drop_last() =~= model_seq(out@));
        }
        p
    } else {
        None
    }
}

fn absorb_leaf(out: &mut Vec<BFSyntax>, pending: Option<BFSyntax>, x: &BFSyntax) -> (p: Option<
    BFSyntax,
>)
    requires
        x.is_leaf(),
        held_ok(pending),
    ensures
        fold_of(final(out)@, p) == absorb(fold_of(old(out)@, pending), model(*x)),
        held_ok(p),
{
    match x {
        BFSyntax::Read => {
            emit_unless_overwritten(out, pending);
            proof {
                lemma_model_seq_push(out@, BFSyntax::Read);
            }
            out.push(BFSyntax::Read);
            None
        },
        BFSyntax::Write => {
            emit(out, pending);
            proof {
                lemma_model_seq_push(out@, BFSyntax::Write);
            }
            out.push(BFSyntax::Write);
            None
        },
        BFSyntax::Assign(v) => {
            emit_unless_overwritten(out, pending);
            Some(BFSyntax::Assign(*v))
        },
        BFSyntax::Inc(n) => absorb_inc(out, pending, *n),
        BFSyntax::Dec(n) => absorb_dec(out, pending, *n),
        BFSyntax::Right(n) => absorb_right(out, pending, *n),
        BFSyntax::Left(n) => absorb_left(out, pending, *n),
        _ => None,
    }
}

fn absorb_inc(out: &mut Vec<BFSyntax>, pending: Option<BFSyntax>, n: u8) -> (p: Option<BFSyntax>)
    requires
        held_ok(pending),
    ensures
        fold_of(final(out)@, p) == absorb(fold_of(old(out)@, pending), Node::Inc(n)),
        held_ok(p),
{
    match pending {
        Some(BFSyntax::Inc(m)) => Some(BFSyntax::Inc(m.wrapping_add(n))),
        Some(BFSyntax::Dec(m)) => {
            if n > m {
                Some(BFSyntax::Inc(n - m))
            } else if n < m {
                Some(BFSyntax::Dec(m - n))
            } else {
                resume_held(out)
            }
        },
        Some(BFSyntax::Assign(m)) => Some(BFSyntax::Assign(m.wrapping_add(n))),
        other => {
            emit(out, other);
            Some(BFSyntax::Inc(n))
        },
    }
}

fn absorb_dec(out: &mut Vec<BFSyntax>, pending: Option<BFSyntax>, n: u8) -> (p: Option<BFSyntax>)
    requires
        held_ok(pending),
    ensures
        fold_of(final(out)@, p) == absorb(fold_of(old(out)@, pending), Node::Dec(n)),
        held_ok(p),
{
    match pending {
        Some(BFSyntax::Dec(m)) => Some(BFSyntax::Dec(m.wrapping_add(n))),
        Some(BFSyntax::Inc(m)) => {
            if n > m {
                Some(BFSyntax::Dec(n - m))
            } else if n < m {
                Some(BFSyntax::Inc(m - n))
            } else {
                resume_held(out)
            }
        },
        Some(BFSyntax::Assign(m)) => Some(BFSyntax::Assign(m.wrapping_sub(n))),
        other => {
            emit(out, other);
            Some(BFSyntax::Dec(n))
        },
    }
}

fn absorb_right(out: &mut Vec<BFSyntax>, pending: Option<BFSyntax>, n: usize) -> (p: Option<
    BFSyntax,
>)
    requires
        held_ok(pending),
    ensures
        fold_of(final(out)@, p) == absorb(fold_of(old(out)@, pending), Node::Right(n)),
        held_ok(p),
{
    match pending {
        Some(BFSyntax::Right(m)) => {
            let sum = if m <= usize::MAX - n {
                m + n
            } else {
                usize::MAX
            };
            Some(BFSyntax::Right(sum))
        },
        Some(BFSyntax::Left(m)) => {
            if n > m {
                Some(BFSyntax::Right(n - m))
            } else if n < m {
                Some(BFSyntax::Left(m - n))
            } else {
                resume_held(out)
            }
        },
        other => {
            emit(out, other);
            Some(BFSyntax::Right(n))
        },
    }
}

fn absorb_left(out: &mut Vec<BFSyntax>, pending: Option<BFSyntax>, n: usize) -> (p: Option<
    BFSyntax,
>)
    requires
        held_ok(pending),
    ensures
        fold_of(final(out)@, p) == absorb(fold_of(old(out)@, pending), Node::Left(n)),
        held_ok(p),
{
    match pending {
        Some(BFSyntax::Left(m)) => {
            let sum = if m <= usize::MAX - n {
                m + n
            } else {
                usize::MAX
            };
            Some(BFSyntax::Left(sum))
        },
        Some(BFSyntax::Right(m)) => {
            if n > m {
                Some(BFSyntax::Left(n - m))
            } else if n < m {
                Some(BFSyntax::Right(m - n))
            } else {
                resume_held(out)
            }
        },
        other => {
            emit(out, other);
            Some(BFSyntax::Left(n))
        },
    }
}

fn coalesce_vec(v: &Vec<BFSyntax>) -> (r: Vec<BFSyntax>)
    ensures
        model_seq(r@) == coalesce_seq(model_seq(v@)),
    decreases v,
{
    let ghost ms = model_seq(v@);
    proof {
        lemma_model_seq(v@);
        assert(ms.take(0) =~= Seq::<Node>::empty());
    }
    let mut out: Vec<BFSyntax> = Vec::new();
    let mut pending: Option<BFSyntax> = None;
    let mut i: usize = 0;
    while i < v.len()
        invariant
            i <= v@.len(),
            ms == model_seq(v@),
            ms.len() == v@.len(),
            forall|k: int| 0 <= k < v@.len() ==> #[trigger] ms[k] == model(v@[k]),
            fold_of(out@, pending) == coalesce_fold(ms.take(i as int)),
            held_ok(pending),
        decreases v@.len() - i,
    {
        proof {
            assert(ms.take(i as int + 1).subrange(0, i as int) =~= ms.take(i as int));
        }
        match &v[i] {
            BFSyntax::Root(b) => {
                emit(&mut out, pending);
                let x = BFSyntax::Root(coalesce_vec(b));
                proof {
                    lemma_model_seq_push(out@, x);
                }
                out.push(x);
                pending = None;
            },
            BFSyntax::Loop(b) => {
                emit(&mut out, pending);
                let x = BFSyntax::Loop(coalesce_vec(b));
                proof {
                    lemma_model_seq_push(out@, x);
                }
                out.push(x);
                pending = None;
            },
            x => {
                pending = absorb_leaf(&mut out, pending, x);
            },
        }
        i = i + 1;
    }
    proof {
        assert(ms.take(i as int) =~= ms);
    }
    emit(&mut out, pending);
    out
}

fn coalesce_tree(n: &BFSyntax) -> (r: BFSyntax)
    ensures
        model(r) == coalesce_node(model(*n)),
{
    match n {
        BFSyntax::Root(b) => BFSyntax::Root(coalesce_vec(b)),
        BFSyntax::Loop(b) => BFSyntax::Loop(coalesce_vec(b)),
        _ => n.copy_leaf(),
    }
}

/// Constant coalescing, in each sequence of the tree, left to right, with at
/// most one node held back: same-kind counts add up (cell counts modulo 256),
/// opposite kinds leave the difference or cancel, `Assign` takes in a
/// following `Inc` or `Dec` and drops a cell write before it, `Read` drops a
/// cell write before it, and `Write` and loops emit what is held. Where a
/// held node cancels out, the node emitted just before it is held again, so
/// that it can combine with what follows. `coalesce_seq` states it exactly.
pub fn fold_adjacent_constants(input: BFSyntax) -> (r: BFSyntax)
    ensures
        model(r) == coalesce_node(model(input)),
{
    coalesce_tree(&input)
}

/// The whole pipeline on a tree: dead-loop elimination, then zeroing-loop
/// recognition, then constant coalescing, each once.
pub open spec fn optimize_node(n: Node) -> Node {
    coalesce_node(zero_node(strip_node(n)))
}

/// Applies the three passes once each, in order. No pass is repeated: a
/// chance to fuse that a later pass opens up is left as it is.
pub fn perform_all(input: BFSyntax) -> (r: BFSyntax)
    ensures
        model(r) == optimize_node(model(input)),
{
    fold_adjacent_constants(optimize_zeroing_loops(strip_dead_loops(input)))
}

/// No node of the sequence is a dead loop, and every node is left as it is
/// by dead-loop elimination.
pub open spec fn free_of_dead_loops(t: Seq<Node>, top: bool) -> bool {
    &&& forall|k: int| 0 <= k < t.len() ==> !#[trigger] dead_at(t, k, top)
    &&& forall|k: int| 0 <= k < t.len() ==> strip_node(#[trigger] t[k]) == t[k]
}

/// Running dead-loop elimination on its own output changes nothing.
pub proof fn lemma_strip_idempotent(n: Node)
    ensures
        strip_node(strip_node(n)) == strip_node(n),
    decreases n,
{
    match n {
        Node::Root(b) => {
            lemma_strip_seq_result(b, true);
            lemma_strip_seq_fixed(strip_seq(b, true), true);
        },
        Node::Loop(b) => {
            lemma_strip_seq_result(b, false);
            lemma_strip_seq_fixed(strip_seq(b, false), false);
        },
        _ => {},
    }
}

/// What dead-loop elimination leaves of a sequence holds no dead loop, and
/// does not end with a loop where the input does not.
proof fn lemma_strip_seq_result(s: Seq<Node>, top: bool)
    ensures
        free_of_dead_loops(strip_seq(s, top), top),
        s.len() > 0 && !(s.last() is Loop) ==> strip_seq(s, top).len() > 0 && !(strip_seq(
            s,
            top,
        ).last() is Loop),
    decreases s,
{
    if s.len() > 0 {
        let k = s.len() - 1;
        let front = s.subrange(0, k);
        lemma_strip_seq_result(front, top);
        let t0 = strip_seq(front, top);
        if !dead_at(s, k, top) {
            let t = t0.push(strip_node(s[k]));
            lemma_strip_idempotent(s[k]);
            if k > 0 {
                assert(front.last() == s[k - 1]);
            }
            assert forall|j: int| 0 <= j < t.len() implies !#[trigger] dead_at(t, j, top) by {
                if j < t0.len() {
                    assert(dead_at(t0, j, top) == dead_at(t, j, top));
                }
            }
            assert forall|j: int| 0 <= j < t.len() implies strip_node(#[trigger] t[j]) == t[j] by {
                if j < t0.len() {
                    assert(t[j] == t0[j]);
                }
            }
        }
    }
}

/// Dead-loop elimination leaves a sequence without dead loops as it is.
proof fn lemma_strip_seq_fixed(t: Seq<Node>, top: bool)
    requires
        free_of_dead_loops(t, top),
    ensures
        strip_seq(t, top) == t,
    decreases t.len(),
{
    if t.len() > 0 {
        let k = t.len() - 1;
        let front = t.subrange(0, k);
        assert forall|j: int| 0 <= j < front.len() implies !#[trigger] dead_at(front, j, top) by {
            assert(dead_at(front, j, top) == dead_at(t, j, top));
            assert(!dead_at(t, j, top));
        }
        assert forall|j: int| 0 <= j < front.len() implies strip_node(#[trigger] front[j])
            == front[j] by {
            assert(front[j] == t[j]);
        }
        lemma_strip_seq_fixed(front, top);
        assert(!dead_at(t, k, top));
        assert(strip_node(t[k]) == t[k]);
        assert(front.push(t[k]) =~= t);
    }
}

/// Zeroing-loop recognition on a sequence works node by node.
pub proof fn lemma_zero_seq(s: Seq<Node>)
    ensures
        zero_seq(s).len() == s.len(),
        forall|k: int| 0 <= k < s.len() ==> #[trigger] zero_seq(s)[k] == zero_node(s[k]),
    decreases s.len(),
{
    if s.len() > 0 {
        lemma_zero_seq(s.subrange(0, s.len() - 1));
    }
}

/// Running zeroing-loop recognition on its own output changes nothing.
pub proof fn lemma_zero_idempotent(n: Node)
    ensures
        zero_node(zero_node(n)) == zero_node(n),
    decreases n,
{
    match n {
        Node::Root(b) => {
            lemma_zero_seq_idempotent(b);
        },
        Node::Loop(b) => {
            if b != seq![Node::Dec(1)] {
                lemma_zero_seq_idempotent(b);
                lemma_zero_seq(b);
                let z = zero_seq(b);
                if z == seq![Node::Dec(1)] {
                    assert(z[0] == Node::Dec(1));
                    assert(zero_node(b[0]) == Node::Dec(1));
                    assert(b =~= seq![Node::Dec(1)]);
                }
            }
        },
        _ => {},
    }
}

proof fn lemma_zero_seq_idempotent(s: Seq<Node>)
    ensures
        zero_seq(zero_seq(s)) == zero_seq(s),
    decreases s,
{
    lemma_zero_seq(s);
    lemma_zero_seq(zero_seq(s));
    assert forall|k: int| 0 <= k < s.len() implies #[trigger] zero_seq(zero_seq(s))[k] == zero_seq(
        s,
    )[k] by {
        lemma_zero_idempotent(s[k]);
    }
    assert(zero_seq(zero_seq(s)) =~= zero_seq(s));
}

/// Coalescing changes `b` where it directly follows `a`.
pub open spec fn interacts(a: Node, b: Node) -> bool {
    match b {
        Node::Read => is_cell_op(a),
        Node::Assign(_) => is_cell_op(a),
        Node::Inc(_) => is_cell_op(a),
        Node::Dec(_) => is_cell_op(a),
        Node::Left(_) => is_move(a),
        Node::Right(_) => is_move(a),
        _ => false,
    }
}

/// A sequence that coalescing leaves as it is: no two neighbours combine,
/// and each loop body is coalesced too.
pub open spec fn coalesced(t: Seq<Node>) -> bool {
    &&& forall|k: int| 0 < k < t.len() ==> !interacts(t[k - 1], #[trigger] t[k])
    &&& forall|k: int| 0 <= k < t.len() ==> coalesce_node(#[trigger] t[k]) == t[k]
}

/// What holds of every fold that coalescing passes through.
pub open spec fn fold_inv(f: Fold) -> bool {
    &&& coalesced(f.out)
    &&& match f.pending {
        Some(p) => holdable(p) && (f.out.len() > 0 ==> !interacts(f.out.last(), p)),
        None => f.out.len() == 0 || !holdable(f.out.last()),
    }
}

proof fn lemma_coalesced_push(out: Seq<Node>, x: Node)
    requires
        coalesced(out),
        out.len() > 0 ==> !interacts(out.last(), x),
        coalesce_node(x) == x,
    ensures
        coalesced(out.push(x)),
{
    let t = out.push(x);
    assert forall|k: int| 0 < k < t.len() implies !interacts(t[k - 1], #[trigger] t[k]) by {
        if k < out.len() {
            assert(t[k] == out[k] && t[k - 1] == out[k - 1]);
        }
    }
    assert forall|k: int| 0 <= k < t.len() implies coalesce_node(#[trigger] t[k]) == t[k] by {
        if k < out.len() {
            assert(t[k] == out[k]);
        }
    }
}

proof fn lemma_coalesced_drop_last(out: Seq<Node>)
    requires
        coalesced(out),
        out.len() > 0,
    ensures
        coalesced(out.drop_last()),
{
    let t = out.drop_last();
    assert forall|k: int| 0 < k < t.len() implies !interacts(t[k - 1], #[trigger] t[k]) by {
        assert(t[k] == out[k] && t[k - 1] == out[k - 1]);
    }
    assert forall|k: int| 0 <= k < t.len() implies coalesce_node(#[trigger] t[k]) == t[k] by {
        assert(t[k] == out[k]);
    }
}

proof fn lemma_flush_inv(f: Fold)
    requires
        fold_inv(f),
    ensures
        coalesced(flush(f)),
{
    if let Some(p) = f.pending {
        lemma_coalesced_push(f.out, p);
    }
}

proof fn lemma_absorb_inv(f: Fold, x: Node)
    requires
        fold_inv(f),
        !(x is Root || x is Loop),
    ensures
        fold_inv(absorb(f, x)),
{
    let out = f.out;
    if let Some(p) = f.pending {
        lemma_coalesced_push(out, p);
        if out.len() > 0 {
            assert(out.push(p).last() == p);
        }
    }
    if out.len() > 0 {
        lemma_coalesced_drop_last(out);
        if out.len() > 1 {
            assert(out[out.len() - 2] == out.drop_last().last());
        }
    }
    match x {
        Node::Read => {
            let o = flush_unless_overwritten(f);
            if o.len() > 0 {
                assert(o.last() == out.last() || Some(o.last()) == f.pending);
            }
            lemma_coalesced_push(o, Node::Read);
        },
        Node::Write => {
            lemma_flush_inv(f);
            lemma_coalesced_push(flush(f), Node::Write);
        },
        _ => {},
    }
}

/// The fold over a prefix of a sequence that coalescing leaves as it is:
/// the prefix itself, with its last node held where it can be.
pub open spec fn canon(t: Seq<Node>, i: int) -> Fold {
    if i > 0 && holdable(t[i - 1]) {
        Fold { out: t.take(i - 1), pending: Some(t[i - 1]) }
    } else {
        Fold { out: t.take(i), pending: None }
    }
}

proof fn lemma_fold_of_coalesced(t: Seq<Node>, i: int)
    requires
        coalesced(t),
        0 <= i <= t.len(),
    ensures
        coalesce_fold(t.take(i)) == canon(t, i),
    decreases i,
{
    if i == 0 {
        assert(t.take(0) =~= Seq::<Node>::empty());
    } else {
        let j = i - 1;
        lemma_fold_of_coalesced(t, j);
        assert(t.take(i).subrange(0, j) =~= t.take(j));
        assert(t.take(i)[j] == t[j]);
        assert(t.take(j).push(t[j]) =~= t.take(i));
        if j > 0 {
            assert(t.take(j - 1).push(t[j - 1]) =~= t.take(j));
            assert(!interacts(t[j - 1], t[j]));
        }
        assert(flush(canon(t, j)) == t.take(j));
        assert(coalesce_node(t[j]) == t[j]);
    }
}

/// Coalescing leaves a coalesced sequence as it is.
proof fn lemma_coalesce_fixed(t: Seq<Node>)
    requires
        coalesced(t),
    ensures
        coalesce_seq(t) == t,
{
    lemma_fold_of_coalesced(t, t.len() as int);
    assert(t.take(t.len() as int) =~= t);
    if t.len() > 0 {
        assert(t.take(t.len() - 1).push(t[t.len() - 1]) =~= t);
    }
}

/// Every fold that coalescing passes through keeps the invariant.
proof fn lemma_fold_inv(s: Seq<Node>)
    ensures
        fold_inv(coalesce_fold(s)),
    decreases s, 0nat,
{
    if s.len() > 0 {
        let front = s.subrange(0, s.len() - 1);
        lemma_fold_inv(front);
        let f = coalesce_fold(front);
        match s[s.len() - 1] {
            Node::Root(b) => {
                lemma_coalesce_seq_idempotent(b);
                lemma_flush_inv(f);
                lemma_coalesced_push(flush(f), Node::Root(coalesce_seq(b)));
            },
            Node::Loop(b) => {
                lemma_coalesce_seq_idempotent(b);
                lemma_flush_inv(f);
                lemma_coalesced_push(flush(f), Node::Loop(coalesce_seq(b)));
            },
            x => {
                lemma_absorb_inv(f, x);
            },
        }
    }
}

proof fn lemma_coalesce_seq_idempotent(s: Seq<Node>)
    ensures
        coalesce_seq(coalesce_seq(s)) == coalesce_seq(s),
    decreases s, 1nat,
{
    lemma_fold_inv(s);
    lemma_flush_inv(coalesce_fold(s));
    lemma_coalesce_fixed(coalesce_seq(s));
}

/// Running constant coalescing on its own output changes nothing.
pub proof fn lemma_coalesce_idempotent(n: Node)
    ensures
        coalesce_node(coalesce_node(n)) == coalesce_node(n),
{
    match n {
        Node::Root(b) => lemma_coalesce_seq_idempotent(b),
        Node::Loop(b) => lemma_coalesce_seq_idempotent(b),
        _ => {},
    }
}

} // verus!
