use vstd::prelude::*;

use crate::error::BFError;
use crate::tokens::BFToken;

verus! {

/// A node of a program tree. `Root` stands only at the top and holds the
/// whole program; `Loop` repeats its body while the current cell is not 0.
#[derive(Debug, PartialEq)]
pub enum BFSyntax {
    Root(Vec<BFSyntax>),
    Inc(u8),
    Dec(u8),
    Left(usize),
    Right(usize),
    Assign(u8),
    Loop(Vec<BFSyntax>),
    Read,
    Write,
}

/// The mathematical form of a program tree, with each child sequence as a
/// `Seq`.
pub enum Node {
    Root(Seq<Node>),
    Inc(u8),
    Dec(u8),
    Left(usize),
    Right(usize),
    Assign(u8),
    Loop(Seq<Node>),
    Read,
    Write,
}

/// The tree that a node stands for.
pub open spec fn model(i: BFSyntax) -> Node
    decreases i,
{
    match i {
        BFSyntax::Root(b) => Node::Root(model_seq(b@)),
        BFSyntax::Inc(n) => Node::Inc(n),
        BFSyntax::Dec(n) => Node::Dec(n),
        BFSyntax::Left(n) => Node::Left(n),
        BFSyntax::Right(n) => Node::Right(n),
        BFSyntax::Assign(n) => Node::Assign(n),
        BFSyntax::Loop(b) => Node::Loop(model_seq(b@)),
        BFSyntax::Read => Node::Read,
        BFSyntax::Write => Node::Write,
    }
}

/// The trees of a sequence of nodes.
pub open spec fn model_seq(s: Seq<BFSyntax>) -> Seq<Node>
    decreases s,
{
    if s.len() == 0 {
        Seq::empty()
    } else {
        model_seq(s.subrange(0, s.len() - 1)).push(model(s[s.len() - 1]))
    }
}

/// The model of a sequence holds the model of each node, in order.
pub proof fn lemma_model_seq(s: Seq<BFSyntax>)
    ensures
        model_seq(s).len() == s.len(),
        forall|k: int| 0 <= k < s.len() ==> #[trigger] model_seq(s)[k] == model(s[k]),
    decreases s.len(),
{
    if s.len() > 0 {
        lemma_model_seq(s.subrange(0, s.len() - 1));
    }
}

/// The model of a sequence with one more node.
pub proof fn lemma_model_seq_push(s: Seq<BFSyntax>, x: BFSyntax)
    ensures
        model_seq(s.push(x)) == model_seq(s).push(model(x)),
{
    assert(s.push(x).subrange(0, s.len() as int) =~= s);
}

impl BFSyntax {
    /// The node is not `Root` or `Loop`.
    pub open spec fn is_leaf(&self) -> bool {
        !(self is Root || self is Loop)
    }

    /// A node equal to this one, which holds no children.
    pub fn copy_leaf(&self) -> (r: BFSyntax)
        requires
            self.is_leaf(),
        ensures
            r == *self,
            model(r) == model(*self),
    {
        match self {
            BFSyntax::Inc(n) => BFSyntax::Inc(*n),
            BFSyntax::Dec(n) => BFSyntax::Dec(*n),
            BFSyntax::Left(n) => BFSyntax::Left(*n),
            BFSyntax::Right(n) => BFSyntax::Right(*n),
            BFSyntax::Assign(n) => BFSyntax::Assign(*n),
            BFSyntax::Read => BFSyntax::Read,
            _ => BFSyntax::Write,
        }
    }

    /// The node is a `Loop`.
    pub fn is_loop(&self) -> (r: bool)
        ensures
            r == self is Loop,
    {
        match self {
            BFSyntax::Loop(_) => true,
            _ => false,
        }
    }
}

/// The net number of open brackets in a symbol sequence.
pub open spec fn depth(s: Seq<BFToken>) -> int
    decreases s.len(),
{
    if s.len() == 0 {
        0
    } else {
        depth(s.drop_last()) + match s.last() {
            BFToken::BeginLoop => 1int,
            BFToken::EndLoop => -1int,
            _ => 0int,
        }
    }
}

/// No prefix closes more brackets than it opens.
pub open spec fn nonneg_prefixes(s: Seq<BFToken>) -> bool {
    forall|k: int| 0 <= k <= s.len() ==> depth(#[trigger] s.take(k)) >= 0
}

/// Every bracket has its partner.
pub open spec fn balanced(s: Seq<BFToken>) -> bool {
    depth(s) == 0 && nonneg_prefixes(s)
}

/// The symbols that a tree is written with. `Assign` has no symbol.
pub open spec fn unparse(i: BFSyntax) -> Seq<BFToken>
    decreases i,
{
    match i {
        BFSyntax::Root(b) => unparse_seq(b@),
        BFSyntax::Inc(_) => seq![BFToken::Inc],
        BFSyntax::Dec(_) => seq![BFToken::Dec],
        BFSyntax::Left(_) => seq![BFToken::Left],
        BFSyntax::Right(_) => seq![BFToken::Right],
        BFSyntax::Assign(_) => Seq::empty(),
        BFSyntax::Loop(b) => seq![BFToken::BeginLoop] + unparse_seq(b@) + seq![BFToken::EndLoop],
        BFSyntax::Read => seq![BFToken::Read],
        BFSyntax::Write => seq![BFToken::Write],
    }
}

/// The symbols of a sequence of trees, one after another.
pub open spec fn unparse_seq(s: Seq<BFSyntax>) -> Seq<BFToken>
    decreases s,
{
    if s.len() == 0 {
        Seq::empty()
    } else {
        unparse_seq(s.subrange(0, s.len() - 1)) + unparse(s[s.len() - 1])
    }
}

/// A node as the tree builder makes it: every count is 1, and there is no
/// `Assign` and no nested `Root`.
pub open spec fn built(i: BFSyntax) -> bool
    decreases i,
{
    match i {
        BFSyntax::Root(_) => false,
        BFSyntax::Inc(n) => n == 1,
        BFSyntax::Dec(n) => n == 1,
        BFSyntax::Left(n) => n == 1,
        BFSyntax::Right(n) => n == 1,
        BFSyntax::Assign(_) => false,
        BFSyntax::Loop(b) => built_seq(b@),
        BFSyntax::Read => true,
        BFSyntax::Write => true,
    }
}

/// Every node of the sequence is as the tree builder makes it.
pub open spec fn built_seq(s: Seq<BFSyntax>) -> bool
    decreases s,
{
    if s.len() == 0 {
        true
    } else {
        built_seq(s.subrange(0, s.len() - 1)) && built(s[s.len() - 1])
    }
}

proof fn lemma_depth_concat(a: Seq<BFToken>, b: Seq<BFToken>)
    ensures
        depth(a + b) == depth(a) + depth(b),
    decreases b.len(),
{
    if b.len() > 0 {
        lemma_depth_concat(a, b.drop_last());
        assert((a + b).drop_last() == a + b.drop_last());
    } else {
        assert(a + b == a);
    }
}

proof fn lemma_nonneg_concat(a: Seq<BFToken>, b: Seq<BFToken>)
    requires
        nonneg_prefixes(a),
        nonneg_prefixes(b),
    ensures
        nonneg_prefixes(a + b),
{
    assert forall|k: int| 0 <= k <= (a + b).len() implies depth(#[trigger] (a + b).take(k)) >= 0 by {
        if k <= a.len() {
            assert((a + b).take(k) == a.take(k));
        } else {
            assert((a + b).take(k) == a + b.take(k - a.len()));
            assert(depth(a.take(a.len() as int)) >= 0);
            assert(a.take(a.len() as int) == a);
            assert(depth(b.take(k - a.len())) >= 0);
            lemma_depth_concat(a, b.take(k - a.len()));
        }
    }
}

proof fn lemma_balanced_concat(a: Seq<BFToken>, b: Seq<BFToken>)
    requires
        balanced(a),
        balanced(b),
    ensures
        balanced(a + b),
{
    lemma_depth_concat(a, b);
    lemma_nonneg_concat(a, b);
}

proof fn lemma_depth_single(t: BFToken)
    ensures
        depth(seq![t]) == match t {
            BFToken::BeginLoop => 1int,
            BFToken::EndLoop => -1int,
            _ => 0int,
        },
        nonneg_prefixes(seq![t]) <==> t != BFToken::EndLoop,
{
    let s = seq![t];
    assert(s.drop_last() == Seq::<BFToken>::empty());
    assert(depth(Seq::<BFToken>::empty()) == 0);
    assert(s.take(0) == Seq::<BFToken>::empty());
    assert(s.take(1) == s);
}

proof fn lemma_unparse_balanced(i: BFSyntax)
    ensures
        balanced(unparse(i)),
    decreases i,
{
    match i {
        BFSyntax::Root(b) => {
            lemma_unparse_seq_balanced(b@);
            assert(unparse(i) == unparse_seq(b@));
        },
        BFSyntax::Loop(b) => {
            lemma_unparse_seq_balanced(b@);
            let open = seq![BFToken::BeginLoop];
            let close = seq![BFToken::EndLoop];
            let inner = unparse_seq(b@);
            lemma_depth_single(BFToken::BeginLoop);
            lemma_depth_single(BFToken::EndLoop);
            lemma_nonneg_concat(open, inner);
            lemma_depth_concat(open, inner);
            let x = open + inner;
            lemma_depth_concat(x, close);
            assert forall|k: int| 0 <= k <= (x + close).len() implies depth(
                #[trigger] (x + close).take(k),
            ) >= 0 by {
                if k <= x.len() {
                    assert((x + close).take(k) == x.take(k));
                } else {
                    assert((x + close).take(k) == x + close);
                }
            }
        },
        BFSyntax::Assign(_) => {
            assert(Seq::<BFToken>::empty().take(0) == Seq::<BFToken>::empty());
        },
        _ => {
            lemma_depth_single(unparse(i)[0]);
            assert(unparse(i) == seq![unparse(i)[0]]);
        },
    }
}

proof fn lemma_unparse_seq_balanced(s: Seq<BFSyntax>)
    ensures
        balanced(unparse_seq(s)),
    decreases s,
{
    if s.len() == 0 {
        assert(Seq::<BFToken>::empty().take(0) == Seq::<BFToken>::empty());
    } else {
        lemma_unparse_seq_balanced(s.subrange(0, s.len() - 1));
        lemma_unparse_balanced(s[s.len() - 1]);
        lemma_balanced_concat(unparse_seq(s.subrange(0, s.len() - 1)), unparse(s[s.len() - 1]));
    }
}

impl BFSyntax {
    /// Builds the program tree of a symbol sequence: each symbol becomes a
    /// node of count 1 and each bracket pair a `Loop` holding what stands
    /// between the two. A bracket without its partner, open or close, is a
    /// `SyntaxError`.
    pub fn build(input: &Vec<BFToken>) -> (r: Result<BFSyntax, BFError>)
        ensures
            r is Ok <==> balanced(input@),
            r is Err ==> r == Err::<BFSyntax, BFError>(BFError::SyntaxError),
            r matches Ok(t) ==> (t matches BFSyntax::Root(b) && unparse_seq(b@) == input@
                && built_seq(b@)),
    {
        proof {
            assert(input@.take(0) == Seq::<BFToken>::empty());
            assert(nonneg_prefixes(input@.take(0)));
        }
        match Self::parse(input, 0, false) {
            Ok((items, end)) => {
                proof {
                    assert(input@.subrange(0, end as int) == input@);
                    lemma_unparse_seq_balanced(items@);
                }
                Ok(BFSyntax::Root(items))
            },
            Err(e) => Err(e),
        }
    }

    /// Parses the sequence that starts at `start`: up to the end of the
    /// input at the top level, up to the closing bracket of the enclosing
    /// loop when nested. Returns the nodes and the position where the scan
    /// stopped.
    fn parse(input: &Vec<BFToken>, start: usize, nested: bool) -> (r: Result<
        (Vec<BFSyntax>, usize),
        BFError,
    >)
        requires
            start <= input@.len(),
            nonneg_prefixes(input@.take(start as int)),
            !nested ==> start == 0,
            nested ==> depth(input@.take(start as int)) >= 1,
        ensures
            r matches Ok((items, end)) ==> {
                &&& start <= end <= input@.len()
                &&& unparse_seq(items@) == input@.subrange(start as int, end as int)
                &&& built_seq(items@)
                &&& nested ==> end < input@.len() && input@[end as int] == BFToken::EndLoop
                &&& !nested ==> end == input@.len()
            },
            r is Err ==> r == Err::<(Vec<BFSyntax>, usize), BFError>(BFError::SyntaxError)
                && !balanced(input@),
        decreases input@.len() - start,
    {
        let mut items: Vec<BFSyntax> = Vec::new();
        let mut pos: usize = start;
        proof {
            assert(input@.subrange(start as int, start as int) == Seq::<BFToken>::empty());
        }
        while pos < input.len()
            invariant
                start <= pos <= input@.len(),
                nonneg_prefixes(input@.take(start as int)),
                !nested ==> start == 0,
                nested ==> depth(input@.take(start as int)) >= 1,
                unparse_seq(items@) == input@.subrange(start as int, pos as int),
                built_seq(items@),
            decreases input@.len() - pos,
        {
            proof {
                lemma_unparse_seq_balanced(items@);
                assert(input@.take(pos as int) == input@.take(start as int) + input@.subrange(
                    start as int,
                    pos as int,
                ));
                lemma_nonneg_concat(input@.take(start as int), unparse_seq(items@));
                lemma_depth_concat(input@.take(start as int), unparse_seq(items@));
                assert(input@.take(pos as int + 1) == input@.take(pos as int) + seq![
                    input@[pos as int],
                ]);
                lemma_depth_single(input@[pos as int]);
                lemma_depth_concat(input@.take(pos as int), seq![input@[pos as int]]);
            }
            let ghost prev = items@;
            let ghost at = pos;
            let item = match input[pos] {
                BFToken::EndLoop => {
                    if nested {
                        return Ok((items, pos));
                    } else {
                        proof {
                            assert(depth(input@.take(pos as int + 1)) < 0);
                        }
                        return Err(BFError::SyntaxError);
                    }
                },
                BFToken::BeginLoop => {
                    proof {
                        lemma_nonneg_concat(input@.take(pos as int), seq![input@[pos as int]]);
                    }
                    match Self::parse(input, pos + 1, true) {
                        Ok((body, end)) => {
                            proof {
                                assert(input@.subrange(pos as int, end as int + 1) == seq![
                                    BFToken::BeginLoop,
                                ] + input@.subrange(pos + 1, end as int) + seq![
                                    BFToken::EndLoop,
                                ]);
                            }
                            pos = end;
                            BFSyntax::Loop(body)
                        },
                        Err(e) => {
                            return Err(e);
                        },
                    }
                },
                BFToken::Inc => BFSyntax::Inc(1),
                BFToken::Dec => BFSyntax::Dec(1),
                BFToken::Left => BFSyntax::Left(1),
                BFToken::Right => BFSyntax::Right(1),
                BFToken::Read => BFSyntax::Read,
                BFToken::Write => BFSyntax::Write,
            };
            items.push(item);
            proof {
                assert(items@.subrange(0, items@.len() - 1) == prev);
                assert(unparse_seq(items@) == unparse_seq(prev) + unparse(items@.last()));
                assert(unparse(items@.last()) == input@.subrange(at as int, pos as int + 1));
                assert(built(items@.last()));
                assert(input@.subrange(start as int, pos as int + 1) == input@.subrange(
                    start as int,
                    at as int,
                ) + input@.subrange(at as int, pos as int + 1));
            }
            pos = pos + 1;
        }
        if nested {
            proof {
                lemma_unparse_seq_balanced(items@);
                assert(input@ == input@.take(start as int) + input@.subrange(
                    start as int,
                    pos as int,
                ));
                lemma_depth_concat(input@.take(start as int), unparse_seq(items@));
            }
            Err(BFError::SyntaxError)
        } else {
            Ok((items, pos))
        }
    }
}

impl TryFrom<Vec<BFToken>> for BFSyntax {
    type Error = BFError;

    /// The program tree of a symbol sequence, as `BFSyntax::build` makes it.
    fn try_from(input: Vec<BFToken>) -> Result<BFSyntax, BFError> {
        BFSyntax::build(&input)
    }
}

/// What `try_from` returns is stated by the contract of `BFSyntax::build`,
/// over the model of the tree; it is not given as a value here.
impl vstd::std_specs::convert::TryFromSpecImpl<Vec<BFToken>> for BFSyntax {
    open spec fn obeys_try_from_spec() -> bool {
        false
    }

    open spec fn try_from_spec(v: Vec<BFToken>) -> Result<BFSyntax, BFError> {
        Err(BFError::SyntaxError)
    }
}

} // verus!
