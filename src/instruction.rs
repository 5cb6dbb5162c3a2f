use vstd::prelude::*;
use crate::token::Token;

verus! {

/// Instructions that are executed.
#[derive(Debug, PartialEq, Eq)]
pub enum Instruction {
    /// `+`
    Inc,
    /// `-`
    Dec,
    /// `>`
    Next,
    /// `<`
    Prev,
    /// `.`
    Print,
    /// `,`
    Read,
    /// `[` and `]`, with the instructions between them
    Loop(Vec<Instruction>),
}

/// The mathematical value of an instruction tree.
pub enum Node {
    Inc,
    Dec,
    Next,
    Prev,
    Print,
    Read,
    Loop(Seq<Node>),
}

pub open spec fn node_of(i: Instruction) -> Node
    decreases i,
{
    match i {
        Instruction::Inc => Node::Inc,
        Instruction::Dec => Node::Dec,
        Instruction::Next => Node::Next,
        Instruction::Prev => Node::Prev,
        Instruction::Print => Node::Print,
        Instruction::Read => Node::Read,
        Instruction::Loop(body) => Node::Loop(nodes_of(body@)),
    }
}

pub open spec fn nodes_of(s: Seq<Instruction>) -> Seq<Node>
    decreases s,
{
    if s.len() == 0 {
        seq![]
    } else {
        nodes_of(s.drop_last()).push(node_of(s.last()))
    }
}

impl View for Instruction {
    type V = Node;

    open spec fn view(&self) -> Node {
        node_of(*self)
    }
}

/// The source tokens that a tree is written with.
pub open spec fn node_tokens(n: Node) -> Seq<Token>
    decreases n,
{
    match n {
        Node::Inc => seq![Token::Inc],
        Node::Dec => seq![Token::Dec],
        Node::Next => seq![Token::Next],
        Node::Prev => seq![Token::Prev],
        Node::Print => seq![Token::Print],
        Node::Read => seq![Token::Read],
        Node::Loop(body) => seq![Token::LoopStart] + tokens_of(body) + seq![Token::LoopEnd],
    }
}

/// The source tokens that a sequence of trees is written with, one after the
/// other.
pub open spec fn tokens_of(s: Seq<Node>) -> Seq<Token>
    decreases s,
{
    if s.len() == 0 {
        seq![]
    } else {
        tokens_of(s.drop_last()) + node_tokens(s.last())
    }
}

/// Loops opened minus loops closed in a token sequence.
pub open spec fn depth(t: Seq<Token>) -> int
    decreases t.len(),
{
    if t.len() == 0 {
        0
    } else {
        let d = depth(t.drop_last());
        if t.last() == Token::LoopStart {
            d + 1
        } else if t.last() == Token::LoopEnd {
            d - 1
        } else {
            d
        }
    }
}

/// No prefix closes more loops than it opened: every `]` has a `[` before it.
pub open spec fn ends_matched(t: Seq<Token>) -> bool {
    forall|j: int| 0 <= j <= t.len() ==> depth(#[trigger] t.subrange(0, j)) >= 0
}

/// Every `]` closes an earlier `[` and every `[` is closed.
pub open spec fn balanced(t: Seq<Token>) -> bool {
    ends_matched(t) && depth(t) == 0
}

/// An error that could be created if there is something wrong at the parsing stage.
#[derive(Debug, Clone, Copy, PartialEq, Eq, Structural)]
pub enum ParseError {
    /// Could not find match for `[`
    UnmatchedLoopStart,
    /// Could not find match for `]`
    UnmatchedLoopEnd,
}

impl ParseError {
    /// The message that describes the error.
    pub fn message(&self) -> (r: &'static str)
        ensures
            r@ == match *self {
                ParseError::UnmatchedLoopStart => "could not find match for `[`"@,
                ParseError::UnmatchedLoopEnd => "could not find match for `]`"@,
            },
    {
        match self {
            ParseError::UnmatchedLoopStart => "could not find match for `[`",
            ParseError::UnmatchedLoopEnd => "could not find match for `]`",
        }
    }
}

pub open spec fn is_bracket(t: Token) -> bool {
    t == Token::LoopStart || t == Token::LoopEnd
}

/// The leaf instruction of a token that is not a bracket.
fn leaf(token: Token) -> (r: Instruction)
    requires
        !is_bracket(token),
    ensures
        node_tokens(r@) == seq![token],
        !(r is Loop),
{
    match token {
        Token::Inc => Instruction::Inc,
        Token::Dec => Instruction::Dec,
        Token::Next => Instruction::Next,
        Token::Prev => Instruction::Prev,
        Token::Print => Instruction::Print,
        _ => Instruction::Read,
    }
}

/// The tokens of the open frames of a parse: each frame after the first sits
/// inside a `[` that is not closed yet.
pub open spec fn frames_tokens(fs: Seq<Seq<Node>>) -> Seq<Token>
    decreases fs.len(),
{
    if fs.len() == 0 {
        seq![]
    } else if fs.len() == 1 {
        tokens_of(fs[0])
    } else {
        frames_tokens(fs.drop_last()) + seq![Token::LoopStart] + tokens_of(fs.last())
    }
}

pub open spec fn frame_nodes(frames: Seq<Vec<Instruction>>) -> Seq<Seq<Node>> {
    frames.map_values(|f: Vec<Instruction>| nodes_of(f@))
}

proof fn lemma_frames_push(fs: Seq<Seq<Node>>, n: Node)
    requires
        fs.len() >= 1,
    ensures
        frames_tokens(fs.update(fs.len() - 1, fs.last().push(n))) == frames_tokens(fs)
            + node_tokens(n),
{
    let g = fs.last().push(n);
    let gs = fs.update(fs.len() - 1, g);
    assert(g.drop_last() == fs.last());
    if fs.len() > 1 {
        assert(gs.drop_last() == fs.drop_last());
    }
    assert(tokens_of(g) == tokens_of(fs.last()) + node_tokens(n));
}

proof fn lemma_frames_close(fs: Seq<Seq<Node>>)
    requires
        fs.len() >= 2,
    ensures
        ({
            let pre = fs.drop_last();
            let closed = pre.update(pre.len() - 1, pre.last().push(Node::Loop(fs.last())));
            frames_tokens(closed) == frames_tokens(fs) + seq![Token::LoopEnd]
        }),
{
    let pre = fs.drop_last();
    lemma_frames_push(pre, Node::Loop(fs.last()));
    assert(node_tokens(Node::Loop(fs.last())) == seq![Token::LoopStart] + tokens_of(fs.last())
        + seq![Token::LoopEnd]);
}

proof fn lemma_frames_open(fs: Seq<Seq<Node>>)
    requires
        fs.len() >= 1,
    ensures
        frames_tokens(fs.push(seq![])) == frames_tokens(fs) + seq![Token::LoopStart],
{
    assert(fs.push(seq![]).drop_last() == fs);
    assert(tokens_of(seq![]) == Seq::<Token>::empty());
}

proof fn lemma_nodes_push(s: Seq<Instruction>, i: Instruction)
    ensures
        nodes_of(s.push(i)) == nodes_of(s).push(node_of(i)),
{
    assert(s.push(i).drop_last() == s);
}

/// Whether `d` levels of loops can be entered from `n`, each time through the
/// last instruction of the loop's body.
pub open spec fn has_last_chain(n: Node, d: nat) -> bool
    decreases d,
{
    if d == 0 {
        true
    } else {
        n is Loop && n->Loop_0.len() > 0 && has_last_chain(n->Loop_0.last(), (d - 1) as nat)
    }
}

/// The node reached from `n` by entering `d` loops through their last instruction.
pub open spec fn deepest(n: Node, d: nat) -> Node
    decreases d,
{
    if d > 0 && n is Loop && n->Loop_0.len() > 0 {
        deepest(n->Loop_0.last(), (d - 1) as nat)
    } else {
        n
    }
}

/// `n` with the node `deepest(n, d)` replaced by `m`.
pub open spec fn graft(n: Node, d: nat, m: Node) -> Node
    decreases d,
{
    if d > 0 && n is Loop && n->Loop_0.len() > 0 {
        let b = n->Loop_0;
        Node::Loop(b.update(b.len() - 1, graft(b.last(), (d - 1) as nat, m)))
    } else if d == 0 {
        m
    } else {
        n
    }
}

/// The number of loops that `get_last_deepest_mut` enters for a nesting level.
pub open spec fn descents(nesting: usize) -> nat {
    if nesting == 0 {
        0
    } else {
        (nesting - 1) as nat
    }
}

/// The view of a sequence of instructions has one node per instruction, in order.
pub proof fn lemma_nodes_index(s: Seq<Instruction>)
    ensures
        nodes_of(s).len() == s.len(),
        forall|i: int| 0 <= i < s.len() ==> nodes_of(s)[i] == node_of(#[trigger] s[i]),
    decreases s.len(),
{
    if s.len() > 0 {
        lemma_nodes_index(s.drop_last());
        assert forall|i: int| 0 <= i < s.len() implies nodes_of(s)[i] == node_of(
            #[trigger] s[i],
        ) by {
            if i < s.len() - 1 {
                assert(s[i] == s.drop_last()[i]);
            }
        }
    }
}

proof fn lemma_nodes_update(s: Seq<Instruction>, i: int, x: Instruction)
    requires
        0 <= i < s.len(),
    ensures
        nodes_of(s.update(i, x)) == nodes_of(s).update(i, node_of(x)),
{
    lemma_nodes_index(s);
    lemma_nodes_index(s.update(i, x));
    assert forall|j: int| 0 <= j < s.len() implies nodes_of(s.update(i, x))[j] == nodes_of(
        s,
    ).update(i, node_of(x))[j] by {
        assert(s.update(i, x)[j] == if j == i {
            x
        } else {
            s[j]
        });
    }
    assert(nodes_of(s.update(i, x)) =~= nodes_of(s).update(i, node_of(x)));
}

proof fn lemma_deepest_step(n: Node, d: nat)
    requires
        has_last_chain(n, d + 1),
    ensures
        has_last_chain(deepest(n, d), 1),
        deepest(n, d + 1) == deepest(deepest(n, d), 1),
    decreases d,
{
    if d > 0 {
        lemma_deepest_step(n->Loop_0.last(), (d - 1) as nat);
    }
}

proof fn lemma_chain_rest(n: Node, d: nat, k: nat)
    requires
        has_last_chain(n, d),
        k <= d,
    ensures
        has_last_chain(deepest(n, k), (d - k) as nat),
    decreases k,
{
    if k > 0 {
        lemma_chain_rest(n->Loop_0.last(), (d - 1) as nat, (k - 1) as nat);
    }
}

proof fn lemma_chain_shorter(n: Node, d: nat, k: nat)
    requires
        has_last_chain(n, d),
        k <= d,
    ensures
        has_last_chain(n, k),
    decreases k,
{
    if k > 0 {
        lemma_chain_shorter(n->Loop_0.last(), (d - 1) as nat, (k - 1) as nat);
    }
}

proof fn lemma_graft_step(n: Node, d: nat, m: Node)
    requires
        has_last_chain(n, d + 1),
    ensures
        ({
            let b = deepest(n, d)->Loop_0;
            graft(n, d, Node::Loop(b.update(b.len() - 1, m))) == graft(n, d + 1, m)
        }),
    decreases d,
{
    let b = deepest(n, d)->Loop_0;
    if d > 0 {
        lemma_graft_step(n->Loop_0.last(), (d - 1) as nat, m);
        assert(deepest(n, d) == deepest(n->Loop_0.last(), (d - 1) as nat));
        assert((d + 1 - 1) as nat == d);
    } else {
        assert(graft(b.last(), 0, m) == m);
    }
}

impl Instruction {
    /// Get the inside of [`Instruction::Loop`]
    pub fn get_inner_mut(&mut self) -> (r: Option<&mut Vec<Self>>)
        ensures
            (*old(self) is Loop) <==> r is Some,
            r is Some ==> old(self)->Loop_0 == *r.unwrap() && *final(self) == Instruction::Loop(
                *final(r.unwrap()),
            ),
            r is None ==> *final(self) == *old(self),
    {
        match self {
            Instruction::Loop(x) => Some(x),
            _ => None,
        }
    }

    /// Get the deepest [`Instruction::Loop`] inside a nested [`Instruction::Loop`]: from a
    /// loop at nesting level one, enter the last instruction of the body until the
    /// given level is reached.
    pub fn get_last_deepest_mut(&mut self, nesting: usize) -> (r: &mut Self)
        requires
            has_last_chain(old(self)@, descents(nesting)),
        ensures
            r@ == deepest(old(self)@, descents(nesting)),
            (*final(self))@ == graft(old(self)@, descents(nesting), (*final(r))@),
    {
        let ghost start = self@;
        let ghost finished = (*final(self))@;
        let mut instruction_ref: &mut Instruction = self;
        let mut k: usize = 1;
        while k < nesting
            invariant
                1 <= k,
                k <= nesting || (nesting == 0 && k == 1),
                has_last_chain(start, descents(nesting)),
                instruction_ref@ == deepest(start, (k - 1) as nat),
                finished == graft(start, (k - 1) as nat, (*final(instruction_ref))@),
            decreases nesting - k,
        {
            proof {
                lemma_chain_rest(start, descents(nesting), (k - 1) as nat);
                lemma_chain_shorter(start, descents(nesting), k as nat);
                lemma_deepest_step(start, (k - 1) as nat);
            }
            let inner = instruction_ref.get_inner_mut().unwrap();
            proof {
                lemma_nodes_index(inner@);
            }
            let ghost body = inner@;
            let last = inner.last_mut().unwrap();
            proof {
                lemma_nodes_update(body, body.len() - 1, *final(last));
                lemma_graft_step(start, (k - 1) as nat, (*final(last))@);
            }
            proof {
                assert(deepest(start, (k - 1) as nat) == Node::Loop(nodes_of(body)));
                assert(nodes_of(body).len() > 0);
                assert(deepest(nodes_of(body).last(), 0) == nodes_of(body).last());
                assert(deepest(Node::Loop(nodes_of(body)), 1) == nodes_of(body).last());
            }
            instruction_ref = last;
            k += 1;
        }
        instruction_ref
    }
    /// Parses a sequence of tokens into the instructions they stand for, each
    /// `[` and its matching `]` becoming one loop.
    pub fn parse(tokens: &[Token]) -> (r: Result<Vec<Instruction>, ParseError>)
        ensures
            match r {
                Ok(v) => balanced(tokens@) && tokens_of(nodes_of(v@)) == tokens@,
                Err(ParseError::UnmatchedLoopEnd) => !ends_matched(tokens@),
                Err(ParseError::UnmatchedLoopStart) => ends_matched(tokens@) && depth(tokens@)
                    > 0,
            },
    {
        let mut frames: Vec<Vec<Instruction>> = Vec::new();
        frames.push(Vec::new());
        proof {
            assert(frame_nodes(frames@) == seq![Seq::<Node>::empty()]);
            assert(tokens@.subrange(0, 0) == Seq::<Token>::empty());
        }
        let mut i: usize = 0;
        while i < tokens.len()
            invariant
                i <= tokens@.len(),
                frames@.len() >= 1,
                frames@.len() - 1 == depth(tokens@.subrange(0, i as int)),
                frames_tokens(frame_nodes(frames@)) == tokens@.subrange(0, i as int),
                forall|j: int|
                    0 <= j <= i ==> depth(#[trigger] tokens@.subrange(0, j)) >= 0,
            decreases tokens@.len() - i,
        {
            let ghost before = frame_nodes(frames@);
            let ghost prefix = tokens@.subrange(0, i as int);
            let token = tokens[i];
            assert(tokens@.subrange(0, i + 1) == prefix.push(token));
            assert(tokens@.subrange(0, i + 1).drop_last() == prefix);
            match token {
                Token::LoopStart => {
                    frames.push(Vec::new());
                    proof {
                        lemma_frames_open(before);
                        assert(frame_nodes(frames@) == before.push(seq![]));
                    }
                },
                Token::LoopEnd => {
                    if frames.len() == 1 {
                        assert(depth(tokens@.subrange(0, i + 1)) < 0);
                        return Err(ParseError::UnmatchedLoopEnd);
                    }
                    let body = frames.pop().unwrap();
                    let mut outer = frames.pop().unwrap();
                    let ghost outer_before = outer@;
                    outer.push(Instruction::Loop(body));
                    frames.push(outer);
                    proof {
                        lemma_frames_close(before);
                        lemma_nodes_push(outer_before, Instruction::Loop(body));
                        let pre = before.drop_last();
                        assert(frame_nodes(frames@) == pre.update(
                            pre.len() - 1,
                            pre.last().push(Node::Loop(before.last())),
                        ));
                    }
                },
                _ => {
                    let mut top = frames.pop().unwrap();
                    let ghost top_before = top@;
                    let ins = leaf(token);
                    top.push(ins);
                    frames.push(top);
                    proof {
                        lemma_frames_push(before, ins@);
                        lemma_nodes_push(top_before, ins);
                        assert(frame_nodes(frames@) == before.update(
                            before.len() - 1,
                            before.last().push(ins@),
                        ));
                    }
                },
            }
            i += 1;
        }
        assert(tokens@.subrange(0, i as int) == tokens@);
        if frames.len() > 1 {
            return Err(ParseError::UnmatchedLoopStart);
        }
        let top = frames.pop().unwrap();
        Ok(top)
    }
}

} // verus!

verus! {

proof fn lemma_depth_concat(u: Seq<Token>, v: Seq<Token>)
    ensures
        depth(u + v) == depth(u) + depth(v),
    decreases v.len(),
{
    if v.len() == 0 {
        assert(u + v == u);
    } else {
        lemma_depth_concat(u, v.drop_last());
        assert((u + v).drop_last() == u + v.drop_last());
    }
}

proof fn lemma_matched_concat(u: Seq<Token>, v: Seq<Token>)
    requires
        ends_matched(u),
        depth(u) >= 0,
        ends_matched(v),
    ensures
        ends_matched(u + v),
{
    assert forall|j: int| 0 <= j <= (u + v).len() implies depth(
        #[trigger] (u + v).subrange(0, j),
    ) >= 0 by {
        if j <= u.len() {
            assert((u + v).subrange(0, j) == u.subrange(0, j));
        } else {
            assert((u + v).subrange(0, j) == u + v.subrange(0, j - u.len()));
            lemma_depth_concat(u, v.subrange(0, j - u.len()));
        }
    }
}

proof fn lemma_matched_close(w: Seq<Token>)
    requires
        ends_matched(w),
        depth(w) >= 1,
    ensures
        ends_matched(w.push(Token::LoopEnd)),
        depth(w.push(Token::LoopEnd)) == depth(w) - 1,
{
    let e = w.push(Token::LoopEnd);
    assert(e.drop_last() == w);
    assert forall|j: int| 0 <= j <= e.len() implies depth(#[trigger] e.subrange(0, j)) >= 0 by {
        if j <= w.len() {
            assert(e.subrange(0, j) == w.subrange(0, j));
        } else {
            assert(e.subrange(0, j) == e);
        }
    }
}

proof fn lemma_single_matched(t: Token)
    requires
        t != Token::LoopEnd,
    ensures
        ends_matched(seq![t]),
        depth(seq![t]) == if t == Token::LoopStart {
            1int
        } else {
            0
        },
{
    assert(seq![t].drop_last() == Seq::<Token>::empty());
    assert(depth(Seq::<Token>::empty()) == 0);
    assert(depth(seq![t]) >= 0);
    assert forall|j: int| 0 <= j <= 1 implies depth(#[trigger] seq![t].subrange(0, j)) >= 0 by {
        if j == 0 {
            assert(seq![t].subrange(0, j) == Seq::<Token>::empty());
        } else {
            assert(seq![t].subrange(0, j) == seq![t]);
        }
    }
}

/// The tokens of any tree are balanced.
pub proof fn lemma_node_balanced(n: Node)
    ensures
        balanced(node_tokens(n)),
        node_tokens(n).len() > 0,
    decreases n,
{
    match n {
        Node::Loop(body) => {
            lemma_tokens_balanced(body);
            lemma_single_matched(Token::LoopStart);
            lemma_matched_concat(seq![Token::LoopStart], tokens_of(body));
            lemma_depth_concat(seq![Token::LoopStart], tokens_of(body));
            lemma_matched_close(seq![Token::LoopStart] + tokens_of(body));
            assert(node_tokens(n) == (seq![Token::LoopStart] + tokens_of(body)).push(
                Token::LoopEnd,
            ));
        },
        _ => {
            lemma_single_matched(node_tokens(n)[0]);
            assert(node_tokens(n) == seq![node_tokens(n)[0]]);
        },
    }
}

/// The tokens of any sequence of trees are balanced.
pub proof fn lemma_tokens_balanced(s: Seq<Node>)
    ensures
        balanced(tokens_of(s)),
    decreases s,
{
    if s.len() == 0 {
        assert(tokens_of(s) == Seq::<Token>::empty());
        assert forall|j: int| 0 <= j <= 0 implies depth(
            #[trigger] tokens_of(s).subrange(0, j),
        ) >= 0 by {
            assert(tokens_of(s).subrange(0, j) == Seq::<Token>::empty());
        }
    } else {
        lemma_tokens_balanced(s.drop_last());
        lemma_node_balanced(s.last());
        lemma_matched_concat(tokens_of(s.drop_last()), node_tokens(s.last()));
        lemma_depth_concat(tokens_of(s.drop_last()), node_tokens(s.last()));
    }
}

/// No proper suffix `[` + `x` of a balanced sequence has `x` balanced.
proof fn lemma_no_inner_split(y: Seq<Token>, x: Seq<Token>)
    requires
        balanced(y),
        balanced(x),
        x.len() < y.len(),
    ensures
        y.subrange(y.len() - x.len() - 1, y.len() as int) != seq![Token::LoopStart] + x,
{
    if y.subrange(y.len() - x.len() - 1, y.len() as int) == seq![Token::LoopStart] + x {
        lemma_split_depth(y, x);
    }
}

proof fn lemma_split_depth(y: Seq<Token>, x: Seq<Token>)
    requires
        balanced(y),
        balanced(x),
        x.len() < y.len(),
        y.subrange(y.len() - x.len() - 1, y.len() as int) == seq![Token::LoopStart] + x,
    ensures
        depth(y.subrange(0, y.len() - x.len() - 1)) == -1,
{
    let k = y.len() - x.len() - 1;
    let p = y.subrange(0, k);
    assert(y == p + (seq![Token::LoopStart] + x));
    lemma_depth_concat(p, seq![Token::LoopStart] + x);
    lemma_depth_concat(seq![Token::LoopStart], x);
    lemma_single_matched(Token::LoopStart);
}

spec fn leaf_token(n: Node) -> Token {
    match n {
        Node::Inc => Token::Inc,
        Node::Dec => Token::Dec,
        Node::Next => Token::Next,
        Node::Prev => Token::Prev,
        Node::Print => Token::Print,
        _ => Token::Read,
    }
}

proof fn lemma_leaf_tokens(m: Node, n: Node)
    requires
        !(m is Loop),
        !(n is Loop),
        node_tokens(m) == node_tokens(n),
    ensures
        m == n,
{
    assert(node_tokens(m) == seq![leaf_token(m)]);
    assert(node_tokens(n) == seq![leaf_token(n)]);
    assert(leaf_token(m) == node_tokens(m)[0]);
    assert(leaf_token(n) == node_tokens(n)[0]);
}

proof fn lemma_loops_split(a1: Seq<Node>, x: Seq<Node>, b1: Seq<Node>, y: Seq<Node>)
    requires
        tokens_of(a1) + node_tokens(Node::Loop(x)) == tokens_of(b1) + node_tokens(Node::Loop(y)),
    ensures
        tokens_of(a1) == tokens_of(b1),
        tokens_of(x) == tokens_of(y),
{
    let (tx, ty) = (tokens_of(x), tokens_of(y));
    lemma_tokens_balanced(x);
    lemma_tokens_balanced(y);
    let w = tokens_of(a1) + node_tokens(Node::Loop(x));
    let v = w.drop_last();
    assert(v == tokens_of(a1) + seq![Token::LoopStart] + tx);
    assert(v == tokens_of(b1) + seq![Token::LoopStart] + ty);
    assert(v.subrange(v.len() - tx.len() - 1, v.len() as int) =~= seq![Token::LoopStart] + tx);
    assert(v.subrange(v.len() - ty.len() - 1, v.len() as int) =~= seq![Token::LoopStart] + ty);
    assert(v.subrange(v.len() - ty.len(), v.len() as int) =~= ty);
    assert(v.subrange(v.len() - tx.len(), v.len() as int) =~= tx);
    if tx.len() < ty.len() {
        assert(ty.subrange(ty.len() - tx.len() - 1, ty.len() as int) =~= v.subrange(
            v.len() - tx.len() - 1,
            v.len() as int,
        ));
        lemma_no_inner_split(ty, tx);
    } else if ty.len() < tx.len() {
        assert(tx.subrange(tx.len() - ty.len() - 1, tx.len() as int) =~= v.subrange(
            v.len() - ty.len() - 1,
            v.len() as int,
        ));
        lemma_no_inner_split(tx, ty);
    } else {
        assert(tokens_of(a1) =~= v.subrange(0, v.len() - tx.len() - 1));
        assert(tokens_of(b1) =~= v.subrange(0, v.len() - ty.len() - 1));
    }
}

/// Two sequences of instructions written with the same tokens are the same:
/// parsing a source twice gives equal trees.
pub proof fn lemma_parse_unique(a: Seq<Node>, b: Seq<Node>)
    requires
        tokens_of(a) == tokens_of(b),
    ensures
        a == b,
    decreases tokens_of(a).len(),
{
    if a.len() == 0 || b.len() == 0 {
        if a.len() > 0 {
            lemma_node_balanced(a.last());
        }
        if b.len() > 0 {
            lemma_node_balanced(b.last());
        }
        assert(a =~= b);
    } else {
        let (a1, b1) = (a.drop_last(), b.drop_last());
        let (na, nb) = (a.last(), b.last());
        let w = tokens_of(a);
        lemma_node_balanced(na);
        lemma_node_balanced(nb);
        assert(w.last() == node_tokens(na).last());
        assert(w.last() == node_tokens(nb).last());
        if na is Loop && nb is Loop {
            let (x, y) = (na->Loop_0, nb->Loop_0);
            lemma_loops_split(a1, x, b1, y);
            lemma_parse_unique(x, y);
            lemma_parse_unique(a1, b1);
            assert(na == nb);
        } else {
            assert(!(na is Loop) && !(nb is Loop));
            assert(node_tokens(na) == seq![w.last()]);
            assert(node_tokens(nb) == seq![w.last()]);
            lemma_leaf_tokens(na, nb);
            assert(tokens_of(a1) == w.drop_last());
            assert(tokens_of(b1) == w.drop_last());
            lemma_parse_unique(a1, b1);
        }
        assert(a == a1.push(na));
        assert(b == b1.push(nb));
    }
}

} // verus!
