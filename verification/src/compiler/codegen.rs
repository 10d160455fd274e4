//! The code generator: walks the syntax tree and emits a control-flow graph
//! of basic blocks — the explicit artifact a native code-generation backend
//! consumes. Generation keeps a cursor into the block list, the way a
//! backend's instruction builder keeps a current position; a loop lowers to
//! a condition block, a body block and an end block, wired by a backward
//! edge and a single conditional exit.

use vstd::prelude::*;

use crate::node::Node;

verus! {

/// One straight-line instruction of the generated program. The program
/// state they act on is the fixed 30,000-cell tape of integer cells,
/// allocated once at function entry, and the single index variable holding
/// the current tape offset, initialized to zero. No bounds check is
/// performed on the index; an out-of-range offset is the backend's
/// undefined behavior, an accepted limitation.
#[derive(Debug, Copy, Clone, PartialEq, Eq, Structural)]
pub enum Instr {
    /// index ← index − 1
    IndexDec,
    /// index ← index + 1
    IndexInc,
    /// cell-at(index) ← cell-at(index) + 1
    CellInc,
    /// cell-at(index) ← cell-at(index) − 1
    CellDec,
    /// call character-output(cell-at(index))
    OutputCell,
    /// cell-at(index) ← call character-input()
    InputCell,
    /// load cell-at(index) and compare it not-equal to zero; the block's
    /// conditional branch consumes this comparison
    LoadCellTest,
}

/// How a basic block ends: an unconditional branch, a conditional branch
/// on the block's comparison (taken target first, fallthrough second), or
/// a return of the integer constant zero. Targets are block indices.
#[derive(Debug, Copy, Clone, PartialEq, Eq, Structural)]
pub enum Terminator {
    Jump(usize),
    CondBranch(usize, usize),
    Ret,
}

/// One basic block: its instructions in order, and its terminator once the
/// generator has sealed it (`None` while it is still being filled).
#[derive(Debug, PartialEq)]
pub struct Block {
    pub instrs: Vec<Instr>,
    pub term: Option<Terminator>,
}

/// The mathematical view of a terminator, with unbounded block indices.
pub enum TermView {
    Jump(int),
    CondBranch(int, int),
    Ret,
}

/// The mathematical view of a basic block.
#[verifier::ext_equal]
pub struct BlockView {
    pub instrs: Seq<Instr>,
    pub term: Option<TermView>,
}

/// The mathematical view of the generator state: the blocks created so
/// far, and the cursor naming the block instructions currently go to.
#[verifier::ext_equal]
pub struct CfgView {
    pub blocks: Seq<BlockView>,
    pub cur: int,
}

impl View for Terminator {
    type V = TermView;

    open spec fn view(&self) -> TermView {
        match *self {
            Terminator::Jump(b) => TermView::Jump(b as int),
            Terminator::CondBranch(a, b) => TermView::CondBranch(a as int, b as int),
            Terminator::Ret => TermView::Ret,
        }
    }
}

impl View for Block {
    type V = BlockView;

    open spec fn view(&self) -> BlockView {
        BlockView {
            instrs: self.instrs@,
            term: match self.term {
                None => None,
                Some(t) => Some(t@),
            },
        }
    }
}

/// A terminator's targets all name existing blocks, `n` being the block
/// count.
pub open spec fn term_wf(t: Option<TermView>, n: int) -> bool {
    match t {
        None => true,
        Some(TermView::Jump(b)) => 0 <= b < n,
        Some(TermView::CondBranch(a, b)) => 0 <= a < n && 0 <= b < n,
        Some(TermView::Ret) => true,
    }
}

/// The generator invariant: the cursor rests on an existing, still-open
/// block, and every branch emitted so far targets an existing block.
pub open spec fn cfg_wf(c: CfgView) -> bool {
    &&& 0 <= c.cur < c.blocks.len()
    &&& c.blocks[c.cur].term is None
    &&& forall|i: int|
        0 <= i < c.blocks.len() ==> term_wf(#[trigger] c.blocks[i].term, c.blocks.len() as int)
}

/// Appending one instruction to the block under the cursor.
pub open spec fn cfg_push_instr(c: CfgView, ins: Instr) -> CfgView {
    CfgView {
        blocks: c.blocks.update(
            c.cur,
            BlockView { instrs: c.blocks[c.cur].instrs.push(ins), term: c.blocks[c.cur].term },
        ),
        cur: c.cur,
    }
}

/// Sealing block `b` with terminator `t`.
pub open spec fn cfg_seal(c: CfgView, b: int, t: TermView) -> CfgView {
    CfgView {
        blocks: c.blocks.update(b, BlockView { instrs: c.blocks[b].instrs, term: Some(t) }),
        cur: c.cur,
    }
}

/// Appending a fresh, empty, open block.
pub open spec fn cfg_add_block(c: CfgView) -> CfgView {
    CfgView {
        blocks: c.blocks.push(BlockView { instrs: Seq::empty(), term: None }),
        cur: c.cur,
    }
}

/// Moving the cursor to block `b`.
pub open spec fn cfg_position(c: CfgView, b: int) -> CfgView {
    CfgView { blocks: c.blocks, cur: b }
}

/// Opening a loop: branch from the current block to the new condition
/// block, emit the comparison there, create the body block, and leave the
/// cursor on the body block. The condition block's own branch is deferred
/// until the body is lowered.
pub open spec fn cfg_open_loop(c: CfgView) -> CfgView {
    let cond = c.blocks.len() as int;
    let c1 = cfg_seal(c, c.cur, TermView::Jump(cond));
    let c2 = cfg_position(cfg_add_block(c1), cond);
    let c3 = cfg_push_instr(c2, Instr::LoadCellTest);
    cfg_position(cfg_add_block(c3), cond + 1)
}

/// Closing a loop whose condition block is `cond`: create the end block,
/// branch from the body's last block back to the condition block, emit the
/// deferred conditional branch — body on a nonzero cell, end otherwise —
/// and leave the cursor on the end block.
pub open spec fn cfg_close_loop(c: CfgView, cond: int) -> CfgView {
    let end = c.blocks.len() as int;
    let c1 = cfg_add_block(c);
    let c2 = cfg_seal(c1, c1.cur, TermView::Jump(cond));
    let c3 = cfg_seal(c2, cond, TermView::CondBranch(cond + 1, end));
    cfg_position(c3, end)
}

/// The effect of lowering one node: each simple node appends its
/// instruction to the current block, a loop opens and closes its three
/// blocks around its lowered body, and the end marker does nothing.
pub open spec fn spec_visit(c: CfgView, n: Node) -> CfgView
    decreases n,
{
    match n {
        Node::Left => cfg_push_instr(c, Instr::IndexDec),
        Node::Right => cfg_push_instr(c, Instr::IndexInc),
        Node::Inc => cfg_push_instr(c, Instr::CellInc),
        Node::Dec => cfg_push_instr(c, Instr::CellDec),
        Node::Output => cfg_push_instr(c, Instr::OutputCell),
        Node::Input => cfg_push_instr(c, Instr::InputCell),
        Node::Group(body) => cfg_close_loop(
            spec_visit_seq(cfg_open_loop(c), body@),
            c.blocks.len() as int,
        ),
        Node::EOF => c,
    }
}

/// The effect of lowering a node sequence, in order.
pub open spec fn spec_visit_seq(c: CfgView, ns: Seq<Node>) -> CfgView
    decreases ns,
{
    if ns.len() == 0 {
        c
    } else {
        spec_visit_seq(spec_visit(c, ns[0]), ns.drop_first())
    }
}

/// The generator state at function entry: one empty, open block.
pub open spec fn cfg_init() -> CfgView {
    CfgView { blocks: seq![BlockView { instrs: Seq::empty(), term: None }], cur: 0 }
}

/// The finished control-flow graph of a program: every node lowered in
/// order from a fresh generator, and the last open block sealed with the
/// return of zero.
pub open spec fn spec_gen(ast: Seq<Node>) -> CfgView {
    let c = spec_visit_seq(cfg_init(), ast);
    cfg_seal(c, c.cur, TermView::Ret)
}

/// Lowering a sequence one node at a time from the back.
pub proof fn lemma_visit_seq_push(c: CfgView, ns: Seq<Node>, n: Node)
    ensures
        spec_visit_seq(c, ns.push(n)) == spec_visit(spec_visit_seq(c, ns), n),
    decreases ns,
{
    if ns.len() == 0 {
        assert(ns.push(n)[0] == n);
        assert(ns.push(n).drop_first() =~= Seq::<Node>::empty());
        assert(spec_visit_seq(spec_visit(c, n), Seq::<Node>::empty()) == spec_visit(c, n));
    } else {
        assert(ns.push(n)[0] == ns[0]);
        assert(ns.push(n).drop_first() =~= ns.drop_first().push(n));
        lemma_visit_seq_push(spec_visit(c, ns[0]), ns.drop_first(), n);
    }
}

/// Lowering one node preserves the generator invariant, only appends
/// blocks, moves the cursor only onto the same or a freshly created block,
/// and touches no existing block other than the one under the cursor.
pub proof fn lemma_visit_frame(c: CfgView, n: Node)
    requires
        cfg_wf(c),
    ensures
        ({
            let c2 = spec_visit(c, n);
            &&& cfg_wf(c2)
            &&& c.blocks.len() <= c2.blocks.len()
            &&& c.cur <= c2.cur
            &&& (c2.cur == c.cur || c2.cur >= c.blocks.len())
            &&& forall|i: int|
                0 <= i < c.blocks.len() && i != c.cur ==> c2.blocks[i] == c.blocks[i]
        }),
    decreases n,
{
    match n {
        Node::Group(body) => {
            let cond = c.blocks.len() as int;
            let c4 = cfg_open_loop(c);
            assert(c4.blocks.len() == cond + 2);
            assert(c4.cur == cond + 1);
            assert(cfg_wf(c4));
            lemma_visit_seq_frame(c4, body@);
            let c5 = spec_visit_seq(c4, body@);
            let end = c5.blocks.len() as int;
            let c2 = spec_visit(c, n);
            assert(c5.blocks[cond] == c4.blocks[cond]);
            assert(c2.blocks.len() == end + 1);
            assert(c2.cur == end);
            assert(c2.blocks[end].term is None);
            assert forall|i: int| 0 <= i < c2.blocks.len() implies term_wf(
                #[trigger] c2.blocks[i].term,
                c2.blocks.len() as int,
            ) by {
                if i < c.blocks.len() && i != c.cur {
                    assert(c5.blocks[i] == c.blocks[i]);
                    assert(c2.blocks[i] == c.blocks[i]);
                } else if i == c.cur {
                    assert(c2.blocks[i].term == Some(TermView::Jump(cond)));
                } else if i == cond {
                    assert(c2.blocks[i].term == Some(TermView::CondBranch(cond + 1, end)));
                } else if i == c5.cur {
                    assert(c2.blocks[i].term == Some(TermView::Jump(cond)));
                } else if i == end {
                    assert(c2.blocks[i].term is None);
                } else {
                    assert(c2.blocks[i] == c5.blocks[i]);
                    assert(term_wf(c5.blocks[i].term, c5.blocks.len() as int));
                }
            }
            assert forall|i: int| 0 <= i < c.blocks.len() && i != c.cur implies c2.blocks[i]
                == c.blocks[i] by {
                assert(c5.blocks[i] == c4.blocks[i]);
            }
        },
        _ => {},
    }
}

/// Lowering a node sequence preserves the generator invariant and frames
/// untouched blocks, as `lemma_visit_frame` does for one node.
pub proof fn lemma_visit_seq_frame(c: CfgView, ns: Seq<Node>)
    requires
        cfg_wf(c),
    ensures
        ({
            let c2 = spec_visit_seq(c, ns);
            &&& cfg_wf(c2)
            &&& c.blocks.len() <= c2.blocks.len()
            &&& c.cur <= c2.cur
            &&& (c2.cur == c.cur || c2.cur >= c.blocks.len())
            &&& forall|i: int|
                0 <= i < c.blocks.len() && i != c.cur ==> c2.blocks[i] == c.blocks[i]
        }),
    decreases ns,
{
    if ns.len() == 0 {
    } else {
        lemma_visit_frame(c, ns[0]);
        lemma_visit_seq_frame(spec_visit(c, ns[0]), ns.drop_first());
    }
}

/// Lowering one node opens no block behind the generator's back: every
/// block left open afterwards is either the one now under the cursor or
/// one that was already open — and not under the cursor — beforehand.
pub proof fn lemma_visit_sealed(c: CfgView, n: Node)
    requires
        cfg_wf(c),
    ensures
        ({
            let c2 = spec_visit(c, n);
            forall|i: int|
                0 <= i < c2.blocks.len() && (#[trigger] c2.blocks[i].term) is None ==> (i == c2.cur
                    || (0 <= i < c.blocks.len() && i != c.cur && c.blocks[i].term is None))
        }),
    decreases n,
{
    match n {
        Node::Group(body) => {
            let cond = c.blocks.len() as int;
            let c4 = cfg_open_loop(c);
            assert(cfg_wf(c4));
            lemma_visit_seq_frame(c4, body@);
            lemma_visit_seq_sealed(c4, body@);
            let c5 = spec_visit_seq(c4, body@);
            let end = c5.blocks.len() as int;
            let c2 = spec_visit(c, n);
            assert forall|i: int|
                0 <= i < c2.blocks.len() && (#[trigger] c2.blocks[i].term) is None implies (i
                == c2.cur || (0 <= i < c.blocks.len() && i != c.cur
                && c.blocks[i].term is None)) by {
                if i != end && i != c5.cur && i != cond {
                    assert(c2.blocks[i] == c5.blocks[i]);
                    if 0 <= i < c4.blocks.len() && i != c4.cur {
                        assert(c5.blocks[i] == c4.blocks[i]);
                    }
                }
            }
        },
        _ => {},
    }
}

/// Lowering a node sequence opens no block behind the generator's back,
/// as `lemma_visit_sealed` says of one node.
pub proof fn lemma_visit_seq_sealed(c: CfgView, ns: Seq<Node>)
    requires
        cfg_wf(c),
    ensures
        ({
            let c2 = spec_visit_seq(c, ns);
            forall|i: int|
                0 <= i < c2.blocks.len() && (#[trigger] c2.blocks[i].term) is None ==> (i == c2.cur
                    || (0 <= i < c.blocks.len() && i != c.cur && c.blocks[i].term is None))
        }),
    decreases ns,
{
    if ns.len() == 0 {
    } else {
        lemma_visit_frame(c, ns[0]);
        lemma_visit_sealed(c, ns[0]);
        lemma_visit_seq_sealed(spec_visit(c, ns[0]), ns.drop_first());
    }
}

/// The finished graph is complete: every basic block of a generated
/// program is sealed with a terminator, so the backend never receives a
/// dangling block.
pub proof fn lemma_gen_complete(ast: Seq<Node>)
    ensures
        forall|i: int|
            0 <= i < spec_gen(ast).blocks.len() ==> (#[trigger] spec_gen(
                ast,
            ).blocks[i].term) is Some,
{
    assert(cfg_wf(cfg_init()));
    lemma_visit_seq_frame(cfg_init(), ast);
    lemma_visit_seq_sealed(cfg_init(), ast);
}

/// The empty program — no nodes, or the end marker alone — generates a
/// control-flow graph of exactly one block, holding no instruction and
/// returning zero.
pub proof fn lemma_gen_empty()
    ensures
        spec_gen(Seq::<Node>::empty()) == cfg_seal(cfg_init(), 0, TermView::Ret),
        spec_gen(seq![Node::EOF]) == spec_gen(Seq::<Node>::empty()),
        spec_gen(Seq::<Node>::empty()).blocks.len() == 1,
        spec_gen(Seq::<Node>::empty()).blocks[0].instrs == Seq::<Instr>::empty(),
        spec_gen(Seq::<Node>::empty()).blocks[0].term == Some(TermView::Ret),
{
    assert(seq![Node::EOF].drop_first() =~= Seq::<Node>::empty());
    assert(seq![Node::EOF][0] == Node::EOF);
    assert(spec_visit(cfg_init(), Node::EOF) == cfg_init());
    assert(spec_visit_seq(cfg_init(), Seq::<Node>::empty()) == cfg_init());
    assert(spec_visit_seq(cfg_init(), seq![Node::EOF]) == cfg_init());
}

/// Lowering a loop node creates exactly three blocks for the loop itself —
/// condition, body and end — plus whatever blocks the body's own loops
/// introduce, and wires the two invariant edges of every loop: the body's
/// last block branches back to the condition block, and the condition
/// block, holding the single comparison, branches to the body's first
/// block on a nonzero cell and to the end block otherwise. Lowering
/// continues in the end block.
pub proof fn lemma_loop_blocks(c: CfgView, n: Node)
    requires
        cfg_wf(c),
        n is Group,
    ensures
        ({
            let cond = c.blocks.len() as int;
            let inner = spec_visit_seq(cfg_open_loop(c), n->Group_0@);
            let end = inner.blocks.len() as int;
            let c2 = spec_visit(c, n);
            &&& c2.blocks.len() == end + 1
            &&& end >= cond + 2
            &&& c2.blocks.len() - c.blocks.len() == 3 + (inner.blocks.len() - cfg_open_loop(
                c,
            ).blocks.len())
            &&& c2.blocks[c.cur].term == Some(TermView::Jump(cond))
            &&& c2.blocks[cond].instrs == seq![Instr::LoadCellTest]
            &&& c2.blocks[cond].term == Some(TermView::CondBranch(cond + 1, end))
            &&& c2.blocks[inner.cur].term == Some(TermView::Jump(cond))
            &&& c2.cur == end
            &&& c2.blocks[end].instrs == Seq::<Instr>::empty()
            &&& c2.blocks[end].term is None
        }),
{
    let cond = c.blocks.len() as int;
    let c4 = cfg_open_loop(c);
    assert(cfg_wf(c4));
    lemma_visit_seq_frame(c4, n->Group_0@);
    let inner = spec_visit_seq(c4, n->Group_0@);
    assert(inner.blocks[cond] == c4.blocks[cond]);
    assert(c4.blocks[cond].instrs =~= seq![Instr::LoadCellTest]);
    let c2 = spec_visit(c, n);
    assert(c2.blocks[c.cur].term == Some(TermView::Jump(cond))) by {
        assert(inner.blocks[c.cur] == c4.blocks[c.cur]);
    }
}

/// The code generator: the blocks of the control-flow graph being built,
/// the cursor naming the block instructions currently go to, and the
/// compilation's identifying filename. One generator serves one
/// compilation and owns its state exclusively.
pub struct Codegen {
    pub filename: String,
    pub blocks: Vec<Block>,
    pub cur: usize,
}

impl View for Codegen {
    type V = CfgView;

    open spec fn view(&self) -> CfgView {
        CfgView {
            blocks: Seq::new(self.blocks@.len(), |i: int| self.blocks@[i]@),
            cur: self.cur as int,
        }
    }
}

impl Codegen {
    /// A fresh generator for one compilation, remembering `filename` as
    /// the compilation's label: the entry function's single open block,
    /// with the tape and the index variable set up by convention at its
    /// head.
    pub fn new(filename: String) -> (cg: Codegen)
        ensures
            cg@ == cfg_init(),
            cfg_wf(cg@),
            cg.filename@ == filename@,
    {
        let mut blocks: Vec<Block> = Vec::new();
        blocks.push(Block { instrs: Vec::new(), term: None });
        let cg = Codegen { filename, blocks, cur: 0 };
        proof {
            assert(cg@.blocks =~= cfg_init().blocks);
            assert(cg@ =~= cfg_init());
        }
        cg
    }

    /// Appends one instruction to the block under the cursor.
    fn push_instr(&mut self, ins: Instr)
        requires
            old(self).cur < old(self).blocks@.len(),
        ensures
            final(self)@ == cfg_push_instr(old(self)@, ins),
            final(self).filename == old(self).filename,
    {
        let cur = self.cur;
        self.blocks[cur].instrs.push(ins);
        proof {
            assert(self@.blocks =~= cfg_push_instr(old(self)@, ins).blocks);
            assert(self@ =~= cfg_push_instr(old(self)@, ins));
        }
    }

    /// Seals block `b` with terminator `t`.
    fn seal_at(&mut self, b: usize, t: Terminator)
        requires
            b < old(self).blocks@.len(),
        ensures
            final(self)@ == cfg_seal(old(self)@, b as int, t@),
            final(self).filename == old(self).filename,
    {
        self.blocks[b].term = Some(t);
        proof {
            assert(self@.blocks =~= cfg_seal(old(self)@, b as int, t@).blocks);
            assert(self@ =~= cfg_seal(old(self)@, b as int, t@));
        }
    }

    /// Creates a fresh, empty, open block at the end of the block list.
    fn add_block(&mut self)
        ensures
            final(self)@ == cfg_add_block(old(self)@),
            final(self).filename == old(self).filename,
    {
        self.blocks.push(Block { instrs: Vec::new(), term: None });
        proof {
            assert(self@.blocks =~= cfg_add_block(old(self)@).blocks);
            assert(self@ =~= cfg_add_block(old(self)@));
        }
    }

    /// Moves the cursor to block `b`, the way a backend's builder is
    /// positioned at the end of a block.
    fn position_at(&mut self, b: usize)
        ensures
            final(self)@ == cfg_position(old(self)@, b as int),
            final(self).filename == old(self).filename,
    {
        self.cur = b;
        proof {
            assert(self@ =~= cfg_position(old(self)@, b as int));
        }
    }

    /// Lowers one node at the cursor, exactly as `spec_visit` describes:
    /// a simple node appends its instruction; a loop creates its
    /// condition, body and end blocks, lowers its body into the body
    /// block, and leaves the cursor on the end block.
    #[verifier::loop_isolation(false)]
    fn visit(&mut self, node: &Node)
        requires
            cfg_wf(old(self)@),
        ensures
            cfg_wf(final(self)@),
            final(self)@ == spec_visit(old(self)@, *node),
            final(self).filename == old(self).filename,
        decreases *node,
    {
        let ghost c0 = self@;
        proof {
            lemma_visit_frame(c0, *node);
        }
        match node {
            Node::Left => self.push_instr(Instr::IndexDec),
            Node::Right => self.push_instr(Instr::IndexInc),
            Node::Inc => self.push_instr(Instr::CellInc),
            Node::Dec => self.push_instr(Instr::CellDec),
            Node::Output => self.push_instr(Instr::OutputCell),
            Node::Input => self.push_instr(Instr::InputCell),
            Node::Group(body) => {
                let cond = self.blocks.len();
                let cur0 = self.cur;
                self.seal_at(cur0, Terminator::Jump(cond));
                self.add_block();
                self.position_at(cond);
                proof {
                    assert(self@.blocks.len() == c0.blocks.len() + 1);
                    assert(self.blocks@.len() == c0.blocks.len() + 1);
                    assert(self.cur == cond);
                }
                self.push_instr(Instr::LoadCellTest);
                self.add_block();
                proof {
                    assert(self@.blocks.len() == c0.blocks.len() + 2);
                    assert(self.blocks@.len() == c0.blocks.len() + 2);
                }
                let body_blk = self.blocks.len() - 1;
                self.position_at(body_blk);
                proof {
                    assert(self@ =~= cfg_open_loop(c0));
                }
                let ghost c4 = self@;
                proof {
                    lemma_visit_seq_frame(c4, body@);
                }
                let mut i: usize = 0;
                while i < body.len()
                    invariant
                        i <= body.len(),
                        cfg_wf(self@),
                        self@ == spec_visit_seq(c4, body@.take(i as int)),
                        self.filename == old(self).filename,
                    decreases body.len() - i,
                {
                    let child = &body[i];
                    self.visit(child);
                    proof {
                        let bi = body@[i as int];
                        assert(body@.take(i as int + 1) =~= body@.take(i as int).push(bi));
                        lemma_visit_seq_push(c4, body@.take(i as int), bi);
                    }
                    i = i + 1;
                }
                proof {
                    assert(body@.take(body@.len() as int) =~= body@);
                }
                let end = self.blocks.len();
                self.add_block();
                let last = self.cur;
                self.seal_at(last, Terminator::Jump(cond));
                self.seal_at(cond, Terminator::CondBranch(body_blk, end));
                self.position_at(end);
                proof {
                    assert(self@ =~= spec_visit(c0, *node));
                }
            },
            Node::EOF => {},
        }
    }

    /// Lowers the whole program in order and seals the last open block
    /// with the return of zero. Started on a fresh generator, the result
    /// is exactly `spec_gen` of the program.
    #[verifier::loop_isolation(false)]
    pub fn generate_llvm_ir(&mut self, ast: Vec<Node>)
        requires
            cfg_wf(old(self)@),
        ensures
            ({
                let lowered = spec_visit_seq(old(self)@, ast@);
                final(self)@ == cfg_seal(lowered, lowered.cur, TermView::Ret)
            }),
            old(self)@ == cfg_init() ==> final(self)@ == spec_gen(ast@),
            final(self).filename == old(self).filename,
    {
        let ghost c0 = self@;
        proof {
            lemma_visit_seq_frame(c0, ast@);
        }
        let mut i: usize = 0;
        while i < ast.len()
            invariant
                i <= ast.len(),
                cfg_wf(self@),
                self@ == spec_visit_seq(c0, ast@.take(i as int)),
                self.filename == old(self).filename,
            decreases ast.len() - i,
        {
            let node = &ast[i];
            self.visit(node);
            proof {
                assert(ast@.take(i as int + 1) =~= ast@.take(i as int).push(ast@[i as int]));
                lemma_visit_seq_push(c0, ast@.take(i as int), ast@[i as int]);
            }
            i = i + 1;
        }
        proof {
            assert(ast@.take(ast@.len() as int) =~= ast@);
        }
        let cur = self.cur;
        self.seal_at(cur, Terminator::Ret);
    }
}

} // verus!
