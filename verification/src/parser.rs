//! The recursive-descent parser: one token of lookahead, one node per simple
//! token, and a nested parse for each bracketed loop. A token that cannot
//! start an expression aborts the parse with a syntax error naming it.

use vstd::prelude::*;

use crate::lexer::lemma_lex_no_eof;
use crate::lexer::spec_lex;
use crate::node::Node;
use crate::node::lemma_nodes_syms_lex;
use crate::node::lemma_nodes_syms_push;
use crate::node::lemma_nodes_toks_push;
use crate::node::lemma_nodes_wf_push;
use crate::node::node_toks;
use crate::node::node_wf;
use crate::node::nodes_syms;
use crate::node::nodes_toks;
use crate::node::nodes_wf;
use crate::token::Token;
use crate::token::token_text;

verus! {

/// The token the parser sees at position `i`: the token there, or
/// end-of-input once past the end of the sequence.
pub open spec fn tok_at(toks: Seq<Token>, i: int) -> Token {
    if 0 <= i < toks.len() {
        toks[i]
    } else {
        Token::EOF
    }
}

/// How many tokens remain at position `i`; the parser's termination measure.
pub open spec fn rem(toks: Seq<Token>, i: int) -> int {
    if i <= toks.len() {
        toks.len() - i
    } else {
        0
    }
}

/// The span of one expression starting at `i`: the position just past it on
/// success, or the offending token. A simple token spans itself; a bracket
/// opens a nested body that must end on a matching close; a close or the
/// end of input cannot start an expression.
pub open spec fn sp_expr(toks: Seq<Token>, i: int) -> Result<int, Token>
    decreases rem(toks, i), 0int,
{
    match tok_at(toks, i) {
        Token::LAngle => Ok(i + 1),
        Token::RAngle => Ok(i + 1),
        Token::Plus => Ok(i + 1),
        Token::Minus => Ok(i + 1),
        Token::Dot => Ok(i + 1),
        Token::Comma => Ok(i + 1),
        Token::LBracket => match sp_body(toks, i + 1) {
            Ok(k) => Ok(k + 1),
            Err(t) => Err(t),
        },
        Token::RBracket => Err(Token::RBracket),
        Token::EOF => Err(Token::EOF),
    }
}

/// The span of a loop body starting at `i`: expression after expression
/// until a close bracket is in view, whose position is the result. The
/// guard on the recursive step always holds, because a successful
/// expression moves forward (`lemma_sp_expr_bounds`); its `Err` arm only
/// keeps the function total.
pub open spec fn sp_body(toks: Seq<Token>, i: int) -> Result<int, Token>
    decreases rem(toks, i), 1int,
{
    if tok_at(toks, i) == Token::RBracket {
        Ok(i)
    } else {
        match sp_expr(toks, i) {
            Ok(j) => if i < j && j <= toks.len() {
                sp_body(toks, j)
            } else {
                Err(Token::EOF)
            },
            Err(t) => Err(t),
        }
    }
}

/// The span of a whole program starting at `i`: expression after expression
/// until end-of-input is in view, whose position is the result. The guard
/// is as in `sp_body`.
pub open spec fn sp_prog(toks: Seq<Token>, i: int) -> Result<int, Token>
    decreases rem(toks, i), 2int,
{
    if tok_at(toks, i) == Token::EOF {
        Ok(i)
    } else {
        match sp_expr(toks, i) {
            Ok(j) => if i < j && j <= toks.len() {
                sp_prog(toks, j)
            } else {
                Err(Token::EOF)
            },
            Err(t) => Err(t),
        }
    }
}

/// A successful expression span moves strictly forward, stays in bounds,
/// and consumes no end-of-input token.
pub proof fn lemma_sp_expr_bounds(toks: Seq<Token>, i: int)
    ensures
        sp_expr(toks, i) matches Ok(j) ==> i < j <= toks.len() && (forall|m: int|
            i <= m < j ==> #[trigger] tok_at(toks, m) != Token::EOF),
    decreases rem(toks, i), 0int,
{
    if tok_at(toks, i) == Token::LBracket {
        lemma_sp_body_bounds(toks, i + 1);
    }
}

/// A successful body span stops on a close bracket, in bounds, consuming
/// no end-of-input token.
pub proof fn lemma_sp_body_bounds(toks: Seq<Token>, i: int)
    ensures
        sp_body(toks, i) matches Ok(k) ==> i <= k < toks.len() && tok_at(toks, k)
            == Token::RBracket && (forall|m: int|
            i <= m < k ==> #[trigger] tok_at(toks, m) != Token::EOF),
    decreases rem(toks, i), 1int,
{
    if tok_at(toks, i) == Token::RBracket {
    } else {
        lemma_sp_expr_bounds(toks, i);
        match sp_expr(toks, i) {
            Ok(j) => {
                if i < j && j <= toks.len() {
                    lemma_sp_body_bounds(toks, j);
                }
            },
            Err(_) => {},
        }
    }
}

/// A successful program span stops on end-of-input, in bounds, consuming
/// no end-of-input token on the way.
pub proof fn lemma_sp_prog_bounds(toks: Seq<Token>, i: int)
    requires
        i <= toks.len(),
    ensures
        sp_prog(toks, i) matches Ok(k) ==> i <= k <= toks.len() && tok_at(toks, k) == Token::EOF
            && (forall|m: int| i <= m < k ==> #[trigger] tok_at(toks, m) != Token::EOF),
    decreases rem(toks, i), 2int,
{
    if tok_at(toks, i) == Token::EOF {
    } else {
        lemma_sp_expr_bounds(toks, i);
        match sp_expr(toks, i) {
            Ok(j) => {
                if i < j && j <= toks.len() {
                    lemma_sp_prog_bounds(toks, j);
                }
            },
            Err(_) => {},
        }
    }
}

/// The bracket-depth scan: scanning positions `i` up to `n` with open-depth
/// `d`, every close bracket finds an open one, and the scan ends with every
/// open bracket closed.
pub open spec fn scan_ok_from(toks: Seq<Token>, i: int, n: int, d: int) -> bool
    decreases rem(toks, i), span(i, n),
{
    if i < n {
        if tok_at(toks, i) == Token::LBracket {
            scan_ok_from(toks, i + 1, n, d + 1)
        } else if tok_at(toks, i) == Token::RBracket {
            d > 0 && scan_ok_from(toks, i + 1, n, d - 1)
        } else {
            scan_ok_from(toks, i + 1, n, d)
        }
    } else {
        d == 0
    }
}

/// The distance from `i` up to `n`.
pub open spec fn span(i: int, n: int) -> int {
    if i <= n {
        n - i
    } else {
        0
    }
}

/// The first `n` tokens are bracket-balanced: no close without a matching
/// open, and no open left unclosed.
pub open spec fn balanced(toks: Seq<Token>, n: int) -> bool {
    scan_ok_from(toks, 0, n, 0)
}

/// The shape the tokenizer guarantees: at least one token, end-of-input
/// last and nowhere else.
pub open spec fn tokens_wf(toks: Seq<Token>) -> bool {
    &&& toks.len() >= 1
    &&& toks.last() == Token::EOF
    &&& forall|j: int| 0 <= j < toks.len() - 1 ==> toks[j] != Token::EOF
}

/// What the tokenizer produces is well-formed in the sense of `tokens_wf`.
pub proof fn lemma_lex_tokens_wf(s: Seq<char>)
    ensures
        tokens_wf(spec_lex(s).push(Token::EOF)),
{
    lemma_lex_no_eof(s);
    let toks = spec_lex(s).push(Token::EOF);
    assert(toks.last() == Token::EOF);
    assert forall|j: int| 0 <= j < toks.len() - 1 implies toks[j] != Token::EOF by {
        assert(toks[j] == spec_lex(s)[j]);
    }
}

/// A parsed expression's span is neutral for the bracket scan: whatever
/// depth a scan would carry past it, carrying that depth across the span
/// from its start gives the same verdict.
pub proof fn lemma_sp_expr_neutral(toks: Seq<Token>, i: int)
    ensures
        sp_expr(toks, i) matches Ok(j) ==> forall|n: int, d: int|
            n >= j && d >= 0 && scan_ok_from(toks, j, n, d) ==> #[trigger] scan_ok_from(
                toks,
                i,
                n,
                d,
            ),
    decreases rem(toks, i), 0int,
{
    match tok_at(toks, i) {
        Token::LBracket => {
            lemma_sp_body_bounds(toks, i + 1);
            lemma_sp_body_neutral(toks, i + 1);
            match sp_body(toks, i + 1) {
                Ok(k) => {
                    let j = k + 1;
                    assert forall|n: int, d: int|
                        n >= j && d >= 0 && scan_ok_from(toks, j, n, d) implies #[trigger] scan_ok_from(
                        toks,
                        i,
                        n,
                        d,
                    ) by {
                        assert(scan_ok_from(toks, k, n, d + 1));
                        assert(scan_ok_from(toks, i + 1, n, d + 1));
                        assert(scan_ok_from(toks, i, n, d));
                    }
                },
                Err(_) => {},
            }
        },
        Token::RBracket => {},
        Token::EOF => {},
        _ => {
            match sp_expr(toks, i) {
                Ok(j) => {
                    assert forall|n: int, d: int|
                        n >= j && d >= 0 && scan_ok_from(toks, j, n, d) implies #[trigger] scan_ok_from(
                        toks,
                        i,
                        n,
                        d,
                    ) by {
                        assert(scan_ok_from(toks, i, n, d));
                    }
                },
                Err(_) => {},
            }
        },
    }
}

/// A parsed body's span is neutral for the bracket scan, as in
/// `lemma_sp_expr_neutral`.
pub proof fn lemma_sp_body_neutral(toks: Seq<Token>, i: int)
    ensures
        sp_body(toks, i) matches Ok(k) ==> forall|n: int, d: int|
            n >= k && d >= 0 && scan_ok_from(toks, k, n, d) ==> #[trigger] scan_ok_from(
                toks,
                i,
                n,
                d,
            ),
    decreases rem(toks, i), 1int,
{
    if tok_at(toks, i) == Token::RBracket {
    } else {
        lemma_sp_expr_bounds(toks, i);
        lemma_sp_expr_neutral(toks, i);
        match sp_expr(toks, i) {
            Ok(j) => {
                if i < j && j <= toks.len() {
                    lemma_sp_body_bounds(toks, j);
                    lemma_sp_body_neutral(toks, j);
                    match sp_body(toks, j) {
                        Ok(k) => {
                            assert forall|n: int, d: int|
                                n >= k && d >= 0 && scan_ok_from(toks, k, n, d) implies #[trigger] scan_ok_from(
                                toks,
                                i,
                                n,
                                d,
                            ) by {
                                assert(scan_ok_from(toks, j, n, d));
                                assert(scan_ok_from(toks, i, n, d));
                            }
                        },
                        Err(_) => {},
                    }
                }
            },
            Err(_) => {},
        }
    }
}

/// A parsed program's span is neutral for the bracket scan, as in
/// `lemma_sp_expr_neutral`.
pub proof fn lemma_sp_prog_neutral(toks: Seq<Token>, i: int)
    ensures
        sp_prog(toks, i) matches Ok(k) ==> forall|n: int, d: int|
            n >= k && d >= 0 && scan_ok_from(toks, k, n, d) ==> #[trigger] scan_ok_from(
                toks,
                i,
                n,
                d,
            ),
    decreases rem(toks, i), 2int,
{
    if tok_at(toks, i) == Token::EOF {
    } else {
        lemma_sp_expr_bounds(toks, i);
        lemma_sp_expr_neutral(toks, i);
        match sp_expr(toks, i) {
            Ok(j) => {
                if i < j && j <= toks.len() {
                    lemma_sp_prog_bounds(toks, j);
                    lemma_sp_prog_neutral(toks, j);
                    match sp_prog(toks, j) {
                        Ok(k) => {
                            assert forall|n: int, d: int|
                                n >= k && d >= 0 && scan_ok_from(toks, k, n, d) implies #[trigger] scan_ok_from(
                                toks,
                                i,
                                n,
                                d,
                            ) by {
                                assert(scan_ok_from(toks, j, n, d));
                                assert(scan_ok_from(toks, i, n, d));
                            }
                        },
                        Err(_) => {},
                    }
                }
            },
            Err(_) => {},
        }
    }
}

/// Completeness for bodies: if the scan from `i` to the final end-of-input
/// carries a positive depth successfully, the body parse starting at `i`
/// succeeds, stops on the close bracket that matches the innermost open
/// one, and leaves a successful scan at one depth less.
pub proof fn lemma_sp_body_complete(toks: Seq<Token>, i: int, d: int)
    requires
        tokens_wf(toks),
        0 <= i <= toks.len() - 1,
        d >= 1,
        scan_ok_from(toks, i, toks.len() - 1, d),
    ensures
        sp_body(toks, i) is Ok,
        ({
            let k = sp_body(toks, i)->Ok_0;
            &&& i <= k < toks.len() - 1
            &&& tok_at(toks, k) == Token::RBracket
            &&& scan_ok_from(toks, k + 1, toks.len() - 1, d - 1)
        }),
    decreases toks.len() - 1 - i,
{
    let n = toks.len() - 1;
    if i == n {
        assert(!scan_ok_from(toks, i, n, d));
    } else {
        let t = tok_at(toks, i);
        assert(t == toks[i]);
        assert(t != Token::EOF);
        if t == Token::RBracket {
        } else if t == Token::LBracket {
            lemma_sp_body_complete(toks, i + 1, d + 1);
            let k1 = sp_body(toks, i + 1)->Ok_0;
            assert(sp_expr(toks, i) == Ok::<int, Token>(k1 + 1));
            lemma_sp_body_complete(toks, k1 + 1, d);
        } else {
            assert(sp_expr(toks, i) == Ok::<int, Token>(i + 1));
            assert(scan_ok_from(toks, i + 1, n, d));
            lemma_sp_body_complete(toks, i + 1, d);
        }
    }
}

/// Completeness for programs: if the scan from `i` to the final
/// end-of-input balances, the program parse starting at `i` succeeds and
/// stops exactly on the end-of-input token.
pub proof fn lemma_sp_prog_complete(toks: Seq<Token>, i: int)
    requires
        tokens_wf(toks),
        0 <= i <= toks.len() - 1,
        scan_ok_from(toks, i, toks.len() - 1, 0),
    ensures
        sp_prog(toks, i) == Ok::<int, Token>(toks.len() - 1),
    decreases toks.len() - 1 - i,
{
    let n = toks.len() - 1;
    if i == n {
        assert(tok_at(toks, i) == Token::EOF);
    } else {
        let t = tok_at(toks, i);
        assert(t == toks[i]);
        assert(t != Token::EOF);
        if t == Token::RBracket {
            assert(!scan_ok_from(toks, i, n, 0));
        } else if t == Token::LBracket {
            lemma_sp_body_complete(toks, i + 1, 1);
            let k1 = sp_body(toks, i + 1)->Ok_0;
            assert(sp_expr(toks, i) == Ok::<int, Token>(k1 + 1));
            lemma_sp_prog_complete(toks, k1 + 1);
        } else {
            assert(sp_expr(toks, i) == Ok::<int, Token>(i + 1));
            assert(scan_ok_from(toks, i + 1, n, 0));
            lemma_sp_prog_complete(toks, i + 1);
        }
    }
}

/// Balanced brackets at any nesting depth parse; unbalanced brackets — a
/// close with no matching open, or an open never closed — always abort
/// with a syntax error. `Parser::parse` ties its result to `sp_prog`, so
/// this decides the whole parse.
pub proof fn lemma_parse_iff_balanced(toks: Seq<Token>)
    requires
        tokens_wf(toks),
    ensures
        sp_prog(toks, 0) is Ok <==> balanced(toks, toks.len() - 1),
{
    let n = toks.len() - 1;
    if sp_prog(toks, 0) is Ok {
        lemma_sp_prog_bounds(toks, 0);
        lemma_sp_prog_neutral(toks, 0);
        let k = sp_prog(toks, 0)->Ok_0;
        if k < n {
            assert(tok_at(toks, k) == toks[k]);
            assert(false);
        }
        if k > n {
            assert(tok_at(toks, n) == Token::EOF);
            assert(false);
        }
        assert(scan_ok_from(toks, k, k, 0));
        assert(scan_ok_from(toks, 0, n, 0));
    }
    if balanced(toks, n) {
        lemma_sp_prog_complete(toks, 0);
    }
}

/// Round trip: printing a parsed program and re-tokenizing the printed form
/// yields exactly the token sequence the parser consumed, the final
/// end-of-input token included. Together with `Parser::parse`'s contract,
/// a successful parse never silently loses or reorders program text.
pub proof fn lemma_print_retokenize(ns: Seq<Node>)
    requires
        ns.len() >= 1,
        ns.last() == Node::EOF,
        nodes_wf(ns.drop_last()),
    ensures
        spec_lex(nodes_syms(ns)).push(Token::EOF) == nodes_toks(ns),
{
    let body = ns.drop_last();
    assert(ns =~= body.push(Node::EOF));
    lemma_nodes_syms_push(body, Node::EOF);
    lemma_nodes_toks_push(body, Node::EOF);
    lemma_nodes_syms_lex(body);
    assert(nodes_syms(ns) =~= nodes_syms(body));
    assert(nodes_toks(ns) =~= nodes_toks(body) + seq![Token::EOF]);
    assert(spec_lex(nodes_syms(ns)).push(Token::EOF) =~= nodes_toks(body) + seq![Token::EOF]);
}

/// A loop's bracket pair matches exactly: a successful loop expression at an
/// open bracket ends just past a close bracket, and the tokens strictly
/// between the pair — the loop's body, one top-level expression after
/// another — are themselves balanced, so nesting depth is preserved.
pub proof fn lemma_group_span(toks: Seq<Token>, i: int)
    requires
        tok_at(toks, i) == Token::LBracket,
        sp_expr(toks, i) is Ok,
    ensures
        ({
            let j = sp_expr(toks, i)->Ok_0;
            &&& i + 2 <= j <= toks.len()
            &&& tok_at(toks, j - 1) == Token::RBracket
            &&& sp_body(toks, i + 1) == Ok::<int, Token>(j - 1)
            &&& scan_ok_from(toks, i + 1, j - 1, 0)
        }),
{
    lemma_sp_body_bounds(toks, i + 1);
    lemma_sp_body_neutral(toks, i + 1);
    let k = sp_body(toks, i + 1)->Ok_0;
    assert(scan_ok_from(toks, k, k, 0));
    assert(scan_ok_from(toks, i + 1, k, 0));
}

/// A syntax error: the parse met `token` where an expression was required.
/// The parse that returns it consumed no result; the compilation stops.
#[derive(Debug, Copy, Clone, PartialEq, Eq, Structural)]
pub struct SyntaxError {
    pub token: Token,
}

impl SyntaxError {
    /// The diagnostic text: the offending token's printed form, named.
    pub fn message(&self) -> (r: String)
        ensures
            r@ == "Unexpected token: "@ + token_text(self.token),
    {
        "Unexpected token: ".to_owned().concat(self.token.text().as_str())
    }
}

/// The parser: the token sequence, a cursor into it, and the one token of
/// lookahead the cursor rests on.
pub struct Parser {
    tokens: Vec<Token>,
    index: usize,
    token: Token,
}

impl Parser {
    /// The parser's internal consistency: the cursor stays in bounds and
    /// the lookahead is the token at the cursor (end-of-input once past
    /// the end).
    pub closed spec fn wf(&self) -> bool {
        &&& self.index <= self.tokens@.len()
        &&& self.token == tok_at(self.tokens@, self.index as int)
    }

    /// The token sequence being parsed.
    pub closed spec fn spec_tokens(&self) -> Seq<Token> {
        self.tokens@
    }

    /// The current cursor position.
    pub closed spec fn spec_index(&self) -> int {
        self.index as int
    }

    /// A parser over `tokens`, with the cursor at the first token.
    pub fn new(tokens: Vec<Token>) -> (p: Parser)
        ensures
            p.wf(),
            p.spec_tokens() == tokens@,
            p.spec_index() == 0,
    {
        let token = if tokens.len() > 0 {
            tokens[0]
        } else {
            Token::EOF
        };
        Parser { tokens, index: 0, token }
    }

    /// Moves the cursor one token forward and refreshes the lookahead.
    fn advance(&mut self)
        requires
            old(self).wf(),
            old(self).spec_index() < old(self).spec_tokens().len(),
        ensures
            final(self).wf(),
            final(self).spec_tokens() == old(self).spec_tokens(),
            final(self).spec_index() == old(self).spec_index() + 1,
    {
        let len = self.tokens.len();
        self.index = self.index + 1;
        self.token = if self.index < len {
            self.tokens[self.index]
        } else {
            Token::EOF
        };
    }

    /// Parses the whole program: one node per expression until end-of-input
    /// is in view, closed by the end marker node. On success the nodes
    /// render back to exactly the consumed tokens; on a syntax error no
    /// partial tree is returned and the error names the offending token.
    /// `sp_prog` decides, position for position, which of the two happens.
    #[verifier::loop_isolation(false)]
    pub fn parse(&mut self) -> (r: Result<Vec<Node>, SyntaxError>)
        requires
            old(self).wf(),
        ensures
            final(self).wf(),
            final(self).spec_tokens() == old(self).spec_tokens(),
            match r {
                Ok(nodes) => {
                    &&& sp_prog(old(self).spec_tokens(), old(self).spec_index()) == Ok::<
                        int,
                        Token,
                    >(final(self).spec_index())
                    &&& tok_at(old(self).spec_tokens(), final(self).spec_index()) == Token::EOF
                    &&& nodes@.len() >= 1
                    &&& nodes@.last() == Node::EOF
                    &&& nodes_wf(nodes@.drop_last())
                    &&& nodes_toks(nodes@) == old(self).spec_tokens().subrange(
                        old(self).spec_index(),
                        final(self).spec_index(),
                    ).push(Token::EOF)
                },
                Err(e) => sp_prog(old(self).spec_tokens(), old(self).spec_index()) == Err::<
                    int,
                    Token,
                >(e.token),
            },
    {
        let ghost toks = self.tokens@;
        let ghost i0 = self.index as int;
        let mut nodes: Vec<Node> = Vec::new();
        while self.token != Token::EOF
            invariant
                self.wf(),
                self.tokens@ == toks,
                i0 <= self.index as int <= toks.len(),
                nodes_wf(nodes@),
                nodes_toks(nodes@) == toks.subrange(i0, self.index as int),
                sp_prog(toks, i0) == sp_prog(toks, self.index as int),
            decreases rem(toks, self.index as int),
        {
            let ghost cur = self.index as int;
            let ghost nodes_pre = nodes@;
            let node = match self.expr() {
                Ok(n) => n,
                Err(e) => {
                    return Err(e);
                },
            };
            nodes.push(node);
            proof {
                let new = self.index as int;
                lemma_nodes_toks_push(nodes_pre, node);
                lemma_nodes_wf_push(nodes_pre, node);
                assert(toks.subrange(i0, cur) + toks.subrange(cur, new) =~= toks.subrange(
                    i0,
                    new,
                ));
            }
        }
        let ghost fin = self.index as int;
        let ghost nodes_pre = nodes@;
        nodes.push(Node::EOF);
        proof {
            lemma_nodes_toks_push(nodes_pre, Node::EOF);
            assert(nodes@.drop_last() =~= nodes_pre);
            assert(nodes_toks(nodes@) =~= toks.subrange(i0, fin).push(Token::EOF));
        }
        Ok(nodes)
    }

    /// Parses one expression: a simple token becomes its node, an open
    /// bracket a loop node, and any other token is the syntax error named
    /// in the result. `sp_expr` decides which, and on success the node
    /// renders back to exactly the consumed tokens.
    fn expr(&mut self) -> (r: Result<Node, SyntaxError>)
        requires
            old(self).wf(),
        ensures
            final(self).wf(),
            final(self).spec_tokens() == old(self).spec_tokens(),
            old(self).spec_index() <= final(self).spec_index() <= old(self).spec_tokens().len(),
            match r {
                Ok(n) => {
                    &&& sp_expr(old(self).spec_tokens(), old(self).spec_index()) == Ok::<
                        int,
                        Token,
                    >(final(self).spec_index())
                    &&& node_wf(n)
                    &&& node_toks(n) == old(self).spec_tokens().subrange(
                        old(self).spec_index(),
                        final(self).spec_index(),
                    )
                },
                Err(e) => sp_expr(old(self).spec_tokens(), old(self).spec_index()) == Err::<
                    int,
                    Token,
                >(e.token),
            },
        decreases rem(self.tokens@, self.index as int), 1int,
    {
        let ghost toks = self.tokens@;
        let ghost i0 = self.index as int;
        match self.token {
            Token::LAngle => {
                self.advance();
                proof {
                    assert(toks.subrange(i0, i0 + 1) =~= seq![Token::LAngle]);
                }
                Ok(Node::Left)
            },
            Token::RAngle => {
                self.advance();
                proof {
                    assert(toks.subrange(i0, i0 + 1) =~= seq![Token::RAngle]);
                }
                Ok(Node::Right)
            },
            Token::Plus => {
                self.advance();
                proof {
                    assert(toks.subrange(i0, i0 + 1) =~= seq![Token::Plus]);
                }
                Ok(Node::Inc)
            },
            Token::Minus => {
                self.advance();
                proof {
                    assert(toks.subrange(i0, i0 + 1) =~= seq![Token::Minus]);
                }
                Ok(Node::Dec)
            },
            Token::Dot => {
                self.advance();
                proof {
                    assert(toks.subrange(i0, i0 + 1) =~= seq![Token::Dot]);
                }
                Ok(Node::Output)
            },
            Token::Comma => {
                self.advance();
                proof {
                    assert(toks.subrange(i0, i0 + 1) =~= seq![Token::Comma]);
                }
                Ok(Node::Input)
            },
            Token::LBracket => self.group(),
            _ => Err(SyntaxError { token: self.token }),
        }
    }

    /// Parses one loop: consumes the open bracket, parses body expressions
    /// until a close bracket is in view, consumes it, and wraps the body in
    /// a loop node. A body expression's error — in particular end-of-input
    /// with the loop still open — aborts the whole parse.
    #[verifier::loop_isolation(false)]
    fn group(&mut self) -> (r: Result<Node, SyntaxError>)
        requires
            old(self).wf(),
            tok_at(old(self).spec_tokens(), old(self).spec_index()) == Token::LBracket,
        ensures
            final(self).wf(),
            final(self).spec_tokens() == old(self).spec_tokens(),
            old(self).spec_index() <= final(self).spec_index() <= old(self).spec_tokens().len(),
            match r {
                Ok(n) => {
                    &&& sp_expr(old(self).spec_tokens(), old(self).spec_index()) == Ok::<
                        int,
                        Token,
                    >(final(self).spec_index())
                    &&& node_wf(n)
                    &&& node_toks(n) == old(self).spec_tokens().subrange(
                        old(self).spec_index(),
                        final(self).spec_index(),
                    )
                },
                Err(e) => sp_expr(old(self).spec_tokens(), old(self).spec_index()) == Err::<
                    int,
                    Token,
                >(e.token),
            },
        decreases rem(self.tokens@, self.index as int), 0int,
    {
        let ghost toks = self.tokens@;
        let ghost i0 = self.index as int;
        self.advance();
        let ghost i1 = self.index as int;
        let mut nodes: Vec<Node> = Vec::new();
        while self.token != Token::RBracket
            invariant
                self.wf(),
                self.tokens@ == toks,
                i1 <= self.index as int <= toks.len(),
                nodes_wf(nodes@),
                nodes_toks(nodes@) == toks.subrange(i1, self.index as int),
                sp_body(toks, i1) == sp_body(toks, self.index as int),
            decreases rem(toks, self.index as int),
        {
            let ghost cur = self.index as int;
            let ghost nodes_pre = nodes@;
            let node = match self.expr() {
                Ok(n) => n,
                Err(e) => {
                    return Err(e);
                },
            };
            nodes.push(node);
            proof {
                let new = self.index as int;
                lemma_nodes_toks_push(nodes_pre, node);
                lemma_nodes_wf_push(nodes_pre, node);
                assert(toks.subrange(i1, cur) + toks.subrange(cur, new) =~= toks.subrange(
                    i1,
                    new,
                ));
            }
        }
        let ghost k = self.index as int;
        self.advance();
        proof {
            assert(toks.subrange(i0, k + 1) =~= seq![Token::LBracket] + toks.subrange(i1, k)
                + seq![Token::RBracket]);
        }
        Ok(Node::Group(nodes))
    }
}

} // verus!
