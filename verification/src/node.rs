//! The program representation: a recursive variant type with one case per
//! simple symbol, a loop case owning an ordered sequence of child nodes, and
//! an end marker.

use vstd::prelude::*;

use crate::lexer::lemma_lex_concat;
use crate::lexer::spec_lex;
use crate::token::Token;

verus! {

/// One node of the syntax tree. `Group` is the loop construct: its body is
/// an ordered, possibly empty sequence of child nodes, nested to arbitrary
/// depth. `EOF` is the end marker that closes a parsed program.
#[derive(Debug, PartialEq)]
pub enum Node {
    Left,
    Right,
    Inc,
    Dec,
    Output,
    Input,
    Group(Vec<Node>),
    EOF,
}

/// The token sequence a node renders back to: one token per simple node, a
/// bracketed token sequence for a loop, and the end-of-input token for the
/// end marker.
pub open spec fn node_toks(n: Node) -> Seq<Token>
    decreases n,
{
    match n {
        Node::Left => seq![Token::LAngle],
        Node::Right => seq![Token::RAngle],
        Node::Inc => seq![Token::Plus],
        Node::Dec => seq![Token::Minus],
        Node::Output => seq![Token::Dot],
        Node::Input => seq![Token::Comma],
        Node::Group(body) => seq![Token::LBracket] + nodes_toks(body@) + seq![Token::RBracket],
        Node::EOF => seq![Token::EOF],
    }
}

/// The token sequence a node sequence renders back to, in order.
pub open spec fn nodes_toks(ns: Seq<Node>) -> Seq<Token>
    decreases ns,
{
    if ns.len() == 0 {
        Seq::empty()
    } else {
        node_toks(ns[0]) + nodes_toks(ns.drop_first())
    }
}

/// The printed form of a node. A loop prints as `([` body `])`; the end
/// marker prints nothing, having no symbol in the alphabet.
pub open spec fn node_syms(n: Node) -> Seq<char>
    decreases n,
{
    match n {
        Node::Left => seq!['<'],
        Node::Right => seq!['>'],
        Node::Inc => seq!['+'],
        Node::Dec => seq!['-'],
        Node::Output => seq!['.'],
        Node::Input => seq![','],
        Node::Group(body) => seq!['(', '['] + nodes_syms(body@) + seq![']', ')'],
        Node::EOF => Seq::empty(),
    }
}

/// The printed form of a node sequence, in order.
pub open spec fn nodes_syms(ns: Seq<Node>) -> Seq<char>
    decreases ns,
{
    if ns.len() == 0 {
        Seq::empty()
    } else {
        node_syms(ns[0]) + nodes_syms(ns.drop_first())
    }
}

/// A well-formed program node: the end marker never occurs inside a tree,
/// and every loop body is itself well-formed.
pub open spec fn node_wf(n: Node) -> bool
    decreases n,
{
    match n {
        Node::Group(body) => nodes_wf(body@),
        Node::EOF => false,
        _ => true,
    }
}

/// A well-formed node sequence: every node in it is well-formed.
pub open spec fn nodes_wf(ns: Seq<Node>) -> bool
    decreases ns,
{
    if ns.len() == 0 {
        true
    } else {
        node_wf(ns[0]) && nodes_wf(ns.drop_first())
    }
}

/// Rendering distributes over appending one node to a sequence.
pub proof fn lemma_nodes_toks_push(ns: Seq<Node>, n: Node)
    ensures
        nodes_toks(ns.push(n)) == nodes_toks(ns) + node_toks(n),
    decreases ns,
{
    if ns.len() == 0 {
        assert(ns.push(n)[0] == n);
        assert(ns.push(n).drop_first() =~= Seq::<Node>::empty());
        assert(nodes_toks(Seq::<Node>::empty()) == Seq::<Token>::empty());
        assert(nodes_toks(ns.push(n)) =~= node_toks(n));
        assert(nodes_toks(ns) + node_toks(n) =~= node_toks(n));
    } else {
        assert(ns.push(n)[0] == ns[0]);
        assert(ns.push(n).drop_first() =~= ns.drop_first().push(n));
        lemma_nodes_toks_push(ns.drop_first(), n);
        assert(node_toks(ns[0]) + (nodes_toks(ns.drop_first()) + node_toks(n)) =~= (node_toks(
            ns[0],
        ) + nodes_toks(ns.drop_first())) + node_toks(n));
    }
}

/// The printed form distributes over appending one node to a sequence.
pub proof fn lemma_nodes_syms_push(ns: Seq<Node>, n: Node)
    ensures
        nodes_syms(ns.push(n)) == nodes_syms(ns) + node_syms(n),
    decreases ns,
{
    if ns.len() == 0 {
        assert(ns.push(n)[0] == n);
        assert(ns.push(n).drop_first() =~= Seq::<Node>::empty());
        assert(nodes_syms(Seq::<Node>::empty()) == Seq::<char>::empty());
        assert(nodes_syms(ns.push(n)) =~= node_syms(n));
        assert(nodes_syms(ns) + node_syms(n) =~= node_syms(n));
    } else {
        assert(ns.push(n)[0] == ns[0]);
        assert(ns.push(n).drop_first() =~= ns.drop_first().push(n));
        lemma_nodes_syms_push(ns.drop_first(), n);
        assert(node_syms(ns[0]) + (nodes_syms(ns.drop_first()) + node_syms(n)) =~= (node_syms(
            ns[0],
        ) + nodes_syms(ns.drop_first())) + node_syms(n));
    }
}

/// Well-formedness distributes over appending one node to a sequence.
pub proof fn lemma_nodes_wf_push(ns: Seq<Node>, n: Node)
    requires
        nodes_wf(ns),
        node_wf(n),
    ensures
        nodes_wf(ns.push(n)),
    decreases ns,
{
    if ns.len() == 0 {
        assert(ns.push(n)[0] == n);
        assert(ns.push(n).drop_first() =~= Seq::<Node>::empty());
        assert(nodes_wf(Seq::<Node>::empty()));
    } else {
        assert(ns.push(n)[0] == ns[0]);
        assert(ns.push(n).drop_first() =~= ns.drop_first().push(n));
        lemma_nodes_wf_push(ns.drop_first(), n);
    }
}

/// Tokenizing the printed form of a well-formed node gives back exactly the
/// tokens the node renders to: the loop's decoration characters are skipped,
/// and each symbol re-tokenizes to its own token.
pub proof fn lemma_node_syms_lex(n: Node)
    requires
        node_wf(n),
    ensures
        spec_lex(node_syms(n)) == node_toks(n),
    decreases n,
{
    match n {
        Node::Group(body) => {
            let a = seq!['(', '['];
            let m = nodes_syms(body@);
            let z = seq![']', ')'];
            assert(spec_lex(Seq::<char>::empty()) == Seq::<Token>::empty());
            lemma_nodes_syms_lex(body@);
            lemma_lex_concat(a, m + z);
            lemma_lex_concat(m, z);
            assert(node_syms(n) =~= a + (m + z));
            assert(a.drop_first() =~= seq!['[']);
            assert(seq!['['].drop_first() =~= Seq::<char>::empty());
            assert(spec_lex(seq!['[']) =~= seq![Token::LBracket]);
            assert(spec_lex(a) =~= seq![Token::LBracket]);
            assert(z.drop_first() =~= seq![')']);
            assert(seq![')'].drop_first() =~= Seq::<char>::empty());
            assert(spec_lex(seq![')']) =~= Seq::<Token>::empty());
            assert(z[0] == ']');
            assert(spec_lex(z) =~= seq![Token::RBracket] + spec_lex(seq![')']));
            assert(spec_lex(z) =~= seq![Token::RBracket]);
            assert(spec_lex(node_syms(n)) =~= seq![Token::LBracket] + (nodes_toks(body@) + seq![
                Token::RBracket,
            ]));
            assert(node_toks(n) =~= seq![Token::LBracket] + (nodes_toks(body@) + seq![
                Token::RBracket,
            ]));
        },
        _ => {
            let s = node_syms(n);
            assert(s.drop_first() =~= Seq::<char>::empty());
            assert(spec_lex(Seq::<char>::empty()) == Seq::<Token>::empty());
            assert(spec_lex(s) =~= node_toks(n));
        },
    }
}

/// Tokenizing the printed form of a well-formed node sequence gives back
/// exactly the tokens the sequence renders to.
pub proof fn lemma_nodes_syms_lex(ns: Seq<Node>)
    requires
        nodes_wf(ns),
    ensures
        spec_lex(nodes_syms(ns)) == nodes_toks(ns),
    decreases ns,
{
    if ns.len() == 0 {
    } else {
        lemma_node_syms_lex(ns[0]);
        lemma_nodes_syms_lex(ns.drop_first());
        lemma_lex_concat(node_syms(ns[0]), nodes_syms(ns.drop_first()));
    }
}

impl Node {
    /// The printed form of the node: its symbol, a loop as `([` body `])`,
    /// the end marker as nothing.
    #[verifier::loop_isolation(false)]
    pub fn text(&self) -> (r: String)
        ensures
            r@ == node_syms(*self),
        decreases *self,
    {
        proof {
            reveal_strlit("<");
            reveal_strlit(">");
            reveal_strlit("+");
            reveal_strlit("-");
            reveal_strlit(".");
            reveal_strlit(",");
            reveal_strlit("([");
            reveal_strlit("])");
            reveal_strlit("");
        }
        match self {
            Node::Left => "<".to_owned(),
            Node::Right => ">".to_owned(),
            Node::Inc => "+".to_owned(),
            Node::Dec => "-".to_owned(),
            Node::Output => ".".to_owned(),
            Node::Input => ",".to_owned(),
            Node::Group(body) => {
                let mut s = "([".to_owned();
                assert(s@ =~= seq!['(', '[']);
                let mut i: usize = 0;
                while i < body.len()
                    invariant
                        i <= body.len(),
                        s@ == seq!['(', '['] + nodes_syms(body@.take(i as int)),
                    decreases body.len() - i,
                {
                    let child_text = body[i].text();
                    s.append(child_text.as_str());
                    proof {
                        let bi = body@[i as int];
                        assert(body@.take(i as int + 1) =~= body@.take(i as int).push(bi));
                        lemma_nodes_syms_push(body@.take(i as int), bi);
                        assert(seq!['(', '['] + (nodes_syms(body@.take(i as int)) + node_syms(bi))
                            =~= (seq!['(', '['] + nodes_syms(body@.take(i as int))) + node_syms(
                            bi,
                        ));
                    }
                    i = i + 1;
                }
                s.append("])");
                proof {
                    assert(body@.take(body@.len() as int) =~= body@);
                    assert((seq!['(', '['] + nodes_syms(body@)) + "])"@ =~= seq!['(', '[']
                        + nodes_syms(body@) + seq![']', ')']);
                }
                s
            },
            Node::EOF => "".to_owned(),
        }
    }
}

} // verus!
