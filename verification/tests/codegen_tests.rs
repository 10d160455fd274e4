use bfc::Codegen;
use bfc::Lexer;
use bfc::Node;
use bfc::Parser;
use bfc::compiler::codegen::Instr;
use bfc::compiler::codegen::Terminator;

fn lower_text(text: &str) -> Codegen {
    let mut lexer = Lexer::new(text.to_string());
    let mut parser = Parser::new(lexer.lex());
    let ast = parser.parse().unwrap();
    let mut cg = Codegen::new("test.b".to_string());
    cg.generate_llvm_ir(ast);
    cg
}

#[test]
fn empty_program_yields_one_block_returning_zero() {
    let mut cg = Codegen::new("empty.b".to_string());
    cg.generate_llvm_ir(vec![]);
    assert_eq!(cg.blocks.len(), 1);
    assert!(cg.blocks[0].instrs.is_empty());
    assert_eq!(cg.blocks[0].term, Some(Terminator::Ret));
}

#[test]
fn end_marker_lowers_to_nothing() {
    let cg = lower_text("");
    assert_eq!(cg.blocks.len(), 1);
    assert!(cg.blocks[0].instrs.is_empty());
    assert_eq!(cg.blocks[0].term, Some(Terminator::Ret));
}

#[test]
fn generator_keeps_the_compilation_filename() {
    let cg = Codegen::new("program.b".to_string());
    assert_eq!(cg.filename, "program.b");
}

#[test]
fn simple_nodes_fill_the_entry_block_in_order() {
    let cg = lower_text("++>+");
    assert_eq!(cg.blocks.len(), 1);
    assert_eq!(
        cg.blocks[0].instrs,
        vec![Instr::CellInc, Instr::CellInc, Instr::IndexInc, Instr::CellInc]
    );
    assert_eq!(cg.blocks[0].term, Some(Terminator::Ret));
}

#[test]
fn every_simple_node_has_its_instruction() {
    let cg = lower_text("<>+-.,");
    assert_eq!(
        cg.blocks[0].instrs,
        vec![
            Instr::IndexDec,
            Instr::IndexInc,
            Instr::CellInc,
            Instr::CellDec,
            Instr::OutputCell,
            Instr::InputCell,
        ]
    );
}

#[test]
fn clear_loop_lowers_to_three_blocks_with_invariant_edges() {
    let cg = lower_text("[-]");
    assert_eq!(cg.blocks.len(), 4);
    // entry branches into the condition block
    assert!(cg.blocks[0].instrs.is_empty());
    assert_eq!(cg.blocks[0].term, Some(Terminator::Jump(1)));
    // the condition block loads the comparison once per iteration and
    // branches to the body on a nonzero cell, to the end otherwise
    assert_eq!(cg.blocks[1].instrs, vec![Instr::LoadCellTest]);
    assert_eq!(cg.blocks[1].term, Some(Terminator::CondBranch(2, 3)));
    // the body ends with the backward edge into the condition block
    assert_eq!(cg.blocks[2].instrs, vec![Instr::CellDec]);
    assert_eq!(cg.blocks[2].term, Some(Terminator::Jump(1)));
    // lowering continues in the end block, which returns zero
    assert!(cg.blocks[3].instrs.is_empty());
    assert_eq!(cg.blocks[3].term, Some(Terminator::Ret));
}

#[test]
fn nested_loops_compose_by_the_same_rule() {
    let cg = lower_text("[[+]]");
    assert_eq!(cg.blocks.len(), 7);
    assert_eq!(cg.blocks[0].term, Some(Terminator::Jump(1)));
    assert_eq!(cg.blocks[1].instrs, vec![Instr::LoadCellTest]);
    assert_eq!(cg.blocks[1].term, Some(Terminator::CondBranch(2, 6)));
    assert!(cg.blocks[2].instrs.is_empty());
    assert_eq!(cg.blocks[2].term, Some(Terminator::Jump(3)));
    assert_eq!(cg.blocks[3].instrs, vec![Instr::LoadCellTest]);
    assert_eq!(cg.blocks[3].term, Some(Terminator::CondBranch(4, 5)));
    assert_eq!(cg.blocks[4].instrs, vec![Instr::CellInc]);
    assert_eq!(cg.blocks[4].term, Some(Terminator::Jump(3)));
    assert!(cg.blocks[5].instrs.is_empty());
    assert_eq!(cg.blocks[5].term, Some(Terminator::Jump(1)));
    assert!(cg.blocks[6].instrs.is_empty());
    assert_eq!(cg.blocks[6].term, Some(Terminator::Ret));
}

#[test]
fn code_after_a_loop_goes_to_the_end_block() {
    let cg = lower_text("+[-]>");
    assert_eq!(cg.blocks.len(), 4);
    assert_eq!(cg.blocks[0].instrs, vec![Instr::CellInc]);
    assert_eq!(cg.blocks[0].term, Some(Terminator::Jump(1)));
    assert_eq!(cg.blocks[3].instrs, vec![Instr::IndexInc]);
    assert_eq!(cg.blocks[3].term, Some(Terminator::Ret));
}

#[test]
fn generation_accepts_a_hand_built_tree() {
    let ast = vec![
        Node::Inc,
        Node::Group(vec![Node::Dec, Node::Output]),
        Node::EOF,
    ];
    let mut cg = Codegen::new("hand.b".to_string());
    cg.generate_llvm_ir(ast);
    assert_eq!(cg.blocks.len(), 4);
    assert_eq!(cg.blocks[2].instrs, vec![Instr::CellDec, Instr::OutputCell]);
    assert_eq!(cg.blocks[2].term, Some(Terminator::Jump(1)));
}
