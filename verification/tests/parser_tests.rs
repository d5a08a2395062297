use brainf::lexer::Op;
use brainf::parser::{parse, Block, ParseError, Program, ProgramBuilder};

fn tree(text: &str) -> Result<Program, ParseError> {
    parse(brainf::lexer::parse(&text.to_string()))
}

fn flatten(p: &Program, out: &mut Vec<Op>) {
    for block in p {
        match block {
            Block::Simple(ops) => out.extend(ops.iter().copied()),
            Block::Loop(body) => {
                out.push(Op::LBr);
                flatten(body, out);
                out.push(Op::RBr);
            }
            _ => {}
        }
    }
}

#[test]
fn empty_input_is_the_empty_program() {
    assert_eq!(parse(vec![]), Ok(vec![]));
}

#[test]
fn plain_operations_share_one_block() {
    assert_eq!(
        tree("+>-"),
        Ok(vec![Block::Simple(vec![Op::Modify(1), Op::Move(1), Op::Modify(-1)])])
    );
}

#[test]
fn a_loop_holds_its_body() {
    assert_eq!(
        tree("[-]"),
        Ok(vec![Block::Loop(vec![Block::Simple(vec![Op::Modify(-1)])])])
    );
    assert_eq!(tree("[]"), Ok(vec![Block::Loop(vec![])]));
}

#[test]
fn a_new_block_starts_after_a_loop() {
    assert_eq!(
        tree("+[>]-"),
        Ok(vec![
            Block::Simple(vec![Op::Modify(1)]),
            Block::Loop(vec![Block::Simple(vec![Op::Move(1)])]),
            Block::Simple(vec![Op::Modify(-1)]),
        ])
    );
}

#[test]
fn loops_nest() {
    assert_eq!(
        tree("+++[>+++[>+<-]<-]>>."),
        Ok(vec![
            Block::Simple(vec![Op::Modify(3)]),
            Block::Loop(vec![
                Block::Simple(vec![Op::Move(1), Op::Modify(3)]),
                Block::Loop(vec![Block::Simple(vec![
                    Op::Move(1),
                    Op::Modify(1),
                    Op::Move(-1),
                    Op::Modify(-1),
                ])]),
                Block::Simple(vec![Op::Move(-1), Op::Modify(-1)]),
            ]),
            Block::Simple(vec![Op::Move(2), Op::Outp(1)]),
        ])
    );
}

#[test]
fn close_before_open_is_unbalanced_close() {
    assert_eq!(tree("]["), Err(ParseError::UnbalancedClose));
    assert_eq!(tree("]"), Err(ParseError::UnbalancedClose));
    assert_eq!(tree("+[]]"), Err(ParseError::UnbalancedClose));
}

#[test]
fn open_at_the_end_is_unclosed_loop() {
    assert_eq!(tree("["), Err(ParseError::UnclosedLoop));
    assert_eq!(tree("[[]"), Err(ParseError::UnclosedLoop));
    assert_eq!(tree("+[>"), Err(ParseError::UnclosedLoop));
}

#[test]
fn the_first_error_wins() {
    assert_eq!(tree("]["), Err(ParseError::UnbalancedClose));
    assert_eq!(tree("][["), Err(ParseError::UnbalancedClose));
    assert_eq!(tree("[]][[["), Err(ParseError::UnbalancedClose));
}

#[test]
fn flattening_gives_the_tokens_back() {
    for text in ["", "+", "[]", "[[][]]", "++++++++[>++++++++<-]>+.", ",[.,]", "+[]"] {
        let tokens = brainf::lexer::parse(&text.to_string());
        let program = parse(brainf::lexer::parse(&text.to_string())).unwrap();
        let mut flat = Vec::new();
        flatten(&program, &mut flat);
        assert_eq!(flat, tokens);
    }
}

#[test]
fn every_unbalanced_input_is_an_error() {
    for text in ["[", "]", "][", "[[]", "[]]", "+[-", "-]+"] {
        assert!(tree(text).is_err());
    }
}

#[test]
fn builder_takes_tokens_one_by_one() {
    let mut builder = ProgramBuilder::new();
    builder.add(Op::Modify(2));
    builder.add(Op::LBr);
    builder.add(Op::Outp(1));
    builder.add(Op::RBr);
    assert_eq!(
        builder.finalize(),
        Ok(vec![
            Block::Simple(vec![Op::Modify(2)]),
            Block::Loop(vec![Block::Simple(vec![Op::Outp(1)])]),
        ])
    );
}

#[test]
fn builder_keeps_the_first_error() {
    let mut builder = ProgramBuilder::new();
    builder.add(Op::RBr);
    builder.add(Op::LBr);
    builder.add(Op::Modify(1));
    assert_eq!(builder.finalize(), Err(ParseError::UnbalancedClose));
}

#[test]
fn builder_steps_by_hand() {
    let mut builder = ProgramBuilder::new();
    builder.start_loop();
    builder.add_to_latest_block(Op::Move(1));
    builder.add_to_latest_block(Op::Move(1));
    builder.finish_loop();
    assert_eq!(
        builder.finalize(),
        Ok(vec![Block::Loop(vec![Block::Simple(vec![Op::Move(1), Op::Move(1)])])])
    );
}

#[test]
fn fresh_builder_gives_the_empty_program() {
    assert_eq!(ProgramBuilder::new().finalize(), Ok(vec![]));
}

#[test]
fn empty_block_is_simple_and_empty() {
    assert_eq!(Block::empty(), Block::Simple(vec![]));
}

#[test]
fn is_loop_only_for_loops() {
    assert!(Block::Loop(vec![]).is_loop());
    assert!(!Block::Simple(vec![Op::Modify(1)]).is_loop());
    assert!(!Block::Reset { offset: 0 }.is_loop());
    assert!(!Block::Multiply { ops: vec![(1, 1)] }.is_loop());
}

#[test]
fn map_loop_maps_the_body_in_order() {
    let block = Block::Loop(vec![
        Block::Simple(vec![Op::Modify(1)]),
        Block::Loop(vec![]),
        Block::Simple(vec![Op::Move(1)]),
    ]);
    let mapped = block.map_loop(|b| match b {
        Block::Simple(_) => Block::Reset { offset: 7 },
        other => other,
    });
    assert_eq!(
        mapped,
        Block::Loop(vec![
            Block::Reset { offset: 7 },
            Block::Loop(vec![]),
            Block::Reset { offset: 7 },
        ])
    );
}

#[test]
fn map_loop_leaves_other_blocks_alone() {
    let block = Block::Simple(vec![Op::Modify(1)]);
    assert_eq!(
        block.map_loop(|_| Block::Reset { offset: 1 }),
        Block::Simple(vec![Op::Modify(1)])
    );
    assert_eq!(
        Block::Reset { offset: 3 }.map_loop(|_| Block::Loop(vec![])),
        Block::Reset { offset: 3 }
    );
}

#[test]
fn errors_have_messages() {
    assert_eq!(
        ParseError::UnclosedLoop.message(),
        "Parsing finalized before clearing parsing stack."
    );
    assert_eq!(
        ParseError::UnbalancedClose.message(),
        "Closing bracket without an open loop."
    );
}
