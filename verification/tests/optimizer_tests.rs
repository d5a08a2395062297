use brainf::lexer::Op;
use brainf::optimizations::{MultiplyOpt, Optimization, ResetValOpt};
use brainf::optimizer::{Optimizer, Pass};
use brainf::parser::{parse, Block, Program};

fn tree(text: &str) -> Program {
    parse(brainf::lexer::parse(&text.to_string())).unwrap()
}

fn one(text: &str) -> Block {
    let mut p = tree(text);
    assert_eq!(p.len(), 1);
    p.pop().unwrap()
}

fn optimize(text: &str) -> Program {
    Optimizer::new().optimize(tree(text))
}

#[test]
fn reset_val_rewrites_the_countdown_loop() {
    assert_eq!(ResetValOpt.apply(&one("[-]")), Some(Block::Reset { offset: 0 }));
}

#[test]
fn reset_val_declines_everything_else() {
    assert_eq!(ResetValOpt.apply(&one("[+]")), None);
    assert_eq!(ResetValOpt.apply(&one("[--]")), None);
    assert_eq!(ResetValOpt.apply(&one("[->]")), None);
    assert_eq!(ResetValOpt.apply(&one("[]")), None);
    assert_eq!(ResetValOpt.apply(&one("[[-]]")), None);
    assert_eq!(ResetValOpt.apply(&one("-")), None);
    assert_eq!(ResetValOpt.apply(&Block::Reset { offset: 0 }), None);
    assert_eq!(ResetValOpt.apply(&Block::Multiply { ops: vec![] }), None);
    assert_eq!(
        ResetValOpt.apply(&Block::Loop(vec![
            Block::Simple(vec![Op::Modify(-1)]),
            Block::Simple(vec![Op::Modify(-1)]),
        ])),
        None
    );
}

#[test]
fn reset_in_any_context() {
    assert_eq!(optimize("[-]"), vec![Block::Reset { offset: 0 }]);
    assert_eq!(
        optimize("+[-]>"),
        vec![
            Block::Simple(vec![Op::Modify(1)]),
            Block::Reset { offset: 0 },
            Block::Simple(vec![Op::Move(1)]),
        ]
    );
    assert_eq!(
        optimize("[>[-]<.]"),
        vec![Block::Loop(vec![
            Block::Simple(vec![Op::Move(1)]),
            Block::Reset { offset: 0 },
            Block::Simple(vec![Op::Move(-1), Op::Outp(1)]),
        ])]
    );
    assert_eq!(
        optimize("[[[-]]]"),
        vec![Block::Loop(vec![Block::Loop(vec![Block::Reset { offset: 0 }])])]
    );
}

#[test]
fn no_other_loop_becomes_a_reset() {
    for text in ["[+]", "[--]", "[-.]", "[>-<]", "[]", "[-,]", "[->+<]"] {
        let out = optimize(text);
        assert_eq!(out.len(), 1);
        assert!(!matches!(out[0], Block::Reset { .. }));
    }
}

#[test]
fn multiply_copy_loop() {
    assert_eq!(
        MultiplyOpt.apply(&one("[->+<]")),
        Some(Block::Multiply { ops: vec![(1, 1)] })
    );
}

#[test]
fn multiply_by_two() {
    assert_eq!(
        MultiplyOpt.apply(&one("[->++<]")),
        Some(Block::Multiply { ops: vec![(1, 2)] })
    );
}

#[test]
fn multiply_at_distance_two() {
    assert_eq!(
        MultiplyOpt.apply(&one("[->>+++<<]")),
        Some(Block::Multiply { ops: vec![(2, 3)] })
    );
}

#[test]
fn multiply_several_cells_by_rising_offset() {
    assert_eq!(
        MultiplyOpt.apply(&one("[>>>-<<+<-]")),
        Some(Block::Multiply { ops: vec![(1, 1), (3, -1)] })
    );
    assert_eq!(
        MultiplyOpt.apply(&one("[>+>++>+++<<<-]")),
        Some(Block::Multiply { ops: vec![(1, 1), (2, 2), (3, 3)] })
    );
}

#[test]
fn multiply_sums_changes_of_one_cell() {
    assert_eq!(
        MultiplyOpt.apply(&one("[>+<->++<]")),
        Some(Block::Multiply { ops: vec![(1, 3)] })
    );
}

#[test]
fn multiply_leaves_out_cells_that_do_not_change() {
    assert_eq!(
        MultiplyOpt.apply(&one("[->+>+-<<]")),
        Some(Block::Multiply { ops: vec![(1, 1)] })
    );
}

#[test]
fn multiply_alone_takes_the_countdown_loop() {
    assert_eq!(MultiplyOpt.apply(&one("[-]")), Some(Block::Multiply { ops: vec![] }));
}

#[test]
fn multiply_declines_negative_offset() {
    assert_eq!(MultiplyOpt.apply(&one("[<+>]")), None);
    assert_eq!(MultiplyOpt.apply(&one("[-<+>]")), None);
}

#[test]
fn multiply_declines_unbalanced_moves() {
    assert_eq!(MultiplyOpt.apply(&one("[->+>+<]")), None);
    assert_eq!(MultiplyOpt.apply(&one("[->]")), None);
}

#[test]
fn multiply_declines_io() {
    assert_eq!(MultiplyOpt.apply(&one("[-.]")), None);
    assert_eq!(MultiplyOpt.apply(&one("[-,]")), None);
}

#[test]
fn multiply_declines_wrong_base_change() {
    assert_eq!(MultiplyOpt.apply(&one("[--]")), None);
    assert_eq!(MultiplyOpt.apply(&one("[+]")), None);
    assert_eq!(MultiplyOpt.apply(&one("[>+<]")), None);
}

#[test]
fn multiply_declines_what_is_no_single_simple_loop() {
    assert_eq!(MultiplyOpt.apply(&one("[]")), None);
    assert_eq!(MultiplyOpt.apply(&one("[-[-]]")), None);
    assert_eq!(MultiplyOpt.apply(&one("->+<")), None);
    assert_eq!(MultiplyOpt.apply(&Block::Reset { offset: 0 }), None);
    assert_eq!(MultiplyOpt.apply(&Block::Multiply { ops: vec![(1, 1)] }), None);
    assert_eq!(MultiplyOpt.apply(&Block::Loop(vec![Block::Simple(vec![])])), None);
}

#[test]
fn multiply_declines_a_bracket_in_the_body() {
    let block = Block::Loop(vec![Block::Simple(vec![Op::Modify(-1), Op::LBr])]);
    assert_eq!(MultiplyOpt.apply(&block), None);
}

#[test]
fn multiply_takes_the_farthest_reach_and_declines_beyond() {
    let within = Block::Loop(vec![Block::Simple(vec![
        Op::Modify(-1),
        Op::Move(16383),
        Op::Modify(1),
        Op::Move(-16383),
    ])]);
    assert_eq!(
        MultiplyOpt.apply(&within),
        Some(Block::Multiply { ops: vec![(16383, 1)] })
    );
    let beyond = Block::Loop(vec![Block::Simple(vec![
        Op::Modify(-1),
        Op::Move(16384),
        Op::Modify(1),
        Op::Move(-16384),
    ])]);
    assert_eq!(MultiplyOpt.apply(&beyond), None);
}

#[test]
fn multiply_keeps_large_factors() {
    let block = Block::Loop(vec![Block::Simple(vec![
        Op::Modify(-1),
        Op::Move(1),
        Op::Modify(32767),
        Op::Move(-1),
        Op::Move(1),
        Op::Modify(32767),
        Op::Move(-1),
    ])]);
    assert_eq!(
        MultiplyOpt.apply(&block),
        Some(Block::Multiply { ops: vec![(1, 65534)] })
    );
}

#[test]
fn passes_do_not_change_their_input() {
    let block = one("[->+<]");
    let _ = MultiplyOpt.apply(&block);
    let _ = ResetValOpt.apply(&block);
    assert_eq!(block, one("[->+<]"));
}

#[test]
fn pass_enum_forwards_to_its_rewrite() {
    assert_eq!(
        Pass::ResetVal(ResetValOpt).apply(&one("[-]")),
        Some(Block::Reset { offset: 0 })
    );
    assert_eq!(
        Pass::Multiply(MultiplyOpt).apply(&one("[-]")),
        Some(Block::Multiply { ops: vec![] })
    );
    assert_eq!(Pass::ResetVal(ResetValOpt).apply(&one("[->+<]")), None);
}

#[test]
fn the_specific_rewrite_comes_first() {
    assert_eq!(
        Optimizer::new().optimize_block(one("[-]")),
        Block::Reset { offset: 0 }
    );
}

#[test]
fn optimizer_rewrites_bottom_up() {
    assert_eq!(
        optimize("+++[>+++[>+<-]<-]>>."),
        vec![
            Block::Simple(vec![Op::Modify(3)]),
            Block::Loop(vec![
                Block::Simple(vec![Op::Move(1), Op::Modify(3)]),
                Block::Multiply { ops: vec![(1, 1)] },
                Block::Simple(vec![Op::Move(-1), Op::Modify(-1)]),
            ]),
            Block::Simple(vec![Op::Move(2), Op::Outp(1)]),
        ]
    );
}

#[test]
fn optimizer_makes_one_pass_only() {
    assert_eq!(
        optimize("[[-]]"),
        vec![Block::Loop(vec![Block::Reset { offset: 0 }])]
    );
}

#[test]
fn optimizer_leaves_other_programs_alone() {
    assert_eq!(optimize(",[.,]"), tree(",[.,]"));
    assert_eq!(optimize("+[]"), tree("+[]"));
    assert_eq!(optimize(""), vec![]);
    assert_eq!(optimize("+>-<"), tree("+>-<"));
}

#[test]
fn optimize_block_on_plain_blocks() {
    let optimizer = Optimizer::new();
    assert_eq!(
        optimizer.optimize_block(Block::Simple(vec![Op::Modify(1)])),
        Block::Simple(vec![Op::Modify(1)])
    );
    assert_eq!(
        optimizer.optimize_block(Block::Reset { offset: 2 }),
        Block::Reset { offset: 2 }
    );
    assert_eq!(
        optimizer.optimize_block(one("[>++<-]")),
        Block::Multiply { ops: vec![(1, 2)] }
    );
}
