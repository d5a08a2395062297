use brainf::ir::{Inst, IrBlock, Label, Operand, Terminator, TAPE_LEN};
use brainf::lexer::Op;
use brainf::llvm_ir_gen::loops::Loop;
use brainf::llvm_ir_gen::modify_block::ModifyBlock;
use brainf::llvm_ir_gen::move_block::MoveBlock;
use brainf::llvm_ir_gen::read_char::ReadChar;
use brainf::llvm_ir_gen::reset::Reset;
use brainf::llvm_ir_gen::write_char::WriteChar;
use brainf::llvm_ir_gen::{compile, LLVMBuilder, IrModule};
use brainf::optimizer::Optimizer;
use brainf::parser::{parse, Block, Program};

fn tree(text: &str) -> Program {
    parse(brainf::lexer::parse(&text.to_string())).unwrap()
}

fn build(text: &str) -> IrModule {
    compile(Optimizer::new().optimize(tree(text)))
}

fn build_plain(text: &str) -> IrModule {
    compile(tree(text))
}

fn entry_insts(m: &IrModule) -> Vec<Inst> {
    m.blocks[0].insts.clone()
}

/// Runs the compiled function on a tape of `TAPE_LEN` cells; `None` when it
/// has not returned after `limit` instructions.
fn run(m: &IrModule, input: &[u8], limit: usize) -> Option<(Vec<u8>, Vec<i32>, i32)> {
    let mut tape = vec![0i32; TAPE_LEN as usize];
    let mut pos: i32 = 0;
    let mut output = Vec::new();
    let mut next_input = 0;
    let mut steps = 0;
    let mut at = 0;
    loop {
        let block = &m.blocks[at];
        let mut vals: Vec<i32> = Vec::new();
        let read = |vals: &Vec<i32>, o: &Operand| match o {
            Operand::Const(c) => *c,
            Operand::Inst(i) => vals[*i],
        };
        for inst in &block.insts {
            steps += 1;
            if steps > limit {
                return None;
            }
            let v = match inst {
                Inst::LoadPos => pos,
                Inst::StorePos(v) => {
                    pos = read(&vals, v);
                    0
                }
                Inst::CellPtr(i) => read(&vals, i),
                Inst::Load(p) => tape[vals[*p] as usize],
                Inst::Store(p, v) => {
                    tape[vals[*p] as usize] = read(&vals, v);
                    0
                }
                Inst::Add(a, b) => read(&vals, a).wrapping_add(read(&vals, b)),
                Inst::Mul(a, b) => read(&vals, a).wrapping_mul(read(&vals, b)),
                Inst::NonZero(v) => (read(&vals, v) != 0) as i32,
                Inst::GetChar => {
                    if next_input < input.len() {
                        next_input += 1;
                        input[next_input - 1] as i32
                    } else {
                        -1
                    }
                }
                Inst::PutChar(v) => {
                    output.push(read(&vals, v) as u8);
                    0
                }
            };
            vals.push(v);
        }
        steps += 1;
        if steps > limit {
            return None;
        }
        match block.term.unwrap() {
            Terminator::Ret(code) => return Some((output, tape, code)),
            Terminator::CondBr { cond, then_block, else_block } => {
                at = if vals[cond] != 0 { then_block } else { else_block };
            }
        }
    }
}

fn output_of(text: &str, input: &[u8]) -> Vec<u8> {
    let optimized = run(&build(text), input, 10_000_000).unwrap();
    let plain = run(&build_plain(text), input, 10_000_000).unwrap();
    assert_eq!(optimized.0, plain.0);
    assert_eq!(optimized.1, plain.1);
    assert_eq!(optimized.2, 0);
    optimized.0
}

#[test]
fn empty_program_returns_zero_and_emits_nothing() {
    let m = compile(vec![]);
    assert_eq!(
        m.blocks,
        vec![IrBlock { label: Label::Entry, insts: vec![], term: Some(Terminator::Ret(0)) }]
    );
    let (output, tape, code) = run(&m, b"", 10).unwrap();
    assert_eq!(output, Vec::<u8>::new());
    assert_eq!(code, 0);
    assert!(tape.iter().all(|c| *c == 0));
}

#[test]
fn the_tape_has_thirty_thousand_cells() {
    assert_eq!(TAPE_LEN, 30_000);
}

#[test]
fn move_loads_adds_and_stores_the_position() {
    let mut b = LLVMBuilder::new();
    MoveBlock::new().build(&mut b, -3);
    assert_eq!(
        b.finalize().blocks[0].insts,
        vec![
            Inst::LoadPos,
            Inst::Add(Operand::Const(-3), Operand::Inst(0)),
            Inst::StorePos(Operand::Inst(1)),
        ]
    );
}

#[test]
fn modify_loads_adds_and_stores_the_cell() {
    let mut b = LLVMBuilder::new();
    ModifyBlock::new().build(&mut b, 5);
    assert_eq!(
        b.finalize().blocks[0].insts,
        vec![
            Inst::LoadPos,
            Inst::CellPtr(Operand::Inst(0)),
            Inst::Load(1),
            Inst::Add(Operand::Inst(2), Operand::Const(5)),
            Inst::Store(1, Operand::Inst(3)),
        ]
    );
}

#[test]
fn read_stores_what_getchar_returns() {
    let mut b = LLVMBuilder::new();
    ReadChar::new().build(&mut b);
    assert_eq!(
        b.finalize().blocks[0].insts,
        vec![
            Inst::LoadPos,
            Inst::CellPtr(Operand::Inst(0)),
            Inst::GetChar,
            Inst::Store(1, Operand::Inst(2)),
        ]
    );
}

#[test]
fn write_passes_the_cell_to_putchar() {
    let mut b = LLVMBuilder::new();
    WriteChar::new().build(&mut b);
    assert_eq!(
        b.finalize().blocks[0].insts,
        vec![
            Inst::LoadPos,
            Inst::CellPtr(Operand::Inst(0)),
            Inst::Load(1),
            Inst::PutChar(Operand::Inst(2)),
        ]
    );
}

#[test]
fn reset_stores_zero_at_the_offset() {
    let mut b = LLVMBuilder::new();
    Reset::new().build(&mut b, 2);
    assert_eq!(
        b.finalize().blocks[0].insts,
        vec![
            Inst::LoadPos,
            Inst::Add(Operand::Inst(0), Operand::Const(2)),
            Inst::CellPtr(Operand::Inst(1)),
            Inst::Store(2, Operand::Const(0)),
        ]
    );
}

#[test]
fn later_constructs_name_later_places() {
    let mut b = LLVMBuilder::new();
    MoveBlock::new().build(&mut b, 1);
    WriteChar::new().build(&mut b);
    assert_eq!(
        b.finalize().blocks[0].insts,
        vec![
            Inst::LoadPos,
            Inst::Add(Operand::Const(1), Operand::Inst(0)),
            Inst::StorePos(Operand::Inst(1)),
            Inst::LoadPos,
            Inst::CellPtr(Operand::Inst(3)),
            Inst::Load(4),
            Inst::PutChar(Operand::Inst(5)),
        ]
    );
}

#[test]
fn repeated_reads_are_not_coalesced() {
    let m = build_plain(",,,");
    let reads = entry_insts(&m).iter().filter(|i| matches!(i, Inst::GetChar)).count();
    assert_eq!(reads, 3);
    assert_eq!(entry_insts(&m).len(), 12);
    let (_, tape, _) = run(&m, b"abc", 100).unwrap();
    assert_eq!(tape[0], 'c' as i32);
}

#[test]
fn repeated_writes_call_putchar_each_time() {
    let m = build_plain("+..");
    let writes = entry_insts(&m).iter().filter(|i| matches!(i, Inst::PutChar(_))).count();
    assert_eq!(writes, 2);
    assert_eq!(run(&m, b"", 100).unwrap().0, vec![1, 1]);
}

#[test]
fn brackets_in_a_simple_block_emit_nothing() {
    let m = compile(vec![Block::Simple(vec![Op::LBr, Op::RBr])]);
    assert_eq!(m.blocks.len(), 1);
    assert_eq!(entry_insts(&m), vec![]);
}

#[test]
fn multiply_reads_the_base_once() {
    let m = compile(vec![Block::Multiply { ops: vec![(1, 2), (3, -1)] }]);
    assert_eq!(
        entry_insts(&m),
        vec![
            Inst::LoadPos,
            Inst::CellPtr(Operand::Inst(0)),
            Inst::Load(1),
            Inst::Add(Operand::Inst(0), Operand::Const(1)),
            Inst::CellPtr(Operand::Inst(3)),
            Inst::Load(4),
            Inst::Mul(Operand::Inst(2), Operand::Const(2)),
            Inst::Add(Operand::Inst(5), Operand::Inst(6)),
            Inst::Store(4, Operand::Inst(7)),
            Inst::Add(Operand::Inst(0), Operand::Const(3)),
            Inst::CellPtr(Operand::Inst(9)),
            Inst::Load(10),
            Inst::Mul(Operand::Inst(2), Operand::Const(-1)),
            Inst::Add(Operand::Inst(11), Operand::Inst(12)),
            Inst::Store(10, Operand::Inst(13)),
            Inst::Store(1, Operand::Const(0)),
        ]
    );
}

#[test]
fn build_multiply_on_the_builder() {
    let mut b = LLVMBuilder::new();
    b.build_multiply(&vec![]);
    assert_eq!(
        b.finalize().blocks[0].insts,
        vec![
            Inst::LoadPos,
            Inst::CellPtr(Operand::Inst(0)),
            Inst::Load(1),
            Inst::Store(1, Operand::Const(0)),
        ]
    );
}

#[test]
fn a_loop_gets_two_blocks_and_two_tests() {
    let m = build_plain("[.]");
    let test = vec![
        Inst::LoadPos,
        Inst::CellPtr(Operand::Inst(0)),
        Inst::Load(1),
        Inst::NonZero(Operand::Inst(2)),
    ];
    assert_eq!(m.blocks.len(), 3);
    assert_eq!(m.blocks[0].label, Label::Entry);
    assert_eq!(m.blocks[0].insts, test);
    assert_eq!(
        m.blocks[0].term,
        Some(Terminator::CondBr { cond: 3, then_block: 1, else_block: 2 })
    );
    assert_eq!(m.blocks[1].label, Label::Loop(1));
    assert_eq!(
        m.blocks[1].insts,
        vec![
            Inst::LoadPos,
            Inst::CellPtr(Operand::Inst(0)),
            Inst::Load(1),
            Inst::PutChar(Operand::Inst(2)),
            Inst::LoadPos,
            Inst::CellPtr(Operand::Inst(4)),
            Inst::Load(5),
            Inst::NonZero(Operand::Inst(6)),
        ]
    );
    assert_eq!(
        m.blocks[1].term,
        Some(Terminator::CondBr { cond: 7, then_block: 1, else_block: 2 })
    );
    assert_eq!(m.blocks[2].label, Label::Cont(1));
    assert_eq!(m.blocks[2].insts, vec![]);
    assert_eq!(m.blocks[2].term, Some(Terminator::Ret(0)));
}

#[test]
fn loop_start_and_end_by_hand() {
    let mut b = LLVMBuilder::new();
    let looping = Loop::new();
    let (body, after) = looping.build_loop_start(&mut b);
    assert_eq!((body, after), (1, 2));
    looping.build_loop_end(&mut b, body, after);
    let m = b.finalize();
    assert_eq!(m.blocks.len(), 3);
    assert_eq!(
        m.blocks[1].term,
        Some(Terminator::CondBr { cond: 3, then_block: 1, else_block: 2 })
    );
    assert_eq!(m.blocks[2].term, Some(Terminator::Ret(0)));
}

#[test]
fn nested_loops_are_numbered_as_they_open() {
    let m = build_plain("[.[.].]>[.]");
    let labels: Vec<Label> = m.blocks.iter().map(|b| b.label).collect();
    assert_eq!(
        labels,
        vec![
            Label::Entry,
            Label::Loop(1),
            Label::Cont(1),
            Label::Loop(2),
            Label::Cont(2),
            Label::Loop(3),
            Label::Cont(3),
        ]
    );
    assert_eq!(
        m.blocks[3].term,
        Some(Terminator::CondBr { cond: 7, then_block: 3, else_block: 4 })
    );
    assert_eq!(
        m.blocks[4].term,
        Some(Terminator::CondBr { cond: 7, then_block: 1, else_block: 2 })
    );
}

#[test]
fn every_block_has_its_one_terminator() {
    for text in ["", "+", "[]", "[[][]]", "+[[-]>[->+<]<.]", ",[.,]", "+[]"] {
        for m in [build(text), build_plain(text)] {
            for block in &m.blocks {
                assert!(block.term.is_some());
                if let Some(Terminator::CondBr { cond, then_block, else_block }) = block.term {
                    assert!(matches!(block.insts[cond], Inst::NonZero(_)));
                    assert!(then_block < m.blocks.len());
                    assert!(else_block < m.blocks.len());
                }
            }
            let returns = m
                .blocks
                .iter()
                .filter(|b| matches!(b.term, Some(Terminator::Ret(_))))
                .count();
            assert_eq!(returns, 1);
        }
    }
}

#[test]
fn labels_are_unique() {
    let m = build_plain("[[[]]][][[][]]+[.]");
    for i in 0..m.blocks.len() {
        for j in 0..i {
            assert_ne!(m.blocks[i].label, m.blocks[j].label);
        }
    }
}

#[test]
fn instructions_read_only_earlier_results() {
    let m = build("+[[-]>[->++>+++<<]<.,]");
    for block in &m.blocks {
        for (at, inst) in block.insts.iter().enumerate() {
            let mut reads = Vec::new();
            let mut operand = |o: &Operand| {
                if let Operand::Inst(i) = o {
                    reads.push(*i);
                }
            };
            match inst {
                Inst::StorePos(v) | Inst::CellPtr(v) | Inst::NonZero(v) | Inst::PutChar(v) => {
                    operand(v)
                }
                Inst::Store(_, v) => operand(v),
                Inst::Add(a, b) | Inst::Mul(a, b) => {
                    operand(a);
                    operand(b)
                }
                _ => {}
            }
            if let Inst::Load(p) | Inst::Store(p, _) = inst {
                assert!(*p < at);
                assert!(matches!(block.insts[*p], Inst::CellPtr(_)));
            }
            for r in reads {
                assert!(r < at);
            }
        }
    }
}

#[test]
fn prints_capital_a() {
    assert_eq!(output_of("++++++++[>++++++++<-]>+.", b""), b"A".to_vec());
}

#[test]
fn echoes_one_byte() {
    assert_eq!(output_of(",.", b"x"), b"x".to_vec());
}

#[test]
fn echoes_until_the_terminator() {
    assert_eq!(output_of(",[.,]", b"hi\0"), b"hi".to_vec());
}

#[test]
fn end_of_input_stores_minus_one() {
    let (_, tape, _) = run(&build(","), b"", 100).unwrap();
    assert_eq!(tape[0], -1);
}

#[test]
fn nested_loops_multiply() {
    assert_eq!(output_of("+++[>+++[>+<-]<-]>>.", b""), vec![9]);
}

#[test]
fn an_endless_loop_compiles_and_does_not_end() {
    let m = build("+[]");
    assert_eq!(m.blocks.len(), 3);
    assert_eq!(run(&m, b"", 100_000), None);
}

#[test]
fn optimized_and_plain_code_agree() {
    for text in [
        "+++++[-]+.",
        "++++[->+++<]>.",
        "+++>++<[->>+++<<]>>.<.",
        ">>+++[-<<+>>]<<.",
        "+++[>++[>+++<-]<-]>>.",
        ",[->+>++<<]>.>.",
    ] {
        output_of(text, b"\x07");
    }
}

#[test]
fn multiply_from_a_negative_cell_wraps() {
    let m = build("-[->+<]");
    let (_, tape, _) = run(&m, b"", 100).unwrap();
    assert_eq!(tape[0], 0);
    assert_eq!(tape[1], -1);
    assert_eq!(m.blocks.len(), 1);
}
