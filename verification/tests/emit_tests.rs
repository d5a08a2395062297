use brainf::ir::{Inst, IrBlock, Label, Operand, Terminator};
use brainf::llvm_ir_gen::emit::{emit_llvm_ir, emit_object, EmitError};
use brainf::llvm_ir_gen::{compile, IrModule};
use brainf::optimizer::Optimizer;
use brainf::parser::parse;

fn build(text: &str) -> IrModule {
    let tree = parse(brainf::lexer::parse(&text.to_string())).unwrap();
    compile(Optimizer::new().optimize(tree))
}

fn one_block(insts: Vec<Inst>, term: Option<Terminator>) -> IrModule {
    IrModule { blocks: vec![IrBlock { label: Label::Entry, insts, term }] }
}

fn count(text: &str, needle: &str) -> usize {
    text.matches(needle).count()
}

#[test]
fn listing_of_the_empty_program() {
    let text = emit_llvm_ir(&compile(vec![])).unwrap();
    assert!(text.contains("@tape = global [30000 x i32] zeroinitializer"));
    assert!(text.contains("@tape_pos = global i32 0"));
    assert!(text.contains("declare i8* @calloc(i64, i64)"));
    assert!(text.contains("declare i32 @getchar()"));
    assert!(text.contains("declare i32 @putchar(i32)"));
    assert!(text.contains("define i32 @main()"));
    assert!(text.contains("entry:"));
    assert!(text.contains("ret i32 0"));
    assert_eq!(count(&text, "call "), 0);
    assert_eq!(count(&text, "br "), 0);
}

#[test]
fn listing_names_the_blocks_of_loops() {
    let text = emit_llvm_ir(&build("[.[.]]>[.]")).unwrap();
    for label in ["entry:", "loop_1:", "cont_1:", "loop_2:", "cont_2:", "loop_3:", "cont_3:"] {
        assert_eq!(count(&text, &format!("\n{label}")), 1);
    }
    assert!(text.contains("label %loop_1, label %cont_1"));
    assert!(text.contains("label %loop_2, label %cont_2"));
    assert_eq!(count(&text, "br i1 "), 6);
    assert_eq!(count(&text, "ret i32 0"), 1);
}

#[test]
fn listing_holds_each_instruction() {
    let text = emit_llvm_ir(&build(",+.>")).unwrap();
    assert_eq!(count(&text, "call i32 @getchar()"), 1);
    assert_eq!(count(&text, "call i32 @putchar(i32 "), 1);
    assert_eq!(count(&text, "load i32, i32* @tape_pos"), 4);
    assert_eq!(count(&text, "store i32 "), 3);
    assert_eq!(count(&text, "ptrtoint ([30000 x i32]* @tape to i64)"), 3);
    assert_eq!(count(&text, "sext i32 "), 3);
    assert_eq!(count(&text, "inttoptr i64 "), 3);
}

#[test]
fn listing_of_a_multiply_block() {
    let text = emit_llvm_ir(&build("[->++<]")).unwrap();
    assert_eq!(count(&text, "mul i32 "), 1);
    assert!(text.contains(", 2\n"));
    assert_eq!(count(&text, "br "), 0);
    assert!(text.contains("store i32 0, i32* "));
}

#[test]
fn negative_constants_keep_their_sign() {
    let text = emit_llvm_ir(&build("---<<")).unwrap();
    assert!(text.contains("add i32 %value, -3"));
    assert!(text.contains("add i32 -2, %tape_pos"));
}

#[test]
fn the_test_of_a_loop_compares_with_zero() {
    let text = emit_llvm_ir(&build("+[]")).unwrap();
    assert_eq!(count(&text, "icmp ne i32 "), 2);
    assert!(text.contains(", 0\n"));
}

#[test]
fn object_comes_out_for_compiled_programs() {
    for text in ["", "+", ",.", ",[.,]", "++++++++[>++++++++<-]>+.", "+++[>+++[>+<-]<-]>>.", "+[]"] {
        let object = emit_object(&build(text)).unwrap();
        assert!(object.len() > 16);
    }
}

#[test]
fn object_is_in_the_format_of_the_host() {
    let object = emit_object(&build(",.")).unwrap();
    let elf = object.starts_with(b"\x7fELF");
    let macho = object.starts_with(&[0xcf, 0xfa, 0xed, 0xfe]);
    let coff = object.starts_with(&[0x64, 0x86]);
    assert!(elf || macho || coff);
}

#[test]
fn a_larger_program_gives_a_larger_object() {
    let small = emit_object(&build("+")).unwrap();
    let large = emit_object(&build("+>+>+>+>+>+>+>+>+>+>+>+>+>+>+>+>+>+>+>+>+>+>+>+>+>+>+>+>+")).unwrap();
    assert!(large.len() > small.len());
}

#[test]
fn a_block_without_terminator_is_malformed() {
    let ir = one_block(vec![Inst::LoadPos], None);
    assert_eq!(emit_llvm_ir(&ir), Err(EmitError::Malformed));
    assert_eq!(emit_object(&ir), Err(EmitError::Malformed));
}

#[test]
fn reading_a_later_place_is_malformed() {
    let ir = one_block(
        vec![Inst::StorePos(Operand::Inst(1)), Inst::LoadPos],
        Some(Terminator::Ret(0)),
    );
    assert_eq!(emit_llvm_ir(&ir), Err(EmitError::Malformed));
}

#[test]
fn reading_its_own_place_is_malformed() {
    let ir = one_block(
        vec![Inst::Add(Operand::Inst(0), Operand::Const(1))],
        Some(Terminator::Ret(0)),
    );
    assert_eq!(emit_llvm_ir(&ir), Err(EmitError::Malformed));
}

#[test]
fn reading_a_value_of_the_wrong_kind_is_malformed() {
    let address_as_number = one_block(
        vec![Inst::LoadPos, Inst::CellPtr(Operand::Inst(0)), Inst::StorePos(Operand::Inst(1))],
        Some(Terminator::Ret(0)),
    );
    assert_eq!(emit_llvm_ir(&address_as_number), Err(EmitError::Malformed));
    let number_as_address =
        one_block(vec![Inst::LoadPos, Inst::Load(0)], Some(Terminator::Ret(0)));
    assert_eq!(emit_llvm_ir(&number_as_address), Err(EmitError::Malformed));
    let nothing_as_number = one_block(
        vec![Inst::LoadPos, Inst::StorePos(Operand::Inst(0)), Inst::PutChar(Operand::Inst(1))],
        Some(Terminator::Ret(0)),
    );
    assert_eq!(emit_llvm_ir(&nothing_as_number), Err(EmitError::Malformed));
}

#[test]
fn a_branch_on_a_number_is_malformed() {
    let ir = one_block(
        vec![Inst::LoadPos],
        Some(Terminator::CondBr { cond: 0, then_block: 0, else_block: 0 }),
    );
    assert_eq!(emit_llvm_ir(&ir), Err(EmitError::Malformed));
}

#[test]
fn a_branch_to_a_missing_block_is_malformed() {
    let ir = one_block(
        vec![Inst::LoadPos, Inst::NonZero(Operand::Inst(0))],
        Some(Terminator::CondBr { cond: 1, then_block: 0, else_block: 1 }),
    );
    assert_eq!(emit_llvm_ir(&ir), Err(EmitError::Malformed));
}

#[test]
fn code_written_by_hand_comes_out_too() {
    let ir = IrModule {
        blocks: vec![
            IrBlock {
                label: Label::Entry,
                insts: vec![
                    Inst::LoadPos,
                    Inst::CellPtr(Operand::Inst(0)),
                    Inst::Load(1),
                    Inst::NonZero(Operand::Inst(2)),
                ],
                term: Some(Terminator::CondBr { cond: 3, then_block: 1, else_block: 2 }),
            },
            IrBlock { label: Label::Loop(1), insts: vec![], term: Some(Terminator::Ret(1)) },
            IrBlock { label: Label::Cont(1), insts: vec![], term: Some(Terminator::Ret(2)) },
        ],
    };
    let text = emit_llvm_ir(&ir).unwrap();
    assert!(text.contains("label %loop_1, label %cont_1"));
    assert!(text.contains("ret i32 1"));
    assert!(text.contains("ret i32 2"));
}

#[test]
fn what_llvm_refuses_is_an_object_write_failure() {
    let ir = one_block(
        vec![Inst::LoadPos, Inst::NonZero(Operand::Inst(0))],
        Some(Terminator::CondBr { cond: 1, then_block: 0, else_block: 0 }),
    );
    assert!(matches!(emit_llvm_ir(&ir), Err(EmitError::ObjectWriteFailure(_))));
    assert!(matches!(emit_object(&ir), Err(EmitError::ObjectWriteFailure(_))));
}

#[test]
fn no_module_is_malformed_without_blocks_to_blame() {
    let ir = IrModule { blocks: vec![] };
    assert!(!matches!(emit_llvm_ir(&ir), Err(EmitError::Malformed)));
}

#[test]
fn block_names_count_past_nine_in_decimal() {
    let text = emit_llvm_ir(&build(&"[.]".repeat(12))).unwrap();
    for n in 1..=12 {
        assert_eq!(count(&text, &format!("\nloop_{n}:")), 1);
        assert_eq!(count(&text, &format!("\ncont_{n}:")), 1);
    }
    assert!(text.contains("label %loop_10, label %cont_10"));
    assert!(text.contains("label %loop_12, label %cont_12"));
    assert_eq!(count(&text, "\nloop_13:"), 0);
}

#[test]
fn a_block_is_named_by_its_label() {
    let ir = IrModule {
        blocks: vec![
            IrBlock {
                label: Label::Entry,
                insts: vec![Inst::LoadPos, Inst::NonZero(Operand::Inst(0))],
                term: Some(Terminator::CondBr { cond: 1, then_block: 1, else_block: 2 }),
            },
            IrBlock { label: Label::Loop(4070), insts: vec![], term: Some(Terminator::Ret(1)) },
            IrBlock { label: Label::Cont(0), insts: vec![], term: Some(Terminator::Ret(2)) },
        ],
    };
    let text = emit_llvm_ir(&ir).unwrap();
    assert!(text.contains("label %loop_4070, label %cont_0"));
    assert_eq!(count(&text, "\nloop_4070:"), 1);
    assert_eq!(count(&text, "\ncont_0:"), 1);
}
