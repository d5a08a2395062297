use brainf::folding::render;
use brainf::lexer::{parse, squash, Op};

fn lex(text: &str) -> Vec<Op> {
    parse(&text.to_string())
}

#[test]
fn from_char_knows_the_eight_instructions() {
    assert_eq!(Op::from_char('+'), Some(Op::Modify(1)));
    assert_eq!(Op::from_char('-'), Some(Op::Modify(-1)));
    assert_eq!(Op::from_char('>'), Some(Op::Move(1)));
    assert_eq!(Op::from_char('<'), Some(Op::Move(-1)));
    assert_eq!(Op::from_char('['), Some(Op::LBr));
    assert_eq!(Op::from_char(']'), Some(Op::RBr));
    assert_eq!(Op::from_char(','), Some(Op::Inp(1)));
    assert_eq!(Op::from_char('.'), Some(Op::Outp(1)));
}

#[test]
fn from_char_skips_everything_else() {
    assert_eq!(Op::from_char('a'), None);
    assert_eq!(Op::from_char(' '), None);
    assert_eq!(Op::from_char('\n'), None);
    assert_eq!(Op::from_char('é'), None);
    assert_eq!(Op::from_char('0'), None);
}

#[test]
fn get_val_gives_the_payload() {
    assert_eq!(Op::Modify(7).get_val(), 7);
    assert_eq!(Op::Modify(-7).get_val(), -7);
    assert_eq!(Op::Move(-3).get_val(), -3);
    assert_eq!(Op::Outp(5).get_val(), 5);
    assert_eq!(Op::Inp(9).get_val(), 9);
    assert_eq!(Op::LBr.get_val(), 1);
    assert_eq!(Op::RBr.get_val(), 1);
}

#[test]
fn get_val_reinterprets_large_counts() {
    assert_eq!(Op::Outp(32767).get_val(), 32767);
    assert_eq!(Op::Outp(32768).get_val(), -32768);
    assert_eq!(Op::Inp(65535).get_val(), -1);
}

#[test]
fn is_brace_only_for_brackets() {
    assert!(Op::LBr.is_brace());
    assert!(Op::RBr.is_brace());
    assert!(!Op::Modify(1).is_brace());
    assert!(!Op::Move(1).is_brace());
    assert!(!Op::Inp(1).is_brace());
    assert!(!Op::Outp(1).is_brace());
}

#[test]
fn four_kinds_are_reducible() {
    assert!(Op::Modify(1).is_reducible());
    assert!(Op::Move(1).is_reducible());
    assert!(Op::Inp(1).is_reducible());
    assert!(Op::Outp(1).is_reducible());
    assert!(!Op::LBr.is_reducible());
    assert!(!Op::RBr.is_reducible());
}

#[test]
fn same_operation_compares_tags_only() {
    assert!(Op::Modify(1).is_same_operation(&Op::Modify(-5)));
    assert!(Op::LBr.is_same_operation(&Op::LBr));
    assert!(!Op::Modify(1).is_same_operation(&Op::Move(1)));
    assert!(!Op::Inp(1).is_same_operation(&Op::Outp(1)));
    assert!(!Op::LBr.is_same_operation(&Op::RBr));
}

#[test]
fn folds_runs_of_one_kind() {
    assert_eq!(lex("+++"), vec![Op::Modify(3)]);
    assert_eq!(lex("--"), vec![Op::Modify(-2)]);
    assert_eq!(lex(">>>>"), vec![Op::Move(4)]);
    assert_eq!(lex("<"), vec![Op::Move(-1)]);
    assert_eq!(lex(",,,"), vec![Op::Inp(3)]);
    assert_eq!(lex(".."), vec![Op::Outp(2)]);
}

#[test]
fn brackets_never_fold() {
    assert_eq!(lex("[["), vec![Op::LBr, Op::LBr]);
    assert_eq!(lex("]]]"), vec![Op::RBr, Op::RBr, Op::RBr]);
    assert_eq!(lex("[]"), vec![Op::LBr, Op::RBr]);
}

#[test]
fn opposite_signs_sum_in_one_operation() {
    assert_eq!(lex("+-"), vec![Op::Modify(0)]);
    assert_eq!(lex("++-"), vec![Op::Modify(1)]);
    assert_eq!(lex("><<"), vec![Op::Move(-1)]);
}

#[test]
fn squash_merges_only_same_tag() {
    assert_eq!(squash(vec![Op::Modify(2)], Op::Modify(-1)), vec![Op::Modify(1)]);
    assert_eq!(squash(vec![Op::Modify(2)], Op::Move(1)), vec![Op::Modify(2), Op::Move(1)]);
    assert_eq!(squash(vec![Op::Outp(2)], Op::Outp(1)), vec![Op::Outp(3)]);
    assert_eq!(squash(vec![Op::Inp(2)], Op::Inp(1)), vec![Op::Inp(3)]);
    assert_eq!(squash(vec![Op::LBr], Op::LBr), vec![Op::LBr, Op::LBr]);
    assert_eq!(squash(vec![], Op::RBr), vec![Op::RBr]);
}

#[test]
fn squash_looks_at_the_last_operation_only() {
    assert_eq!(
        squash(vec![Op::Modify(1), Op::Move(1)], Op::Modify(1)),
        vec![Op::Modify(1), Op::Move(1), Op::Modify(1)]
    );
}

#[test]
fn payloads_wrap_at_their_width() {
    assert_eq!(squash(vec![Op::Modify(32767)], Op::Modify(1)), vec![Op::Modify(-32768)]);
    assert_eq!(squash(vec![Op::Move(-32768)], Op::Move(-1)), vec![Op::Move(32767)]);
    assert_eq!(squash(vec![Op::Outp(65535)], Op::Outp(1)), vec![Op::Outp(0)]);
    assert_eq!(squash(vec![Op::Inp(65535)], Op::Inp(2)), vec![Op::Inp(1)]);
}

#[test]
fn long_run_wraps_in_the_lexer() {
    let text: String = "+".repeat(32768);
    assert_eq!(parse(&text), vec![Op::Modify(-32768)]);
}

#[test]
fn comments_are_dropped() {
    assert_eq!(lex("hello world"), vec![]);
    assert_eq!(lex(""), vec![]);
    assert_eq!(lex("a+b+c"), vec![Op::Modify(2)]);
    assert_eq!(lex("+ +\n+"), lex("+++"));
}

#[test]
fn output_depends_only_on_the_instructions() {
    let with_comments = "read , loop [ print . read , ] done";
    let bare = ",[.,]";
    assert_eq!(lex(with_comments), lex(bare));
    assert_eq!(
        lex(bare),
        vec![Op::Inp(1), Op::LBr, Op::Outp(1), Op::Inp(1), Op::RBr]
    );
}

#[test]
fn no_adjacent_reducible_operations_of_one_tag() {
    let out = lex("++>>--<<..,,[[+]]--++>+<-");
    for pair in out.windows(2) {
        assert!(!(pair[0].is_reducible() && pair[0].is_same_operation(&pair[1])));
    }
}

#[test]
fn lexes_a_whole_program() {
    assert_eq!(
        lex("++++++++[>++++++++<-]>+."),
        vec![
            Op::Modify(8),
            Op::LBr,
            Op::Move(1),
            Op::Modify(8),
            Op::Move(-1),
            Op::Modify(-1),
            Op::RBr,
            Op::Move(1),
            Op::Modify(1),
            Op::Outp(1),
        ]
    );
}

#[test]
fn render_writes_runs_out() {
    let ops = vec![
        Op::Modify(3),
        Op::Move(-2),
        Op::LBr,
        Op::Outp(2),
        Op::Inp(1),
        Op::Modify(-1),
        Op::Move(1),
        Op::RBr,
    ];
    assert_eq!(render(&ops), "+++<<[..,->]");
}

#[test]
fn render_of_nothing_is_empty() {
    assert_eq!(render(&vec![]), "");
    assert_eq!(render(&vec![Op::Modify(0), Op::Move(0)]), "");
}

#[test]
fn lexing_the_rendering_gives_the_output_back() {
    for text in ["++++++++[>++++++++<-]>+.", ",[.,]", "+++[>+++[>+<-]<-]>>.", "][", "a+b-c-d"] {
        let once = lex(text);
        let again = parse(&render(&once));
        assert_eq!(again, once);
    }
}

#[test]
fn a_cancelled_run_is_lost_in_the_rendering() {
    let once = lex("+-");
    assert_eq!(once, vec![Op::Modify(0)]);
    assert_eq!(parse(&render(&once)), vec![]);
}
