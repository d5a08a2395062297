use brainf::args::Args;

fn args(output: Option<&str>) -> Args {
    Args {
        input: "prog.bf".to_string(),
        output: output.map(|s| s.to_string()),
        show_parsed: false,
        show_optimized: false,
        show_llvm_ir: false,
    }
}

#[test]
fn output_defaults_to_out() {
    assert_eq!(args(None).output_path(), "out");
    assert_eq!(args(None).object_path(), "out.o");
}

#[test]
fn object_path_appends_the_extension() {
    assert_eq!(args(Some("hello")).output_path(), "hello");
    assert_eq!(args(Some("hello")).object_path(), "hello.o");
    assert_eq!(args(Some("bin/a.out")).object_path(), "bin/a.out.o");
}
