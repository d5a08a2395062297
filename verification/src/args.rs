//! The options of one run of the compiler.

use vstd::prelude::*;

verus! {

/// What the command line asks for.
#[derive(Debug, PartialEq, Eq)]
pub struct Args {
    /// The path of the source file.
    pub input: String,
    /// The path of the executable; `out` when none is given.
    pub output: Option<String>,
    /// Print the program tree after parsing.
    pub show_parsed: bool,
    /// Print the program tree after optimization.
    pub show_optimized: bool,
    /// Print the generated code before the object is emitted.
    pub show_llvm_ir: bool,
}

impl Args {
    /// The path of the executable.
    pub open spec fn output_text(&self) -> Seq<char> {
        match self.output {
            Some(path) => path@,
            None => "out"@,
        }
    }

    /// The path of the executable: the one given, or `out`.
    pub fn output_path(&self) -> (r: String)
        ensures
            r@ == self.output_text(),
    {
        match &self.output {
            Some(path) => path.clone(),
            None => String::from_str("out"),
        }
    }

    /// The path of the object file: the path of the executable with `.o`
    /// behind it.
    pub fn object_path(&self) -> (r: String)
        ensures
            r@ == self.output_text() + ".o"@,
    {
        self.output_path().concat(".o")
    }
}

} // verus!
