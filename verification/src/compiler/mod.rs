//! The LSH compiler: definitions source -> IR -> optimized IR.

pub mod charset;
pub mod frontend;
pub mod generator;
pub mod index_vec;
pub mod ir;
pub mod optimizer;
pub mod regex;
pub mod rust_module;

use vstd::prelude::*;
use self::ir::{Program, kinds_sorted};
use vstd::string::StringSliceAdditionalSpecFns;

verus! {

/// A compile error with its location: the file, and the 1-based line and column.
#[derive(Debug)]
pub struct CompileError {
    pub path: String,
    pub line: usize,
    pub column: usize,
    pub message: String,
}

/// The result of a compilation step.
pub type CompileResult<T> = Result<T, CompileError>;

/// Compiles definitions: each parsed file adds its functions to one program.
pub struct Compiler {
    program: Program,
}

impl Compiler {
    /// The program compiled so far.
    pub closed spec fn program(&self) -> Program {
        self.program
    }

    /// The compiler's invariant: its program is well-formed, with its highlight kinds sorted.
    pub closed spec fn wf(&self) -> bool {
        self.program.wf() && kinds_sorted(self.program.highlight_kinds@)
    }

    /// A compiler with an empty program.
    pub fn new() -> (r: Self)
        ensures
            r.wf(),
            r.program().functions@.len() == 0,
            r.program().graph.view().len() == 0,
    {
        Compiler { program: Program::new() }
    }

    /// Parses the definitions in `src`, read from `path`, and adds their functions.
    pub fn parse(&mut self, path: &str, src: &str) -> (r: CompileResult<()>)
        requires
            old(self).wf(),
            src.spec_bytes().len() < usize::MAX,
        ensures
            final(self).wf(),
            final(self).program().functions@.len() >= old(self).program().functions@.len(),
            final(self).program().functions@.take(old(self).program().functions@.len() as int)
                == old(self).program().functions@,
            forall|i: int|
                old(self).program().functions@.len() <= i < final(self).program().functions@.len()
                    ==> frontend::defined_in(src.spec_bytes(), #[trigger] final(self).program().functions@[i]),
            r is Ok ==> frontend::defined_in_order(
                src.spec_bytes(),
                0,
                final(self).program().functions@.skip(old(self).program().functions@.len() as int),
            ),
            frontend::skip_spec(src.spec_bytes(), 0) >= src.spec_bytes().len() ==> r is Ok && final(self).program().functions == old(self).program().functions,
            frontend::skip_spec(src.spec_bytes(), 0) < src.spec_bytes().len() && frontend::header_at(src.spec_bytes(), frontend::skip_spec(src.spec_bytes(), 0)) is None
                ==> r is Err,
            r matches Err(e) ==> e.path@ == path@ && e.line >= 1 && e.column >= 1,
            frontend::empty_definitions(src.spec_bytes(), 0) matches Some(n) && old(self).program().graph.view().len()
                + 2 * n <= 0xffff_ffff ==> r is Ok,
            frontend::first_body_stray(src.spec_bytes(), 0) matches Some(s) ==> (r matches Err(e)
                && frontend::stray_loop_control(src.spec_bytes(), s, e)),
            frontend::first_body_undefined(src.spec_bytes(), 0) matches Some(s) ==> (r matches Err(e)
                && frontend::undefined_variable(src.spec_bytes(), s, e)),
            frontend::first_body_bad_ident(src.spec_bytes(), 0) matches Some(s) ==> (r matches Err(e)
                && frontend::bad_identifier_statement(src.spec_bytes(), s, e)),
    {
        frontend::parse_into(&mut self.program, path, src)
    }
}

} // verus!
