//! Naming helpers for the generated C headers: the names of the splitter
//! functions a split type expects, and the derived names of an annotation's
//! replacement function and header file. The header files themselves are
//! assembled and written by the command-line tool around this library.

use vstd::prelude::*;

use crate::annotation::{Annotation, CDecl, CDeclView, SplitType, c_decl_text};
use crate::util;

verus! {

impl SplitType {
    /// The name of the splitter initialization function.
    pub fn splitter_init_func(&self) -> (r: String)
        requires
            self@.spec_name() is Some,
        ensures
            r@ == self@.spec_name()->Some_0 + "_new"@,
    {
        let mut r = match self.name() {
            Some(n) => String::from_str(n),
            None => {
                proof {
                    assert(false);
                }
                unreached()
            },
        };
        r.append("_new");
        r
    }

    /// The name of the struct passed to the initializer function.
    pub fn splitter_init_arg_struct(&self) -> (r: String)
        requires
            self@.spec_name() is Some,
        ensures
            r@ == "struct "@ + self@.spec_name()->Some_0 + "_init_args"@,
    {
        let mut r = String::from_str("struct ");
        match self.name() {
            Some(n) => {
                r.append(n);
            },
            None => {
                proof {
                    assert(false);
                }
            },
        }
        r.append("_init_args");
        r
    }

    /// The name of the splitter's next-value function.
    pub fn splitter_next_func(&self) -> (r: String)
        requires
            self@.spec_name() is Some,
        ensures
            r@ == self@.spec_name()->Some_0 + "_next"@,
    {
        let mut r = match self.name() {
            Some(n) => String::from_str(n),
            None => {
                proof {
                    assert(false);
                }
                unreached()
            },
        };
        r.append("_next");
        r
    }

    /// The name of the splitter's struct type in C.
    pub fn splitter_c_type(&self) -> (r: String)
        requires
            self@.spec_name() is Some,
        ensures
            r@ == "struct "@ + self@.spec_name()->Some_0,
    {
        let mut r = String::from_str("struct ");
        match self.name() {
            Some(n) => {
                r.append(n);
            },
            None => {
                proof {
                    assert(false);
                }
            },
        }
        r
    }
}

/// Builds the C header text for one annotation: the derived names and the
/// replacement-function header; the prefix defaults to `c_`.
pub struct AnnotationHeaderWriter {
    pub annotation: Annotation,
    pub prefix: String,
}

impl AnnotationHeaderWriter {
    /// Creates a writer for one annotation with the default prefix.
    pub fn new(annotation: Annotation) -> (r: AnnotationHeaderWriter)
        ensures
            r.annotation@ == annotation@,
            r.prefix@ == "c_"@,
    {
        AnnotationHeaderWriter { annotation, prefix: String::from_str("c_") }
    }

    /// The name of the header file for the annotated function.
    pub fn filename(&self) -> (r: String)
        ensures
            r@ == self.annotation@.function.func_name + "_composer"@,
    {
        let mut r = self.annotation.function.func_name.clone();
        r.append("_composer");
        r
    }

    /// The C header of the replacement function this writer exports: the
    /// annotated declaration with the prefix put before the function name.
    pub fn function_header(&self) -> (r: String)
        ensures
            r@ == c_decl_text(
                (CDeclView {
                    func_name: self.prefix@ + self.annotation@.function.func_name,
                    ..self.annotation@.function
                }),
            ),
    {
        let mut replacement = self.annotation.function.clone();
        let mut renamed = self.prefix.clone();
        renamed.append(replacement.func_name.as_str());
        replacement.func_name = renamed;
        replacement.display_string()
    }
}

} // verus!
