//! Runtime form of split-type annotations over C function declarations.
//!
//! An [`Annotation`] describes, for one C function, how each argument may be
//! partitioned across worker threads. Split types are tagged variants:
//! *broadcast* (copy the value to each worker), *generic* (unresolved
//! placeholder) or *named* (a user-defined splitter).

use vstd::prelude::*;

use crate::error::Error;
use crate::util;

verus! {

/// Mathematical content of a [`CDecl`].
pub ghost struct CDeclView {
    pub return_type: Seq<char>,
    pub func_name: Seq<char>,
    pub arguments: Seq<(Seq<char>, Option<Seq<char>>)>,
}

/// A C declaration: a return type, a function name, and a list of argument
/// types with optional argument names.
#[derive(Debug, PartialEq)]
pub struct CDecl {
    pub return_type: String,
    pub func_name: String,
    pub arguments: Vec<(String, Option<String>)>,
}

/// The view of one C argument: its type string and optional name.
pub open spec fn c_argument_view(p: (String, Option<String>)) -> (Seq<char>, Option<Seq<char>>) {
    (
        p.0@,
        match p.1 {
            Some(n) => Some(n@),
            None => None::<Seq<char>>,
        },
    )
}

impl View for CDecl {
    type V = CDeclView;

    open spec fn view(&self) -> CDeclView {
        CDeclView {
            return_type: self.return_type@,
            func_name: self.func_name@,
            arguments: self.arguments@.map_values(|p: (String, Option<String>)| c_argument_view(p)),
        }
    }
}

impl Clone for CDecl {
    fn clone(&self) -> (r: Self)
        ensures
            r@ == self@,
    {
        let mut arguments: Vec<(String, Option<String>)> = Vec::new();
        let mut i: usize = 0;
        while i < self.arguments.len()
            invariant
                i <= self.arguments@.len(),
                arguments@.len() == i,
                forall|j: int| 0 <= j < i ==> arguments@[j] == self.arguments@[j],
            decreases self.arguments@.len() - i,
        {
            let pair = &self.arguments[i];
            let name = match &pair.1 {
                Some(n) => Some(n.clone()),
                None => None,
            };
            arguments.push((pair.0.clone(), name));
            i = i + 1;
        }
        proof {
            assert(arguments@ =~= self.arguments@);
        }
        CDecl { return_type: self.return_type.clone(), func_name: self.func_name.clone(), arguments }
    }
}

/// The characters of the qualifier that [`CDecl::strip_type_qualifiers`] removes.
pub open spec fn const_qualifier() -> Seq<char> {
    seq!['c', 'o', 'n', 's', 't', ' ']
}

/// `t` with every occurrence of `"const "` removed, scanning left to right.
pub open spec fn strip_const_spec(t: Seq<char>) -> Seq<char>
    decreases t.len(),
{
    if t.len() >= 6 && t.take(6) == const_qualifier() {
        strip_const_spec(t.skip(6))
    } else if t.len() == 0 {
        t
    } else {
        seq![t[0]] + strip_const_spec(t.skip(1))
    }
}

/// The text of one argument as it appears in a C declaration.
pub open spec fn c_argument_text(a: (Seq<char>, Option<Seq<char>>)) -> Seq<char> {
    match a.1 {
        Some(n) => a.0 + seq![' '] + n,
        None => a.0,
    }
}

/// The text of a whole C declaration, as [`CDecl::display_string`] renders it.
pub open spec fn c_decl_text(d: CDeclView) -> Seq<char> {
    d.return_type + seq![' '] + d.func_name + seq!['('] + util::join_spec(
        Seq::empty(),
        seq![',', ' '],
        d.arguments.map_values(|a: (Seq<char>, Option<Seq<char>>)| c_argument_text(a)),
    ) + seq![')']
}

impl CDecl {
    /// Builds a declaration from its parts.
    pub fn new(
        return_type: &str,
        func_name: &str,
        arguments: Vec<(&str, Option<&str>)>,
    ) -> (r: CDecl)
        ensures
            r@ == (CDeclView {
                return_type: return_type@,
                func_name: func_name@,
                arguments: arguments@.map_values(
                    |p: (&str, Option<&str>)|
                        (
                            p.0@,
                            match p.1 {
                                Some(n) => Some(n@),
                                None => None::<Seq<char>>,
                            },
                        ),
                ),
            }),
    {
        let mut owned: Vec<(String, Option<String>)> = Vec::new();
        let mut i: usize = 0;
        while i < arguments.len()
            invariant
                i <= arguments@.len(),
                owned@.len() == i,
                forall|j: int|
                    0 <= j < i ==> c_argument_view(#[trigger] owned@[j]) == (
                        arguments@[j].0@,
                        match arguments@[j].1 {
                            Some(n) => Some(n@),
                            None => None::<Seq<char>>,
                        },
                    ),
            decreases arguments@.len() - i,
        {
            let pair = &arguments[i];
            let name = match pair.1 {
                Some(n) => Some(String::from_str(n)),
                None => None,
            };
            owned.push((String::from_str(pair.0), name));
            i = i + 1;
        }
        let r = CDecl {
            return_type: String::from_str(return_type),
            func_name: String::from_str(func_name),
            arguments: owned,
        };
        proof {
            assert(r@.arguments =~= arguments@.map_values(
                |p: (&str, Option<&str>)|
                    (
                        p.0@,
                        match p.1 {
                            Some(n) => Some(n@),
                            None => None::<Seq<char>>,
                        },
                    ),
            ));
        }
        r
    }

    /// Whether the function returns no value.
    pub fn is_void(&self) -> (r: bool)
        ensures
            r == (self@.return_type == "void"@),
    {
        util::str_eq(self.return_type.as_str(), "void")
    }

    /// Removes `const` qualifiers from a C type string.
    pub fn strip_type_qualifiers(s: &str) -> (r: String)
        ensures
            r@ == strip_const_spec(s@),
    {
        let n = s.unicode_len();
        let mut out = String::new();
        let mut i: usize = 0;
        proof {
            assert(s@.skip(0) =~= s@);
            assert(Seq::<char>::empty() + strip_const_spec(s@) =~= strip_const_spec(s@));
        }
        while i < n
            invariant
                i <= n,
                n == s@.len(),
                strip_const_spec(s@) == out@ + strip_const_spec(s@.skip(i as int)),
            decreases n - i,
        {
            let qualifier_here = n - i >= 6 && s.get_char(i) == 'c' && s.get_char(i + 1) == 'o'
                && s.get_char(i + 2) == 'n' && s.get_char(i + 3) == 's' && s.get_char(i + 4) == 't'
                && s.get_char(i + 5) == ' ';
            if qualifier_here {
                proof {
                    assert(s@.skip(i as int).take(6) =~= const_qualifier());
                    assert(s@.skip(i as int).skip(6) =~= s@.skip(i + 6));
                }
                i = i + 6;
            } else {
                proof {
                    if s@.skip(i as int).len() >= 6 && s@.skip(i as int).take(6)
                        == const_qualifier() {
                        assert(s@[i as int] == s@.skip(i as int).take(6)[0]);
                        assert(s@[i + 1] == s@.skip(i as int).take(6)[1]);
                        assert(s@[i + 2] == s@.skip(i as int).take(6)[2]);
                        assert(s@[i + 3] == s@.skip(i as int).take(6)[3]);
                        assert(s@[i + 4] == s@.skip(i as int).take(6)[4]);
                        assert(s@[i + 5] == s@.skip(i as int).take(6)[5]);
                        assert(false);
                    }
                    assert(s@.skip(i as int)[0] == s@[i as int]);
                    assert(s@.skip(i as int).skip(1) =~= s@.skip(i + 1));
                }
                let piece = s.substring_char(i, i + 1);
                out.append(piece);
                proof {
                    assert(piece@ =~= seq![s@[i as int]]);
                }
                i = i + 1;
            }
        }
        proof {
            assert(s@.skip(n as int) =~= Seq::<char>::empty());
            assert(out@ + strip_const_spec(s@.skip(n as int)) =~= out@);
        }
        out
    }

    /// Renders the declaration as C text: `return_type name(arg, ..)`.
    pub fn display_string(&self) -> (r: String)
        ensures
            r@ == c_decl_text(self@),
    {
        let ghost arg_texts = self@.arguments.map_values(
            |a: (Seq<char>, Option<Seq<char>>)| c_argument_text(a),
        );
        let mut parts: Vec<String> = Vec::new();
        let mut i: usize = 0;
        while i < self.arguments.len()
            invariant
                i <= self.arguments@.len(),
                arg_texts == self@.arguments.map_values(
                    |a: (Seq<char>, Option<Seq<char>>)| c_argument_text(a),
                ),
                parts@.len() == i,
                forall|j: int| 0 <= j < i ==> parts@[j]@ == arg_texts[j],
            decreases self.arguments@.len() - i,
        {
            let pair = &self.arguments[i];
            let mut text = pair.0.clone();
            match &pair.1 {
                Some(n) => {
                    text.append(" ");
                    text.append(n.as_str());
                    proof {
                        reveal_strlit(" ");
                        assert(" "@ =~= seq![' ']);
                    }
                },
                None => {},
            }
            proof {
                assert(arg_texts[i as int] == c_argument_text(self@.arguments[i as int]));
                assert(self@.arguments[i as int] == c_argument_view(self.arguments@[i as int]));
            }
            parts.push(text);
            i = i + 1;
        }
        proof {
            assert(parts@.map_values(|s: String| s@) =~= arg_texts);
        }
        let arguments = util::join(String::new(), ", ", &parts);
        let mut text = self.return_type.clone();
        text.append(" ");
        text.append(self.func_name.as_str());
        text.append("(");
        text.append(arguments.as_str());
        text.append(")");
        proof {
            reveal_strlit(" ");
            reveal_strlit("(");
            reveal_strlit(")");
            reveal_strlit(", ");
            assert(" "@ =~= seq![' ']);
            assert("("@ =~= seq!['(']);
            assert(")"@ =~= seq![')']);
            assert(", "@ =~= seq![',', ' ']);
        }
        text
    }
}

/// Split type information that is known only at runtime: function pointer
/// values and the byte size of the type the splitter splits. Pointers are
/// carried as plain integer tokens; the library never calls through them.
#[derive(Debug, Clone, Copy, PartialEq, Eq)]
pub struct SplitTypeRuntimeInfo {
    /// Token for the splitter's initializer function.
    pub initializer: usize,
    /// Token for the splitter's next-value function.
    pub next: usize,
    /// Size in bytes of the value that the splitter splits.
    pub data_size: usize,
}

/// Mathematical content of a [`SplitType`].
pub ghost enum SplitTypeView {
    Broadcast { runtime: Option<SplitTypeRuntimeInfo> },
    Generic { name: Seq<char> },
    Named { name: Seq<char>, arguments: usize, runtime: Option<SplitTypeRuntimeInfo> },
}

/// A split type: broadcast (copy the value to each worker), generic (can
/// take on any type; rejected at execute time), or named (a user splitter).
#[derive(Debug, PartialEq)]
pub enum SplitType {
    Broadcast { runtime: Option<SplitTypeRuntimeInfo> },
    Generic { name: String },
    Named { name: String, arguments: usize, runtime: Option<SplitTypeRuntimeInfo> },
}

impl View for SplitType {
    type V = SplitTypeView;

    open spec fn view(&self) -> SplitTypeView {
        match self {
            SplitType::Broadcast { runtime } => SplitTypeView::Broadcast { runtime: *runtime },
            SplitType::Generic { name } => SplitTypeView::Generic { name: name@ },
            SplitType::Named { name, arguments, runtime } => SplitTypeView::Named {
                name: name@,
                arguments: *arguments,
                runtime: *runtime,
            },
        }
    }
}

impl Clone for SplitType {
    fn clone(&self) -> (r: Self)
        ensures
            r@ == self@,
    {
        match self {
            SplitType::Broadcast { runtime } => SplitType::Broadcast { runtime: *runtime },
            SplitType::Generic { name } => SplitType::Generic { name: name.clone() },
            SplitType::Named { name, arguments, runtime } => SplitType::Named {
                name: name.clone(),
                arguments: *arguments,
                runtime: *runtime,
            },
        }
    }
}

impl SplitTypeView {
    /// The name of the split type, if it has one.
    pub open spec fn spec_name(self) -> Option<Seq<char>> {
        match self {
            SplitTypeView::Broadcast { .. } => None,
            SplitTypeView::Generic { name } => Some(name),
            SplitTypeView::Named { name, .. } => Some(name),
        }
    }

    /// The runtime slot of the split type; `None` for generic types.
    pub open spec fn spec_runtime(self) -> Option<SplitTypeRuntimeInfo> {
        match self {
            SplitTypeView::Broadcast { runtime } => runtime,
            SplitTypeView::Generic { .. } => None,
            SplitTypeView::Named { runtime, .. } => runtime,
        }
    }

    /// Whether the runtime slot is filled, so that `runtime_info` may be read.
    pub open spec fn has_runtime(self) -> bool {
        !(self is Generic) && self.spec_runtime() is Some
    }
}

impl SplitType {
    /// Returns the string name of this split type.
    pub fn name(&self) -> (r: Option<&str>)
        ensures
            match r {
                Some(n) => self@.spec_name() == Some(n@),
                None => self@.spec_name() is None,
            },
    {
        match self {
            SplitType::Broadcast { .. } => None,
            SplitType::Generic { name } => Some(name.as_str()),
            SplitType::Named { name, .. } => Some(name.as_str()),
        }
    }

    /// Whether this is a broadcast split type.
    pub fn is_broadcast(&self) -> (r: bool)
        ensures
            r == (self@ is Broadcast),
    {
        match self {
            SplitType::Broadcast { .. } => true,
            _ => false,
        }
    }

    /// Whether this is a named split type.
    pub fn is_named(&self) -> (r: bool)
        ensures
            r == (self@ is Named),
    {
        match self {
            SplitType::Named { .. } => true,
            _ => false,
        }
    }

    /// Returns the runtime information about the split type.
    ///
    /// The type must not be generic and the runtime slot must be filled;
    /// reading the slot of a generic type or an unfilled slot is an error.
    pub fn runtime_info(&self) -> (r: &SplitTypeRuntimeInfo)
        requires
            self@.has_runtime(),
        ensures
            Some(*r) == self@.spec_runtime(),
    {
        match self {
            SplitType::Broadcast { runtime: Some(rt) } => rt,
            SplitType::Named { runtime: Some(rt), .. } => rt,
            _ => {
                proof {
                    assert(false);
                }
                unreached()
            },
        }
    }
}

/// Mathematical content of a [`SplitTypeParameter`].
pub ghost struct SplitTypeParameterView {
    pub ty: SplitTypeView,
    pub arguments: Seq<usize>,
}

/// A parameter within an annotation: a split type and the indices of the
/// function arguments passed to the split type's initializer.
#[derive(Debug, PartialEq)]
pub struct SplitTypeParameter {
    pub ty: SplitType,
    pub arguments: Vec<usize>,
}

impl View for SplitTypeParameter {
    type V = SplitTypeParameterView;

    open spec fn view(&self) -> SplitTypeParameterView {
        SplitTypeParameterView { ty: self.ty@, arguments: self.arguments@ }
    }
}

impl Clone for SplitTypeParameter {
    fn clone(&self) -> (r: Self)
        ensures
            r@ == self@,
    {
        let mut arguments: Vec<usize> = Vec::new();
        let mut i: usize = 0;
        while i < self.arguments.len()
            invariant
                i <= self.arguments@.len(),
                arguments@ =~= self.arguments@.take(i as int),
            decreases self.arguments@.len() - i,
        {
            arguments.push(self.arguments[i]);
            i = i + 1;
        }
        proof {
            assert(self.arguments@.take(self.arguments@.len() as int) =~= self.arguments@);
        }
        SplitTypeParameter { ty: self.ty.clone(), arguments }
    }
}

/// Mathematical content of an [`Annotation`].
pub ghost struct AnnotationView {
    pub function: CDeclView,
    pub params: Seq<SplitTypeParameterView>,
    pub return_param: Option<SplitTypeParameterView>,
    pub defaults: Seq<(Seq<char>, SplitTypeView)>,
}

/// A self-contained annotation over a C function.
#[derive(Debug, PartialEq)]
pub struct Annotation {
    pub function: CDecl,
    pub params: Vec<SplitTypeParameter>,
    pub return_param: Option<SplitTypeParameter>,
    pub defaults: Vec<(String, SplitType)>,
}

impl View for Annotation {
    type V = AnnotationView;

    open spec fn view(&self) -> AnnotationView {
        AnnotationView {
            function: self.function@,
            params: self.params@.map_values(|p: SplitTypeParameter| p@),
            return_param: match self.return_param {
                Some(p) => Some(p@),
                None => None::<SplitTypeParameterView>,
            },
            defaults: self.defaults@.map_values(|d: (String, SplitType)| (d.0@, d.1@)),
        }
    }
}

impl Clone for Annotation {
    fn clone(&self) -> (r: Self)
        ensures
            r@ == self@,
    {
        let mut params: Vec<SplitTypeParameter> = Vec::new();
        let mut i: usize = 0;
        while i < self.params.len()
            invariant
                i <= self.params@.len(),
                params@.len() == i,
                forall|j: int| 0 <= j < i ==> #[trigger] params@[j]@ == self.params@[j]@,
            decreases self.params@.len() - i,
        {
            params.push(self.params[i].clone());
            i = i + 1;
        }
        proof {
            assert(params@.map_values(|p: SplitTypeParameter| p@) =~= self.params@.map_values(
                |p: SplitTypeParameter| p@,
            ));
        }
        let return_param = match &self.return_param {
            Some(p) => Some(p.clone()),
            None => None,
        };
        let mut defaults: Vec<(String, SplitType)> = Vec::new();
        let mut i: usize = 0;
        while i < self.defaults.len()
            invariant
                i <= self.defaults@.len(),
                defaults@.len() == i,
                forall|j: int|
                    0 <= j < i ==> #[trigger] defaults@[j].0@ == self.defaults@[j].0@
                        && defaults@[j].1@ == self.defaults@[j].1@,
            decreases self.defaults@.len() - i,
        {
            let pair = &self.defaults[i];
            defaults.push((pair.0.clone(), pair.1.clone()));
            i = i + 1;
        }
        proof {
            assert(defaults@.map_values(|d: (String, SplitType)| (d.0@, d.1@))
                =~= self.defaults@.map_values(|d: (String, SplitType)| (d.0@, d.1@)));
        }
        Annotation { function: self.function.clone(), params, return_param, defaults }
    }
}

/// `p` with its split type's runtime slot set to `rt`; generic split types
/// are left unchanged.
pub open spec fn set_runtime_spec(
    p: SplitTypeParameterView,
    rt: SplitTypeRuntimeInfo,
) -> SplitTypeParameterView {
    match p.ty {
        SplitTypeView::Broadcast { .. } => SplitTypeParameterView {
            ty: SplitTypeView::Broadcast { runtime: Some(rt) },
            arguments: p.arguments,
        },
        SplitTypeView::Generic { .. } => p,
        SplitTypeView::Named { name, arguments, .. } => SplitTypeParameterView {
            ty: SplitTypeView::Named { name, arguments, runtime: Some(rt) },
            arguments: p.arguments,
        },
    }
}

impl Annotation {
    /// Sets the runtime information for the parameter at `index`.
    ///
    /// Generic split types are silently left without runtime information,
    /// the attempt is ignored because a generic type has no runtime slot.
    pub fn set_type_runtime_info(&mut self, index: usize, rt: SplitTypeRuntimeInfo) -> (r: Result<
        (),
        Error,
    >)
        requires
            index < old(self).params@.len(),
        ensures
            r is Ok,
            final(self)@.params == old(self)@.params.update(
                index as int,
                set_runtime_spec(old(self)@.params[index as int], rt),
            ),
            final(self)@.function == old(self)@.function,
            final(self)@.return_param == old(self)@.return_param,
            final(self)@.defaults == old(self)@.defaults,
    {
        let param = self.params.remove(index);
        let updated = match param.ty {
            SplitType::Named { name, arguments, .. } => SplitTypeParameter {
                ty: SplitType::Named { name, arguments, runtime: Some(rt) },
                arguments: param.arguments,
            },
            SplitType::Broadcast { .. } => SplitTypeParameter {
                ty: SplitType::Broadcast { runtime: Some(rt) },
                arguments: param.arguments,
            },
            SplitType::Generic { name } => SplitTypeParameter {
                ty: SplitType::Generic { name },
                arguments: param.arguments,
            },
        };
        let ghost updated_view = updated@;
        self.params.insert(index, updated);
        proof {
            assert(self.params@.map_values(|p: SplitTypeParameter| p@) =~= old(
                self,
            ).params@.map_values(|p: SplitTypeParameter| p@).update(
                index as int,
                updated_view,
            ));
            assert(updated_view == set_runtime_spec(old(self)@.params[index as int], rt));
        }
        Ok(())
    }
}

} // verus!
