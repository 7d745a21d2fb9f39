//! Parsing for annotation files: the token level shared by the annotation
//! grammar and the C-declaration grammar, and the conversion from the
//! parsed string form into structured [`Annotation`]s.

use vstd::prelude::*;

use crate::annotation::{
    Annotation, AnnotationView, CDecl, SplitType, SplitTypeParameter, SplitTypeParameterView,
    SplitTypeView,
};
use crate::error::Error;
use crate::util;

pub mod annotation;
pub mod cdecl;

verus! {

/// The whitespace characters the grammar skips between tokens.
pub open spec fn is_space(c: char) -> bool {
    c == ' ' || c == '\t' || c == '\r' || c == '\n'
}

/// Identifier characters: ASCII letters, digits and underscore.
pub open spec fn is_ident_char(c: char) -> bool {
    (97 <= c as u32 && c as u32 <= 122) || (65 <= c as u32 && c as u32 <= 90) || (48 <= c as u32
        && c as u32 <= 57) || c as u32 == 95
}

/// The position of the first non-whitespace character at or after `i`.
pub open spec fn skip_ws_spec(s: Seq<char>, i: int) -> int
    decreases s.len() - i,
    when 0 <= i
{
    if i < s.len() && is_space(s[i]) {
        skip_ws_spec(s, i + 1)
    } else {
        i
    }
}

/// The end of the identifier-character run starting at `i`.
pub open spec fn scan_ident_spec(s: Seq<char>, i: int) -> int
    decreases s.len() - i,
    when 0 <= i
{
    if i < s.len() && is_ident_char(s[i]) {
        scan_ident_spec(s, i + 1)
    } else {
        i
    }
}

/// An identifier at `i`: the maximal non-empty identifier-character run.
pub open spec fn ident_spec(s: Seq<char>, i: int) -> Option<(Seq<char>, int)> {
    let end = scan_ident_spec(s, i);
    if end > i {
        Some((s.subrange(i, end), end))
    } else {
        None
    }
}

/// Whether `c` is a whitespace character.
pub fn is_space_char(c: char) -> (r: bool)
    ensures
        r == is_space(c),
{
    c == ' ' || c == '\t' || c == '\r' || c == '\n'
}

/// Whether `c` is an identifier character.
pub fn is_ident_char_exec(c: char) -> (r: bool)
    ensures
        r == is_ident_char(c),
{
    let v = c as u32;
    (97 <= v && v <= 122) || (65 <= v && v <= 90) || (48 <= v && v <= 57) || v == 95
}

/// Skips whitespace from `i`.
pub fn skip_ws(s: &str, i: usize, n: usize) -> (r: usize)
    requires
        i <= n,
        n == s@.len(),
    ensures
        r == skip_ws_spec(s@, i as int),
        i <= r <= n,
{
    let mut cur = i;
    while cur < n && is_space_char(s.get_char(cur))
        invariant
            i <= cur <= n,
            n == s@.len(),
            skip_ws_spec(s@, i as int) == skip_ws_spec(s@, cur as int),
        decreases n - cur,
    {
        cur = cur + 1;
    }
    cur
}

/// Parses an identifier at `i`, skipping no whitespace itself.
pub fn ident(s: &str, i: usize, n: usize) -> (r: Option<(String, usize)>)
    requires
        i <= n,
        n == s@.len(),
    ensures
        match r {
            Some(p) => ident_spec(s@, i as int) == Some((p.0@, p.1 as int)) && i < p.1 <= n,
            None => ident_spec(s@, i as int) is None,
        },
{
    let mut cur = i;
    while cur < n && is_ident_char_exec(s.get_char(cur))
        invariant
            i <= cur <= n,
            n == s@.len(),
            scan_ident_spec(s@, i as int) == scan_ident_spec(s@, cur as int),
        decreases n - cur,
    {
        cur = cur + 1;
    }
    if cur > i {
        let piece = s.substring_char(i, cur);
        Some((String::from_str(piece), cur))
    } else {
        None
    }
}

/// The structured split type of a parsed one: a named split type records
/// only its argument count, and runtime slots start empty.
pub open spec fn split_type_from_parsed(
    p: annotation::ParsedSplitTypeView,
) -> SplitTypeView {
    match p {
        annotation::ParsedSplitTypeView::Broadcast => SplitTypeView::Broadcast { runtime: None },
        annotation::ParsedSplitTypeView::Generic { name } => SplitTypeView::Generic { name },
        annotation::ParsedSplitTypeView::Named { name, arguments } => SplitTypeView::Named {
            name,
            arguments: arguments.len() as usize,
            runtime: None,
        },
    }
}

/// The index of the first name equal to `arg`.
pub open spec fn position_of(names: Seq<Seq<char>>, arg: Seq<char>) -> Option<int>
    decreases names.len(),
{
    if names.len() == 0 {
        None
    } else if names[0] == arg {
        Some(0)
    } else {
        match position_of(names.skip(1), arg) {
            Some(i) => Some(i + 1),
            None => None,
        }
    }
}

/// The positions of all of `args` among `names`, or nothing if one is absent.
pub open spec fn positions_of(names: Seq<Seq<char>>, args: Seq<Seq<char>>) -> Option<Seq<usize>>
    decreases args.len(),
{
    if args.len() == 0 {
        Some(Seq::empty())
    } else {
        match position_of(names, args[0]) {
            None => None,
            Some(p) => match positions_of(names, args.skip(1)) {
                Some(rest) => Some(seq![p as usize] + rest),
                None => None,
            },
        }
    }
}

/// The argument positions a split type asks for: `Some(None)` for split
/// types without arguments of their own, `Some(Some(positions))` for a named
/// split type whose arguments all resolve, and `None` when one does not.
pub open spec fn args_positions_spec(
    names: Seq<Seq<char>>,
    ty: annotation::ParsedSplitTypeView,
) -> Option<Option<Seq<usize>>> {
    match ty {
        annotation::ParsedSplitTypeView::Named { arguments, .. } => match positions_of(
            names,
            arguments,
        ) {
            Some(ps) => Some(Some(ps)),
            None => None,
        },
        _ => Some(None::<Seq<usize>>),
    }
}

/// The name of the first split-type argument that resolves to no parameter.
pub open spec fn first_unresolved(names: Seq<Seq<char>>, args: Seq<Seq<char>>) -> Seq<char>
    decreases args.len(),
{
    if args.len() == 0 {
        Seq::empty()
    } else if position_of(names, args[0]) is None {
        args[0]
    } else {
        first_unresolved(names, args.skip(1))
    }
}

/// The message reported when a split-type argument names no parameter.
pub open spec fn unresolved_message(
    names: Seq<Seq<char>>,
    ty: annotation::ParsedSplitTypeView,
) -> Seq<char> {
    "Parameter "@ + first_unresolved(
        names,
        match ty {
            annotation::ParsedSplitTypeView::Named { arguments, .. } => arguments,
            _ => Seq::empty(),
        },
    ) + " not found."@
}

/// Converts the argument names of a split type to positions in the
/// parameter name list. Parameters with duplicate names point to the same
/// (first) position. An argument name that is not a parameter is an error.
pub fn args_to_positions(names: &Vec<String>, ty: &annotation::ParsedSplitType) -> (r: Result<
    Option<Vec<usize>>,
    Error,
>)
    ensures
        match r {
            Ok(opt) => args_positions_spec(
                names@.map_values(|m: String| m@),
                ty@,
            ) == Some(
                match opt {
                    Some(ps) => Some(ps@),
                    None => None::<Seq<usize>>,
                },
            ),
            Err(e) => args_positions_spec(names@.map_values(|m: String| m@), ty@) is None
                && e@ == unresolved_message(names@.map_values(|m: String| m@), ty@),
        },
{
    let ghost name_views = names@.map_values(|m: String| m@);
    let named = match ty {
        annotation::ParsedSplitType::Named(named) => named,
        _ => {
            return Ok(None);
        },
    };
    let ghost args = named.arguments@.map_values(|a: String| a@);
    proof {
        assert(ty@ == (annotation::ParsedSplitTypeView::Named { name: named.name@, arguments: args }));
    }
    let mut positions: Vec<usize> = Vec::new();
    let mut k: usize = 0;
    proof {
        assert(args == named.arguments@.map_values(|a: String| a@));
        assert(args.skip(0) =~= args);
        assert(Seq::<usize>::empty() + positions_of(name_views, args)->Some_0 =~= positions_of(
            name_views,
            args,
        )->Some_0);
        assert(first_unresolved(name_views, args) == first_unresolved(name_views, args.skip(0)));
    }
    while k < named.arguments.len()
        invariant
            k <= args.len(),
            args == named.arguments@.map_values(|a: String| a@),
            ty@ == (annotation::ParsedSplitTypeView::Named {
                name: named.name@,
                arguments: args,
            }),
            name_views == names@.map_values(|m: String| m@),
            match positions_of(name_views, args.skip(k as int)) {
                None => positions_of(name_views, args) is None,
                Some(rest) => positions_of(name_views, args) == Some(positions@ + rest),
            },
            first_unresolved(name_views, args) == first_unresolved(
                name_views,
                args.skip(k as int),
            ),
        decreases args.len() - k,
    {
        let arg = &named.arguments[k];
        let mut j: usize = 0;
        let mut found: Option<usize> = None;
        while j < names.len() && found.is_none()
            invariant
                j <= names@.len(),
                name_views == names@.map_values(|m: String| m@),
                arg@ == args[k as int],
                0 <= k < args.len(),
                match found {
                    None => forall|x: int| 0 <= x < j ==> (#[trigger] name_views[x]) != arg@,
                    Some(p) => p < name_views.len() && position_of(name_views, args[k as int])
                        == Some(p as int),
                },
            decreases names@.len() - j + if found is Some {
                0int
            } else {
                1int
            },
        {
            if util::str_eq(names[j].as_str(), arg.as_str()) {
                proof {
                    lemma_position_of_first(name_views, arg@, j as int);
                }
                found = Some(j);
            } else {
                j = j + 1;
            }
        }
        match found {
            Some(p) => {
                positions.push(p);
                proof {
                    assert(args.skip(k as int)[0] == args[k as int]);
                    assert(args.skip(k as int).skip(1) =~= args.skip(k + 1));
                    match positions_of(name_views, args.skip(k + 1)) {
                        None => {},
                        Some(rest) => {
                            assert(positions@.drop_last() + (seq![p as usize] + rest)
                                =~= positions@ + rest);
                        },
                    }
                }
            },
            None => {
                proof {
                    lemma_position_of_none(name_views, arg@);
                    assert(args.skip(k as int)[0] == args[k as int]);
                    assert(positions_of(name_views, args.skip(k as int)) is None);
                    assert(positions_of(name_views, args) is None);
                    assert(ty@ == (annotation::ParsedSplitTypeView::Named {
                        name: named.name@,
                        arguments: args,
                    }));
                    assert(args_positions_spec(name_views, ty@) is None);
                }
                proof {
                    assert(first_unresolved(name_views, args.skip(k as int)) == args[k as int]);
                    assert(first_unresolved(name_views, args) == arg@);
                }
                let mut message = String::from_str("Parameter ");
                message.append(arg.as_str());
                message.append(" not found.");
                return Err(Error::new(message));
            },
        }
        k = k + 1;
    }
    proof {
        assert(args.skip(k as int) =~= Seq::<Seq<char>>::empty());
        assert(positions@ + Seq::<usize>::empty() =~= positions@);
    }
    Ok(Some(positions))
}

/// If name `j` is the first equal to `arg`, its position is `j`.
proof fn lemma_position_of_first(names: Seq<Seq<char>>, arg: Seq<char>, j: int)
    requires
        0 <= j < names.len(),
        names[j] == arg,
        forall|x: int| 0 <= x < j ==> (#[trigger] names[x]) != arg,
    ensures
        position_of(names, arg) == Some(j),
    decreases j,
{
    if j > 0 {
        assert(forall|x: int|
            0 <= x < names.skip(1).len() ==> #[trigger] names.skip(1)[x] == names[x + 1]);
        lemma_position_of_first(names.skip(1), arg, j - 1);
    }
}

/// If no name equals `arg`, it has no position.
proof fn lemma_position_of_none(names: Seq<Seq<char>>, arg: Seq<char>)
    requires
        forall|x: int| 0 <= x < names.len() ==> (#[trigger] names[x]) != arg,
    ensures
        position_of(names, arg) is None,
    decreases names.len(),
{
    if names.len() > 0 {
        assert(forall|x: int|
            0 <= x < names.skip(1).len() ==> #[trigger] names.skip(1)[x] == names[x + 1]);
        lemma_position_of_none(names.skip(1), arg);
    }
}

impl From<annotation::ParsedSplitType> for SplitType {
    fn from(parsed: annotation::ParsedSplitType) -> (r: SplitType)
        ensures
            r@ == split_type_from_parsed(parsed@),
    {
        match parsed {
            annotation::ParsedSplitType::Broadcast => SplitType::Broadcast { runtime: None },
            annotation::ParsedSplitType::Generic(name) => SplitType::Generic { name },
            annotation::ParsedSplitType::Named(named) => SplitType::Named {
                name: named.name,
                arguments: named.arguments.len(),
                runtime: None,
            },
        }
    }
}

impl vstd::std_specs::convert::FromSpecImpl<annotation::ParsedSplitType> for SplitType {
    open spec fn obeys_from_spec() -> bool {
        false
    }

    open spec fn from_spec(parsed: annotation::ParsedSplitType) -> SplitType {
        SplitType::Broadcast { runtime: None }
    }
}

/// The characters of the C `void` type.
pub open spec fn void_chars() -> Seq<char> {
    seq!['v', 'o', 'i', 'd']
}

/// No two adjacent parameter names are equal: the uniqueness check the
/// conversion applies (it compares neighbours only).
pub open spec fn adjacent_names_unique(params: Seq<annotation::ParsedParameterView>) -> bool {
    forall|i: int|
        0 <= i < params.len() - 1 ==> (#[trigger] params[i]).name != params[i + 1].name
}

/// The structured parameters of a parsed annotation: each split type
/// converted, with its argument names resolved to positions; nothing if one
/// does not resolve.
pub open spec fn from_parsed_params(
    names: Seq<Seq<char>>,
    params: Seq<annotation::ParsedParameterView>,
) -> Option<Seq<SplitTypeParameterView>>
    decreases params.len(),
{
    if params.len() == 0 {
        Some(Seq::empty())
    } else {
        match args_positions_spec(names, params[0].ty) {
            None => None,
            Some(opt) => match from_parsed_params(names, params.skip(1)) {
                None => None,
                Some(rest) => Some(
                    seq![
                        SplitTypeParameterView {
                            ty: split_type_from_parsed(params[0].ty),
                            arguments: (match opt {
                                Some(ps) => ps,
                                None => Seq::empty(),
                            }),
                        }
                    ] + rest,
                ),
            },
        }
    }
}

/// The split type of the first parameter whose arguments do not resolve.
pub open spec fn first_failing_parameter(
    names: Seq<Seq<char>>,
    params: Seq<annotation::ParsedParameterView>,
) -> annotation::ParsedSplitTypeView
    decreases params.len(),
{
    if params.len() == 0 {
        annotation::ParsedSplitTypeView::Broadcast
    } else if args_positions_spec(names, params[0].ty) is None {
        params[0].ty
    } else {
        first_failing_parameter(names, params.skip(1))
    }
}

/// The description of the first failure the conversion reports, in the order
/// the checks are made.
pub open spec fn from_parsed_error(
    pa: annotation::ParsedAnnotationView,
    decl: crate::annotation::CDeclView,
) -> Seq<char> {
    if pa.parameters.len() != decl.arguments.len() {
        "Number of annotation types must equal number of args in declaration."@
    } else if pa.return_type is None && decl.return_type != void_chars() {
        "Annotation over function with non-void return type must have return type in annotation."@
    } else if pa.return_type is Some && decl.return_type == void_chars() {
        "Annotation over function with void return type cannot have return type in annotation."@
    } else if !adjacent_names_unique(pa.parameters) {
        "Parameter names in annotation must be unique."@
    } else {
        let names = pa.parameters.map_values(|p: annotation::ParsedParameterView| p.name);
        if from_parsed_params(names, pa.parameters) is None {
            unresolved_message(names, first_failing_parameter(names, pa.parameters))
        } else {
            match pa.return_type {
                Some(rt) => unresolved_message(names, rt),
                None => Seq::empty(),
            }
        }
    }
}

/// The structured annotation of a parsed annotation and one C declaration:
/// the parameter counts must agree, the annotation must have a return split
/// type exactly when the function is not void, no two adjacent parameter
/// names may be equal, and every split-type argument must name a parameter.
pub open spec fn from_parsed_spec(
    pa: annotation::ParsedAnnotationView,
    decl: crate::annotation::CDeclView,
) -> Option<AnnotationView> {
    if pa.parameters.len() != decl.arguments.len() {
        None
    } else if pa.return_type is None && decl.return_type != void_chars() {
        None
    } else if pa.return_type is Some && decl.return_type == void_chars() {
        None
    } else if !adjacent_names_unique(pa.parameters) {
        None
    } else {
        let names = pa.parameters.map_values(|p: annotation::ParsedParameterView| p.name);
        match from_parsed_params(names, pa.parameters) {
            None => None,
            Some(params) => match pa.return_type {
                Some(rt) => match args_positions_spec(names, rt) {
                    None => None,
                    Some(opt) => Some(
                        AnnotationView {
                            function: decl,
                            params,
                            return_param: Some(
                                SplitTypeParameterView {
                                    ty: split_type_from_parsed(rt),
                                    arguments: (match opt {
                                        Some(ps) => ps,
                                        None => Seq::empty(),
                                    }),
                                },
                            ),
                            defaults: Seq::empty(),
                        },
                    ),
                },
                None => Some(
                    AnnotationView {
                        function: decl,
                        params,
                        return_param: None,
                        defaults: Seq::empty(),
                    },
                ),
            },
        }
    }
}

impl Annotation {
    /// Converts a parsed annotation and a single C declaration into a
    /// structured annotation.
    #[verifier::rlimit(60)]
    pub fn from_parsed(
        parsed: annotation::ParsedAnnotation,
        decl: CDecl,
    ) -> (r: Result<Annotation, Error>)
        ensures
            match r {
                Ok(a) => from_parsed_spec(parsed@, decl@) == Some(a@),
                Err(e) => from_parsed_spec(parsed@, decl@) is None && e@ == from_parsed_error(
                    parsed@,
                    decl@,
                ),
            },
    {
        let ghost pa = parsed@;
        if parsed.parameters.len() != decl.arguments.len() {
            return Err(
                Error::new(
                    String::from_str(
                        "Number of annotation types must equal number of args in declaration.",
                    ),
                ),
            );
        }
        let is_void = decl.is_void();
        proof {
            reveal_strlit("void");
            assert("void"@ =~= void_chars());
        }
        if parsed.return_type.is_none() && !is_void {
            return Err(
                Error::new(
                    String::from_str(
                        "Annotation over function with non-void return type must have return type in annotation.",
                    ),
                ),
            );
        }
        if parsed.return_type.is_some() && is_void {
            return Err(
                Error::new(
                    String::from_str(
                        "Annotation over function with void return type cannot have return type in annotation.",
                    ),
                ),
            );
        }

        // neighbouring parameter names must differ
        let mut i: usize = 1;
        while i < parsed.parameters.len()
            invariant
                1 <= i,
                pa == parsed@,
                pa.parameters.len() == decl@.arguments.len(),
                !(pa.return_type is None && decl@.return_type != void_chars()),
                !(pa.return_type is Some && decl@.return_type == void_chars()),
                forall|x: int|
                    0 <= x < i - 1 && x < pa.parameters.len() - 1 ==> (
                    #[trigger] pa.parameters[x]).name != pa.parameters[x + 1].name,
            decreases parsed.parameters@.len() - i,
        {
            if util::str_eq(
                parsed.parameters[i - 1].name.as_str(),
                parsed.parameters[i].name.as_str(),
            ) {
                proof {
                    let x = i - 1;
                    assert(pa.parameters[x as int] == parsed.parameters@[x as int]@);
                    assert(pa.parameters[x + 1] == parsed.parameters@[x as int + 1]@);
                    assert((#[trigger] pa.parameters[x as int]).name == pa.parameters[x as int
                        + 1].name);
                    assert(!adjacent_names_unique(pa.parameters));
                }
                return Err(
                    Error::new(
                        String::from_str("Parameter names in annotation must be unique."),
                    ),
                );
            }
            i = i + 1;
        }
        proof {
            assert(adjacent_names_unique(pa.parameters));
        }

        // the parameter names, for resolving split-type arguments
        let ghost name_views = pa.parameters.map_values(
            |p: annotation::ParsedParameterView| p.name,
        );
        let mut names: Vec<String> = Vec::new();
        let mut i: usize = 0;
        while i < parsed.parameters.len()
            invariant
                i <= parsed.parameters@.len(),
                pa == parsed@,
                name_views == pa.parameters.map_values(
                    |p: annotation::ParsedParameterView| p.name,
                ),
                names@.len() == i,
                forall|x: int| 0 <= x < i ==> (#[trigger] names@[x])@ == name_views[x],
            decreases parsed.parameters@.len() - i,
        {
            names.push(parsed.parameters[i].name.clone());
            i = i + 1;
        }
        proof {
            assert(names@.map_values(|m: String| m@) =~= name_views);
        }

        // convert each parameter
        let mut params: Vec<SplitTypeParameter> = Vec::new();
        let mut i: usize = 0;
        proof {
            assert(pa.parameters.skip(0) =~= pa.parameters);
        }
        while i < parsed.parameters.len()
            invariant
                i <= parsed.parameters@.len(),
                pa == parsed@,
                pa.parameters.len() == decl@.arguments.len(),
                !(pa.return_type is None && decl@.return_type != void_chars()),
                !(pa.return_type is Some && decl@.return_type == void_chars()),
                adjacent_names_unique(pa.parameters),
                name_views == pa.parameters.map_values(
                    |p: annotation::ParsedParameterView| p.name,
                ),
                names@.map_values(|m: String| m@) == name_views,
                match from_parsed_params(name_views, pa.parameters.skip(i as int)) {
                    None => from_parsed_params(name_views, pa.parameters) is None,
                    Some(rest) => from_parsed_params(name_views, pa.parameters) == Some(
                        params@.map_values(|p: SplitTypeParameter| p@) + rest,
                    ),
                },
                first_failing_parameter(name_views, pa.parameters) == first_failing_parameter(
                    name_views,
                    pa.parameters.skip(i as int),
                ),
            decreases parsed.parameters@.len() - i,
        {
            let parameter = &parsed.parameters[i];
            proof {
                assert(pa.parameters.skip(i as int)[0] == pa.parameters[i as int]);
                assert(pa.parameters.skip(i as int).skip(1) =~= pa.parameters.skip(i + 1));
                assert(parameter@ == pa.parameters[i as int]);
            }
            let positions = match args_to_positions(&names, &parameter.ty) {
                Ok(p) => p,
                Err(e) => {
                    return Err(e);
                },
            };
            let arguments = match positions {
                Some(ps) => ps,
                None => Vec::new(),
            };
            let ghost before = params@.map_values(|p: SplitTypeParameter| p@);
            params.push(
                SplitTypeParameter { ty: SplitType::from(parameter.ty.clone()), arguments },
            );
            proof {
                assert(params@.map_values(|p: SplitTypeParameter| p@) =~= before.push(
                    (SplitTypeParameterView {
                        ty: split_type_from_parsed(pa.parameters[i as int].ty),
                        arguments: (match args_positions_spec(
                            name_views,
                            pa.parameters[i as int].ty,
                        )->Some_0 {
                            Some(ps) => ps,
                            None => Seq::empty(),
                        }),
                    }),
                ));
                match from_parsed_params(name_views, pa.parameters.skip(i + 1)) {
                    None => {},
                    Some(rest) => {
                        assert(before + (seq![
                            SplitTypeParameterView {
                                ty: split_type_from_parsed(pa.parameters[i as int].ty),
                                arguments: (match args_positions_spec(
                                    name_views,
                                    pa.parameters[i as int].ty,
                                )->Some_0 {
                                    Some(ps) => ps,
                                    None => Seq::empty(),
                                }),
                            }
                        ] + rest) =~= params@.map_values(|p: SplitTypeParameter| p@) + rest);
                    },
                }
            }
            i = i + 1;
        }
        proof {
            assert(pa.parameters.skip(parsed.parameters@.len() as int)
                =~= Seq::<annotation::ParsedParameterView>::empty());
            assert(params@.map_values(|p: SplitTypeParameter| p@) + Seq::<
                SplitTypeParameterView,
            >::empty() =~= params@.map_values(|p: SplitTypeParameter| p@));
        }

        // convert the return split type, if there is one
        let return_param = match &parsed.return_type {
            Some(rt) => {
                let positions = match args_to_positions(&names, rt) {
                    Ok(p) => p,
                    Err(e) => {
                        return Err(e);
                    },
                };
                let arguments = match positions {
                    Some(ps) => ps,
                    None => Vec::new(),
                };
                Some(SplitTypeParameter { ty: SplitType::from(rt.clone()), arguments })
            },
            None => None,
        };
        let result = Annotation { function: decl, params, return_param, defaults: Vec::new() };
        proof {
            assert(result@.defaults =~= Seq::<(Seq<char>, SplitTypeView)>::empty());
            assert(from_parsed_spec(pa, result.function@) == Some(result@));
        }
        Ok(result)
    }
}

/// One or more C declarations: the first must parse; the rest are taken
/// until one fails.
pub open spec fn parse_decls_spec(s: Seq<char>, i: int, fuel: nat) -> Option<
    (Seq<crate::annotation::CDeclView>, int),
>
    decreases fuel,
{
    if fuel == 0 {
        None
    } else {
        match cdecl::parse_c_decl_spec(s, i, fuel) {
            None => None,
            Some((d, i2)) => match parse_decls_more_spec(s, i2, (fuel - 1) as nat) {
                Some((rest, i3)) => Some((seq![d] + rest, i3)),
                None => None,
            },
        }
    }
}

/// The continuation of a declaration list.
pub open spec fn parse_decls_more_spec(s: Seq<char>, i: int, fuel: nat) -> Option<
    (Seq<crate::annotation::CDeclView>, int),
>
    decreases fuel,
{
    if fuel == 0 {
        None
    } else {
        match cdecl::parse_c_decl_spec(s, i, fuel) {
            None => Some((Seq::empty(), i)),
            Some((d, i2)) => match parse_decls_more_spec(s, i2, (fuel - 1) as nat) {
                Some((rest, i3)) => Some((seq![d] + rest, i3)),
                None => None,
            },
        }
    }
}

/// One annotation unit: an annotation followed by declarations in braces.
pub open spec fn parse_unit_spec(s: Seq<char>, i: int, fuel: nat) -> Option<
    ((annotation::ParsedAnnotationView, Seq<crate::annotation::CDeclView>), int),
> {
    match annotation::parse_annotation_spec(s, i, fuel) {
        None => None,
        Some((ann, i2)) => {
            let i3 = skip_ws_spec(s, i2);
            if i3 < s.len() && s[i3] == '{' {
                match parse_decls_spec(s, i3 + 1, fuel) {
                    None => None,
                    Some((decls, i4)) => {
                        let i5 = skip_ws_spec(s, i4);
                        if i5 < s.len() && s[i5] == '}' {
                            Some(((ann, decls), i5 + 1))
                        } else {
                            None
                        }
                    },
                }
            } else {
                None
            }
        },
    }
}

/// One or more annotation units.
pub open spec fn parse_units_spec(s: Seq<char>, i: int, fuel: nat) -> Option<
    (Seq<(annotation::ParsedAnnotationView, Seq<crate::annotation::CDeclView>)>, int),
>
    decreases fuel,
{
    if fuel == 0 {
        None
    } else {
        match parse_unit_spec(s, i, fuel) {
            None => None,
            Some((unit, i2)) => match parse_units_more_spec(s, i2, (fuel - 1) as nat) {
                Some((rest, i3)) => Some((seq![unit] + rest, i3)),
                None => None,
            },
        }
    }
}

/// The continuation of a unit list.
pub open spec fn parse_units_more_spec(s: Seq<char>, i: int, fuel: nat) -> Option<
    (Seq<(annotation::ParsedAnnotationView, Seq<crate::annotation::CDeclView>)>, int),
>
    decreases fuel,
{
    if fuel == 0 {
        None
    } else {
        match parse_unit_spec(s, i, fuel) {
            None => Some((Seq::empty(), i)),
            Some((unit, i2)) => match parse_units_more_spec(s, i2, (fuel - 1) as nat) {
                Some((rest, i3)) => Some((seq![unit] + rest, i3)),
                None => None,
            },
        }
    }
}

/// The annotations of one unit: the parsed annotation converted against
/// each of its declarations, in order.
pub open spec fn unit_annotations(
    ann: annotation::ParsedAnnotationView,
    decls: Seq<crate::annotation::CDeclView>,
) -> Option<Seq<AnnotationView>>
    decreases decls.len(),
{
    if decls.len() == 0 {
        Some(Seq::empty())
    } else {
        match from_parsed_spec(ann, decls[0]) {
            None => None,
            Some(a) => match unit_annotations(ann, decls.skip(1)) {
                Some(rest) => Some(seq![a] + rest),
                None => None,
            },
        }
    }
}

/// The annotations of a unit list, flattened in order.
pub open spec fn units_annotations(
    units: Seq<(annotation::ParsedAnnotationView, Seq<crate::annotation::CDeclView>)>,
) -> Option<Seq<AnnotationView>>
    decreases units.len(),
{
    if units.len() == 0 {
        Some(Seq::empty())
    } else {
        match unit_annotations(units[0].0, units[0].1) {
            None => None,
            Some(first) => match units_annotations(units.skip(1)) {
                Some(rest) => Some(first + rest),
                None => None,
            },
        }
    }
}

/// Parses one or more C declarations.
fn parse_decls(s: &str, i: usize, n: usize, fuel: usize) -> (r: Option<(Vec<CDecl>, usize)>)
    requires
        i <= n,
        n == s@.len(),
    ensures
        match r {
            Some(p) => parse_decls_spec(s@, i as int, fuel as nat) == Some(
                (p.0@.map_values(|d: CDecl| d@), p.1 as int),
            ) && p.1 <= n,
            None => parse_decls_spec(s@, i as int, fuel as nat) is None,
        },
    decreases fuel,
{
    if fuel == 0 {
        return None;
    }
    match cdecl::parse_c_decl_at(s, i, n, fuel) {
        None => None,
        Some((decl, i2)) => {
            match parse_decls_more(s, i2, n, fuel - 1) {
                Some((rest, i3)) => {
                    let ghost decl_view = decl@;
                    let ghost rest_views = rest@.map_values(|d: CDecl| d@);
                    let mut items: Vec<CDecl> = Vec::new();
                    items.push(decl);
                    let mut k: usize = 0;
                    while k < rest.len()
                        invariant
                            k <= rest@.len(),
                            rest_views == rest@.map_values(|d: CDecl| d@),
                            items@.len() == k + 1,
                            forall|y: int| 0 <= y < k ==> (#[trigger] items@[y + 1])@
                                == rest_views[y],
                            items@[0]@ == decl_view,
                        decreases rest@.len() - k,
                    {
                        items.push(rest[k].clone());
                        k = k + 1;
                    }
                    proof {
                        assert forall|y: int|
                            0 <= y < items@.len() implies (#[trigger] items@[y])@ == (seq![
                            decl_view
                        ] + rest_views)[y] by {
                            if y >= 1 {
                                let yy = y - 1;
                                assert(items@[yy + 1]@ == rest_views[yy]);
                            }
                        }
                        assert(items@.map_values(|d: CDecl| d@) =~= seq![decl_view] + rest_views);
                    }
                    Some((items, i3))
                },
                None => None,
            }
        },
    }
}

/// Parses the continuation of a declaration list.
fn parse_decls_more(s: &str, i: usize, n: usize, fuel: usize) -> (r: Option<(Vec<CDecl>, usize)>)
    requires
        i <= n,
        n == s@.len(),
    ensures
        match r {
            Some(p) => parse_decls_more_spec(s@, i as int, fuel as nat) == Some(
                (p.0@.map_values(|d: CDecl| d@), p.1 as int),
            ) && p.1 <= n,
            None => parse_decls_more_spec(s@, i as int, fuel as nat) is None,
        },
    decreases fuel,
{
    if fuel == 0 {
        return None;
    }
    match cdecl::parse_c_decl_at(s, i, n, fuel) {
        None => {
            let empty: Vec<CDecl> = Vec::new();
            proof {
                assert(empty@.map_values(|d: CDecl| d@)
                    =~= Seq::<crate::annotation::CDeclView>::empty());
            }
            Some((empty, i))
        },
        Some((decl, i2)) => {
            match parse_decls_more(s, i2, n, fuel - 1) {
                Some((rest, i3)) => {
                    let ghost decl_view = decl@;
                    let ghost rest_views = rest@.map_values(|d: CDecl| d@);
                    let mut items: Vec<CDecl> = Vec::new();
                    items.push(decl);
                    let mut k: usize = 0;
                    while k < rest.len()
                        invariant
                            k <= rest@.len(),
                            rest_views == rest@.map_values(|d: CDecl| d@),
                            items@.len() == k + 1,
                            forall|y: int| 0 <= y < k ==> (#[trigger] items@[y + 1])@
                                == rest_views[y],
                            items@[0]@ == decl_view,
                        decreases rest@.len() - k,
                    {
                        items.push(rest[k].clone());
                        k = k + 1;
                    }
                    proof {
                        assert forall|y: int|
                            0 <= y < items@.len() implies (#[trigger] items@[y])@ == (seq![
                            decl_view
                        ] + rest_views)[y] by {
                            if y >= 1 {
                                let yy = y - 1;
                                assert(items@[yy + 1]@ == rest_views[yy]);
                            }
                        }
                        assert(items@.map_values(|d: CDecl| d@) =~= seq![decl_view] + rest_views);
                    }
                    Some((items, i3))
                },
                None => None,
            }
        },
    }
}

/// Parses one annotation unit.
fn parse_unit(s: &str, i: usize, n: usize, fuel: usize) -> (r: Option<
    ((annotation::ParsedAnnotation, Vec<CDecl>), usize),
>)
    requires
        i <= n,
        n == s@.len(),
    ensures
        match r {
            Some(p) => parse_unit_spec(s@, i as int, fuel as nat) == Some(
                ((p.0.0@, p.0.1@.map_values(|d: CDecl| d@)), p.1 as int),
            ) && p.1 <= n,
            None => parse_unit_spec(s@, i as int, fuel as nat) is None,
        },
{
    let (ann, i2) = match annotation::parse_annotation_at(s, i, n, fuel) {
        Some(p) => p,
        None => {
            return None;
        },
    };
    let i3 = skip_ws(s, i2, n);
    if !(i3 < n && s.get_char(i3) == '{') {
        return None;
    }
    let (decls, i4) = match parse_decls(s, i3 + 1, n, fuel) {
        Some(p) => p,
        None => {
            return None;
        },
    };
    let i5 = skip_ws(s, i4, n);
    if !(i5 < n && s.get_char(i5) == '}') {
        return None;
    }
    Some(((ann, decls), i5 + 1))
}

/// The description of the first conversion failure among one unit's
/// declarations.
pub open spec fn unit_error(
    ann: annotation::ParsedAnnotationView,
    decls: Seq<crate::annotation::CDeclView>,
) -> Seq<char>
    decreases decls.len(),
{
    if decls.len() == 0 {
        Seq::empty()
    } else if from_parsed_spec(ann, decls[0]) is None {
        from_parsed_error(ann, decls[0])
    } else {
        unit_error(ann, decls.skip(1))
    }
}

/// The description of the first conversion failure among the units.
pub open spec fn units_error(
    units: Seq<(annotation::ParsedAnnotationView, Seq<crate::annotation::CDeclView>)>,
) -> Seq<char>
    decreases units.len(),
{
    if units.len() == 0 {
        Seq::empty()
    } else if unit_annotations(units[0].0, units[0].1) is None {
        unit_error(units[0].0, units[0].1)
    } else {
        units_error(units.skip(1))
    }
}

/// Collects the annotation units of a file from position 0.
fn collect_units(s: &str, n: usize, fuel: usize) -> (r: Option<
    Vec<(annotation::ParsedAnnotation, Vec<CDecl>)>,
>)
    requires
        n == s@.len(),
    ensures
        match r {
            Some(us) => parse_units_spec(s@, 0, fuel as nat) is Some && parse_units_spec(
                s@,
                0,
                fuel as nat,
            )->Some_0.0 == us@.map_values(
                |u: (annotation::ParsedAnnotation, Vec<CDecl>)|
                    (u.0@, u.1@.map_values(|d: CDecl| d@)),
            ),
            None => parse_units_spec(s@, 0, fuel as nat) is None,
        },
{
    if fuel == 0 {
        return None;
    }
    let (unit, i2) = match parse_unit(s, 0, n, fuel) {
        Some(p) => p,
        None => {
            return None;
        },
    };
    let (mut rest, _) = match collect_more_units(s, i2, n, fuel - 1) {
        Some(p) => p,
        None => {
            return None;
        },
    };
    let ghost unit_view = (unit.0@, unit.1@.map_values(|d: CDecl| d@));
    let ghost rest_views = rest@.map_values(
        |u: (annotation::ParsedAnnotation, Vec<CDecl>)| (u.0@, u.1@.map_values(|d: CDecl| d@)),
    );
    let mut items: Vec<(annotation::ParsedAnnotation, Vec<CDecl>)> = Vec::new();
    items.push(unit);
    items.append(&mut rest);
    proof {
        assert(items@.map_values(
            |u: (annotation::ParsedAnnotation, Vec<CDecl>)|
                (u.0@, u.1@.map_values(|d: CDecl| d@)),
        ) =~= seq![unit_view] + rest_views);
    }
    Some(items)
}

/// Collects the remaining annotation units from `i`.
fn collect_more_units(s: &str, i: usize, n: usize, fuel: usize) -> (r: Option<
    (Vec<(annotation::ParsedAnnotation, Vec<CDecl>)>, usize),
>)
    requires
        i <= n,
        n == s@.len(),
    ensures
        match r {
            Some(p) => parse_units_more_spec(s@, i as int, fuel as nat) == Some(
                (
                    p.0@.map_values(
                        |u: (annotation::ParsedAnnotation, Vec<CDecl>)|
                            (u.0@, u.1@.map_values(|d: CDecl| d@)),
                    ),
                    p.1 as int,
                ),
            ),
            None => parse_units_more_spec(s@, i as int, fuel as nat) is None,
        },
    decreases fuel,
{
    if fuel == 0 {
        return None;
    }
    match parse_unit(s, i, n, fuel) {
        None => {
            let empty: Vec<(annotation::ParsedAnnotation, Vec<CDecl>)> = Vec::new();
            proof {
                assert(empty@.map_values(
                    |u: (annotation::ParsedAnnotation, Vec<CDecl>)|
                        (u.0@, u.1@.map_values(|d: CDecl| d@)),
                ) =~= Seq::<
                    (annotation::ParsedAnnotationView, Seq<crate::annotation::CDeclView>),
                >::empty());
            }
            Some((empty, i))
        },
        Some((unit, i2)) => {
            let (mut rest, i3) = match collect_more_units(s, i2, n, fuel - 1) {
                Some(p) => p,
                None => {
                    return None;
                },
            };
            let ghost unit_view = (unit.0@, unit.1@.map_values(|d: CDecl| d@));
            let ghost rest_views = rest@.map_values(
                |u: (annotation::ParsedAnnotation, Vec<CDecl>)|
                    (u.0@, u.1@.map_values(|d: CDecl| d@)),
            );
            let mut items: Vec<(annotation::ParsedAnnotation, Vec<CDecl>)> = Vec::new();
            items.push(unit);
            items.append(&mut rest);
            proof {
                assert(items@.map_values(
                    |u: (annotation::ParsedAnnotation, Vec<CDecl>)|
                        (u.0@, u.1@.map_values(|d: CDecl| d@)),
                ) =~= seq![unit_view] + rest_views);
            }
            Some((items, i3))
        },
    }
}

/// Converts one unit's declarations from index `d` on.
fn convert_decls(
    ann: &annotation::ParsedAnnotation,
    decls: &Vec<CDecl>,
    d: usize,
) -> (r: Result<Vec<Annotation>, Error>)
    requires
        d <= decls@.len(),
    ensures
        match r {
            Ok(v) => unit_annotations(
                ann@,
                decls@.map_values(|x: CDecl| x@).skip(d as int),
            ) == Some(v@.map_values(|a: Annotation| a@)),
            Err(e) => unit_annotations(
                ann@,
                decls@.map_values(|x: CDecl| x@).skip(d as int),
            ) is None && e@ == unit_error(ann@, decls@.map_values(|x: CDecl| x@).skip(d as int)),
        },
    decreases decls@.len() - d,
{
    let ghost decl_views = decls@.map_values(|x: CDecl| x@);
    if d >= decls.len() {
        let empty: Vec<Annotation> = Vec::new();
        proof {
            assert(decl_views.skip(d as int) =~= Seq::<crate::annotation::CDeclView>::empty());
            assert(empty@.map_values(|a: Annotation| a@) =~= Seq::<AnnotationView>::empty());
        }
        return Ok(empty);
    }
    proof {
        assert(decl_views.skip(d as int)[0] == decl_views[d as int]);
        assert(decl_views.skip(d as int).skip(1) =~= decl_views.skip(d + 1));
        assert(decls@[d as int]@ == decl_views[d as int]);
    }
    let first = match Annotation::from_parsed(ann.clone(), decls[d].clone()) {
        Ok(a) => a,
        Err(e) => {
            return Err(e);
        },
    };
    let mut rest = match convert_decls(ann, decls, d + 1) {
        Ok(v) => v,
        Err(e) => {
            return Err(e);
        },
    };
    let ghost first_view = first@;
    let ghost rest_views = rest@.map_values(|a: Annotation| a@);
    let mut items: Vec<Annotation> = Vec::new();
    items.push(first);
    items.append(&mut rest);
    proof {
        assert(items@.map_values(|a: Annotation| a@) =~= seq![first_view] + rest_views);
    }
    Ok(items)
}

/// Converts the units from index `u` on, flattening in order.
fn convert_units(
    units: &Vec<(annotation::ParsedAnnotation, Vec<CDecl>)>,
    u: usize,
) -> (r: Result<Vec<Annotation>, Error>)
    requires
        u <= units@.len(),
    ensures
        match r {
            Ok(v) => units_annotations(
                units@.map_values(
                    |x: (annotation::ParsedAnnotation, Vec<CDecl>)|
                        (x.0@, x.1@.map_values(|y: CDecl| y@)),
                ).skip(u as int),
            ) == Some(v@.map_values(|a: Annotation| a@)),
            Err(e) => units_annotations(
                units@.map_values(
                    |x: (annotation::ParsedAnnotation, Vec<CDecl>)|
                        (x.0@, x.1@.map_values(|y: CDecl| y@)),
                ).skip(u as int),
            ) is None && e@ == units_error(
                units@.map_values(
                    |x: (annotation::ParsedAnnotation, Vec<CDecl>)|
                        (x.0@, x.1@.map_values(|y: CDecl| y@)),
                ).skip(u as int),
            ),
        },
    decreases units@.len() - u,
{
    let ghost unit_views = units@.map_values(
        |x: (annotation::ParsedAnnotation, Vec<CDecl>)|
            (x.0@, x.1@.map_values(|y: CDecl| y@)),
    );
    if u >= units.len() {
        let empty: Vec<Annotation> = Vec::new();
        proof {
            assert(unit_views.skip(u as int) =~= Seq::<
                (annotation::ParsedAnnotationView, Seq<crate::annotation::CDeclView>),
            >::empty());
            assert(empty@.map_values(|a: Annotation| a@) =~= Seq::<AnnotationView>::empty());
        }
        return Ok(empty);
    }
    proof {
        assert(unit_views.skip(u as int)[0] == unit_views[u as int]);
        assert(unit_views.skip(u as int).skip(1) =~= unit_views.skip(u + 1));
        assert(unit_views[u as int] == (units@[u as int].0@, units@[u as int].1@.map_values(
            |y: CDecl| y@,
        )));
    }
    let unit = &units[u];
    let mut first = match convert_decls(&unit.0, &unit.1, 0) {
        Ok(v) => v,
        Err(e) => {
            proof {
                assert(unit.1@.map_values(|x: CDecl| x@).skip(0) =~= unit.1@.map_values(
                    |x: CDecl| x@,
                ));
            }
            return Err(e);
        },
    };
    proof {
        assert(unit.1@.map_values(|x: CDecl| x@).skip(0) =~= unit.1@.map_values(|x: CDecl| x@));
    }
    let mut rest = match convert_units(units, u + 1) {
        Ok(v) => v,
        Err(e) => {
            return Err(e);
        },
    };
    let ghost first_views = first@.map_values(|a: Annotation| a@);
    let ghost rest_views = rest@.map_values(|a: Annotation| a@);
    first.append(&mut rest);
    proof {
        assert(first@.map_values(|a: Annotation| a@) =~= first_views + rest_views);
    }
    Ok(first)
}

/// Parses an annotation file into one or more annotations: each annotation
/// in the file is converted against each C declaration in its braces, in
/// order.
pub fn parse(s: &str) -> (r: Result<Vec<Annotation>, Error>)
    requires
        s@.len() < usize::MAX,
    ensures
        match r {
            Ok(annotations) => ({
                &&& parse_units_spec(s@, 0, (s@.len() + 1) as nat) is Some
                &&& units_annotations(
                    parse_units_spec(s@, 0, (s@.len() + 1) as nat)->Some_0.0,
                ) == Some(annotations@.map_values(|a: Annotation| a@))
            }),
            Err(e) => ({
                ||| (parse_units_spec(s@, 0, (s@.len() + 1) as nat) is None && e@
                    == "Parse error"@)
                ||| (parse_units_spec(s@, 0, (s@.len() + 1) as nat) is Some
                    && units_annotations(
                    parse_units_spec(s@, 0, (s@.len() + 1) as nat)->Some_0.0,
                ) is None && e@ == units_error(
                    parse_units_spec(s@, 0, (s@.len() + 1) as nat)->Some_0.0,
                ))
            }),
        },
{
    let n = s.unicode_len();
    let units = match collect_units(s, n, n + 1) {
        Some(us) => us,
        None => {
            return Err(Error::new(String::from_str("Parse error")));
        },
    };
    let ghost unit_views = units@.map_values(
        |x: (annotation::ParsedAnnotation, Vec<CDecl>)|
            (x.0@, x.1@.map_values(|y: CDecl| y@)),
    );
    proof {
        assert(unit_views.skip(0) =~= unit_views);
    }
    convert_units(&units, 0)
}

/// Whether the literal `lit` occurs in `s` at position `i`.
pub open spec fn tag_at_spec(s: Seq<char>, i: int, lit: Seq<char>) -> bool {
    0 <= i && i + lit.len() <= s.len() && s.subrange(i, i + lit.len()) == lit
}

/// Checks whether `lit` occurs in `s` at position `i`.
pub fn tag_at(s: &str, i: usize, n: usize, lit: &str) -> (r: bool)
    requires
        i <= n,
        n == s@.len(),
    ensures
        r == tag_at_spec(s@, i as int, lit@),
{
    let m = lit.unicode_len();
    if m > n - i {
        proof {
            assert(!tag_at_spec(s@, i as int, lit@));
        }
        return false;
    }
    let mut k: usize = 0;
    while k < m
        invariant
            k <= m,
            i + m <= n,
            n == s@.len(),
            m == lit@.len(),
            forall|j: int| 0 <= j < k ==> s@[i + j] == lit@[j],
        decreases m - k,
    {
        if s.get_char(i + k) != lit.get_char(k) {
            proof {
                assert(s@.subrange(i as int, i + lit@.len())[k as int] == s@[i + k]);
                assert(!tag_at_spec(s@, i as int, lit@));
            }
            return false;
        }
        k = k + 1;
    }
    proof {
        assert(s@.subrange(i as int, i + lit@.len()) =~= lit@);
    }
    true
}

} // verus!
