//! The splitability-annotation grammar: split types, annotated parameters,
//! and whole `@sa` annotations, parsed by recursive descent over characters.

use vstd::prelude::*;

use crate::parser::{ident, ident_spec, skip_ws, skip_ws_spec, tag_at, tag_at_spec};

verus! {

/// Mathematical content of a [`ParsedSplitType`].
pub ghost enum ParsedSplitTypeView {
    Broadcast,
    Generic { name: Seq<char> },
    Named { name: Seq<char>, arguments: Seq<Seq<char>> },
}

/// A parsed named split type: its name and the argument names with which it
/// is instantiated.
#[derive(Debug, PartialEq, Eq)]
pub struct ParsedNamedSplitType {
    /// The split type name.
    pub name: String,
    /// The arguments passed to instantiate the split type.
    pub arguments: Vec<String>,
}

/// A parsed split type from an annotation.
#[derive(Debug, PartialEq, Eq)]
pub enum ParsedSplitType {
    Broadcast,
    Generic(String),
    Named(ParsedNamedSplitType),
}

impl View for ParsedSplitType {
    type V = ParsedSplitTypeView;

    open spec fn view(&self) -> ParsedSplitTypeView {
        match self {
            ParsedSplitType::Broadcast => ParsedSplitTypeView::Broadcast,
            ParsedSplitType::Generic(name) => ParsedSplitTypeView::Generic { name: name@ },
            ParsedSplitType::Named(named) => ParsedSplitTypeView::Named {
                name: named.name@,
                arguments: named.arguments@.map_values(|a: String| a@),
            },
        }
    }
}

impl Clone for ParsedSplitType {
    fn clone(&self) -> (r: Self)
        ensures
            r@ == self@,
    {
        match self {
            ParsedSplitType::Broadcast => ParsedSplitType::Broadcast,
            ParsedSplitType::Generic(name) => ParsedSplitType::Generic(name.clone()),
            ParsedSplitType::Named(named) => {
                let mut arguments: Vec<String> = Vec::new();
                let mut i: usize = 0;
                while i < named.arguments.len()
                    invariant
                        i <= named.arguments@.len(),
                        arguments@.len() == i,
                        forall|j: int| 0 <= j < i ==> arguments@[j] == named.arguments@[j],
                    decreases named.arguments@.len() - i,
                {
                    arguments.push(named.arguments[i].clone());
                    i = i + 1;
                }
                proof {
                    assert(arguments@ =~= named.arguments@);
                }
                ParsedSplitType::Named(
                    ParsedNamedSplitType { name: named.name.clone(), arguments },
                )
            },
        }
    }
}

impl ParsedSplitType {
    /// Returns a new named split type with the given name and arguments.
    pub fn new_named(name: &str, arguments: Vec<&str>) -> (r: ParsedSplitType)
        ensures
            r@ == (ParsedSplitTypeView::Named {
                name: name@,
                arguments: arguments@.map_values(|a: &str| a@),
            }),
    {
        let mut owned: Vec<String> = Vec::new();
        let mut i: usize = 0;
        while i < arguments.len()
            invariant
                i <= arguments@.len(),
                owned@.len() == i,
                forall|j: int| 0 <= j < i ==> (#[trigger] owned@[j])@ == arguments@[j]@,
            decreases arguments@.len() - i,
        {
            owned.push(String::from_str(arguments[i]));
            i = i + 1;
        }
        let r = ParsedSplitType::Named(
            ParsedNamedSplitType { name: String::from_str(name), arguments: owned },
        );
        proof {
            assert(owned@.map_values(|a: String| a@) =~= arguments@.map_values(|a: &str| a@));
        }
        r
    }
}

/// Mathematical content of a [`ParsedParameter`].
pub ghost struct ParsedParameterView {
    pub name: Seq<char>,
    pub ty: ParsedSplitTypeView,
}

/// A parsed parameter from an annotation: a name and its split type.
#[derive(Debug, PartialEq, Eq)]
pub struct ParsedParameter {
    /// The parameter name.
    pub name: String,
    /// The parameter type.
    pub ty: ParsedSplitType,
}

impl View for ParsedParameter {
    type V = ParsedParameterView;

    open spec fn view(&self) -> ParsedParameterView {
        ParsedParameterView { name: self.name@, ty: self.ty@ }
    }
}

impl Clone for ParsedParameter {
    fn clone(&self) -> (r: Self)
        ensures
            r@ == self@,
    {
        ParsedParameter { name: self.name.clone(), ty: self.ty.clone() }
    }
}

impl ParsedParameter {
    /// Builds a parameter from its name and type.
    pub fn new(name: &str, ty: ParsedSplitType) -> (r: ParsedParameter)
        ensures
            r@ == (ParsedParameterView { name: name@, ty: ty@ }),
    {
        ParsedParameter { name: String::from_str(name), ty }
    }
}

/// Mathematical content of a [`ParsedAnnotation`].
pub ghost struct ParsedAnnotationView {
    pub parameters: Seq<ParsedParameterView>,
    pub return_type: Option<ParsedSplitTypeView>,
    pub defaults: Seq<ParsedParameterView>,
}

/// A parsed annotation: its parameters, its optional return split type, and
/// the default values for generics.
#[derive(Debug, PartialEq, Eq)]
pub struct ParsedAnnotation {
    /// Parameters in the annotation.
    pub parameters: Vec<ParsedParameter>,
    /// Return type defined in the annotation. This must be provided if the
    /// C function return type is not `void`.
    pub return_type: Option<ParsedSplitType>,
    /// The default values for generics in the annotation.
    pub defaults: Vec<ParsedParameter>,
}

impl View for ParsedAnnotation {
    type V = ParsedAnnotationView;

    open spec fn view(&self) -> ParsedAnnotationView {
        ParsedAnnotationView {
            parameters: self.parameters@.map_values(|p: ParsedParameter| p@),
            return_type: match self.return_type {
                Some(t) => Some(t@),
                None => None::<ParsedSplitTypeView>,
            },
            defaults: self.defaults@.map_values(|p: ParsedParameter| p@),
        }
    }
}

impl Clone for ParsedAnnotation {
    fn clone(&self) -> (r: Self)
        ensures
            r@ == self@,
    {
        let mut parameters: Vec<ParsedParameter> = Vec::new();
        let mut i: usize = 0;
        while i < self.parameters.len()
            invariant
                i <= self.parameters@.len(),
                parameters@.len() == i,
                forall|j: int|
                    0 <= j < i ==> (#[trigger] parameters@[j])@ == self.parameters@[j]@,
            decreases self.parameters@.len() - i,
        {
            parameters.push(self.parameters[i].clone());
            i = i + 1;
        }
        let return_type = match &self.return_type {
            Some(t) => Some(t.clone()),
            None => None,
        };
        let mut defaults: Vec<ParsedParameter> = Vec::new();
        let mut i: usize = 0;
        while i < self.defaults.len()
            invariant
                i <= self.defaults@.len(),
                defaults@.len() == i,
                forall|j: int| 0 <= j < i ==> (#[trigger] defaults@[j])@ == self.defaults@[j]@,
            decreases self.defaults@.len() - i,
        {
            defaults.push(self.defaults[i].clone());
            i = i + 1;
        }
        proof {
            assert(parameters@.map_values(|p: ParsedParameter| p@) =~= self.parameters@.map_values(
                |p: ParsedParameter| p@,
            ));
            assert(defaults@.map_values(|p: ParsedParameter| p@) =~= self.defaults@.map_values(
                |p: ParsedParameter| p@,
            ));
        }
        ParsedAnnotation { parameters, return_type, defaults }
    }
}

/// The characters of the `broadcast` keyword.
pub open spec fn broadcast_tag() -> Seq<char> {
    seq!['b', 'r', 'o', 'a', 'd', 'c', 'a', 's', 't']
}

/// A comma-separated identifier list, possibly empty, with whitespace
/// allowed around every token. A separator not followed by an identifier
/// ends the list before the separator.
pub open spec fn parse_ident_list_spec(s: Seq<char>, i: int, fuel: nat) -> Option<
    (Seq<Seq<char>>, int),
>
    decreases fuel,
{
    if fuel == 0 {
        None
    } else {
        let i1 = skip_ws_spec(s, i);
        match ident_spec(s, i1) {
            None => Some((Seq::empty(), i)),
            Some((name, i2)) => match parse_ident_list_more_spec(s, i2, (fuel - 1) as nat) {
                Some((rest, i3)) => Some((seq![name] + rest, i3)),
                None => None,
            },
        }
    }
}

/// The continuation of an identifier list after one element.
pub open spec fn parse_ident_list_more_spec(s: Seq<char>, i: int, fuel: nat) -> Option<
    (Seq<Seq<char>>, int),
>
    decreases fuel,
{
    if fuel == 0 {
        None
    } else {
        let j = skip_ws_spec(s, i);
        if j < s.len() && s[j] == ',' {
            let k = skip_ws_spec(s, j + 1);
            match ident_spec(s, k) {
                None => Some((Seq::empty(), i)),
                Some((name, i2)) => match parse_ident_list_more_spec(s, i2, (fuel - 1) as nat) {
                    Some((rest, i3)) => Some((seq![name] + rest, i3)),
                    None => None,
                },
            }
        } else {
            Some((Seq::empty(), i))
        }
    }
}

/// A split type at `i`: a named split type `Name(args)` if one is there,
/// else the `broadcast` keyword, else a bare identifier as a generic.
pub open spec fn parse_split_type_spec(s: Seq<char>, i: int, fuel: nat) -> Option<
    (ParsedSplitTypeView, int),
> {
    let i1 = skip_ws_spec(s, i);
    let named = parse_named_split_type_spec(s, i, fuel);
    if named is Some {
        named
    } else if tag_at_spec(s, i1, broadcast_tag()) {
        Some((ParsedSplitTypeView::Broadcast, i1 + broadcast_tag().len()))
    } else {
        match ident_spec(s, i1) {
            Some((name, i2)) => Some((ParsedSplitTypeView::Generic { name }, i2)),
            None => None,
        }
    }
}

/// A named split type `Name ( a, b )` at `i`, or nothing.
pub open spec fn parse_named_split_type_spec(s: Seq<char>, i: int, fuel: nat) -> Option<
    (ParsedSplitTypeView, int),
> {
    let i1 = skip_ws_spec(s, i);
    match ident_spec(s, i1) {
        None => None,
        Some((name, i2)) => {
            let i3 = skip_ws_spec(s, i2);
            if i3 < s.len() && s[i3] == '(' {
                match parse_ident_list_spec(s, i3 + 1, fuel) {
                    Some((args, i4)) => {
                        let i5 = skip_ws_spec(s, i4);
                        if i5 < s.len() && s[i5] == ')' {
                            Some((ParsedSplitTypeView::Named { name, arguments: args }, i5 + 1))
                        } else {
                            None
                        }
                    },
                    None => None,
                }
            } else {
                None
            }
        },
    }
}

/// An annotated parameter `name: split_type` at `i`.
pub open spec fn parse_parameter_spec(s: Seq<char>, i: int, fuel: nat) -> Option<
    (ParsedParameterView, int),
> {
    let i1 = skip_ws_spec(s, i);
    match ident_spec(s, i1) {
        None => None,
        Some((name, i2)) => {
            let i3 = skip_ws_spec(s, i2);
            if i3 < s.len() && s[i3] == ':' {
                match parse_split_type_spec(s, i3 + 1, fuel) {
                    Some((ty, i4)) => Some((ParsedParameterView { name, ty }, i4)),
                    None => None,
                }
            } else {
                None
            }
        },
    }
}

/// Parses a comma-separated identifier list.
fn parse_ident_list(s: &str, i: usize, n: usize, fuel: usize) -> (r: Option<(Vec<String>, usize)>)
    requires
        i <= n,
        n == s@.len(),
    ensures
        match r {
            Some(p) => parse_ident_list_spec(s@, i as int, fuel as nat) == Some(
                (p.0@.map_values(|a: String| a@), p.1 as int),
            ) && p.1 <= n,
            None => parse_ident_list_spec(s@, i as int, fuel as nat) is None,
        },
    decreases fuel,
{
    if fuel == 0 {
        return None;
    }
    let i1 = skip_ws(s, i, n);
    match ident(s, i1, n) {
        None => {
            let empty: Vec<String> = Vec::new();
            proof {
                assert(empty@.map_values(|a: String| a@) =~= Seq::<Seq<char>>::empty());
            }
            Some((empty, i))
        },
        Some((name, i2)) => {
            match parse_ident_list_more(s, i2, n, fuel - 1) {
                Some((rest, i3)) => {
                    let mut items: Vec<String> = Vec::new();
                    items.push(name);
                    let mut k: usize = 0;
                    let ghost rest_views = rest@.map_values(|a: String| a@);
                    while k < rest.len()
                        invariant
                            k <= rest@.len(),
                            rest_views == rest@.map_values(|a: String| a@),
                            items@.len() == k + 1,
                            forall|j: int| 0 <= j < k ==> items@[j + 1]@ == rest_views[j],
                            items@[0]@ == ident_spec(s@, skip_ws_spec(s@, i as int))->Some_0.0,
                        decreases rest@.len() - k,
                    {
                        items.push(rest[k].clone());
                        k = k + 1;
                    }
                    proof {
                        assert(items@.map_values(|a: String| a@) =~= seq![
                            ident_spec(s@, skip_ws_spec(s@, i as int))->Some_0.0
                        ] + rest_views);
                    }
                    Some((items, i3))
                },
                None => None,
            }
        },
    }
}

/// Parses the continuation of an identifier list.
fn parse_ident_list_more(s: &str, i: usize, n: usize, fuel: usize) -> (r: Option<
    (Vec<String>, usize),
>)
    requires
        i <= n,
        n == s@.len(),
    ensures
        match r {
            Some(p) => parse_ident_list_more_spec(s@, i as int, fuel as nat) == Some(
                (p.0@.map_values(|a: String| a@), p.1 as int),
            ) && p.1 <= n,
            None => parse_ident_list_more_spec(s@, i as int, fuel as nat) is None,
        },
    decreases fuel,
{
    if fuel == 0 {
        return None;
    }
    let j = skip_ws(s, i, n);
    if j < n && s.get_char(j) == ',' {
        let k = skip_ws(s, j + 1, n);
        match ident(s, k, n) {
            None => {
                let empty: Vec<String> = Vec::new();
                proof {
                    assert(empty@.map_values(|a: String| a@) =~= Seq::<Seq<char>>::empty());
                }
                Some((empty, i))
            },
            Some((name, i2)) => {
                match parse_ident_list_more(s, i2, n, fuel - 1) {
                    Some((rest, i3)) => {
                        let mut items: Vec<String> = Vec::new();
                        items.push(name);
                        let mut x: usize = 0;
                        let ghost rest_views = rest@.map_values(|a: String| a@);
                        while x < rest.len()
                            invariant
                                x <= rest@.len(),
                                rest_views == rest@.map_values(|a: String| a@),
                                items@.len() == x + 1,
                                forall|y: int| 0 <= y < x ==> items@[y + 1]@ == rest_views[y],
                                items@[0]@ == ident_spec(
                                    s@,
                                    skip_ws_spec(s@, skip_ws_spec(s@, i as int) + 1),
                                )->Some_0.0,
                            decreases rest@.len() - x,
                        {
                            items.push(rest[x].clone());
                            x = x + 1;
                        }
                        proof {
                            assert(items@.map_values(|a: String| a@) =~= seq![
                                ident_spec(
                                    s@,
                                    skip_ws_spec(s@, skip_ws_spec(s@, i as int) + 1),
                                )->Some_0.0
                            ] + rest_views);
                        }
                        Some((items, i3))
                    },
                    None => None,
                }
            },
        }
    } else {
        let empty: Vec<String> = Vec::new();
        proof {
            assert(empty@.map_values(|a: String| a@) =~= Seq::<Seq<char>>::empty());
        }
        Some((empty, i))
    }
}

/// Parses a named split type at `i`.
fn parse_named_split_type(s: &str, i: usize, n: usize, fuel: usize) -> (r: Option<
    (ParsedSplitType, usize),
>)
    requires
        i <= n,
        n == s@.len(),
    ensures
        match r {
            Some(p) => parse_named_split_type_spec(s@, i as int, fuel as nat) == Some(
                (p.0@, p.1 as int),
            ) && p.1 <= n,
            None => parse_named_split_type_spec(s@, i as int, fuel as nat) is None,
        },
{
    let i1 = skip_ws(s, i, n);
    match ident(s, i1, n) {
        None => None,
        Some((name, i2)) => {
            let i3 = skip_ws(s, i2, n);
            if i3 < n && s.get_char(i3) == '(' {
                match parse_ident_list(s, i3 + 1, n, fuel) {
                    Some((args, i4)) => {
                        let i5 = skip_ws(s, i4, n);
                        if i5 < n && s.get_char(i5) == ')' {
                            let r = ParsedSplitType::Named(
                                ParsedNamedSplitType { name, arguments: args },
                            );
                            Some((r, i5 + 1))
                        } else {
                            None
                        }
                    },
                    None => None,
                }
            } else {
                None
            }
        },
    }
}

/// Parses a single split type at `i`: named, `broadcast`, or generic.
pub fn parse_split_type_at(s: &str, i: usize, n: usize, fuel: usize) -> (r: Option<
    (ParsedSplitType, usize),
>)
    requires
        i <= n,
        n == s@.len(),
    ensures
        match r {
            Some(p) => parse_split_type_spec(s@, i as int, fuel as nat) == Some(
                (p.0@, p.1 as int),
            ) && p.1 <= n,
            None => parse_split_type_spec(s@, i as int, fuel as nat) is None,
        },
{
    match parse_named_split_type(s, i, n, fuel) {
        Some(p) => Some(p),
        None => {
            let i1 = skip_ws(s, i, n);
            if tag_at(s, i1, n, "broadcast") {
                proof {
                    reveal_strlit("broadcast");
                    assert("broadcast"@ =~= broadcast_tag());
                }
                Some((ParsedSplitType::Broadcast, i1 + 9))
            } else {
                proof {
                    reveal_strlit("broadcast");
                    assert("broadcast"@ =~= broadcast_tag());
                }
                match ident(s, i1, n) {
                    Some((name, i2)) => Some((ParsedSplitType::Generic(name), i2)),
                    None => None,
                }
            }
        },
    }
}

/// Parses a split type from the start of `s`, as the annotation grammar's
/// entry point for one split type.
pub fn parse_split_type(s: &str) -> (r: Option<(ParsedSplitType, usize)>)
    requires
        s@.len() < usize::MAX,
    ensures
        match r {
            Some(p) => parse_split_type_spec(s@, 0, (s@.len() + 1) as nat) == Some(
                (p.0@, p.1 as int),
            ),
            None => parse_split_type_spec(s@, 0, (s@.len() + 1) as nat) is None,
        },
{
    let n = s.unicode_len();
    parse_split_type_at(s, 0, n, n + 1)
}

/// Parses an annotated parameter `name: split_type` at `i`.
pub fn parse_parameter_at(s: &str, i: usize, n: usize, fuel: usize) -> (r: Option<
    (ParsedParameter, usize),
>)
    requires
        i <= n,
        n == s@.len(),
    ensures
        match r {
            Some(p) => parse_parameter_spec(s@, i as int, fuel as nat) == Some(
                (p.0@, p.1 as int),
            ) && p.1 <= n,
            None => parse_parameter_spec(s@, i as int, fuel as nat) is None,
        },
{
    let i1 = skip_ws(s, i, n);
    match ident(s, i1, n) {
        None => None,
        Some((name, i2)) => {
            let i3 = skip_ws(s, i2, n);
            if i3 < n && s.get_char(i3) == ':' {
                match parse_split_type_at(s, i3 + 1, n, fuel) {
                    Some((ty, i4)) => Some((ParsedParameter { name, ty }, i4)),
                    None => None,
                }
            } else {
                None
            }
        },
    }
}

/// A comma-separated annotated-parameter list, possibly empty.
pub open spec fn parse_parameter_list_spec(s: Seq<char>, i: int, fuel: nat) -> Option<
    (Seq<ParsedParameterView>, int),
>
    decreases fuel,
{
    if fuel == 0 {
        None
    } else {
        match parse_parameter_spec(s, i, fuel) {
            None => Some((Seq::empty(), i)),
            Some((param, i2)) => match parse_parameter_list_more_spec(s, i2, (fuel - 1) as nat) {
                Some((rest, i3)) => Some((seq![param] + rest, i3)),
                None => None,
            },
        }
    }
}

/// The continuation of an annotated-parameter list after one element.
pub open spec fn parse_parameter_list_more_spec(s: Seq<char>, i: int, fuel: nat) -> Option<
    (Seq<ParsedParameterView>, int),
>
    decreases fuel,
{
    if fuel == 0 {
        None
    } else {
        let j = skip_ws_spec(s, i);
        if j < s.len() && s[j] == ',' {
            match parse_parameter_spec(s, j + 1, fuel) {
                None => Some((Seq::empty(), i)),
                Some((param, i2)) => match parse_parameter_list_more_spec(
                    s,
                    i2,
                    (fuel - 1) as nat,
                ) {
                    Some((rest, i3)) => Some((seq![param] + rest, i3)),
                    None => None,
                },
            }
        } else {
            Some((Seq::empty(), i))
        }
    }
}

/// The characters of the annotation keyword `@sa`.
pub open spec fn sa_tag() -> Seq<char> {
    seq!['@', 's', 'a']
}

/// The characters of the return-type arrow.
pub open spec fn arrow_tag() -> Seq<char> {
    seq!['-', '>']
}

/// The characters of the `default` keyword.
pub open spec fn default_tag() -> Seq<char> {
    seq!['d', 'e', 'f', 'a', 'u', 'l', 't']
}

/// A whole splitability annotation at `i`: `@sa(params)`, an optional
/// `-> split_type`, and an optional `default` parameter list. A return type
/// or default list that fails to parse is treated as absent, consuming
/// nothing.
pub open spec fn parse_annotation_spec(s: Seq<char>, i: int, fuel: nat) -> Option<
    (ParsedAnnotationView, int),
> {
    let i0 = skip_ws_spec(s, i);
    if !tag_at_spec(s, i0, sa_tag()) {
        None
    } else {
        let i1 = skip_ws_spec(s, i0 + sa_tag().len());
        if !(i1 < s.len() && s[i1] == '(') {
            None
        } else {
            match parse_parameter_list_spec(s, i1 + 1, fuel) {
                None => None,
                Some((parameters, i2)) => {
                    let i3 = skip_ws_spec(s, i2);
                    if !(i3 < s.len() && s[i3] == ')') {
                        None
                    } else {
                        let after_params = i3 + 1;
                        let i4 = skip_ws_spec(s, after_params);
                        let ret = if tag_at_spec(s, i4, arrow_tag()) {
                            match parse_split_type_spec(s, i4 + arrow_tag().len(), fuel) {
                                Some((ty, i5)) => (Some(ty), i5),
                                None => (None::<ParsedSplitTypeView>, after_params),
                            }
                        } else {
                            (None::<ParsedSplitTypeView>, after_params)
                        };
                        let i6 = skip_ws_spec(s, ret.1);
                        let defaults = if tag_at_spec(s, i6, default_tag()) {
                            match parse_parameter_list_spec(s, i6 + default_tag().len(), fuel) {
                                Some((list, i7)) => if list.len() > 0 {
                                    (list, i7)
                                } else {
                                    (Seq::<ParsedParameterView>::empty(), ret.1)
                                },
                                None => (Seq::<ParsedParameterView>::empty(), ret.1),
                            }
                        } else {
                            (Seq::<ParsedParameterView>::empty(), ret.1)
                        };
                        Some(
                            (
                                ParsedAnnotationView {
                                    parameters,
                                    return_type: ret.0,
                                    defaults: defaults.0,
                                },
                                defaults.1,
                            ),
                        )
                    }
                },
            }
        }
    }
}

/// Parses a comma-separated annotated-parameter list.
fn parse_parameter_list(s: &str, i: usize, n: usize, fuel: usize) -> (r: Option<
    (Vec<ParsedParameter>, usize),
>)
    requires
        i <= n,
        n == s@.len(),
    ensures
        match r {
            Some(p) => parse_parameter_list_spec(s@, i as int, fuel as nat) == Some(
                (p.0@.map_values(|q: ParsedParameter| q@), p.1 as int),
            ) && p.1 <= n,
            None => parse_parameter_list_spec(s@, i as int, fuel as nat) is None,
        },
    decreases fuel,
{
    if fuel == 0 {
        return None;
    }
    match parse_parameter_at(s, i, n, fuel) {
        None => {
            let empty: Vec<ParsedParameter> = Vec::new();
            proof {
                assert(empty@.map_values(|q: ParsedParameter| q@)
                    =~= Seq::<ParsedParameterView>::empty());
            }
            Some((empty, i))
        },
        Some((param, i2)) => {
            match parse_parameter_list_more(s, i2, n, fuel - 1) {
                Some((rest, i3)) => {
                    let ghost param_view = param@;
                    let ghost rest_views = rest@.map_values(|q: ParsedParameter| q@);
                    let mut items: Vec<ParsedParameter> = Vec::new();
                    items.push(param);
                    let mut k: usize = 0;
                    while k < rest.len()
                        invariant
                            k <= rest@.len(),
                            rest_views == rest@.map_values(|q: ParsedParameter| q@),
                            items@.len() == k + 1,
                            forall|y: int| 0 <= y < k ==> items@[y + 1]@ == rest_views[y],
                            items@[0]@ == param_view,
                        decreases rest@.len() - k,
                    {
                        items.push(rest[k].clone());
                        k = k + 1;
                    }
                    proof {
                        assert(items@.map_values(|q: ParsedParameter| q@) =~= seq![param_view]
                            + rest_views);
                    }
                    Some((items, i3))
                },
                None => None,
            }
        },
    }
}

/// Parses the continuation of an annotated-parameter list.
fn parse_parameter_list_more(s: &str, i: usize, n: usize, fuel: usize) -> (r: Option<
    (Vec<ParsedParameter>, usize),
>)
    requires
        i <= n,
        n == s@.len(),
    ensures
        match r {
            Some(p) => parse_parameter_list_more_spec(s@, i as int, fuel as nat) == Some(
                (p.0@.map_values(|q: ParsedParameter| q@), p.1 as int),
            ) && p.1 <= n,
            None => parse_parameter_list_more_spec(s@, i as int, fuel as nat) is None,
        },
    decreases fuel,
{
    if fuel == 0 {
        return None;
    }
    let j = skip_ws(s, i, n);
    if j < n && s.get_char(j) == ',' {
        match parse_parameter_at(s, j + 1, n, fuel) {
            None => {
                let empty: Vec<ParsedParameter> = Vec::new();
                proof {
                    assert(empty@.map_values(|q: ParsedParameter| q@)
                        =~= Seq::<ParsedParameterView>::empty());
                }
                Some((empty, i))
            },
            Some((param, i2)) => {
                match parse_parameter_list_more(s, i2, n, fuel - 1) {
                    Some((rest, i3)) => {
                        let ghost param_view = param@;
                        let ghost rest_views = rest@.map_values(|q: ParsedParameter| q@);
                        let mut items: Vec<ParsedParameter> = Vec::new();
                        items.push(param);
                        let mut k: usize = 0;
                        while k < rest.len()
                            invariant
                                k <= rest@.len(),
                                rest_views == rest@.map_values(|q: ParsedParameter| q@),
                                items@.len() == k + 1,
                                forall|y: int| 0 <= y < k ==> items@[y + 1]@ == rest_views[y],
                                items@[0]@ == param_view,
                            decreases rest@.len() - k,
                        {
                            items.push(rest[k].clone());
                            k = k + 1;
                        }
                        proof {
                            assert(items@.map_values(|q: ParsedParameter| q@) =~= seq![param_view]
                                + rest_views);
                        }
                        Some((items, i3))
                    },
                    None => None,
                }
            },
        }
    } else {
        let empty: Vec<ParsedParameter> = Vec::new();
        proof {
            assert(empty@.map_values(|q: ParsedParameter| q@)
                =~= Seq::<ParsedParameterView>::empty());
        }
        Some((empty, i))
    }
}

/// Parses a whole splitability annotation at `i`.
pub fn parse_annotation_at(s: &str, i: usize, n: usize, fuel: usize) -> (r: Option<
    (ParsedAnnotation, usize),
>)
    requires
        i <= n,
        n == s@.len(),
    ensures
        match r {
            Some(p) => parse_annotation_spec(s@, i as int, fuel as nat) == Some(
                (p.0@, p.1 as int),
            ) && p.1 <= n,
            None => parse_annotation_spec(s@, i as int, fuel as nat) is None,
        },
{
    proof {
        reveal_strlit("@sa");
        reveal_strlit("->");
        reveal_strlit("default");
        assert("@sa"@ =~= sa_tag());
        assert("->"@ =~= arrow_tag());
        assert("default"@ =~= default_tag());
    }
    let i0 = skip_ws(s, i, n);
    if !tag_at(s, i0, n, "@sa") {
        return None;
    }
    let i1 = skip_ws(s, i0 + 3, n);
    if !(i1 < n && s.get_char(i1) == '(') {
        return None;
    }
    let (parameters, i2) = match parse_parameter_list(s, i1 + 1, n, fuel) {
        Some(p) => p,
        None => {
            return None;
        },
    };
    let i3 = skip_ws(s, i2, n);
    if !(i3 < n && s.get_char(i3) == ')') {
        return None;
    }
    let after_params = i3 + 1;
    let i4 = skip_ws(s, after_params, n);
    let (return_type, after_ret) = if tag_at(s, i4, n, "->") {
        match parse_split_type_at(s, i4 + 2, n, fuel) {
            Some((ty, i5)) => (Some(ty), i5),
            None => (None, after_params),
        }
    } else {
        (None, after_params)
    };
    let i6 = skip_ws(s, after_ret, n);
    let (defaults, end) = if tag_at(s, i6, n, "default") {
        match parse_parameter_list(s, i6 + 7, n, fuel) {
            Some((list, i7)) => {
                if list.len() > 0 {
                    (list, i7)
                } else {
                    (Vec::new(), after_ret)
                }
            },
            None => (Vec::new(), after_ret),
        }
    } else {
        (Vec::new(), after_ret)
    };
    proof {
        if defaults@.len() == 0 {
            assert(defaults@.map_values(|q: ParsedParameter| q@)
                =~= Seq::<ParsedParameterView>::empty());
        }
    }
    Some((ParsedAnnotation { parameters, return_type, defaults }, end))
}

/// Parses a whole splitability annotation from the start of `s`.
pub fn parse_annotation(s: &str) -> (r: Option<(ParsedAnnotation, usize)>)
    requires
        s@.len() < usize::MAX,
    ensures
        match r {
            Some(p) => parse_annotation_spec(s@, 0, (s@.len() + 1) as nat) == Some(
                (p.0@, p.1 as int),
            ),
            None => parse_annotation_spec(s@, 0, (s@.len() + 1) as nat) is None,
        },
{
    let n = s.unicode_len();
    parse_annotation_at(s, 0, n, n + 1)
}

/// Parses an annotated parameter from the start of `s`.
pub fn parse_annotation_parameter(s: &str) -> (r: Option<(ParsedParameter, usize)>)
    requires
        s@.len() < usize::MAX,
    ensures
        match r {
            Some(p) => parse_parameter_spec(s@, 0, (s@.len() + 1) as nat) == Some(
                (p.0@, p.1 as int),
            ),
            None => parse_parameter_spec(s@, 0, (s@.len() + 1) as nat) is None,
        },
{
    let n = s.unicode_len();
    parse_parameter_at(s, 0, n, n + 1)
}

} // verus!
