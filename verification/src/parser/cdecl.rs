//! The C-declaration grammar: types with qualifiers and pointers, named or
//! unnamed parameters, and whole function declarations.

use vstd::prelude::*;

use crate::annotation::{CDecl, CDeclView, c_argument_view};
use crate::parser::{ident, ident_spec, skip_ws, skip_ws_spec, tag_at, tag_at_spec};

verus! {

/// The characters of the `const` qualifier keyword.
pub open spec fn const_kw() -> Seq<char> {
    seq!['c', 'o', 'n', 's', 't']
}

/// The characters of the `struct` keyword.
pub open spec fn struct_kw() -> Seq<char> {
    seq!['s', 't', 'r', 'u', 'c', 't']
}

/// The characters of the `union` keyword.
pub open spec fn union_kw() -> Seq<char> {
    seq!['u', 'n', 'i', 'o', 'n']
}

/// `n` pointer markers.
pub open spec fn stars(n: nat) -> Seq<char>
    decreases n,
{
    if n == 0 {
        Seq::empty()
    } else {
        seq!['*'] + stars((n - 1) as nat)
    }
}

/// Pointer markers at `i`, with whitespace allowed before each: their count
/// and the position after the last one. Consumes nothing when none follow.
pub open spec fn parse_stars_spec(s: Seq<char>, i: int, fuel: nat) -> Option<(nat, int)>
    decreases fuel,
{
    if fuel == 0 {
        None
    } else {
        let j = skip_ws_spec(s, i);
        if j < s.len() && s[j] == '*' {
            match parse_stars_spec(s, j + 1, (fuel - 1) as nat) {
                Some((count, end)) => Some(((count + 1) as nat, end)),
                None => None,
            }
        } else {
            Some((0, i))
        }
    }
}

/// The canonical text of a parsed C type: qualifier and tag keyword joined
/// with single spaces, then the type name, then its pointer markers.
pub open spec fn c_type_text(
    has_const: bool,
    tag: Option<Seq<char>>,
    ty: Seq<char>,
    count: nat,
) -> Seq<char> {
    (if has_const {
        const_kw() + seq![' ']
    } else {
        Seq::empty()
    }) + (match tag {
        Some(t) => t + seq![' '],
        None => Seq::empty(),
    }) + ty + stars(count)
}

/// A C type at `i`: an optional `const`, an optional `struct` or `union`
/// tag, a type name, and any number of pointer markers.
pub open spec fn parse_c_type_spec(s: Seq<char>, i: int, fuel: nat) -> Option<(Seq<char>, int)> {
    let i1 = skip_ws_spec(s, i);
    let has_const = tag_at_spec(s, i1, const_kw());
    let ic = if has_const {
        i1 + const_kw().len()
    } else {
        i1
    };
    let i2 = skip_ws_spec(s, ic);
    let tag = if tag_at_spec(s, i2, struct_kw()) {
        Some(struct_kw())
    } else if tag_at_spec(s, i2, union_kw()) {
        Some(union_kw())
    } else {
        None
    };
    let it = match tag {
        Some(t) => i2 + t.len(),
        None => i2,
    };
    let i3 = skip_ws_spec(s, it);
    match ident_spec(s, i3) {
        None => None,
        Some((ty, i4)) => match parse_stars_spec(s, i4, fuel) {
            Some((count, i5)) => Some((c_type_text(has_const, tag, ty, count), i5)),
            None => None,
        },
    }
}

/// A C parameter at `i`: a type followed by an optional name.
pub open spec fn parse_c_parameter_spec(s: Seq<char>, i: int, fuel: nat) -> Option<
    ((Seq<char>, Option<Seq<char>>), int),
> {
    match parse_c_type_spec(s, i, fuel) {
        None => None,
        Some((ty, i2)) => {
            let i3 = skip_ws_spec(s, i2);
            match ident_spec(s, i3) {
                Some((name, i4)) => Some(((ty, Some(name)), i4)),
                None => Some(((ty, None::<Seq<char>>), i2)),
            }
        },
    }
}

/// A comma-separated C parameter list, possibly empty.
pub open spec fn parse_c_parameter_list_spec(s: Seq<char>, i: int, fuel: nat) -> Option<
    (Seq<(Seq<char>, Option<Seq<char>>)>, int),
>
    decreases fuel,
{
    if fuel == 0 {
        None
    } else {
        match parse_c_parameter_spec(s, i, fuel) {
            None => Some((Seq::empty(), i)),
            Some((param, i2)) => match parse_c_parameter_list_more_spec(
                s,
                i2,
                (fuel - 1) as nat,
            ) {
                Some((rest, i3)) => Some((seq![param] + rest, i3)),
                None => None,
            },
        }
    }
}

/// The continuation of a C parameter list after one element.
pub open spec fn parse_c_parameter_list_more_spec(s: Seq<char>, i: int, fuel: nat) -> Option<
    (Seq<(Seq<char>, Option<Seq<char>>)>, int),
>
    decreases fuel,
{
    if fuel == 0 {
        None
    } else {
        let j = skip_ws_spec(s, i);
        if j < s.len() && s[j] == ',' {
            match parse_c_parameter_spec(s, j + 1, fuel) {
                None => Some((Seq::empty(), i)),
                Some((param, i2)) => match parse_c_parameter_list_more_spec(
                    s,
                    i2,
                    (fuel - 1) as nat,
                ) {
                    Some((rest, i3)) => Some((seq![param] + rest, i3)),
                    None => None,
                },
            }
        } else {
            Some((Seq::empty(), i))
        }
    }
}

/// A C function declaration at `i`: a return type, a function name, a
/// parenthesized parameter list, and a closing semicolon.
pub open spec fn parse_c_decl_spec(s: Seq<char>, i: int, fuel: nat) -> Option<(CDeclView, int)> {
    match parse_c_type_spec(s, i, fuel) {
        None => None,
        Some((return_type, i2)) => {
            let i3 = skip_ws_spec(s, i2);
            match ident_spec(s, i3) {
                None => None,
                Some((func_name, i4)) => {
                    let i5 = skip_ws_spec(s, i4);
                    if i5 < s.len() && s[i5] == '(' {
                        match parse_c_parameter_list_spec(s, i5 + 1, fuel) {
                            None => None,
                            Some((arguments, i6)) => {
                                let i7 = skip_ws_spec(s, i6);
                                if i7 < s.len() && s[i7] == ')' {
                                    let i8 = skip_ws_spec(s, i7 + 1);
                                    if i8 < s.len() && s[i8] == ';' {
                                        Some(
                                            (
                                                CDeclView { return_type, func_name, arguments },
                                                i8 + 1,
                                            ),
                                        )
                                    } else {
                                        None
                                    }
                                } else {
                                    None
                                }
                            },
                        }
                    } else {
                        None
                    }
                },
            }
        },
    }
}

/// Parses a C type at `i`.
pub fn parse_c_type_at(s: &str, i: usize, n: usize, fuel: usize) -> (r: Option<(String, usize)>)
    requires
        i <= n,
        n == s@.len(),
    ensures
        match r {
            Some(p) => parse_c_type_spec(s@, i as int, fuel as nat) == Some((p.0@, p.1 as int))
                && p.1 <= n,
            None => parse_c_type_spec(s@, i as int, fuel as nat) is None,
        },
{
    proof {
        reveal_strlit("const");
        reveal_strlit("struct");
        reveal_strlit("union");
        reveal_strlit(" ");
        reveal_strlit("*");
        assert("const"@ =~= const_kw());
        assert("struct"@ =~= struct_kw());
        assert("union"@ =~= union_kw());
        assert(" "@ =~= seq![' ']);
        assert("*"@ =~= seq!['*']);
    }
    let i1 = skip_ws(s, i, n);
    let has_const = tag_at(s, i1, n, "const");
    let ic = if has_const {
        i1 + 5
    } else {
        i1
    };
    proof {
        if has_const {
            assert(i1 + const_kw().len() <= n);
        }
    }
    let i2 = skip_ws(s, ic, n);
    let has_struct = tag_at(s, i2, n, "struct");
    let has_union = if has_struct {
        false
    } else {
        tag_at(s, i2, n, "union")
    };
    let it = if has_struct {
        i2 + 6
    } else if has_union {
        i2 + 5
    } else {
        i2
    };
    proof {
        if has_struct {
            assert(i2 + struct_kw().len() <= n);
        }
        if has_union {
            assert(i2 + union_kw().len() <= n);
        }
    }
    let i3 = skip_ws(s, it, n);
    match ident(s, i3, n) {
        None => None,
        Some((ty, i4)) => {
            let (count, cur) = match parse_stars(s, i4, n, fuel) {
                Some(p) => p,
                None => {
                    return None;
                },
            };
            // assemble the canonical type text
            let mut text = String::new();
            if has_const {
                text.append("const");
                text.append(" ");
            }
            if has_struct {
                text.append("struct");
                text.append(" ");
            } else if has_union {
                text.append("union");
                text.append(" ");
            }
            text.append(ty.as_str());
            proof {
                assert(text@ =~= c_type_text(
                    has_const,
                    if has_struct {
                        Some(struct_kw())
                    } else if has_union {
                        Some(union_kw())
                    } else {
                        None
                    },
                    ty@,
                    0,
                ));
            }
            let mut k: usize = 0;
            while k < count
                invariant
                    k <= count,
                    text@ == c_type_text(
                        has_const,
                        if has_struct {
                            Some(struct_kw())
                        } else if has_union {
                            Some(union_kw())
                        } else {
                            None
                        },
                        ty@,
                        k as nat,
                    ),
                decreases count - k,
            {
                proof {
                    reveal_strlit("*");
                    assert("*"@ =~= seq!['*']);
                    lemma_stars_snoc(k as nat);
                }
                text.append("*");
                k = k + 1;
            }
            Some((text, cur))
        },
    }
}

/// Parses a C parameter at `i`: a type followed by an optional name.
pub fn parse_c_parameter_at(s: &str, i: usize, n: usize, fuel: usize) -> (r: Option<
    ((String, Option<String>), usize),
>)
    requires
        i <= n,
        n == s@.len(),
    ensures
        match r {
            Some(p) => parse_c_parameter_spec(s@, i as int, fuel as nat) == Some(
                (c_argument_view(p.0), p.1 as int),
            ) && p.1 <= n,
            None => parse_c_parameter_spec(s@, i as int, fuel as nat) is None,
        },
{
    match parse_c_type_at(s, i, n, fuel) {
        None => None,
        Some((ty, i2)) => {
            let i3 = skip_ws(s, i2, n);
            match ident(s, i3, n) {
                Some((name, i4)) => Some(((ty, Some(name)), i4)),
                None => Some(((ty, None), i2)),
            }
        },
    }
}

/// Parses a comma-separated C parameter list.
fn parse_c_parameter_list(s: &str, i: usize, n: usize, fuel: usize) -> (r: Option<
    (Vec<(String, Option<String>)>, usize),
>)
    requires
        i <= n,
        n == s@.len(),
    ensures
        match r {
            Some(p) => parse_c_parameter_list_spec(s@, i as int, fuel as nat) == Some(
                (p.0@.map_values(|q: (String, Option<String>)| c_argument_view(q)), p.1 as int),
            ) && p.1 <= n,
            None => parse_c_parameter_list_spec(s@, i as int, fuel as nat) is None,
        },
    decreases fuel,
{
    if fuel == 0 {
        return None;
    }
    match parse_c_parameter_at(s, i, n, fuel) {
        None => {
            let empty: Vec<(String, Option<String>)> = Vec::new();
            proof {
                assert(empty@.map_values(|q: (String, Option<String>)| c_argument_view(q))
                    =~= Seq::<(Seq<char>, Option<Seq<char>>)>::empty());
            }
            Some((empty, i))
        },
        Some((param, i2)) => {
            match parse_c_parameter_list_more(s, i2, n, fuel - 1) {
                Some((rest, i3)) => {
                    let ghost param_view = c_argument_view(param);
                    let ghost rest_views = rest@.map_values(
                        |q: (String, Option<String>)| c_argument_view(q),
                    );
                    let mut items: Vec<(String, Option<String>)> = Vec::new();
                    items.push(param);
                    let mut k: usize = 0;
                    while k < rest.len()
                        invariant
                            k <= rest@.len(),
                            rest_views == rest@.map_values(
                                |q: (String, Option<String>)| c_argument_view(q),
                            ),
                            items@.len() == k + 1,
                            forall|y: int| 0 <= y < k ==> #[trigger] items@[y + 1] == rest@[y],
                            c_argument_view(items@[0]) == param_view,
                        decreases rest@.len() - k,
                    {
                        let pair = &rest[k];
                        let name = match &pair.1 {
                            Some(m) => Some(m.clone()),
                            None => None,
                        };
                        items.push((pair.0.clone(), name));
                        k = k + 1;
                    }
                    proof {
                        assert forall|y: int|
                            0 <= y < items@.len() implies c_argument_view(#[trigger] items@[y])
                            == (seq![param_view] + rest_views)[y] by {
                            if y >= 1 {
                                let yy = y - 1;
                                assert(items@[yy + 1] == rest@[yy]);
                                assert(rest_views[yy] == c_argument_view(rest@[yy]));
                            }
                        }
                        assert(items@.map_values(
                            |q: (String, Option<String>)| c_argument_view(q),
                        ) =~= seq![param_view] + rest_views);
                    }
                    Some((items, i3))
                },
                None => None,
            }
        },
    }
}

/// Parses the continuation of a C parameter list.
fn parse_c_parameter_list_more(s: &str, i: usize, n: usize, fuel: usize) -> (r: Option<
    (Vec<(String, Option<String>)>, usize),
>)
    requires
        i <= n,
        n == s@.len(),
    ensures
        match r {
            Some(p) => parse_c_parameter_list_more_spec(s@, i as int, fuel as nat) == Some(
                (p.0@.map_values(|q: (String, Option<String>)| c_argument_view(q)), p.1 as int),
            ) && p.1 <= n,
            None => parse_c_parameter_list_more_spec(s@, i as int, fuel as nat) is None,
        },
    decreases fuel,
{
    if fuel == 0 {
        return None;
    }
    let j = skip_ws(s, i, n);
    if j < n && s.get_char(j) == ',' {
        match parse_c_parameter_at(s, j + 1, n, fuel) {
            None => {
                let empty: Vec<(String, Option<String>)> = Vec::new();
                proof {
                    assert(empty@.map_values(|q: (String, Option<String>)| c_argument_view(q))
                        =~= Seq::<(Seq<char>, Option<Seq<char>>)>::empty());
                }
                Some((empty, i))
            },
            Some((param, i2)) => {
                match parse_c_parameter_list_more(s, i2, n, fuel - 1) {
                    Some((rest, i3)) => {
                        let ghost param_view = c_argument_view(param);
                        let ghost rest_views = rest@.map_values(
                            |q: (String, Option<String>)| c_argument_view(q),
                        );
                        let mut items: Vec<(String, Option<String>)> = Vec::new();
                        items.push(param);
                        let mut k: usize = 0;
                        while k < rest.len()
                            invariant
                                k <= rest@.len(),
                                rest_views == rest@.map_values(
                                    |q: (String, Option<String>)| c_argument_view(q),
                                ),
                                items@.len() == k + 1,
                                forall|y: int|
                                    0 <= y < k ==> #[trigger] items@[y + 1] == rest@[y],
                                c_argument_view(items@[0]) == param_view,
                            decreases rest@.len() - k,
                        {
                            let pair = &rest[k];
                            let name = match &pair.1 {
                                Some(m) => Some(m.clone()),
                                None => None,
                            };
                            items.push((pair.0.clone(), name));
                            k = k + 1;
                        }
                        proof {
                            assert forall|y: int|
                                0 <= y < items@.len() implies c_argument_view(
                                #[trigger] items@[y]) == (seq![param_view] + rest_views)[y] by {
                                if y >= 1 {
                                    let yy = y - 1;
                                    assert(items@[yy + 1] == rest@[yy]);
                                    assert(rest_views[yy] == c_argument_view(rest@[yy]));
                                }
                            }
                            assert(items@.map_values(
                                |q: (String, Option<String>)| c_argument_view(q),
                            ) =~= seq![param_view] + rest_views);
                        }
                        Some((items, i3))
                    },
                    None => None,
                }
            },
        }
    } else {
        let empty: Vec<(String, Option<String>)> = Vec::new();
        proof {
            assert(empty@.map_values(|q: (String, Option<String>)| c_argument_view(q))
                =~= Seq::<(Seq<char>, Option<Seq<char>>)>::empty());
        }
        Some((empty, i))
    }
}

/// Parses a C function declaration at `i`.
pub fn parse_c_decl_at(s: &str, i: usize, n: usize, fuel: usize) -> (r: Option<(CDecl, usize)>)
    requires
        i <= n,
        n == s@.len(),
    ensures
        match r {
            Some(p) => parse_c_decl_spec(s@, i as int, fuel as nat) == Some((p.0@, p.1 as int))
                && p.1 <= n,
            None => parse_c_decl_spec(s@, i as int, fuel as nat) is None,
        },
{
    let (return_type, i2) = match parse_c_type_at(s, i, n, fuel) {
        Some(p) => p,
        None => {
            return None;
        },
    };
    let i3 = skip_ws(s, i2, n);
    let (func_name, i4) = match ident(s, i3, n) {
        Some(p) => p,
        None => {
            return None;
        },
    };
    let i5 = skip_ws(s, i4, n);
    if !(i5 < n && s.get_char(i5) == '(') {
        return None;
    }
    let (arguments, i6) = match parse_c_parameter_list(s, i5 + 1, n, fuel) {
        Some(p) => p,
        None => {
            return None;
        },
    };
    let i7 = skip_ws(s, i6, n);
    if !(i7 < n && s.get_char(i7) == ')') {
        return None;
    }
    let i8 = skip_ws(s, i7 + 1, n);
    if !(i8 < n && s.get_char(i8) == ';') {
        return None;
    }
    Some((CDecl { return_type, func_name, arguments }, i8 + 1))
}

/// Parses a C function declaration from the start of `s`.
pub fn parse_c_decl(s: &str) -> (r: Option<(CDecl, usize)>)
    requires
        s@.len() < usize::MAX,
    ensures
        match r {
            Some(p) => parse_c_decl_spec(s@, 0, (s@.len() + 1) as nat) == Some(
                (p.0@, p.1 as int),
            ),
            None => parse_c_decl_spec(s@, 0, (s@.len() + 1) as nat) is None,
        },
{
    let n = s.unicode_len();
    parse_c_decl_at(s, 0, n, n + 1)
}

/// Parses a C type from the start of `s`.
pub fn parse_c_type(s: &str) -> (r: Option<(String, usize)>)
    requires
        s@.len() < usize::MAX,
    ensures
        match r {
            Some(p) => parse_c_type_spec(s@, 0, (s@.len() + 1) as nat) == Some(
                (p.0@, p.1 as int),
            ),
            None => parse_c_type_spec(s@, 0, (s@.len() + 1) as nat) is None,
        },
{
    let n = s.unicode_len();
    parse_c_type_at(s, 0, n, n + 1)
}

/// Parses a C parameter from the start of `s`.
pub fn parse_c_parameter(s: &str) -> (r: Option<((String, Option<String>), usize)>)
    requires
        s@.len() < usize::MAX,
    ensures
        match r {
            Some(p) => parse_c_parameter_spec(s@, 0, (s@.len() + 1) as nat) == Some(
                (c_argument_view(p.0), p.1 as int),
            ),
            None => parse_c_parameter_spec(s@, 0, (s@.len() + 1) as nat) is None,
        },
{
    let n = s.unicode_len();
    parse_c_parameter_at(s, 0, n, n + 1)
}

/// Counts the pointer markers at `i`, whitespace allowed before each.
fn parse_stars(s: &str, i: usize, n: usize, fuel: usize) -> (r: Option<(usize, usize)>)
    requires
        i <= n,
        n == s@.len(),
    ensures
        match r {
            Some(p) => parse_stars_spec(s@, i as int, fuel as nat) == Some(
                (p.0 as nat, p.1 as int),
            ) && p.1 <= n && p.0 <= fuel,
            None => parse_stars_spec(s@, i as int, fuel as nat) is None,
        },
    decreases fuel,
{
    if fuel == 0 {
        return None;
    }
    let j = skip_ws(s, i, n);
    if j < n && s.get_char(j) == '*' {
        match parse_stars(s, j + 1, n, fuel - 1) {
            Some((count, end)) => Some((count + 1, end)),
            None => None,
        }
    } else {
        Some((0, i))
    }
}

/// One more pointer marker extends the text by one star.
proof fn lemma_stars_snoc(n: nat)
    ensures
        stars(n + 1) == stars(n) + seq!['*'],
    decreases n,
{
    if n == 0 {
        assert(stars(1) =~= stars(0) + seq!['*']);
    } else {
        lemma_stars_snoc((n - 1) as nat);
        assert(stars(n + 1) =~= stars(n) + seq!['*']);
    }
}

} // verus!
