//! A JSON codec for annotations, fixed to the canonical document layout the
//! serializer emits: objects keyed in declaration order, strings written
//! without escapes, numbers in decimal. [`to_json`] is specified exactly;
//! [`from_json`] re-serializes what it parsed and accepts the result only if
//! it reproduces the input, so every annotation it returns is one whose
//! canonical document is exactly the given text.

use vstd::prelude::*;

use crate::annotation::{
    c_argument_view, Annotation, AnnotationView, CDecl, CDeclView, SplitType,
    SplitTypeParameter, SplitTypeParameterView, SplitTypeRuntimeInfo, SplitTypeView,
};
use crate::error::Error;
use crate::util;

verus! {

/// The decimal digit character for `d`.
pub open spec fn digit_char(d: int) -> char {
    if d == 0 {
        '0'
    } else if d == 1 {
        '1'
    } else if d == 2 {
        '2'
    } else if d == 3 {
        '3'
    } else if d == 4 {
        '4'
    } else if d == 5 {
        '5'
    } else if d == 6 {
        '6'
    } else if d == 7 {
        '7'
    } else if d == 8 {
        '8'
    } else {
        '9'
    }
}

/// The decimal digits of `n`, most significant first.
pub open spec fn dec_digits(n: int) -> Seq<char>
    decreases n,
{
    if n < 10 {
        seq![digit_char(n)]
    } else {
        dec_digits(n / 10) + seq![digit_char(n % 10)]
    }
}

/// A string in the canonical document: the characters between two quotes,
/// written without escapes.
pub open spec fn json_string(s: Seq<char>) -> Seq<char> {
    "\""@ + s + "\""@
}

/// An optional string: `null` or the string.
pub open spec fn json_opt_string(o: Option<Seq<char>>) -> Seq<char> {
    match o {
        Some(s) => json_string(s),
        None => "null"@,
    }
}

/// A runtime-information record.
pub open spec fn json_runtime(rt: SplitTypeRuntimeInfo) -> Seq<char> {
    "{\"initializer\":"@ + dec_digits(rt.initializer as int) + ",\"next\":"@ + dec_digits(
        rt.next as int,
    ) + ",\"data_size\":"@ + dec_digits(rt.data_size as int) + "}"@
}

/// An optional runtime-information record: `null` or the record.
pub open spec fn json_opt_runtime(o: Option<SplitTypeRuntimeInfo>) -> Seq<char> {
    match o {
        Some(rt) => json_runtime(rt),
        None => "null"@,
    }
}

/// A split type, externally tagged by its variant name.
pub open spec fn json_split_type(t: SplitTypeView) -> Seq<char> {
    match t {
        SplitTypeView::Broadcast { runtime } => "{\"Broadcast\":{\"runtime\":"@
            + json_opt_runtime(runtime) + "}}"@,
        SplitTypeView::Generic { name } => "{\"Generic\":{\"name\":"@ + json_string(name)
            + "}}"@,
        SplitTypeView::Named { name, arguments, runtime } => "{\"Named\":{\"name\":"@
            + json_string(name) + ",\"arguments\":"@ + dec_digits(arguments as int)
            + ",\"runtime\":"@ + json_opt_runtime(runtime) + "}}"@,
    }
}

/// A list of argument positions.
pub open spec fn json_positions(l: Seq<usize>) -> Seq<char> {
    util::join_spec("["@, ","@, l.map_values(|p: usize| dec_digits(p as int))) + "]"@
}

/// A split-type parameter: its type and its argument positions.
pub open spec fn json_parameter(p: SplitTypeParameterView) -> Seq<char> {
    "{\"ty\":"@ + json_split_type(p.ty) + ",\"arguments\":"@ + json_positions(p.arguments)
        + "}"@
}

/// The parameter list of an annotation.
pub open spec fn json_parameters(l: Seq<SplitTypeParameterView>) -> Seq<char> {
    util::join_spec("["@, ","@, l.map_values(|p: SplitTypeParameterView| json_parameter(p)))
        + "]"@
}

/// An optional return parameter: `null` or the parameter.
pub open spec fn json_opt_parameter(o: Option<SplitTypeParameterView>) -> Seq<char> {
    match o {
        Some(p) => json_parameter(p),
        None => "null"@,
    }
}

/// One C argument: a two-element array of its type and optional name.
pub open spec fn json_c_argument(a: (Seq<char>, Option<Seq<char>>)) -> Seq<char> {
    "["@ + json_string(a.0) + ","@ + json_opt_string(a.1) + "]"@
}

/// A C declaration.
pub open spec fn json_c_decl(d: CDeclView) -> Seq<char> {
    "{\"return_type\":"@ + json_string(d.return_type) + ",\"func_name\":"@ + json_string(
        d.func_name,
    ) + ",\"arguments\":"@ + util::join_spec(
        "["@,
        ","@,
        d.arguments.map_values(|a: (Seq<char>, Option<Seq<char>>)| json_c_argument(a)),
    ) + "]}"@
}

/// The generic-default map of an annotation.
pub open spec fn json_defaults(ds: Seq<(Seq<char>, SplitTypeView)>) -> Seq<char> {
    util::join_spec(
        "{"@,
        ","@,
        ds.map_values(
            |kv: (Seq<char>, SplitTypeView)| json_string(kv.0) + ":"@ + json_split_type(kv.1),
        ),
    ) + "}"@
}

/// The canonical document of a whole annotation.
pub open spec fn json_annotation(a: AnnotationView) -> Seq<char> {
    "{\"function\":"@ + json_c_decl(a.function) + ",\"params\":"@ + json_parameters(a.params)
        + ",\"return_param\":"@ + json_opt_parameter(a.return_param) + ",\"defaults\":"@
        + json_defaults(a.defaults) + "}"@
}

/// Appends the decimal digits of `n`.
fn append_digits(out: &mut String, n: u64)
    ensures
        final(out)@ == old(out)@ + dec_digits(n as int),
    decreases n,
{
    if n >= 10 {
        append_digits(out, n / 10);
    }
    let d = n % 10;
    if d == 0 {
        out.append("0");
    } else if d == 1 {
        out.append("1");
    } else if d == 2 {
        out.append("2");
    } else if d == 3 {
        out.append("3");
    } else if d == 4 {
        out.append("4");
    } else if d == 5 {
        out.append("5");
    } else if d == 6 {
        out.append("6");
    } else if d == 7 {
        out.append("7");
    } else if d == 8 {
        out.append("8");
    } else {
        out.append("9");
    }
    proof {
        reveal_strlit("0");
        reveal_strlit("1");
        reveal_strlit("2");
        reveal_strlit("3");
        reveal_strlit("4");
        reveal_strlit("5");
        reveal_strlit("6");
        reveal_strlit("7");
        reveal_strlit("8");
        reveal_strlit("9");
        assert("0"@ =~= seq![digit_char(0)]);
        assert("1"@ =~= seq![digit_char(1)]);
        assert("2"@ =~= seq![digit_char(2)]);
        assert("3"@ =~= seq![digit_char(3)]);
        assert("4"@ =~= seq![digit_char(4)]);
        assert("5"@ =~= seq![digit_char(5)]);
        assert("6"@ =~= seq![digit_char(6)]);
        assert("7"@ =~= seq![digit_char(7)]);
        assert("8"@ =~= seq![digit_char(8)]);
        assert("9"@ =~= seq![digit_char(9)]);
        if n >= 10 {
            assert(final(out)@ =~= old(out)@ + (dec_digits(n as int / 10) + seq![
                digit_char(n as int % 10)
            ]));
        } else {
            assert(final(out)@ =~= old(out)@ + seq![digit_char(n as int)]);
        }
    }
}

/// Appends a quoted string.
fn append_string(out: &mut String, s: &str)
    ensures
        final(out)@ == old(out)@ + json_string(s@),
{
    out.append("\"");
    out.append(s);
    out.append("\"");
    proof {
        assert(final(out)@ =~= old(out)@ + json_string(s@));
    }
}

/// Appends an optional runtime record.
fn append_opt_runtime(out: &mut String, o: &Option<SplitTypeRuntimeInfo>)
    ensures
        final(out)@ == old(out)@ + json_opt_runtime(*o),
{
    match o {
        None => {
            out.append("null");
        },
        Some(rt) => {
            out.append("{\"initializer\":");
            append_digits(out, rt.initializer as u64);
            out.append(",\"next\":");
            append_digits(out, rt.next as u64);
            out.append(",\"data_size\":");
            append_digits(out, rt.data_size as u64);
            out.append("}");
            proof {
                assert(final(out)@ =~= old(out)@ + json_runtime(*rt));
            }
        },
    }
}

/// Appends a split type.
fn append_split_type(out: &mut String, t: &SplitType)
    ensures
        final(out)@ == old(out)@ + json_split_type(t@),
{
    match t {
        SplitType::Broadcast { runtime } => {
            out.append("{\"Broadcast\":{\"runtime\":");
            append_opt_runtime(out, runtime);
            out.append("}}");
            proof {
                assert(final(out)@ =~= old(out)@ + json_split_type(t@));
            }
        },
        SplitType::Generic { name } => {
            out.append("{\"Generic\":{\"name\":");
            append_string(out, name.as_str());
            out.append("}}");
            proof {
                assert(final(out)@ =~= old(out)@ + json_split_type(t@));
            }
        },
        SplitType::Named { name, arguments, runtime } => {
            out.append("{\"Named\":{\"name\":");
            append_string(out, name.as_str());
            out.append(",\"arguments\":");
            append_digits(out, *arguments as u64);
            out.append(",\"runtime\":");
            append_opt_runtime(out, runtime);
            out.append("}}");
            proof {
                assert(final(out)@ =~= old(out)@ + json_split_type(t@));
            }
        },
    }
}

/// Appends a split-type parameter.
fn append_parameter(out: &mut String, p: &SplitTypeParameter)
    ensures
        final(out)@ == old(out)@ + json_parameter(p@),
{
    out.append("{\"ty\":");
    append_split_type(out, &p.ty);
    out.append(",\"arguments\":");
    out.append("[");
    let ghost mapped = p.arguments@.map_values(|x: usize| dec_digits(x as int));
    let ghost mark = out@;
    let mut i: usize = 0;
    while i < p.arguments.len()
        invariant
            i <= p.arguments@.len(),
            mapped == p.arguments@.map_values(|x: usize| dec_digits(x as int)),
            out@ == mark + util::join_spec(Seq::empty(), ","@, mapped.take(i as int)),
        decreases p.arguments@.len() - i,
    {
        if i > 0 {
            out.append(",");
        }
        append_digits(out, p.arguments[i] as u64);
        proof {
            assert(mapped.take(i + 1).drop_last() =~= mapped.take(i as int));
            assert(out@ =~= mark + util::join_spec(Seq::empty(), ","@, mapped.take(i + 1)));
        }
        i = i + 1;
    }
    out.append("]");
    out.append("}");
    proof {
        assert(mapped.take(mapped.len() as int) =~= mapped);
        lemma_join_from_empty("["@, ","@, mapped);
        assert(out@ =~= old(out)@ + json_parameter(p@));
    }
}

/// Joining from a non-empty start only prepends the start.
proof fn lemma_join_from_empty(start: Seq<char>, sep: Seq<char>, items: Seq<Seq<char>>)
    ensures
        util::join_spec(start, sep, items) == start + util::join_spec(Seq::empty(), sep, items),
    decreases items.len(),
{
    if items.len() == 0 {
        assert(util::join_spec(start, sep, items) =~= start + util::join_spec(
            Seq::empty(),
            sep,
            items,
        ));
    } else if items.len() == 1 {
        assert(util::join_spec(start, sep, items) =~= start + util::join_spec(
            Seq::empty(),
            sep,
            items,
        ));
    } else {
        lemma_join_from_empty(start, sep, items.drop_last());
        assert(util::join_spec(start, sep, items) =~= start + util::join_spec(
            Seq::empty(),
            sep,
            items,
        ));
    }
}

/// Appends an optional split-type parameter.
fn append_opt_parameter(out: &mut String, o: &Option<SplitTypeParameter>)
    ensures
        final(out)@ == old(out)@ + json_opt_parameter(
            match o {
                Some(p) => Some(p@),
                None => None::<SplitTypeParameterView>,
            },
        ),
{
    match o {
        None => {
            out.append("null");
        },
        Some(p) => {
            append_parameter(out, p);
        },
    }
}

/// Appends a C declaration.
fn append_c_decl(out: &mut String, d: &CDecl)
    ensures
        final(out)@ == old(out)@ + json_c_decl(d@),
{
    out.append("{\"return_type\":");
    append_string(out, d.return_type.as_str());
    out.append(",\"func_name\":");
    append_string(out, d.func_name.as_str());
    out.append(",\"arguments\":");
    out.append("[");
    let ghost mapped = d@.arguments.map_values(
        |a: (Seq<char>, Option<Seq<char>>)| json_c_argument(a),
    );
    let ghost mark = out@;
    let mut i: usize = 0;
    while i < d.arguments.len()
        invariant
            i <= d.arguments@.len(),
            mapped == d@.arguments.map_values(
                |a: (Seq<char>, Option<Seq<char>>)| json_c_argument(a),
            ),
            mapped.len() == d.arguments@.len(),
            out@ == mark + util::join_spec(Seq::empty(), ","@, mapped.take(i as int)),
        decreases d.arguments@.len() - i,
    {
        if i > 0 {
            out.append(",");
        }
        let pair = &d.arguments[i];
        out.append("[");
        append_string(out, pair.0.as_str());
        out.append(",");
        match &pair.1 {
            Some(name) => {
                append_string(out, name.as_str());
            },
            None => {
                out.append("null");
            },
        }
        out.append("]");
        proof {
            assert(mapped.take(i + 1).drop_last() =~= mapped.take(i as int));
            assert(mapped[i as int] == json_c_argument(d@.arguments[i as int]));
            assert(out@ =~= mark + util::join_spec(Seq::empty(), ","@, mapped.take(i + 1)));
        }
        i = i + 1;
    }
    out.append("]}");
    proof {
        assert(mapped.take(mapped.len() as int) =~= mapped);
        lemma_join_from_empty("["@, ","@, mapped);
        assert(out@ =~= old(out)@ + json_c_decl(d@));
    }
}

/// Serializes an annotation into its canonical JSON document.
#[verifier::rlimit(60)]
pub fn to_json(a: &Annotation) -> (r: String)
    ensures
        r@ == json_annotation(a@),
{
    let mut out = String::new();
    out.append("{\"function\":");
    append_c_decl(&mut out, &a.function);
    out.append(",\"params\":");
    out.append("[");
    let ghost mapped = a@.params.map_values(|p: SplitTypeParameterView| json_parameter(p));
    let ghost mark = out@;
    let mut i: usize = 0;
    while i < a.params.len()
        invariant
            i <= a.params@.len(),
            mapped == a@.params.map_values(|p: SplitTypeParameterView| json_parameter(p)),
            mapped.len() == a.params@.len(),
            out@ == mark + util::join_spec(Seq::empty(), ","@, mapped.take(i as int)),
        decreases a.params@.len() - i,
    {
        if i > 0 {
            out.append(",");
        }
        append_parameter(&mut out, &a.params[i]);
        proof {
            assert(mapped.take(i + 1).drop_last() =~= mapped.take(i as int));
            assert(mapped[i as int] == json_parameter(a@.params[i as int]));
            assert(out@ =~= mark + util::join_spec(Seq::empty(), ","@, mapped.take(i + 1)));
        }
        i = i + 1;
    }
    out.append("]");
    proof {
        assert(mapped.take(mapped.len() as int) =~= mapped);
        lemma_join_from_empty("["@, ","@, mapped);
        assert(out@ =~= "{\"function\":"@ + json_c_decl(a@.function) + ",\"params\":"@
            + json_parameters(a@.params));
    }
    out.append(",\"return_param\":");
    append_opt_parameter(&mut out, &a.return_param);
    out.append(",\"defaults\":");
    out.append("{");
    let ghost dmapped = a@.defaults.map_values(
        |kv: (Seq<char>, SplitTypeView)| json_string(kv.0) + ":"@ + json_split_type(kv.1),
    );
    let ghost dmark = out@;
    let mut i: usize = 0;
    while i < a.defaults.len()
        invariant
            i <= a.defaults@.len(),
            dmapped == a@.defaults.map_values(
                |kv: (Seq<char>, SplitTypeView)| json_string(kv.0) + ":"@ + json_split_type(
                    kv.1,
                ),
            ),
            dmapped.len() == a.defaults@.len(),
            out@ == dmark + util::join_spec(Seq::empty(), ","@, dmapped.take(i as int)),
        decreases a.defaults@.len() - i,
    {
        if i > 0 {
            out.append(",");
        }
        let pair = &a.defaults[i];
        append_string(&mut out, pair.0.as_str());
        out.append(":");
        append_split_type(&mut out, &pair.1);
        proof {
            assert(dmapped.take(i + 1).drop_last() =~= dmapped.take(i as int));
            assert(dmapped[i as int] == json_string(a@.defaults[i as int].0) + ":"@
                + json_split_type(a@.defaults[i as int].1));
            assert(out@ =~= dmark + util::join_spec(Seq::empty(), ","@, dmapped.take(i + 1)));
        }
        i = i + 1;
    }
    out.append("}");
    out.append("}");
    proof {
        assert(dmapped.take(dmapped.len() as int) =~= dmapped);
        lemma_join_from_empty("{"@, ","@, dmapped);
        assert(out@ =~= json_annotation(a@));
    }
    out
}

/// A string that can stand in a canonical document unescaped: it holds no
/// quote character.
pub open spec fn json_plain(s: Seq<char>) -> bool {
    forall|i: int| 0 <= i < s.len() ==> s[i] != '"'
}

/// Whether a split type's strings can stand in a canonical document.
pub open spec fn plain_split_type(t: SplitTypeView) -> bool {
    match t {
        SplitTypeView::Broadcast { .. } => true,
        SplitTypeView::Generic { name } => json_plain(name),
        SplitTypeView::Named { name, .. } => json_plain(name),
    }
}

/// Whether one C argument's strings can stand in a canonical document.
pub open spec fn plain_c_argument(a: (Seq<char>, Option<Seq<char>>)) -> bool {
    json_plain(a.0) && match a.1 {
        Some(name) => json_plain(name),
        None => true,
    }
}

/// Whether a declaration's strings can stand in a canonical document.
pub open spec fn plain_c_decl(d: CDeclView) -> bool {
    &&& json_plain(d.return_type)
    &&& json_plain(d.func_name)
    &&& forall|i: int| 0 <= i < d.arguments.len() ==> plain_c_argument(#[trigger] d.arguments[i])
}

/// Whether a parameter's strings can stand in a canonical document.
pub open spec fn plain_parameter(p: SplitTypeParameterView) -> bool {
    plain_split_type(p.ty)
}

/// Whether every string of an annotation can stand in a canonical document.
pub open spec fn plain_annotation(a: AnnotationView) -> bool {
    &&& plain_c_decl(a.function)
    &&& forall|i: int| 0 <= i < a.params.len() ==> plain_parameter(#[trigger] a.params[i])
    &&& match a.return_param {
        Some(p) => plain_parameter(p),
        None => true,
    }
    &&& forall|i: int|
        0 <= i < a.defaults.len() ==> json_plain((#[trigger] a.defaults[i]).0)
            && plain_split_type(a.defaults[i].1)
}

/// The position of the first quote at or after `i`.
pub open spec fn scan_quote(s: Seq<char>, i: int) -> int
    decreases s.len() - i,
    when 0 <= i
{
    if i < s.len() && s[i] != '"' {
        scan_quote(s, i + 1)
    } else {
        i
    }
}

/// Whether `c` is a decimal digit.
pub open spec fn is_digit_spec(c: char) -> bool {
    48 <= c as u32 && c as u32 <= 57
}

/// The numeric value of a digit character.
pub open spec fn digit_val(c: char) -> int {
    c as u32 - 48
}

/// The value of the digit run `s[i..end]`, most significant first.
pub open spec fn val_digits(s: Seq<char>, i: int, end: int) -> int
    decreases end - i,
{
    if i >= end {
        0
    } else {
        val_digits(s, i, end - 1) * 10 + digit_val(s[end - 1])
    }
}

/// The body of a bracketed or braced list: the element documents joined by
/// commas, then the closing delimiter.
pub open spec fn list_items_doc(docs: Seq<Seq<char>>, close: Seq<char>) -> Seq<char> {
    util::join_spec(Seq::empty(), ","@, docs) + close
}

/// The argument-list part of a declaration document, with its own closing
/// bracket.
pub open spec fn json_c_arguments(args: Seq<(Seq<char>, Option<Seq<char>>)>) -> Seq<char> {
    "["@ + list_items_doc(args.map_values(|a: (Seq<char>, Option<Seq<char>>)| json_c_argument(a)), "]"@)
}

/// A matched document piece fixes the character it covers at offset `k`.
proof fn lemma_char_at(s: Seq<char>, i: int, doc: Seq<char>, k: int)
    requires
        0 <= i,
        i + doc.len() <= s.len(),
        s.subrange(i, i + doc.len()) == doc,
        0 <= k < doc.len(),
    ensures
        s[i + k] == doc[k],
{
    assert(s.subrange(i, i + doc.len())[k] == s[i + k]);
}

/// A sub-piece of a matched document piece is itself matched.
proof fn lemma_piece_at(s: Seq<char>, i: int, doc: Seq<char>, lo: int, hi: int)
    requires
        0 <= i,
        i + doc.len() <= s.len(),
        s.subrange(i, i + doc.len()) == doc,
        0 <= lo <= hi <= doc.len(),
    ensures
        s.subrange(i + lo, i + hi) == doc.subrange(lo, hi),
{
    assert forall|j: int| 0 <= j < hi - lo implies s.subrange(i + lo, i + hi)[j] == doc.subrange(
        lo,
        hi,
    )[j] by {
        assert(s.subrange(i, i + doc.len())[lo + j] == s[i + lo + j]);
    }
    assert(s.subrange(i + lo, i + hi) =~= doc.subrange(lo, hi));
}

/// Scanning stops exactly at the quote that ends a quote-free run.
proof fn lemma_scan_quote_run(s: Seq<char>, i: int, end: int)
    requires
        0 <= i <= end < s.len(),
        forall|j: int| i <= j < end ==> s[j] != '"',
        s[end] == '"',
    ensures
        scan_quote(s, i) == end,
    decreases end - i,
{
    if i < end {
        lemma_scan_quote_run(s, i + 1, end);
    }
}

/// The digits of a non-negative number are digit characters, and there is
/// at least one.
proof fn lemma_dec_digits_are_digits(n: int)
    requires
        n >= 0,
    ensures
        dec_digits(n).len() >= 1,
        forall|j: int| 0 <= j < dec_digits(n).len() ==> is_digit_spec(#[trigger] dec_digits(n)[j]),
    decreases n,
{
    if n < 10 {
        assert(is_digit_spec(digit_char(n)));
    } else {
        lemma_dec_digits_are_digits(n / 10);
        assert(0 <= n % 10 < 10);
        assert(is_digit_spec(digit_char(n % 10)));
        assert(forall|j: int|
            0 <= j < dec_digits(n).len() ==> #[trigger] dec_digits(n)[j] == (if j < dec_digits(
                n / 10,
            ).len() {
                dec_digits(n / 10)[j]
            } else {
                digit_char(n % 10)
            }));
    }
}

/// Reading back the digits of `n` yields `n`.
proof fn lemma_val_digits(n: int, s: Seq<char>, i: int)
    requires
        n >= 0,
        0 <= i,
        i + dec_digits(n).len() <= s.len(),
        s.subrange(i, i + dec_digits(n).len()) == dec_digits(n),
    ensures
        val_digits(s, i, i + dec_digits(n).len()) == n,
    decreases n,
{
    let len = dec_digits(n).len();
    assert forall|j: int| i <= j < i + len implies #[trigger] s[j] == dec_digits(n)[j - i] by {
        assert(s.subrange(i, i + len)[j - i] == s[j]);
    }
    if n < 10 {
        assert(val_digits(s, i, i + 1) == val_digits(s, i, i) * 10 + digit_val(s[i]));
        assert(s[i] == dec_digits(n)[0]);
        assert(s[i] == digit_char(n));
    } else {
        let head = dec_digits(n / 10);
        vstd::arithmetic::div_mod::lemma_fundamental_div_mod(n, 10);
        assert forall|j: int| 0 <= j < head.len() implies s.subrange(i, i + head.len())[j]
            == head[j] by {
            assert(s[i + j] == dec_digits(n)[j]);
            assert(dec_digits(n)[j] == head[j]);
        }
        assert(s.subrange(i, i + head.len()) =~= head);
        lemma_val_digits(n / 10, s, i);
        assert(s[i + len - 1] == dec_digits(n)[len - 1]);
        assert(dec_digits(n)[len - 1] == digit_char(n % 10));
        assert(0 <= n % 10 < 10);
        assert(digit_val(digit_char(n % 10)) == n % 10);
        assert(val_digits(s, i, i + len) == val_digits(s, i, i + len - 1) * 10 + digit_val(
            s[i + len - 1],
        ));
    }
}

/// Any digit-run prefix of `n`'s digits values at most `n`.
proof fn lemma_val_digits_prefix(n: int, s: Seq<char>, i: int, k: int)
    requires
        n >= 0,
        0 <= i,
        i + dec_digits(n).len() <= s.len(),
        s.subrange(i, i + dec_digits(n).len()) == dec_digits(n),
        0 <= k <= dec_digits(n).len(),
    ensures
        0 <= val_digits(s, i, i + k) <= n,
    decreases n,
{
    let len = dec_digits(n).len();
    if n < 10 {
        if k == 1 {
            lemma_val_digits(n, s, i);
        }
    } else {
        let head = dec_digits(n / 10);
        vstd::arithmetic::div_mod::lemma_fundamental_div_mod(n, 10);
        assert forall|j: int| 0 <= j < head.len() implies s.subrange(i, i + head.len())[j]
            == head[j] by {
            assert(s.subrange(i, i + len)[j] == s[i + j]);
            assert(dec_digits(n)[j] == head[j]);
        }
        assert(s.subrange(i, i + head.len()) =~= head);
        if k <= head.len() {
            lemma_val_digits_prefix(n / 10, s, i, k);
        } else {
            lemma_val_digits(n, s, i);
        }
    }
}

/// A non-empty join read from the front: the first item, then the separator
/// and the rest.
proof fn lemma_join_head(sep: Seq<char>, items: Seq<Seq<char>>)
    requires
        items.len() >= 1,
    ensures
        items.len() == 1 ==> util::join_spec(Seq::empty(), sep, items) == items[0],
        items.len() > 1 ==> util::join_spec(Seq::empty(), sep, items) == items[0] + sep
            + util::join_spec(Seq::empty(), sep, items.skip(1)),
    decreases items.len(),
{
    let e = Seq::<char>::empty();
    if items.len() == 1 {
    } else if items.len() == 2 {
        assert(items.drop_last() =~= seq![items[0]]);
        assert(items.skip(1) =~= seq![items[1]]);
        assert(util::join_spec(e, sep, items) == util::join_spec(e, sep, items.drop_last()) + sep
            + items.last());
        assert(util::join_spec(e, sep, items.drop_last()) == e + items.drop_last()[0]);
        assert(util::join_spec(e, sep, items.skip(1)) == e + items.skip(1)[0]);
        assert(util::join_spec(e, sep, items) =~= items[0] + sep + util::join_spec(
            e,
            sep,
            items.skip(1),
        ));
    } else {
        let j1 = util::join_spec(e, sep, items.drop_last().skip(1));
        let j2 = util::join_spec(e, sep, items.skip(1).drop_last());
        lemma_join_head(sep, items.drop_last());
        assert(util::join_spec(e, sep, items) == util::join_spec(e, sep, items.drop_last()) + sep
            + items.last());
        assert(util::join_spec(e, sep, items.drop_last()) == items.drop_last()[0] + sep + j1);
        assert(items.drop_last()[0] == items[0]);
        assert(items.drop_last().skip(1) =~= items.skip(1).drop_last());
        assert(j1 == j2);
        assert(items.skip(1).len() >= 2);
        assert(util::join_spec(e, sep, items.skip(1)) == j2 + sep + items.skip(1).last());
        assert(items.skip(1).last() == items.last());
        assert(util::join_spec(e, sep, items) =~= items[0] + sep + util::join_spec(
            e,
            sep,
            items.skip(1),
        ));
    }
}

/// A non-empty list body read from the front: the first element document,
/// then either the closing delimiter or a comma and the remaining body.
proof fn lemma_list_items_doc_head(docs: Seq<Seq<char>>, close: Seq<char>)
    requires
        docs.len() >= 1,
    ensures
        docs.len() == 1 ==> list_items_doc(docs, close) == docs[0] + close,
        docs.len() > 1 ==> list_items_doc(docs, close) == docs[0] + ","@ + list_items_doc(
            docs.skip(1),
            close,
        ),
{
    lemma_join_head(","@, docs);
    if docs.len() == 1 {
    } else {
        assert(list_items_doc(docs, close) =~= docs[0] + ","@ + list_items_doc(
            docs.skip(1),
            close,
        ));
    }
}

/// Consumes `lit` at `i`, if it is there.
fn expect_lit(s: &str, i: usize, n: usize, lit: &str) -> (r: Option<usize>)
    requires
        i <= n,
        n == s@.len(),
    ensures
        r matches Some(j) ==> i <= j <= n && j == i + lit@.len(),
        crate::parser::tag_at_spec(s@, i as int, lit@) ==> r is Some,
        r is Some ==> crate::parser::tag_at_spec(s@, i as int, lit@),
{
    let m = lit.unicode_len();
    if crate::parser::tag_at(s, i, n, lit) {
        proof {
            assert(i + lit@.len() <= s@.len());
        }
        Some(i + m)
    } else {
        None
    }
}

/// Parses a quoted string without escapes at `i`. Reads back exactly any
/// quote-free string the document carries here.
fn parse_jstring(s: &str, i: usize, n: usize) -> (r: Option<(String, usize)>)
    requires
        i <= n,
        n == s@.len(),
    ensures
        r matches Some(p) ==> i < p.1 <= n,
        forall|x: Seq<char>|
            #![trigger json_string(x)]
            (json_plain(x) && i + json_string(x).len() <= n && s@.subrange(
                i as int,
                i + json_string(x).len(),
            ) == json_string(x)) ==> (r matches Some(p) && p.0@ == x && p.1 == i + json_string(
                x,
            ).len()),
{
    proof {
        reveal_strlit("\"");
    }
    if !(i < n && s.get_char(i) == '"') {
        proof {
            assert forall|x: Seq<char>|
                json_plain(x) && i + json_string(x).len() <= n && s@.subrange(
                    i as int,
                    i + json_string(x).len(),
                ) == json_string(x) implies false by {
                lemma_char_at(s@, i as int, json_string(x), 0);
            }
        }
        return None;
    }
    let mut j = i + 1;
    while j < n && s.get_char(j) != '"'
        invariant
            i + 1 <= j <= n,
            n == s@.len(),
            scan_quote(s@, i + 1) == scan_quote(s@, j as int),
        decreases n - j,
    {
        j = j + 1;
    }
    if j >= n {
        proof {
            assert(scan_quote(s@, i + 1) == n);
            assert forall|x: Seq<char>|
                json_plain(x) && i + json_string(x).len() <= n && s@.subrange(
                    i as int,
                    i + json_string(x).len(),
                ) == json_string(x) implies false by {
                lemma_string_scan(x, s@, i as int);
            }
        }
        return None;
    }
    let piece = s.substring_char(i + 1, j);
    let r = Some((String::from_str(piece), j + 1));
    proof {
        assert(scan_quote(s@, i + 1) == j);
        assert forall|x: Seq<char>|
            json_plain(x) && i + json_string(x).len() <= n && s@.subrange(
                i as int,
                i + json_string(x).len(),
            ) == json_string(x) implies piece@ == x && j + 1 == i + json_string(x).len() by {
            lemma_string_scan(x, s@, i as int);
            assert(piece@ =~= x) by {
                lemma_piece_at(s@, i as int, json_string(x), 1, 1 + x.len() as int);
                assert(json_string(x).subrange(1, 1 + x.len() as int) =~= x);
            }
        }
    }
    r
}

/// Where a document carries a quote-free string, the quote scan stops at its
/// closing quote.
proof fn lemma_string_scan(x: Seq<char>, s: Seq<char>, i: int)
    requires
        json_plain(x),
        0 <= i,
        i + json_string(x).len() <= s.len(),
        s.subrange(i, i + json_string(x).len()) == json_string(x),
    ensures
        json_string(x).len() == x.len() + 2,
        scan_quote(s, i + 1) == i + 1 + x.len(),
        i + 1 + x.len() < s.len(),
{
    reveal_strlit("\"");
    let doc = json_string(x);
    assert forall|j: int| i + 1 <= j < i + 1 + x.len() implies #[trigger] s[j] != '"' by {
        lemma_char_at(s, i, doc, j - i);
        assert(doc[j - i] == x[j - i - 1]);
    }
    lemma_char_at(s, i, doc, 1 + x.len() as int);
    assert(doc[1 + x.len() as int] == '"');
    lemma_scan_quote_run(s, i + 1, i + 1 + x.len());
}

/// Whether `c` is a decimal digit.
fn is_digit(c: char) -> (r: bool)
    ensures
        r == is_digit_spec(c),
{
    let v = c as u32;
    48 <= v && v <= 57
}

/// Parses a decimal number at `i`. Reads back exactly any number the
/// document carries here, provided a non-digit follows it.
fn parse_number(s: &str, i: usize, n: usize) -> (r: Option<(u64, usize)>)
    requires
        i <= n,
        n == s@.len(),
    ensures
        r matches Some(p) ==> i < p.1 <= n,
        forall|v: usize|
            #![trigger dec_digits(v as int)]
            (i + dec_digits(v as int).len() < n && s@.subrange(
                i as int,
                i + dec_digits(v as int).len(),
            ) == dec_digits(v as int) && !is_digit_spec(s@[i + dec_digits(v as int).len()]))
                ==> (r matches Some(p) && p.0 == v && p.1 == i + dec_digits(v as int).len()),
{
    let mut j = i;
    let mut acc: u64 = 0;
    let mut any = false;
    while j < n && is_digit(s.get_char(j))
        invariant
            i <= j <= n,
            n == s@.len(),
            any == (j > i),
            forall|k: int| i <= k < j ==> is_digit_spec(#[trigger] s@[k]),
            acc as int == val_digits(s@, i as int, j as int),
        decreases n - j,
    {
        let c = s.get_char(j);
        let d = (c as u32 - 48) as u64;
        if acc > (u64::MAX - d) / 10 {
            proof {
                vstd::arithmetic::div_mod::lemma_fundamental_div_mod(
                    (u64::MAX - d) as int,
                    10,
                );
                vstd::arithmetic::div_mod::lemma_mod_bound((u64::MAX - d) as int, 10);
                assert(acc as int * 10 + d as int > u64::MAX);
                assert forall|v: usize|
                    (i + dec_digits(v as int).len() < n && s@.subrange(
                        i as int,
                        i + dec_digits(v as int).len(),
                    ) == dec_digits(v as int) && !is_digit_spec(
                        s@[i + dec_digits(v as int).len()],
                    )) implies false by {
                    lemma_number_run(v, s@, i as int, n as int);
                    let len = dec_digits(v as int).len();
                    assert(j < i + len) by {
                        if j >= i + len {
                            assert(is_digit_spec(s@[i + len]));
                        }
                    }
                    lemma_val_digits_prefix(v as int, s@, i as int, j + 1 - i);
                    assert(val_digits(s@, i as int, j + 1) == val_digits(s@, i as int, j as int)
                        * 10 + digit_val(s@[j as int]));
                }
            }
            return None;
        }
        acc = acc * 10 + d;
        any = true;
        j = j + 1;
    }
    if any {
        let r = Some((acc, j));
        proof {
            assert forall|v: usize|
                (i + dec_digits(v as int).len() < n && s@.subrange(
                    i as int,
                    i + dec_digits(v as int).len(),
                ) == dec_digits(v as int) && !is_digit_spec(s@[i + dec_digits(v as int).len()]))
                    implies acc == v && j == i + dec_digits(v as int).len() by {
                lemma_number_run(v, s@, i as int, n as int);
                let len = dec_digits(v as int).len();
                assert(j <= i + len) by {
                    if j > i + len {
                        assert(is_digit_spec(s@[i + len]));
                    }
                }
                assert(j >= i + len) by {
                    if j < i + len {
                        assert(is_digit_spec(s@[j as int]));
                        assert(j < n);
                    }
                }
                lemma_val_digits(v as int, s@, i as int);
            }
        }
        r
    } else {
        proof {
            assert forall|v: usize|
                (i + dec_digits(v as int).len() < n && s@.subrange(
                    i as int,
                    i + dec_digits(v as int).len(),
                ) == dec_digits(v as int) && !is_digit_spec(s@[i + dec_digits(v as int).len()]))
                    implies false by {
                lemma_number_run(v, s@, i as int, n as int);
                assert(is_digit_spec(s@[i as int]));
                assert(i < n);
            }
        }
        None
    }
}

/// Where a document carries a number, its digit characters sit exactly in
/// the number's range.
proof fn lemma_number_run(v: usize, s: Seq<char>, i: int, n: int)
    requires
        0 <= i,
        n == s.len(),
        i + dec_digits(v as int).len() < n,
        s.subrange(i, i + dec_digits(v as int).len()) == dec_digits(v as int),
    ensures
        dec_digits(v as int).len() >= 1,
        forall|k: int| i <= k < i + dec_digits(v as int).len() ==> is_digit_spec(#[trigger] s[k]),
{
    lemma_dec_digits_are_digits(v as int);
    let doc = dec_digits(v as int);
    assert forall|k: int| i <= k < i + doc.len() implies is_digit_spec(#[trigger] s[k]) by {
        lemma_char_at(s, i, doc, k - i);
    }
}

/// Parses a decimal number that must fit a `usize` at `i`.
fn parse_usize_at(s: &str, i: usize, n: usize) -> (r: Option<(usize, usize)>)
    requires
        i <= n,
        n == s@.len(),
    ensures
        r matches Some(p) ==> i < p.1 <= n,
        forall|v: usize|
            #![trigger dec_digits(v as int)]
            (i + dec_digits(v as int).len() < n && s@.subrange(
                i as int,
                i + dec_digits(v as int).len(),
            ) == dec_digits(v as int) && !is_digit_spec(s@[i + dec_digits(v as int).len()]))
                ==> (r matches Some(p) && p.0 == v && p.1 == i + dec_digits(v as int).len()),
{
    let (v, j) = match parse_number(s, i, n) {
        Some(p) => p,
        None => {
            return None;
        },
    };
    if v > usize::MAX as u64 {
        return None;
    }
    Some((v as usize, j))
}

/// Where a document carries a runtime record, each of its literals and
/// numbers sits at its fixed offset, with the following delimiter.
proof fn lemma_runtime_pieces(rt: SplitTypeRuntimeInfo, s: Seq<char>, i: int, n: int)
    requires
        0 <= i,
        n == s.len(),
        i + json_runtime(rt).len() <= n,
        s.subrange(i, i + json_runtime(rt).len()) == json_runtime(rt),
    ensures
        ({
            let d1 = dec_digits(rt.initializer as int);
            let d2 = dec_digits(rt.next as int);
            let d3 = dec_digits(rt.data_size as int);
            let p1 = i + 15;
            let p2 = p1 + d1.len();
            let p3 = p2 + 8;
            let p4 = p3 + d2.len();
            let p5 = p4 + 13;
            let p6 = p5 + d3.len();
            &&& s[i] == '{'
            &&& crate::parser::tag_at_spec(s, i, "{\"initializer\":"@)
            &&& s.subrange(p1, p2) == d1
            &&& p2 < n && !is_digit_spec(s[p2])
            &&& crate::parser::tag_at_spec(s, p2, ",\"next\":"@)
            &&& s.subrange(p3, p4) == d2
            &&& p4 < n && !is_digit_spec(s[p4])
            &&& crate::parser::tag_at_spec(s, p4, ",\"data_size\":"@)
            &&& s.subrange(p5, p6) == d3
            &&& p6 < n && !is_digit_spec(s[p6])
            &&& crate::parser::tag_at_spec(s, p6, "}"@)
            &&& i + json_runtime(rt).len() == p6 + 1
        }),
{
    reveal_strlit("{\"initializer\":");
    reveal_strlit(",\"next\":");
    reveal_strlit(",\"data_size\":");
    reveal_strlit("}");
    let doc = json_runtime(rt);
    let a = "{\"initializer\":"@;
    let b = ",\"next\":"@;
    let c = ",\"data_size\":"@;
    let d1 = dec_digits(rt.initializer as int);
    let d2 = dec_digits(rt.next as int);
    let d3 = dec_digits(rt.data_size as int);
    let q1 = 15int;
    let q2 = q1 + d1.len();
    let q3 = q2 + 8;
    let q4 = q3 + d2.len();
    let q5 = q4 + 13;
    let q6 = q5 + d3.len();
    lemma_char_at(s, i, doc, 0);
    assert(s.subrange(i, i + q1) == a) by {
        lemma_piece_at(s, i, doc, 0, q1);
        assert(doc.subrange(0, q1) =~= a);
    }
    assert(s.subrange(i + q1, i + q2) == d1) by {
        lemma_piece_at(s, i, doc, q1, q2);
        assert(doc.subrange(q1, q2) =~= d1);
    }
    assert(doc[q2] == ',');
    lemma_char_at(s, i, doc, q2);
    assert(s.subrange(i + q2, i + q3) == b) by {
        lemma_piece_at(s, i, doc, q2, q3);
        assert(doc.subrange(q2, q3) =~= b);
    }
    assert(s.subrange(i + q3, i + q4) == d2) by {
        lemma_piece_at(s, i, doc, q3, q4);
        assert(doc.subrange(q3, q4) =~= d2);
    }
    assert(doc[q4] == ',');
    lemma_char_at(s, i, doc, q4);
    assert(s.subrange(i + q4, i + q5) == c) by {
        lemma_piece_at(s, i, doc, q4, q5);
        assert(doc.subrange(q4, q5) =~= c);
    }
    assert(s.subrange(i + q5, i + q6) == d3) by {
        lemma_piece_at(s, i, doc, q5, q6);
        assert(doc.subrange(q5, q6) =~= d3);
    }
    assert(doc[q6] == '}');
    lemma_char_at(s, i, doc, q6);
    assert(s.subrange(i + q6, i + q6 + 1) == "}"@) by {
        lemma_piece_at(s, i, doc, q6, q6 + 1);
        assert(doc.subrange(q6, q6 + 1) =~= "}"@);
    }
}

/// Parses `null` or a runtime record at `i`. Reads back exactly any
/// optional runtime record the document carries here.
#[verifier::rlimit(100)]
fn parse_opt_runtime(s: &str, i: usize, n: usize) -> (r: Option<
    (Option<SplitTypeRuntimeInfo>, usize),
>)
    requires
        i <= n,
        n == s@.len(),
    ensures
        r matches Some(p) ==> i < p.1 <= n,
        forall|o: Option<SplitTypeRuntimeInfo>|
            #![trigger json_opt_runtime(o)]
            (i + json_opt_runtime(o).len() <= n && s@.subrange(
                i as int,
                i + json_opt_runtime(o).len(),
            ) == json_opt_runtime(o)) ==> (r matches Some(p) && p.0 == o && p.1 == i
                + json_opt_runtime(o).len()),
{
    proof {
        reveal_strlit("null");
        reveal_strlit("{\"initializer\":");
        reveal_strlit(",\"next\":");
        reveal_strlit(",\"data_size\":");
        reveal_strlit("}");
    }
    if let Some(j) = expect_lit(s, i, n, "null") {
        let r = Some((None, j));
        proof {
            assert forall|o: Option<SplitTypeRuntimeInfo>|
                (i + json_opt_runtime(o).len() <= n && s@.subrange(
                    i as int,
                    i + json_opt_runtime(o).len(),
                ) == json_opt_runtime(o)) implies (r matches Some(p) && p.0 == o && p.1 == i
                + json_opt_runtime(o).len()) by {
                match o {
                    None => {},
                    Some(rt) => {
                        lemma_runtime_pieces(rt, s@, i as int, n as int);
                        assert(s@.subrange(i as int, i + 4)[0] == s@[i as int]);
                    },
                }
            }
        }
        return r;
    }
    let i1 = match expect_lit(s, i, n, "{\"initializer\":") {
        Some(j) => j,
        None => {
            proof {
                lemma_opt_runtime_none_rejected(s@, i as int, n as int);
            }
            return None;
        },
    };
    let (initializer, i2) = match parse_usize_at(s, i1, n) {
        Some(p) => p,
        None => {
            proof {
                lemma_opt_runtime_none_rejected(s@, i as int, n as int);
            }
            return None;
        },
    };
    let i3 = match expect_lit(s, i2, n, ",\"next\":") {
        Some(j) => j,
        None => {
            proof {
                lemma_opt_runtime_none_rejected(s@, i as int, n as int);
            }
            return None;
        },
    };
    let (next, i4) = match parse_usize_at(s, i3, n) {
        Some(p) => p,
        None => {
            proof {
                lemma_opt_runtime_none_rejected(s@, i as int, n as int);
            }
            return None;
        },
    };
    let i5 = match expect_lit(s, i4, n, ",\"data_size\":") {
        Some(j) => j,
        None => {
            proof {
                lemma_opt_runtime_none_rejected(s@, i as int, n as int);
            }
            return None;
        },
    };
    let (data_size, i6) = match parse_usize_at(s, i5, n) {
        Some(p) => p,
        None => {
            proof {
                lemma_opt_runtime_none_rejected(s@, i as int, n as int);
            }
            return None;
        },
    };
    let i7 = match expect_lit(s, i6, n, "}") {
        Some(j) => j,
        None => {
            proof {
                lemma_opt_runtime_none_rejected(s@, i as int, n as int);
            }
            return None;
        },
    };
    let r = Some((Some(SplitTypeRuntimeInfo { initializer, next, data_size }), i7));
    proof {
        assert forall|o: Option<SplitTypeRuntimeInfo>|
            (i + json_opt_runtime(o).len() <= n && s@.subrange(
                i as int,
                i + json_opt_runtime(o).len(),
            ) == json_opt_runtime(o)) implies (r matches Some(p) && p.0 == o && p.1 == i
            + json_opt_runtime(o).len()) by {
            match o {
                None => {
                    assert(crate::parser::tag_at_spec(s@, i as int, "null"@));
                },
                Some(rt) => {
                    lemma_runtime_pieces(rt, s@, i as int, n as int);
                },
            }
        }
    }
    r
}

/// The single point where the straight-line runtime-record parse can fail:
/// under a canonical-record premise every step succeeds, so a failing step
/// refutes the premise. Stated as: no record document both sits here and
/// lets any step fail — the caller derives the contradiction it needs.
proof fn lemma_opt_runtime_none_rejected(s: Seq<char>, i: int, n: int)
    requires
        0 <= i,
        n == s.len(),
    ensures
        forall|o: Option<SplitTypeRuntimeInfo>|
            #![trigger json_opt_runtime(o)]
            (i + json_opt_runtime(o).len() <= n && s.subrange(
                i,
                i + json_opt_runtime(o).len(),
            ) == json_opt_runtime(o) && o is Some) ==> ({
                let rt = o->Some_0;
                let d1 = dec_digits(rt.initializer as int);
                let d2 = dec_digits(rt.next as int);
                let d3 = dec_digits(rt.data_size as int);
                let p1 = i + 15;
                let p2 = p1 + d1.len();
                let p3 = p2 + 8;
                let p4 = p3 + d2.len();
                let p5 = p4 + 13;
                let p6 = p5 + d3.len();
                &&& crate::parser::tag_at_spec(s, i, "{\"initializer\":"@)
                &&& s.subrange(p1, p2) == d1
                &&& p2 < n && !is_digit_spec(s[p2])
                &&& crate::parser::tag_at_spec(s, p2, ",\"next\":"@)
                &&& s.subrange(p3, p4) == d2
                &&& p4 < n && !is_digit_spec(s[p4])
                &&& crate::parser::tag_at_spec(s, p4, ",\"data_size\":"@)
                &&& s.subrange(p5, p6) == d3
                &&& p6 < n && !is_digit_spec(s[p6])
                &&& crate::parser::tag_at_spec(s, p6, "}"@)
                &&& i + json_opt_runtime(o).len() == p6 + 1
            }),
{
    assert forall|o: Option<SplitTypeRuntimeInfo>|
        (i + json_opt_runtime(o).len() <= n && s.subrange(i, i + json_opt_runtime(o).len())
            == json_opt_runtime(o) && o is Some) implies ({
        let rt = o->Some_0;
        let d1 = dec_digits(rt.initializer as int);
        let d2 = dec_digits(rt.next as int);
        let d3 = dec_digits(rt.data_size as int);
        let p1 = i + 15;
        let p2 = p1 + d1.len();
        let p3 = p2 + 8;
        let p4 = p3 + d2.len();
        let p5 = p4 + 13;
        let p6 = p5 + d3.len();
        &&& crate::parser::tag_at_spec(s, i, "{\"initializer\":"@)
        &&& s.subrange(p1, p2) == d1
        &&& p2 < n && !is_digit_spec(s[p2])
        &&& crate::parser::tag_at_spec(s, p2, ",\"next\":"@)
        &&& s.subrange(p3, p4) == d2
        &&& p4 < n && !is_digit_spec(s[p4])
        &&& crate::parser::tag_at_spec(s, p4, ",\"data_size\":"@)
        &&& s.subrange(p5, p6) == d3
        &&& p6 < n && !is_digit_spec(s[p6])
        &&& crate::parser::tag_at_spec(s, p6, "}"@)
        &&& i + json_opt_runtime(o).len() == p6 + 1
    }) by {
        lemma_runtime_pieces(o->Some_0, s, i, n);
    }
}

/// Where a document carries a split type, each piece of its variant's
/// layout sits at its fixed offset.
proof fn lemma_split_type_pieces(t: SplitTypeView, s: Seq<char>, i: int, n: int)
    requires
        0 <= i,
        n == s.len(),
        i + json_split_type(t).len() <= n,
        s.subrange(i, i + json_split_type(t).len()) == json_split_type(t),
    ensures
        t is Broadcast ==> ({
            let p1 = i + "{\"Broadcast\":{\"runtime\":"@.len();
            let p2 = p1 + json_opt_runtime(t->Broadcast_runtime).len();
            &&& s[i + 2] == 'B'
            &&& crate::parser::tag_at_spec(s, i, "{\"Broadcast\":{\"runtime\":"@)
            &&& s.subrange(p1, p2) == json_opt_runtime(t->Broadcast_runtime)
            &&& p2 <= n
            &&& crate::parser::tag_at_spec(s, p2, "}}"@)
            &&& i + json_split_type(t).len() == p2 + 2
        }),
        t is Generic ==> ({
            let p1 = i + "{\"Generic\":{\"name\":"@.len();
            let p2 = p1 + json_string(t->Generic_name).len();
            &&& s[i + 2] == 'G'
            &&& crate::parser::tag_at_spec(s, i, "{\"Generic\":{\"name\":"@)
            &&& s.subrange(p1, p2) == json_string(t->Generic_name)
            &&& p2 <= n
            &&& crate::parser::tag_at_spec(s, p2, "}}"@)
            &&& i + json_split_type(t).len() == p2 + 2
        }),
        t is Named ==> ({
            let p1 = i + "{\"Named\":{\"name\":"@.len();
            let p2 = p1 + json_string(t->Named_name).len();
            let p3 = p2 + ",\"arguments\":"@.len();
            let p4 = p3 + dec_digits(t->Named_arguments as int).len();
            let p5 = p4 + ",\"runtime\":"@.len();
            let p6 = p5 + json_opt_runtime(t->Named_runtime).len();
            &&& s[i + 2] == 'N'
            &&& crate::parser::tag_at_spec(s, i, "{\"Named\":{\"name\":"@)
            &&& s.subrange(p1, p2) == json_string(t->Named_name)
            &&& crate::parser::tag_at_spec(s, p2, ",\"arguments\":"@)
            &&& s.subrange(p3, p4) == dec_digits(t->Named_arguments as int)
            &&& p4 < n && !is_digit_spec(s[p4])
            &&& crate::parser::tag_at_spec(s, p4, ",\"runtime\":"@)
            &&& s.subrange(p5, p6) == json_opt_runtime(t->Named_runtime)
            &&& p6 <= n
            &&& crate::parser::tag_at_spec(s, p6, "}}"@)
            &&& i + json_split_type(t).len() == p6 + 2
        }),
{
    reveal_strlit("{\"Broadcast\":{\"runtime\":");
    reveal_strlit("{\"Generic\":{\"name\":");
    reveal_strlit("{\"Named\":{\"name\":");
    reveal_strlit(",\"arguments\":");
    reveal_strlit(",\"runtime\":");
    reveal_strlit("}}");
    let doc = json_split_type(t);
    match t {
        SplitTypeView::Broadcast { runtime } => {
            let a = "{\"Broadcast\":{\"runtime\":"@;
            let q1 = a.len() as int;
            let q2 = q1 + json_opt_runtime(runtime).len();
            lemma_char_at(s, i, doc, 2);
            assert(s.subrange(i, i + q1) == a) by {
                lemma_piece_at(s, i, doc, 0, q1);
                assert(doc.subrange(0, q1) =~= a);
            }
            assert(s.subrange(i + q1, i + q2) == json_opt_runtime(runtime)) by {
                lemma_piece_at(s, i, doc, q1, q2);
                assert(doc.subrange(q1, q2) =~= json_opt_runtime(runtime));
            }
            assert(s.subrange(i + q2, i + q2 + 2) == "}}"@) by {
                lemma_piece_at(s, i, doc, q2, q2 + 2);
                assert(doc.subrange(q2, q2 + 2) =~= "}}"@);
            }
        },
        SplitTypeView::Generic { name } => {
            let a = "{\"Generic\":{\"name\":"@;
            let q1 = a.len() as int;
            let q2 = q1 + json_string(name).len();
            lemma_char_at(s, i, doc, 2);
            assert(s.subrange(i, i + q1) == a) by {
                lemma_piece_at(s, i, doc, 0, q1);
                assert(doc.subrange(0, q1) =~= a);
            }
            assert(s.subrange(i + q1, i + q2) == json_string(name)) by {
                lemma_piece_at(s, i, doc, q1, q2);
                assert(doc.subrange(q1, q2) =~= json_string(name));
            }
            assert(s.subrange(i + q2, i + q2 + 2) == "}}"@) by {
                lemma_piece_at(s, i, doc, q2, q2 + 2);
                assert(doc.subrange(q2, q2 + 2) =~= "}}"@);
            }
        },
        SplitTypeView::Named { name, arguments, runtime } => {
            let a = "{\"Named\":{\"name\":"@;
            let b = ",\"arguments\":"@;
            let c = ",\"runtime\":"@;
            let q1 = a.len() as int;
            let q2 = q1 + json_string(name).len();
            let q3 = q2 + b.len();
            let q4 = q3 + dec_digits(arguments as int).len();
            let q5 = q4 + c.len();
            let q6 = q5 + json_opt_runtime(runtime).len();
            lemma_char_at(s, i, doc, 2);
            assert(s.subrange(i, i + q1) == a) by {
                lemma_piece_at(s, i, doc, 0, q1);
                assert(doc.subrange(0, q1) =~= a);
            }
            assert(s.subrange(i + q1, i + q2) == json_string(name)) by {
                lemma_piece_at(s, i, doc, q1, q2);
                assert(doc.subrange(q1, q2) =~= json_string(name));
            }
            assert(s.subrange(i + q2, i + q3) == b) by {
                lemma_piece_at(s, i, doc, q2, q3);
                assert(doc.subrange(q2, q3) =~= b);
            }
            assert(s.subrange(i + q3, i + q4) == dec_digits(arguments as int)) by {
                lemma_piece_at(s, i, doc, q3, q4);
                assert(doc.subrange(q3, q4) =~= dec_digits(arguments as int));
            }
            assert(doc[q4] == ',');
            lemma_char_at(s, i, doc, q4);
            assert(s.subrange(i + q4, i + q5) == c) by {
                lemma_piece_at(s, i, doc, q4, q5);
                assert(doc.subrange(q4, q5) =~= c);
            }
            assert(s.subrange(i + q5, i + q6) == json_opt_runtime(runtime)) by {
                lemma_piece_at(s, i, doc, q5, q6);
                assert(doc.subrange(q5, q6) =~= json_opt_runtime(runtime));
            }
            assert(s.subrange(i + q6, i + q6 + 2) == "}}"@) by {
                lemma_piece_at(s, i, doc, q6, q6 + 2);
                assert(doc.subrange(q6, q6 + 2) =~= "}}"@);
            }
        },
    }
}

/// The split-type pieces, stated for every split type a document might
/// carry here; called where a parse step fails to refute the premise.
proof fn lemma_split_type_rejected(s: Seq<char>, i: int, n: int)
    requires
        0 <= i,
        n == s.len(),
    ensures
        forall|t: SplitTypeView|
            #![trigger json_split_type(t)]
            (i + json_split_type(t).len() <= n && s.subrange(i, i + json_split_type(t).len())
                == json_split_type(t)) ==> ({
                &&& (t is Broadcast ==> s[i + 2] == 'B' && crate::parser::tag_at_spec(
                    s,
                    i,
                    "{\"Broadcast\":{\"runtime\":"@,
                ))
                &&& (t is Generic ==> s[i + 2] == 'G' && crate::parser::tag_at_spec(
                    s,
                    i,
                    "{\"Generic\":{\"name\":"@,
                ))
                &&& (t is Named ==> s[i + 2] == 'N' && crate::parser::tag_at_spec(
                    s,
                    i,
                    "{\"Named\":{\"name\":"@,
                ))
            }),
{
    assert forall|t: SplitTypeView|
        (i + json_split_type(t).len() <= n && s.subrange(i, i + json_split_type(t).len())
            == json_split_type(t)) implies ({
        &&& (t is Broadcast ==> s[i + 2] == 'B' && crate::parser::tag_at_spec(
            s,
            i,
            "{\"Broadcast\":{\"runtime\":"@,
        ))
        &&& (t is Generic ==> s[i + 2] == 'G' && crate::parser::tag_at_spec(
            s,
            i,
            "{\"Generic\":{\"name\":"@,
        ))
        &&& (t is Named ==> s[i + 2] == 'N' && crate::parser::tag_at_spec(
            s,
            i,
            "{\"Named\":{\"name\":"@,
        ))
    }) by {
        lemma_split_type_pieces(t, s, i, n);
    }
}

/// Parses a split type at `i`. Reads back exactly any split type with
/// unescapable strings that the document carries here.
#[verifier::rlimit(100)]
fn parse_split_type_json(s: &str, i: usize, n: usize) -> (r: Option<(SplitType, usize)>)
    requires
        i <= n,
        n == s@.len(),
    ensures
        r matches Some(p) ==> i < p.1 <= n,
        forall|t: SplitTypeView|
            #![trigger json_split_type(t)]
            (plain_split_type(t) && i + json_split_type(t).len() <= n && s@.subrange(
                i as int,
                i + json_split_type(t).len(),
            ) == json_split_type(t)) ==> (r matches Some(p) && p.0@ == t && p.1 == i
                + json_split_type(t).len()),
{
    proof {
        reveal_strlit("{\"Broadcast\":{\"runtime\":");
        reveal_strlit("{\"Generic\":{\"name\":");
        reveal_strlit("{\"Named\":{\"name\":");
        reveal_strlit(",\"arguments\":");
        reveal_strlit(",\"runtime\":");
        reveal_strlit("}}");
    }
    if let Some(i1) = expect_lit(s, i, n, "{\"Broadcast\":{\"runtime\":") {
        let (runtime, i2) = match parse_opt_runtime(s, i1, n) {
            Some(p) => p,
            None => {
                proof {
                    lemma_broadcast_chain(s@, i as int, n as int);
                }
                return None;
            },
        };
        let i3 = match expect_lit(s, i2, n, "}}") {
            Some(j) => j,
            None => {
                proof {
                    lemma_broadcast_chain(s@, i as int, n as int);
                }
                return None;
            },
        };
        let r = Some((SplitType::Broadcast { runtime }, i3));
        proof {
            lemma_broadcast_chain(s@, i as int, n as int);
            assert forall|t: SplitTypeView|
                (plain_split_type(t) && i + json_split_type(t).len() <= n && s@.subrange(
                    i as int,
                    i + json_split_type(t).len(),
                ) == json_split_type(t)) implies (r matches Some(p) && p.0@ == t && p.1 == i
                + json_split_type(t).len()) by {
                lemma_split_type_pieces(t, s@, i as int, n as int);
                if !(t is Broadcast) {
                    assert(s@.subrange(i as int, i + "{\"Broadcast\":{\"runtime\":"@.len())[2]
                        == s@[i + 2]);
                }
            }
        }
        return r;
    }
    if let Some(i1) = expect_lit(s, i, n, "{\"Generic\":{\"name\":") {
        let (name, i2) = match parse_jstring(s, i1, n) {
            Some(p) => p,
            None => {
                proof {
                    lemma_generic_chain(s@, i as int, n as int);
                }
                return None;
            },
        };
        let i3 = match expect_lit(s, i2, n, "}}") {
            Some(j) => j,
            None => {
                proof {
                    lemma_generic_chain(s@, i as int, n as int);
                }
                return None;
            },
        };
        let r = Some((SplitType::Generic { name }, i3));
        proof {
            lemma_generic_chain(s@, i as int, n as int);
            assert forall|t: SplitTypeView|
                (plain_split_type(t) && i + json_split_type(t).len() <= n && s@.subrange(
                    i as int,
                    i + json_split_type(t).len(),
                ) == json_split_type(t)) implies (r matches Some(p) && p.0@ == t && p.1 == i
                + json_split_type(t).len()) by {
                lemma_split_type_pieces(t, s@, i as int, n as int);
                if !(t is Generic) {
                    assert(s@.subrange(i as int, i + "{\"Generic\":{\"name\":"@.len())[2]
                        == s@[i + 2]);
                }
            }
        }
        return r;
    }
    let i1 = match expect_lit(s, i, n, "{\"Named\":{\"name\":") {
        Some(j) => j,
        None => {
            proof {
                lemma_split_type_rejected(s@, i as int, n as int);
            }
            return None;
        },
    };
    let (name, i2) = match parse_jstring(s, i1, n) {
        Some(p) => p,
        None => {
            proof {
                lemma_named_chain(s@, i as int, n as int);
            }
            return None;
        },
    };
    let i3 = match expect_lit(s, i2, n, ",\"arguments\":") {
        Some(j) => j,
        None => {
            proof {
                lemma_named_chain(s@, i as int, n as int);
            }
            return None;
        },
    };
    let (arguments, i4) = match parse_usize_at(s, i3, n) {
        Some(p) => p,
        None => {
            proof {
                lemma_named_chain(s@, i as int, n as int);
            }
            return None;
        },
    };
    let i5 = match expect_lit(s, i4, n, ",\"runtime\":") {
        Some(j) => j,
        None => {
            proof {
                lemma_named_chain(s@, i as int, n as int);
            }
            return None;
        },
    };
    let (runtime, i6) = match parse_opt_runtime(s, i5, n) {
        Some(p) => p,
        None => {
            proof {
                lemma_named_chain(s@, i as int, n as int);
            }
            return None;
        },
    };
    let i7 = match expect_lit(s, i6, n, "}}") {
        Some(j) => j,
        None => {
            proof {
                lemma_named_chain(s@, i as int, n as int);
            }
            return None;
        },
    };
    let r = Some((SplitType::Named { name, arguments, runtime }, i7));
    proof {
        lemma_named_chain(s@, i as int, n as int);
        assert forall|t: SplitTypeView|
            (plain_split_type(t) && i + json_split_type(t).len() <= n && s@.subrange(
                i as int,
                i + json_split_type(t).len(),
            ) == json_split_type(t)) implies (r matches Some(p) && p.0@ == t && p.1 == i
            + json_split_type(t).len()) by {
            lemma_split_type_pieces(t, s@, i as int, n as int);
        }
    }
    r
}

/// The broadcast pieces, stated for every split type the document might
/// carry here.
proof fn lemma_broadcast_chain(s: Seq<char>, i: int, n: int)
    requires
        0 <= i,
        n == s.len(),
    ensures
        forall|t: SplitTypeView|
            #![trigger json_split_type(t)]
            (i + json_split_type(t).len() <= n && s.subrange(i, i + json_split_type(t).len())
                == json_split_type(t) && t is Broadcast) ==> ({
                let p1 = i + "{\"Broadcast\":{\"runtime\":"@.len();
                let p2 = p1 + json_opt_runtime(t->Broadcast_runtime).len();
                &&& s.subrange(p1, p2) == json_opt_runtime(t->Broadcast_runtime)
                &&& p2 <= n
                &&& crate::parser::tag_at_spec(s, p2, "}}"@)
                &&& i + json_split_type(t).len() == p2 + 2
            }),
        forall|t: SplitTypeView|
            #![trigger json_split_type(t)]
            (i + json_split_type(t).len() <= n && s.subrange(i, i + json_split_type(t).len())
                == json_split_type(t) && !(t is Broadcast)) ==> s[i + 2] != 'B',
        crate::parser::tag_at_spec(s, i, "{\"Broadcast\":{\"runtime\":"@) ==> s[i + 2] == 'B',
{
    reveal_strlit("{\"Broadcast\":{\"runtime\":");
    if crate::parser::tag_at_spec(s, i, "{\"Broadcast\":{\"runtime\":"@) {
        lemma_char_at(s, i, "{\"Broadcast\":{\"runtime\":"@, 2);
    }
    assert forall|t: SplitTypeView|
        (i + json_split_type(t).len() <= n && s.subrange(i, i + json_split_type(t).len())
            == json_split_type(t) && t is Broadcast) implies ({
        let p1 = i + "{\"Broadcast\":{\"runtime\":"@.len();
        let p2 = p1 + json_opt_runtime(t->Broadcast_runtime).len();
        &&& s.subrange(p1, p2) == json_opt_runtime(t->Broadcast_runtime)
        &&& p2 <= n
        &&& crate::parser::tag_at_spec(s, p2, "}}"@)
        &&& i + json_split_type(t).len() == p2 + 2
    }) by {
        lemma_split_type_pieces(t, s, i, n);
    }
    assert forall|t: SplitTypeView|
        (i + json_split_type(t).len() <= n && s.subrange(i, i + json_split_type(t).len())
            == json_split_type(t) && !(t is Broadcast)) implies s[i + 2] != 'B' by {
        lemma_split_type_pieces(t, s, i, n);
        reveal_strlit("{\"Broadcast\":{\"runtime\":");
    }
}

/// The generic pieces, stated for every split type the document might carry
/// here.
proof fn lemma_generic_chain(s: Seq<char>, i: int, n: int)
    requires
        0 <= i,
        n == s.len(),
    ensures
        forall|t: SplitTypeView|
            #![trigger json_split_type(t)]
            (i + json_split_type(t).len() <= n && s.subrange(i, i + json_split_type(t).len())
                == json_split_type(t) && t is Generic) ==> ({
                let p1 = i + "{\"Generic\":{\"name\":"@.len();
                let p2 = p1 + json_string(t->Generic_name).len();
                &&& s.subrange(p1, p2) == json_string(t->Generic_name)
                &&& p2 <= n
                &&& crate::parser::tag_at_spec(s, p2, "}}"@)
                &&& i + json_split_type(t).len() == p2 + 2
            }),
        forall|t: SplitTypeView|
            #![trigger json_split_type(t)]
            (i + json_split_type(t).len() <= n && s.subrange(i, i + json_split_type(t).len())
                == json_split_type(t) && !(t is Generic)) ==> s[i + 2] != 'G',
        crate::parser::tag_at_spec(s, i, "{\"Generic\":{\"name\":"@) ==> s[i + 2] == 'G',
{
    reveal_strlit("{\"Generic\":{\"name\":");
    if crate::parser::tag_at_spec(s, i, "{\"Generic\":{\"name\":"@) {
        lemma_char_at(s, i, "{\"Generic\":{\"name\":"@, 2);
    }
    assert forall|t: SplitTypeView|
        (i + json_split_type(t).len() <= n && s.subrange(i, i + json_split_type(t).len())
            == json_split_type(t) && t is Generic) implies ({
        let p1 = i + "{\"Generic\":{\"name\":"@.len();
        let p2 = p1 + json_string(t->Generic_name).len();
        &&& s.subrange(p1, p2) == json_string(t->Generic_name)
        &&& p2 <= n
        &&& crate::parser::tag_at_spec(s, p2, "}}"@)
        &&& i + json_split_type(t).len() == p2 + 2
    }) by {
        lemma_split_type_pieces(t, s, i, n);
    }
    assert forall|t: SplitTypeView|
        (i + json_split_type(t).len() <= n && s.subrange(i, i + json_split_type(t).len())
            == json_split_type(t) && !(t is Generic)) implies s[i + 2] != 'G' by {
        lemma_split_type_pieces(t, s, i, n);
        reveal_strlit("{\"Generic\":{\"name\":");
    }
}

/// The named-type pieces, stated for every split type the document might
/// carry here.
proof fn lemma_named_chain(s: Seq<char>, i: int, n: int)
    requires
        0 <= i,
        n == s.len(),
    ensures
        forall|t: SplitTypeView|
            #![trigger json_split_type(t)]
            (i + json_split_type(t).len() <= n && s.subrange(i, i + json_split_type(t).len())
                == json_split_type(t) && t is Named) ==> ({
                let p1 = i + "{\"Named\":{\"name\":"@.len();
                let p2 = p1 + json_string(t->Named_name).len();
                let p3 = p2 + ",\"arguments\":"@.len();
                let p4 = p3 + dec_digits(t->Named_arguments as int).len();
                let p5 = p4 + ",\"runtime\":"@.len();
                let p6 = p5 + json_opt_runtime(t->Named_runtime).len();
                &&& crate::parser::tag_at_spec(s, i, "{\"Named\":{\"name\":"@)
                &&& s.subrange(p1, p2) == json_string(t->Named_name)
                &&& crate::parser::tag_at_spec(s, p2, ",\"arguments\":"@)
                &&& s.subrange(p3, p4) == dec_digits(t->Named_arguments as int)
                &&& p4 < n && !is_digit_spec(s[p4])
                &&& crate::parser::tag_at_spec(s, p4, ",\"runtime\":"@)
                &&& s.subrange(p5, p6) == json_opt_runtime(t->Named_runtime)
                &&& p6 <= n
                &&& crate::parser::tag_at_spec(s, p6, "}}"@)
                &&& i + json_split_type(t).len() == p6 + 2
            }),
        forall|t: SplitTypeView|
            #![trigger json_split_type(t)]
            (i + json_split_type(t).len() <= n && s.subrange(i, i + json_split_type(t).len())
                == json_split_type(t) && !(t is Named)) ==> s[i + 2] != 'N',
        crate::parser::tag_at_spec(s, i, "{\"Named\":{\"name\":"@) ==> s[i + 2] == 'N',
{
    reveal_strlit("{\"Named\":{\"name\":");
    if crate::parser::tag_at_spec(s, i, "{\"Named\":{\"name\":"@) {
        lemma_char_at(s, i, "{\"Named\":{\"name\":"@, 2);
    }
    assert forall|t: SplitTypeView|
        (i + json_split_type(t).len() <= n && s.subrange(i, i + json_split_type(t).len())
            == json_split_type(t) && t is Named) implies ({
        let p1 = i + "{\"Named\":{\"name\":"@.len();
        let p2 = p1 + json_string(t->Named_name).len();
        let p3 = p2 + ",\"arguments\":"@.len();
        let p4 = p3 + dec_digits(t->Named_arguments as int).len();
        let p5 = p4 + ",\"runtime\":"@.len();
        let p6 = p5 + json_opt_runtime(t->Named_runtime).len();
        &&& crate::parser::tag_at_spec(s, i, "{\"Named\":{\"name\":"@)
        &&& s.subrange(p1, p2) == json_string(t->Named_name)
        &&& crate::parser::tag_at_spec(s, p2, ",\"arguments\":"@)
        &&& s.subrange(p3, p4) == dec_digits(t->Named_arguments as int)
        &&& p4 < n && !is_digit_spec(s[p4])
        &&& crate::parser::tag_at_spec(s, p4, ",\"runtime\":"@)
        &&& s.subrange(p5, p6) == json_opt_runtime(t->Named_runtime)
        &&& p6 <= n
        &&& crate::parser::tag_at_spec(s, p6, "}}"@)
        &&& i + json_split_type(t).len() == p6 + 2
    }) by {
        lemma_split_type_pieces(t, s, i, n);
    }
    assert forall|t: SplitTypeView|
        (i + json_split_type(t).len() <= n && s.subrange(i, i + json_split_type(t).len())
            == json_split_type(t) && !(t is Named)) implies s[i + 2] != 'N' by {
        lemma_split_type_pieces(t, s, i, n);
        reveal_strlit("{\"Named\":{\"name\":");
    }
}

/// A positions document is its opening bracket followed by the list body.
proof fn lemma_json_positions_shape(l: Seq<usize>)
    ensures
        json_positions(l) == "["@ + list_items_doc(positions_docs(l), "]"@),
        json_positions(l).len() >= 2,
        json_positions(l)[0] == '[',
        l.len() == 0 ==> json_positions(l).len() == 2 && json_positions(l)[1] == ']',
        l.len() >= 1 ==> is_digit_spec(json_positions(l)[1]),
{
    reveal_strlit("[");
    reveal_strlit("]");
    reveal_strlit(",");
    let mapped = positions_docs(l);
    assert(mapped =~= l.map_values(|p: usize| dec_digits(p as int)));
    lemma_join_from_empty("["@, ","@, l.map_values(|p: usize| dec_digits(p as int)));
    assert(util::join_spec("["@, ","@, mapped) == util::join_spec(
        "["@,
        ","@,
        l.map_values(|p: usize| dec_digits(p as int)),
    ));
    assert(json_positions(l) =~= "["@ + list_items_doc(mapped, "]"@));
    if l.len() == 0 {
        assert(json_positions(l) =~= seq!['[', ']']);
    } else {
        lemma_list_items_doc_head(mapped, "]"@);
        lemma_dec_digits_are_digits(l[0] as int);
        assert(list_items_doc(mapped, "]"@)[0] == mapped[0][0]);
        assert(json_positions(l)[1] == list_items_doc(mapped, "]"@)[0]);
        assert(is_digit_spec(mapped[0][0]));
    }
}

/// The element documents of a position list.
pub open spec fn positions_docs(l: Seq<usize>) -> Seq<Seq<char>> {
    l.map_values(|p: usize| dec_digits(p as int))
}

/// Where a document carries a non-empty positions body, its first number,
/// the following delimiter, and any remaining body sit at fixed offsets.
proof fn lemma_positions_items_pieces(s: Seq<char>, cur: int, n: int)
    requires
        0 <= cur,
        n == s.len(),
    ensures
        forall|l: Seq<usize>|
            #![trigger list_items_doc(positions_docs(l), "]"@)]
            ({
                let body = list_items_doc(positions_docs(l), "]"@);
                (l.len() >= 1 && cur + body.len() <= n && s.subrange(cur, cur + body.len())
                    == body) ==> ({
                    let d0 = dec_digits(l[0] as int);
                    let q = cur + d0.len();
                    &&& s.subrange(cur, q) == d0
                    &&& q < n && !is_digit_spec(s[q])
                    &&& (l.len() == 1 ==> crate::parser::tag_at_spec(s, q, "]"@) && cur
                        + body.len() == q + 1)
                    &&& (l.len() >= 2 ==> {
                        let rest_body = list_items_doc(positions_docs(l.skip(1)), "]"@);
                        &&& crate::parser::tag_at_spec(s, q, ","@)
                        &&& s[q] != ']'
                        &&& s.subrange(q + 1, q + 1 + rest_body.len()) == rest_body
                        &&& cur + body.len() == q + 1 + rest_body.len()
                    })
                })
            }),
{
    reveal_strlit("]");
    reveal_strlit(",");
    assert forall|l: Seq<usize>|
        #![trigger list_items_doc(positions_docs(l), "]"@)]
        ({
            let body = list_items_doc(positions_docs(l), "]"@);
            (l.len() >= 1 && cur + body.len() <= n && s.subrange(cur, cur + body.len())
                == body) ==> ({
                let d0 = dec_digits(l[0] as int);
                let q = cur + d0.len();
                &&& s.subrange(cur, q) == d0
                &&& q < n && !is_digit_spec(s[q])
                &&& (l.len() == 1 ==> crate::parser::tag_at_spec(s, q, "]"@) && cur + body.len()
                    == q + 1)
                &&& (l.len() >= 2 ==> {
                    let rest_body = list_items_doc(positions_docs(l.skip(1)), "]"@);
                    &&& crate::parser::tag_at_spec(s, q, ","@)
                    &&& s[q] != ']'
                    &&& s.subrange(q + 1, q + 1 + rest_body.len()) == rest_body
                    &&& cur + body.len() == q + 1 + rest_body.len()
                })
            })
        }) by {
        let mapped = positions_docs(l);
        let body = list_items_doc(mapped, "]"@);
        if l.len() >= 1 && cur + body.len() <= n && s.subrange(cur, cur + body.len()) == body {
            lemma_list_items_doc_head(mapped, "]"@);
            lemma_dec_digits_are_digits(l[0] as int);
            let d0 = dec_digits(l[0] as int);
            let q = cur + d0.len();
            assert(s.subrange(cur, q) == d0) by {
                lemma_piece_at(s, cur, body, 0, d0.len() as int);
                assert(body.subrange(0, d0.len() as int) =~= d0);
            }
            if l.len() == 1 {
                assert(body[d0.len() as int] == ']');
                lemma_char_at(s, cur, body, d0.len() as int);
                assert(s.subrange(q, q + 1) == "]"@) by {
                    lemma_piece_at(s, cur, body, d0.len() as int, d0.len() as int + 1);
                    assert(body.subrange(d0.len() as int, d0.len() as int + 1) =~= "]"@);
                }
            } else {
                assert(mapped.skip(1) =~= positions_docs(l.skip(1)));
                let rest_body = list_items_doc(positions_docs(l.skip(1)), "]"@);
                assert(list_items_doc(mapped.skip(1), "]"@) == rest_body);
                assert(body[d0.len() as int] == ',');
                lemma_char_at(s, cur, body, d0.len() as int);
                assert(s.subrange(q, q + 1) == ","@) by {
                    lemma_piece_at(s, cur, body, d0.len() as int, d0.len() as int + 1);
                    assert(body.subrange(d0.len() as int, d0.len() as int + 1) =~= ","@);
                }
                assert(s.subrange(q + 1, q + 1 + rest_body.len()) == rest_body) by {
                    lemma_piece_at(s, cur, body, d0.len() as int + 1, body.len() as int);
                    assert(body.subrange(d0.len() as int + 1, body.len() as int) =~= rest_body);
                }
            }
        }
    }
}

/// Parses the elements of a non-empty positions body, through its closing
/// bracket. Reads back exactly any non-empty position list whose body the
/// document carries here.
fn parse_positions_items(s: &str, cur: usize, n: usize) -> (r: Option<(Vec<usize>, usize)>)
    requires
        cur <= n,
        n == s@.len(),
    ensures
        r matches Some(p) ==> cur < p.1 <= n,
        forall|l: Seq<usize>|
            #![trigger list_items_doc(positions_docs(l), "]"@)]
            ({
                let body = list_items_doc(positions_docs(l), "]"@);
                (l.len() >= 1 && cur + body.len() <= n && s@.subrange(
                    cur as int,
                    cur + body.len(),
                ) == body) ==> (r matches Some(p) && p.0@ == l && p.1 == cur + body.len())
            }),
    decreases n - cur,
{
    proof {
        reveal_strlit("]");
        reveal_strlit(",");
        lemma_positions_items_pieces(s@, cur as int, n as int);
    }
    let (v, j) = match parse_usize_at(s, cur, n) {
        Some(p) => p,
        None => {
            return None;
        },
    };
    if let Some(j2) = expect_lit(s, j, n, "]") {
        let mut items: Vec<usize> = Vec::new();
        items.push(v);
        let r = Some((items, j2));
        proof {
            assert forall|l: Seq<usize>|
                #![trigger list_items_doc(positions_docs(l), "]"@)]
                ({
                    let body = list_items_doc(positions_docs(l), "]"@);
                    (l.len() >= 1 && cur + body.len() <= n && s@.subrange(
                        cur as int,
                        cur + body.len(),
                    ) == body)
                }) implies ({
                let body = list_items_doc(positions_docs(l), "]"@);
                r matches Some(p) && p.0@ == l && p.1 == cur + body.len()
            }) by {
                if l.len() >= 2 {
                    assert(s@[j as int] == ']') by {
                        assert(s@.subrange(j as int, j + 1)[0] == s@[j as int]);
                    }
                } else {
                    assert(r->Some_0.0@ =~= l);
                }
            }
        }
        return r;
    }
    let j3 = match expect_lit(s, j, n, ",") {
        Some(x) => x,
        None => {
            return None;
        },
    };
    if j3 <= cur {
        return None;
    }
    match parse_positions_items(s, j3, n) {
        Some((rest, j4)) => {
            let ghost rest_view = rest@;
            let mut items: Vec<usize> = Vec::new();
            items.push(v);
            let mut rest = rest;
            items.append(&mut rest);
            let r = Some((items, j4));
            proof {
                assert forall|l: Seq<usize>|
                    #![trigger list_items_doc(positions_docs(l), "]"@)]
                    ({
                        let body = list_items_doc(positions_docs(l), "]"@);
                        (l.len() >= 1 && cur + body.len() <= n && s@.subrange(
                            cur as int,
                            cur + body.len(),
                        ) == body)
                    }) implies ({
                    let body = list_items_doc(positions_docs(l), "]"@);
                    r matches Some(p) && p.0@ == l && p.1 == cur + body.len()
                }) by {
                    if l.len() == 1 {
                        assert(crate::parser::tag_at_spec(s@, j as int, "]"@));
                    } else {
                        assert(r->Some_0.0@ =~= seq![l[0]] + l.skip(1));
                        assert(seq![l[0]] + l.skip(1) =~= l);
                    }
                }
            }
            r
        },
        None => {
            None
        },
    }
}

/// The positions-document shape, stated for every list the document might
/// carry here.
proof fn lemma_positions_shape_all(s: Seq<char>, i: int, n: int)
    requires
        0 <= i,
        n == s.len(),
    ensures
        forall|l: Seq<usize>|
            #![trigger json_positions(l)]
            (i + json_positions(l).len() <= n && s.subrange(i, i + json_positions(l).len())
                == json_positions(l)) ==> ({
                let body = list_items_doc(positions_docs(l), "]"@);
                &&& crate::parser::tag_at_spec(s, i, "["@)
                &&& (l.len() == 0 ==> crate::parser::tag_at_spec(s, i + 1, "]"@)
                    && json_positions(l).len() == 2)
                &&& (l.len() >= 1 ==> s[i + 1] != ']' && s.subrange(i + 1, i + 1 + body.len())
                    == body && json_positions(l).len() == 1 + body.len())
            }),
{
    reveal_strlit("[");
    reveal_strlit("]");
    assert forall|l: Seq<usize>|
        #![trigger json_positions(l)]
        (i + json_positions(l).len() <= n && s.subrange(i, i + json_positions(l).len())
            == json_positions(l)) implies ({
        let body = list_items_doc(positions_docs(l), "]"@);
        &&& crate::parser::tag_at_spec(s, i, "["@)
        &&& (l.len() == 0 ==> crate::parser::tag_at_spec(s, i + 1, "]"@) && json_positions(
            l,
        ).len() == 2)
        &&& (l.len() >= 1 ==> s[i + 1] != ']' && s.subrange(i + 1, i + 1 + body.len()) == body
            && json_positions(l).len() == 1 + body.len())
    }) by {
        lemma_json_positions_shape(l);
        let doc = json_positions(l);
        let body = list_items_doc(positions_docs(l), "]"@);
        assert(s.subrange(i, i + 1) == "["@) by {
            lemma_piece_at(s, i, doc, 0, 1);
            assert(doc.subrange(0, 1) =~= "["@);
        }
        if l.len() == 0 {
            assert(s.subrange(i + 1, i + 2) == "]"@) by {
                lemma_piece_at(s, i, doc, 1, 2);
                assert(doc.subrange(1, 2) =~= "]"@);
            }
        } else {
            lemma_char_at(s, i, doc, 1);
            assert(s.subrange(i + 1, i + 1 + body.len()) == body) by {
                lemma_piece_at(s, i, doc, 1, doc.len() as int);
                assert(doc.subrange(1, doc.len() as int) =~= body);
            }
        }
    }
}

/// Parses a bracketed list of argument positions at `i`. Reads back exactly
/// any position list the document carries here.
fn parse_positions(s: &str, i: usize, n: usize) -> (r: Option<(Vec<usize>, usize)>)
    requires
        i <= n,
        n == s@.len(),
    ensures
        r matches Some(p) ==> i < p.1 <= n,
        forall|l: Seq<usize>|
            #![trigger json_positions(l)]
            (i + json_positions(l).len() <= n && s@.subrange(
                i as int,
                i + json_positions(l).len(),
            ) == json_positions(l)) ==> (r matches Some(p) && p.0@ == l && p.1 == i
                + json_positions(l).len()),
{
    proof {
        reveal_strlit("[");
        reveal_strlit("]");
        lemma_positions_shape_all(s@, i as int, n as int);
    }
    let i1 = match expect_lit(s, i, n, "[") {
        Some(j) => j,
        None => {
            return None;
        },
    };
    if let Some(j2) = expect_lit(s, i1, n, "]") {
        let empty: Vec<usize> = Vec::new();
        let r = Some((empty, j2));
        proof {
            assert forall|l: Seq<usize>|
                #![trigger json_positions(l)]
                (i + json_positions(l).len() <= n && s@.subrange(
                    i as int,
                    i + json_positions(l).len(),
                ) == json_positions(l)) implies ({
                r matches Some(p) && p.0@ == l && p.1 == i + json_positions(l).len()
            }) by {
                if l.len() >= 1 {
                    assert(s@[i1 as int] == ']') by {
                        assert(s@.subrange(i1 as int, i1 + 1)[0] == s@[i1 as int]);
                    }
                } else {
                    assert(r->Some_0.0@ =~= l);
                }
            }
        }
        return r;
    }
    match parse_positions_items(s, i1, n) {
        Some(p) => {
            let r = Some(p);
            proof {
                assert forall|l: Seq<usize>|
                    #![trigger json_positions(l)]
                    (i + json_positions(l).len() <= n && s@.subrange(
                        i as int,
                        i + json_positions(l).len(),
                    ) == json_positions(l)) implies ({
                    r matches Some(q) && q.0@ == l && q.1 == i + json_positions(l).len()
                }) by {
                    if l.len() == 0 {
                        assert(crate::parser::tag_at_spec(s@, i1 as int, "]"@));
                    }
                }
            }
            r
        },
        None => {
            None
        },
    }
}

/// Where a document carries a split-type parameter, each of its pieces sits
/// at a fixed offset, stated for every parameter the document might carry.
proof fn lemma_parameter_pieces(s: Seq<char>, i: int, n: int)
    requires
        0 <= i,
        n == s.len(),
    ensures
        forall|p: SplitTypeParameterView|
            #![trigger json_parameter(p)]
            (i + json_parameter(p).len() <= n && s.subrange(i, i + json_parameter(p).len())
                == json_parameter(p)) ==> ({
                let q1 = i + "{\"ty\":"@.len();
                let q2 = q1 + json_split_type(p.ty).len();
                let q3 = q2 + ",\"arguments\":"@.len();
                let q4 = q3 + json_positions(p.arguments).len();
                &&& crate::parser::tag_at_spec(s, i, "{\"ty\":"@)
                &&& s.subrange(q1, q2) == json_split_type(p.ty)
                &&& crate::parser::tag_at_spec(s, q2, ",\"arguments\":"@)
                &&& s.subrange(q3, q4) == json_positions(p.arguments)
                &&& crate::parser::tag_at_spec(s, q4, "}"@)
                &&& i + json_parameter(p).len() == q4 + 1
            }),
{
    reveal_strlit("{\"ty\":");
    reveal_strlit(",\"arguments\":");
    reveal_strlit("}");
    assert forall|p: SplitTypeParameterView|
        (i + json_parameter(p).len() <= n && s.subrange(i, i + json_parameter(p).len())
            == json_parameter(p)) implies ({
        let q1 = i + "{\"ty\":"@.len();
        let q2 = q1 + json_split_type(p.ty).len();
        let q3 = q2 + ",\"arguments\":"@.len();
        let q4 = q3 + json_positions(p.arguments).len();
        &&& crate::parser::tag_at_spec(s, i, "{\"ty\":"@)
        &&& s.subrange(q1, q2) == json_split_type(p.ty)
        &&& crate::parser::tag_at_spec(s, q2, ",\"arguments\":"@)
        &&& s.subrange(q3, q4) == json_positions(p.arguments)
        &&& crate::parser::tag_at_spec(s, q4, "}"@)
        &&& i + json_parameter(p).len() == q4 + 1
    }) by {
        let doc = json_parameter(p);
        let a = "{\"ty\":"@;
        let b = ",\"arguments\":"@;
        let q1 = a.len() as int;
        let q2 = q1 + json_split_type(p.ty).len();
        let q3 = q2 + b.len();
        let q4 = q3 + json_positions(p.arguments).len();
        assert(s.subrange(i, i + q1) == a) by {
            lemma_piece_at(s, i, doc, 0, q1);
            assert(doc.subrange(0, q1) =~= a);
        }
        assert(s.subrange(i + q1, i + q2) == json_split_type(p.ty)) by {
            lemma_piece_at(s, i, doc, q1, q2);
            assert(doc.subrange(q1, q2) =~= json_split_type(p.ty));
        }
        assert(s.subrange(i + q2, i + q3) == b) by {
            lemma_piece_at(s, i, doc, q2, q3);
            assert(doc.subrange(q2, q3) =~= b);
        }
        assert(s.subrange(i + q3, i + q4) == json_positions(p.arguments)) by {
            lemma_piece_at(s, i, doc, q3, q4);
            assert(doc.subrange(q3, q4) =~= json_positions(p.arguments));
        }
        assert(s.subrange(i + q4, i + q4 + 1) == "}"@) by {
            lemma_piece_at(s, i, doc, q4, q4 + 1);
            assert(doc.subrange(q4, q4 + 1) =~= "}"@);
        }
    }
}

/// Parses a split-type parameter at `i`. Reads back exactly any parameter
/// with unescapable strings that the document carries here.
fn parse_parameter_json(s: &str, i: usize, n: usize) -> (r: Option<(SplitTypeParameter, usize)>)
    requires
        i <= n,
        n == s@.len(),
    ensures
        r matches Some(p) ==> i < p.1 <= n,
        forall|p: SplitTypeParameterView|
            #![trigger json_parameter(p)]
            (plain_parameter(p) && i + json_parameter(p).len() <= n && s@.subrange(
                i as int,
                i + json_parameter(p).len(),
            ) == json_parameter(p)) ==> (r matches Some(q) && q.0@ == p && q.1 == i
                + json_parameter(p).len()),
{
    proof {
        reveal_strlit("{\"ty\":");
        reveal_strlit(",\"arguments\":");
        reveal_strlit("}");
        lemma_parameter_pieces(s@, i as int, n as int);
    }
    let i1 = match expect_lit(s, i, n, "{\"ty\":") {
        Some(j) => j,
        None => {
            return None;
        },
    };
    let (ty, i2) = match parse_split_type_json(s, i1, n) {
        Some(p) => p,
        None => {
            return None;
        },
    };
    let i3 = match expect_lit(s, i2, n, ",\"arguments\":") {
        Some(j) => j,
        None => {
            return None;
        },
    };
    let (arguments, i4) = match parse_positions(s, i3, n) {
        Some(p) => p,
        None => {
            return None;
        },
    };
    let i5 = match expect_lit(s, i4, n, "}") {
        Some(j) => j,
        None => {
            return None;
        },
    };
    Some((SplitTypeParameter { ty, arguments }, i5))
}

/// The element documents of a parameter list.
pub open spec fn parameter_docs(l: Seq<SplitTypeParameterView>) -> Seq<Seq<char>> {
    l.map_values(|p: SplitTypeParameterView| json_parameter(p))
}

/// A parameter-list document is its opening bracket followed by the list
/// body; a non-empty body starts with a parameter's opening brace.
proof fn lemma_parameters_shape_all(s: Seq<char>, i: int, n: int)
    requires
        0 <= i,
        n == s.len(),
    ensures
        forall|l: Seq<SplitTypeParameterView>|
            #![trigger json_parameters(l)]
            (i + json_parameters(l).len() <= n && s.subrange(i, i + json_parameters(l).len())
                == json_parameters(l)) ==> ({
                let body = list_items_doc(parameter_docs(l), "]"@);
                &&& crate::parser::tag_at_spec(s, i, "["@)
                &&& (l.len() == 0 ==> crate::parser::tag_at_spec(s, i + 1, "]"@)
                    && json_parameters(l).len() == 2)
                &&& (l.len() >= 1 ==> s[i + 1] != ']' && s.subrange(i + 1, i + 1 + body.len())
                    == body && json_parameters(l).len() == 1 + body.len())
            }),
{
    reveal_strlit("[");
    reveal_strlit("]");
    reveal_strlit("{\"ty\":");
    assert forall|l: Seq<SplitTypeParameterView>|
        #![trigger json_parameters(l)]
        (i + json_parameters(l).len() <= n && s.subrange(i, i + json_parameters(l).len())
            == json_parameters(l)) implies ({
        let body = list_items_doc(parameter_docs(l), "]"@);
        &&& crate::parser::tag_at_spec(s, i, "["@)
        &&& (l.len() == 0 ==> crate::parser::tag_at_spec(s, i + 1, "]"@) && json_parameters(
            l,
        ).len() == 2)
        &&& (l.len() >= 1 ==> s[i + 1] != ']' && s.subrange(i + 1, i + 1 + body.len()) == body
            && json_parameters(l).len() == 1 + body.len())
    }) by {
        let mapped = parameter_docs(l);
        assert(mapped =~= l.map_values(|p: SplitTypeParameterView| json_parameter(p)));
        lemma_join_from_empty("["@, ","@, l.map_values(
            |p: SplitTypeParameterView| json_parameter(p),
        ));
        let doc = json_parameters(l);
        let body = list_items_doc(mapped, "]"@);
        assert(doc =~= "["@ + body);
        assert(s.subrange(i, i + 1) == "["@) by {
            lemma_piece_at(s, i, doc, 0, 1);
            assert(doc.subrange(0, 1) =~= "["@);
        }
        if l.len() == 0 {
            assert(doc =~= seq!['[', ']']);
            assert(s.subrange(i + 1, i + 2) == "]"@) by {
                lemma_piece_at(s, i, doc, 1, 2);
                assert(doc.subrange(1, 2) =~= "]"@);
            }
        } else {
            lemma_list_items_doc_head(mapped, "]"@);
            assert(body[0] == mapped[0][0]);
            assert(mapped[0][0] == '{');
            lemma_char_at(s, i, doc, 1);
            assert(s.subrange(i + 1, i + 1 + body.len()) == body) by {
                lemma_piece_at(s, i, doc, 1, doc.len() as int);
                assert(doc.subrange(1, doc.len() as int) =~= body);
            }
        }
    }
}

/// Where a document carries a non-empty parameter-list body, its first
/// parameter, the following delimiter, and any remaining body sit at fixed
/// offsets.
proof fn lemma_parameters_items_pieces(s: Seq<char>, cur: int, n: int)
    requires
        0 <= cur,
        n == s.len(),
    ensures
        forall|l: Seq<SplitTypeParameterView>|
            #![trigger list_items_doc(parameter_docs(l), "]"@)]
            ({
                let body = list_items_doc(parameter_docs(l), "]"@);
                (l.len() >= 1 && cur + body.len() <= n && s.subrange(cur, cur + body.len())
                    == body) ==> ({
                    let q = cur + json_parameter(l[0]).len();
                    &&& s.subrange(cur, q) == json_parameter(l[0])
                    &&& (l.len() == 1 ==> crate::parser::tag_at_spec(s, q, "]"@) && cur
                        + body.len() == q + 1)
                    &&& (l.len() >= 2 ==> {
                        let rest_body = list_items_doc(parameter_docs(l.skip(1)), "]"@);
                        &&& crate::parser::tag_at_spec(s, q, ","@)
                        &&& s[q] != ']'
                        &&& s.subrange(q + 1, q + 1 + rest_body.len()) == rest_body
                        &&& cur + body.len() == q + 1 + rest_body.len()
                    })
                })
            }),
{
    reveal_strlit("]");
    reveal_strlit(",");
    assert forall|l: Seq<SplitTypeParameterView>|
        #![trigger list_items_doc(parameter_docs(l), "]"@)]
        ({
            let body = list_items_doc(parameter_docs(l), "]"@);
            (l.len() >= 1 && cur + body.len() <= n && s.subrange(cur, cur + body.len())
                == body) ==> ({
                let q = cur + json_parameter(l[0]).len();
                &&& s.subrange(cur, q) == json_parameter(l[0])
                &&& (l.len() == 1 ==> crate::parser::tag_at_spec(s, q, "]"@) && cur + body.len()
                    == q + 1)
                &&& (l.len() >= 2 ==> {
                    let rest_body = list_items_doc(parameter_docs(l.skip(1)), "]"@);
                    &&& crate::parser::tag_at_spec(s, q, ","@)
                    &&& s[q] != ']'
                    &&& s.subrange(q + 1, q + 1 + rest_body.len()) == rest_body
                    &&& cur + body.len() == q + 1 + rest_body.len()
                })
            })
        }) by {
        let mapped = parameter_docs(l);
        let body = list_items_doc(mapped, "]"@);
        if l.len() >= 1 && cur + body.len() <= n && s.subrange(cur, cur + body.len()) == body {
            lemma_list_items_doc_head(mapped, "]"@);
            let d0 = json_parameter(l[0]);
            let q = cur + d0.len();
            assert(s.subrange(cur, q) == d0) by {
                lemma_piece_at(s, cur, body, 0, d0.len() as int);
                assert(body.subrange(0, d0.len() as int) =~= d0);
            }
            if l.len() == 1 {
                assert(s.subrange(q, q + 1) == "]"@) by {
                    lemma_piece_at(s, cur, body, d0.len() as int, d0.len() as int + 1);
                    assert(body.subrange(d0.len() as int, d0.len() as int + 1) =~= "]"@);
                }
            } else {
                assert(mapped.skip(1) =~= parameter_docs(l.skip(1)));
                let rest_body = list_items_doc(parameter_docs(l.skip(1)), "]"@);
                assert(list_items_doc(mapped.skip(1), "]"@) == rest_body);
                assert(body[d0.len() as int] == ',');
                lemma_char_at(s, cur, body, d0.len() as int);
                assert(s.subrange(q, q + 1) == ","@) by {
                    lemma_piece_at(s, cur, body, d0.len() as int, d0.len() as int + 1);
                    assert(body.subrange(d0.len() as int, d0.len() as int + 1) =~= ","@);
                }
                assert(s.subrange(q + 1, q + 1 + rest_body.len()) == rest_body) by {
                    lemma_piece_at(s, cur, body, d0.len() as int + 1, body.len() as int);
                    assert(body.subrange(d0.len() as int + 1, body.len() as int) =~= rest_body);
                }
            }
        }
    }
}

/// Whether every parameter of the list has unescapable strings.
pub open spec fn plain_parameters(l: Seq<SplitTypeParameterView>) -> bool {
    forall|k: int| 0 <= k < l.len() ==> plain_parameter(#[trigger] l[k])
}

/// Parses the elements of a non-empty parameter-list body, through its
/// closing bracket.
fn parse_parameters_items(s: &str, cur: usize, n: usize) -> (r: Option<
    (Vec<SplitTypeParameter>, usize),
>)
    requires
        cur <= n,
        n == s@.len(),
    ensures
        r matches Some(p) ==> cur < p.1 <= n,
        forall|l: Seq<SplitTypeParameterView>|
            #![trigger list_items_doc(parameter_docs(l), "]"@)]
            ({
                let body = list_items_doc(parameter_docs(l), "]"@);
                (l.len() >= 1 && plain_parameters(l) && cur + body.len() <= n && s@.subrange(
                    cur as int,
                    cur + body.len(),
                ) == body) ==> (r matches Some(p) && p.0@.map_values(
                    |x: SplitTypeParameter| x@,
                ) == l && p.1 == cur + body.len())
            }),
    decreases n - cur,
{
    proof {
        reveal_strlit("]");
        reveal_strlit(",");
        lemma_parameters_items_pieces(s@, cur as int, n as int);
    }
    let (v, j) = match parse_parameter_json(s, cur, n) {
        Some(p) => p,
        None => {
            return None;
        },
    };
    if let Some(j2) = expect_lit(s, j, n, "]") {
        let mut items: Vec<SplitTypeParameter> = Vec::new();
        items.push(v);
        let r = Some((items, j2));
        proof {
            assert forall|l: Seq<SplitTypeParameterView>|
                #![trigger list_items_doc(parameter_docs(l), "]"@)]
                ({
                    let body = list_items_doc(parameter_docs(l), "]"@);
                    (l.len() >= 1 && plain_parameters(l) && cur + body.len() <= n && s@.subrange(
                        cur as int,
                        cur + body.len(),
                    ) == body)
                }) implies ({
                let body = list_items_doc(parameter_docs(l), "]"@);
                r matches Some(p) && p.0@.map_values(|x: SplitTypeParameter| x@) == l && p.1
                    == cur + body.len()
            }) by {
                if l.len() >= 2 {
                    assert(s@[j as int] == ']') by {
                        assert(s@.subrange(j as int, j + 1)[0] == s@[j as int]);
                    }
                } else {
                    assert(r->Some_0.0@.map_values(|x: SplitTypeParameter| x@) =~= l);
                }
            }
        }
        return r;
    }
    let j3 = match expect_lit(s, j, n, ",") {
        Some(x) => x,
        None => {
            return None;
        },
    };
    if j3 <= cur {
        return None;
    }
    match parse_parameters_items(s, j3, n) {
        Some((rest, j4)) => {
            let ghost rest0 = rest@;
            let ghost v0 = v;
            let mut items: Vec<SplitTypeParameter> = Vec::new();
            items.push(v);
            let mut rest = rest;
            items.append(&mut rest);
            proof {
                assert(items@ =~= seq![v0] + rest0);
            }
            let r = Some((items, j4));
            proof {
                assert forall|l: Seq<SplitTypeParameterView>|
                    #![trigger list_items_doc(parameter_docs(l), "]"@)]
                    ({
                        let body = list_items_doc(parameter_docs(l), "]"@);
                        (l.len() >= 1 && plain_parameters(l) && cur + body.len() <= n
                            && s@.subrange(cur as int, cur + body.len()) == body)
                    }) implies ({
                    let body = list_items_doc(parameter_docs(l), "]"@);
                    r matches Some(p) && p.0@.map_values(|x: SplitTypeParameter| x@) == l && p.1
                        == cur + body.len()
                }) by {
                    if l.len() == 1 {
                        assert(crate::parser::tag_at_spec(s@, j as int, "]"@));
                    } else {
                        assert(plain_parameters(l.skip(1))) by {
                            assert(forall|k: int|
                                0 <= k < l.skip(1).len() ==> #[trigger] l.skip(1)[k] == l[k + 1]);
                        }
                        assert(rest0.map_values(|x: SplitTypeParameter| x@) == l.skip(1));
                        assert forall|k: int|
                            0 <= k < items@.len() implies (#[trigger] items@[k])@ == l[k] by {
                            if k >= 1 {
                                let kk = k - 1;
                                assert(items@[kk + 1] == rest0[kk]);
                                assert(rest0.map_values(|x: SplitTypeParameter| x@)[kk]
                                    == rest0[kk]@);
                                assert(l.skip(1)[kk] == l[kk + 1]);
                            }
                        }
                        assert(r->Some_0.0@.map_values(|x: SplitTypeParameter| x@) =~= l);
                    }
                }
            }
            r
        },
        None => {
            None
        },
    }
}

/// Parses the parameter list at `i`. Reads back exactly any parameter list
/// with unescapable strings that the document carries here.
fn parse_parameters_json(s: &str, i: usize, n: usize) -> (r: Option<
    (Vec<SplitTypeParameter>, usize),
>)
    requires
        i <= n,
        n == s@.len(),
    ensures
        r matches Some(p) ==> i < p.1 <= n,
        forall|l: Seq<SplitTypeParameterView>|
            #![trigger json_parameters(l)]
            (plain_parameters(l) && i + json_parameters(l).len() <= n && s@.subrange(
                i as int,
                i + json_parameters(l).len(),
            ) == json_parameters(l)) ==> (r matches Some(p) && p.0@.map_values(
                |x: SplitTypeParameter| x@,
            ) == l && p.1 == i + json_parameters(l).len()),
{
    proof {
        reveal_strlit("[");
        reveal_strlit("]");
        lemma_parameters_shape_all(s@, i as int, n as int);
    }
    let i1 = match expect_lit(s, i, n, "[") {
        Some(j) => j,
        None => {
            return None;
        },
    };
    if let Some(j2) = expect_lit(s, i1, n, "]") {
        let empty: Vec<SplitTypeParameter> = Vec::new();
        let r = Some((empty, j2));
        proof {
            assert forall|l: Seq<SplitTypeParameterView>|
                #![trigger json_parameters(l)]
                (plain_parameters(l) && i + json_parameters(l).len() <= n && s@.subrange(
                    i as int,
                    i + json_parameters(l).len(),
                ) == json_parameters(l)) implies ({
                r matches Some(p) && p.0@.map_values(|x: SplitTypeParameter| x@) == l && p.1 == i
                    + json_parameters(l).len()
            }) by {
                if l.len() >= 1 {
                    assert(s@[i1 as int] == ']') by {
                        assert(s@.subrange(i1 as int, i1 + 1)[0] == s@[i1 as int]);
                    }
                } else {
                    assert(r->Some_0.0@.map_values(|x: SplitTypeParameter| x@) =~= l);
                }
            }
        }
        return r;
    }
    match parse_parameters_items(s, i1, n) {
        Some(p) => {
            let r = Some(p);
            proof {
                assert forall|l: Seq<SplitTypeParameterView>|
                    #![trigger json_parameters(l)]
                    (plain_parameters(l) && i + json_parameters(l).len() <= n && s@.subrange(
                        i as int,
                        i + json_parameters(l).len(),
                    ) == json_parameters(l)) implies ({
                    r matches Some(q) && q.0@.map_values(|x: SplitTypeParameter| x@) == l && q.1
                        == i + json_parameters(l).len()
                }) by {
                    if l.len() == 0 {
                        assert(crate::parser::tag_at_spec(s@, i1 as int, "]"@));
                    }
                }
            }
            r
        },
        None => {
            None
        },
    }
}

/// The element documents of a C-argument list.
pub open spec fn c_argument_docs(args: Seq<(Seq<char>, Option<Seq<char>>)>) -> Seq<Seq<char>> {
    args.map_values(|a: (Seq<char>, Option<Seq<char>>)| json_c_argument(a))
}

/// Where a document carries one C argument, its pieces sit at fixed offsets,
/// stated for every argument the document might carry.
proof fn lemma_c_argument_pieces(s: Seq<char>, i: int, n: int)
    requires
        0 <= i,
        n == s.len(),
    ensures
        forall|a: (Seq<char>, Option<Seq<char>>)|
            #![trigger json_c_argument(a)]
            (i + json_c_argument(a).len() <= n && s.subrange(i, i + json_c_argument(a).len())
                == json_c_argument(a)) ==> ({
                let q1 = i + 1;
                let q2 = q1 + json_string(a.0).len();
                let q3 = q2 + 1;
                let q4 = q3 + json_opt_string(a.1).len();
                &&& crate::parser::tag_at_spec(s, i, "["@)
                &&& s.subrange(q1, q2) == json_string(a.0)
                &&& crate::parser::tag_at_spec(s, q2, ","@)
                &&& (a.1 is None ==> crate::parser::tag_at_spec(s, q3, "null"@))
                &&& (a.1 is Some ==> s[q3] == '"' && s.subrange(q3, q4) == json_string(
                    a.1->Some_0,
                ))
                &&& crate::parser::tag_at_spec(s, q4, "]"@)
                &&& i + json_c_argument(a).len() == q4 + 1
            }),
{
    reveal_strlit("[");
    reveal_strlit("]");
    reveal_strlit(",");
    reveal_strlit("null");
    reveal_strlit("\"");
    assert forall|a: (Seq<char>, Option<Seq<char>>)|
        (i + json_c_argument(a).len() <= n && s.subrange(i, i + json_c_argument(a).len())
            == json_c_argument(a)) implies ({
        let q1 = i + 1;
        let q2 = q1 + json_string(a.0).len();
        let q3 = q2 + 1;
        let q4 = q3 + json_opt_string(a.1).len();
        &&& crate::parser::tag_at_spec(s, i, "["@)
        &&& s.subrange(q1, q2) == json_string(a.0)
        &&& crate::parser::tag_at_spec(s, q2, ","@)
        &&& (a.1 is None ==> crate::parser::tag_at_spec(s, q3, "null"@))
        &&& (a.1 is Some ==> s[q3] == '"' && s.subrange(q3, q4) == json_string(a.1->Some_0))
        &&& crate::parser::tag_at_spec(s, q4, "]"@)
        &&& i + json_c_argument(a).len() == q4 + 1
    }) by {
        let doc = json_c_argument(a);
        let q1 = 1int;
        let q2 = q1 + json_string(a.0).len();
        let q3 = q2 + 1;
        let q4 = q3 + json_opt_string(a.1).len();
        assert(s.subrange(i, i + 1) == "["@) by {
            lemma_piece_at(s, i, doc, 0, 1);
            assert(doc.subrange(0, 1) =~= "["@);
        }
        assert(s.subrange(i + q1, i + q2) == json_string(a.0)) by {
            lemma_piece_at(s, i, doc, q1, q2);
            assert(doc.subrange(q1, q2) =~= json_string(a.0));
        }
        assert(s.subrange(i + q2, i + q3) == ","@) by {
            lemma_piece_at(s, i, doc, q2, q3);
            assert(doc.subrange(q2, q3) =~= ","@);
        }
        assert(s.subrange(i + q3, i + q4) == json_opt_string(a.1)) by {
            lemma_piece_at(s, i, doc, q3, q4);
            assert(doc.subrange(q3, q4) =~= json_opt_string(a.1));
        }
        if a.1 is Some {
            lemma_char_at(s, i, doc, q3);
            assert(doc[q3] == json_opt_string(a.1)[0]);
        }
        assert(s.subrange(i + q4, i + q4 + 1) == "]"@) by {
            lemma_piece_at(s, i, doc, q4, q4 + 1);
            assert(doc.subrange(q4, q4 + 1) =~= "]"@);
        }
    }
}

/// Where a document carries a non-empty C-argument body, its first argument,
/// the following delimiter, and any remaining body sit at fixed offsets.
proof fn lemma_c_args_items_pieces(s: Seq<char>, cur: int, n: int)
    requires
        0 <= cur,
        n == s.len(),
    ensures
        forall|args: Seq<(Seq<char>, Option<Seq<char>>)>|
            #![trigger list_items_doc(c_argument_docs(args), "]"@)]
            ({
                let body = list_items_doc(c_argument_docs(args), "]"@);
                (args.len() >= 1 && cur + body.len() <= n && s.subrange(cur, cur + body.len())
                    == body) ==> ({
                    let q = cur + json_c_argument(args[0]).len();
                    &&& s.subrange(cur, q) == json_c_argument(args[0])
                    &&& (args.len() == 1 ==> crate::parser::tag_at_spec(s, q, "]"@) && cur
                        + body.len() == q + 1)
                    &&& (args.len() >= 2 ==> {
                        let rest_body = list_items_doc(c_argument_docs(args.skip(1)), "]"@);
                        &&& crate::parser::tag_at_spec(s, q, ","@)
                        &&& s[q] != ']'
                        &&& s.subrange(q + 1, q + 1 + rest_body.len()) == rest_body
                        &&& cur + body.len() == q + 1 + rest_body.len()
                    })
                })
            }),
{
    reveal_strlit("]");
    reveal_strlit(",");
    assert forall|args: Seq<(Seq<char>, Option<Seq<char>>)>|
        #![trigger list_items_doc(c_argument_docs(args), "]"@)]
        ({
            let body = list_items_doc(c_argument_docs(args), "]"@);
            (args.len() >= 1 && cur + body.len() <= n && s.subrange(cur, cur + body.len())
                == body) ==> ({
                let q = cur + json_c_argument(args[0]).len();
                &&& s.subrange(cur, q) == json_c_argument(args[0])
                &&& (args.len() == 1 ==> crate::parser::tag_at_spec(s, q, "]"@) && cur
                    + body.len() == q + 1)
                &&& (args.len() >= 2 ==> {
                    let rest_body = list_items_doc(c_argument_docs(args.skip(1)), "]"@);
                    &&& crate::parser::tag_at_spec(s, q, ","@)
                    &&& s[q] != ']'
                    &&& s.subrange(q + 1, q + 1 + rest_body.len()) == rest_body
                    &&& cur + body.len() == q + 1 + rest_body.len()
                })
            })
        }) by {
        let mapped = c_argument_docs(args);
        let body = list_items_doc(mapped, "]"@);
        if args.len() >= 1 && cur + body.len() <= n && s.subrange(cur, cur + body.len())
            == body {
            lemma_list_items_doc_head(mapped, "]"@);
            let d0 = json_c_argument(args[0]);
            let q = cur + d0.len();
            assert(s.subrange(cur, q) == d0) by {
                lemma_piece_at(s, cur, body, 0, d0.len() as int);
                assert(body.subrange(0, d0.len() as int) =~= d0);
            }
            if args.len() == 1 {
                assert(s.subrange(q, q + 1) == "]"@) by {
                    lemma_piece_at(s, cur, body, d0.len() as int, d0.len() as int + 1);
                    assert(body.subrange(d0.len() as int, d0.len() as int + 1) =~= "]"@);
                }
            } else {
                assert(mapped.skip(1) =~= c_argument_docs(args.skip(1)));
                let rest_body = list_items_doc(c_argument_docs(args.skip(1)), "]"@);
                assert(list_items_doc(mapped.skip(1), "]"@) == rest_body);
                assert(body[d0.len() as int] == ',');
                lemma_char_at(s, cur, body, d0.len() as int);
                assert(s.subrange(q, q + 1) == ","@) by {
                    lemma_piece_at(s, cur, body, d0.len() as int, d0.len() as int + 1);
                    assert(body.subrange(d0.len() as int, d0.len() as int + 1) =~= ","@);
                }
                assert(s.subrange(q + 1, q + 1 + rest_body.len()) == rest_body) by {
                    lemma_piece_at(s, cur, body, d0.len() as int + 1, body.len() as int);
                    assert(body.subrange(d0.len() as int + 1, body.len() as int) =~= rest_body);
                }
            }
        }
    }
}

/// Whether every argument of the list has unescapable strings.
pub open spec fn plain_c_arguments(args: Seq<(Seq<char>, Option<Seq<char>>)>) -> bool {
    forall|k: int| 0 <= k < args.len() ==> plain_c_argument(#[trigger] args[k])
}

/// Parses one C argument at `i`: a two-element array of its type and
/// optional name. Reads back exactly any argument with unescapable strings
/// that the document carries here.
fn parse_c_argument_json(s: &str, i: usize, n: usize) -> (r: Option<
    ((String, Option<String>), usize),
>)
    requires
        i <= n,
        n == s@.len(),
    ensures
        r matches Some(p) ==> i < p.1 <= n,
        forall|a: (Seq<char>, Option<Seq<char>>)|
            #![trigger json_c_argument(a)]
            (plain_c_argument(a) && i + json_c_argument(a).len() <= n && s@.subrange(
                i as int,
                i + json_c_argument(a).len(),
            ) == json_c_argument(a)) ==> (r matches Some(p) && c_argument_view(p.0) == a && p.1
                == i + json_c_argument(a).len()),
{
    proof {
        reveal_strlit("[");
        reveal_strlit("]");
        reveal_strlit(",");
        reveal_strlit("null");
        reveal_strlit("\"");
        lemma_c_argument_pieces(s@, i as int, n as int);
    }
    let j0 = match expect_lit(s, i, n, "[") {
        Some(x) => x,
        None => {
            return None;
        },
    };
    let (ty, j1) = match parse_jstring(s, j0, n) {
        Some(p) => p,
        None => {
            return None;
        },
    };
    let j2 = match expect_lit(s, j1, n, ",") {
        Some(x) => x,
        None => {
            return None;
        },
    };
    let (name, j3) = if let Some(x) = expect_lit(s, j2, n, "null") {
        proof {
            assert forall|a: (Seq<char>, Option<Seq<char>>)|
                (plain_c_argument(a) && i + json_c_argument(a).len() <= n && s@.subrange(
                    i as int,
                    i + json_c_argument(a).len(),
                ) == json_c_argument(a)) implies a.1 is None by {
                if a.1 is Some {
                    assert(s@.subrange(j2 as int, j2 + 4)[0] == s@[j2 as int]);
                }
            }
        }
        (None, x)
    } else {
        match parse_jstring(s, j2, n) {
            Some(p) => (Some(p.0), p.1),
            None => {
                return None;
            },
        }
    };
    let j4 = match expect_lit(s, j3, n, "]") {
        Some(x) => x,
        None => {
            return None;
        },
    };
    Some(((ty, name), j4))
}

/// Parses the elements of a non-empty C-argument body, through its closing
/// bracket.
fn parse_c_args_items(s: &str, cur: usize, n: usize) -> (r: Option<
    (Vec<(String, Option<String>)>, usize),
>)
    requires
        cur <= n,
        n == s@.len(),
    ensures
        r matches Some(p) ==> cur < p.1 <= n,
        forall|args: Seq<(Seq<char>, Option<Seq<char>>)>|
            #![trigger list_items_doc(c_argument_docs(args), "]"@)]
            ({
                let body = list_items_doc(c_argument_docs(args), "]"@);
                (args.len() >= 1 && plain_c_arguments(args) && cur + body.len() <= n
                    && s@.subrange(cur as int, cur + body.len()) == body) ==> (r matches Some(p)
                    && p.0@.map_values(|x: (String, Option<String>)| c_argument_view(x)) == args
                    && p.1 == cur + body.len())
            }),
    decreases n - cur,
{
    proof {
        reveal_strlit("]");
        reveal_strlit(",");
        lemma_c_args_items_pieces(s@, cur as int, n as int);
    }
    let (v, j) = match parse_c_argument_json(s, cur, n) {
        Some(p) => p,
        None => {
            return None;
        },
    };
    if let Some(j2) = expect_lit(s, j, n, "]") {
        let mut items: Vec<(String, Option<String>)> = Vec::new();
        items.push(v);
        let r = Some((items, j2));
        proof {
            assert forall|args: Seq<(Seq<char>, Option<Seq<char>>)>|
                #![trigger list_items_doc(c_argument_docs(args), "]"@)]
                ({
                    let body = list_items_doc(c_argument_docs(args), "]"@);
                    (args.len() >= 1 && plain_c_arguments(args) && cur + body.len() <= n
                        && s@.subrange(cur as int, cur + body.len()) == body)
                }) implies ({
                let body = list_items_doc(c_argument_docs(args), "]"@);
                r matches Some(p) && p.0@.map_values(
                    |x: (String, Option<String>)| c_argument_view(x),
                ) == args && p.1 == cur + body.len()
            }) by {
                if args.len() >= 2 {
                    assert(s@[j as int] == ']') by {
                        assert(s@.subrange(j as int, j + 1)[0] == s@[j as int]);
                    }
                } else {
                    assert(r->Some_0.0@.map_values(
                        |x: (String, Option<String>)| c_argument_view(x),
                    ) =~= args);
                }
            }
        }
        return r;
    }
    let j3 = match expect_lit(s, j, n, ",") {
        Some(x) => x,
        None => {
            return None;
        },
    };
    if j3 <= cur {
        return None;
    }
    match parse_c_args_items(s, j3, n) {
        Some((rest, j4)) => {
            let ghost rest0 = rest@;
            let ghost v0 = v;
            let mut items: Vec<(String, Option<String>)> = Vec::new();
            items.push(v);
            let mut rest = rest;
            items.append(&mut rest);
            proof {
                assert(items@ =~= seq![v0] + rest0);
            }
            let r = Some((items, j4));
            proof {
                assert forall|args: Seq<(Seq<char>, Option<Seq<char>>)>|
                    #![trigger list_items_doc(c_argument_docs(args), "]"@)]
                    ({
                        let body = list_items_doc(c_argument_docs(args), "]"@);
                        (args.len() >= 1 && plain_c_arguments(args) && cur + body.len() <= n
                            && s@.subrange(cur as int, cur + body.len()) == body)
                    }) implies ({
                    let body = list_items_doc(c_argument_docs(args), "]"@);
                    r matches Some(p) && p.0@.map_values(
                        |x: (String, Option<String>)| c_argument_view(x),
                    ) == args && p.1 == cur + body.len()
                }) by {
                    if args.len() == 1 {
                        assert(crate::parser::tag_at_spec(s@, j as int, "]"@));
                    } else {
                        assert(plain_c_arguments(args.skip(1))) by {
                            assert(forall|k: int|
                                0 <= k < args.skip(1).len() ==> #[trigger] args.skip(1)[k]
                                    == args[k + 1]);
                        }
                        assert(rest0.map_values(
                            |x: (String, Option<String>)| c_argument_view(x),
                        ) == args.skip(1));
                        assert forall|k: int|
                            0 <= k < items@.len() implies c_argument_view(#[trigger] items@[k])
                            == args[k] by {
                            if k >= 1 {
                                let kk = k - 1;
                                assert(items@[kk + 1] == rest0[kk]);
                                assert(rest0.map_values(
                                    |x: (String, Option<String>)| c_argument_view(x),
                                )[kk] == c_argument_view(rest0[kk]));
                                assert(args.skip(1)[kk] == args[kk + 1]);
                            }
                        }
                        assert(r->Some_0.0@.map_values(
                            |x: (String, Option<String>)| c_argument_view(x),
                        ) =~= args);
                    }
                }
            }
            r
        },
        None => {
            None
        },
    }
}

/// Parses the C-argument list at `i`, through its closing bracket (the
/// declaration's closing brace follows separately). Reads back exactly any
/// argument list with unescapable strings that the document carries here.
fn parse_c_arguments_json(s: &str, i: usize, n: usize) -> (r: Option<
    (Vec<(String, Option<String>)>, usize),
>)
    requires
        i <= n,
        n == s@.len(),
    ensures
        r matches Some(p) ==> i < p.1 <= n,
        forall|args: Seq<(Seq<char>, Option<Seq<char>>)>|
            #![trigger json_c_arguments(args)]
            (plain_c_arguments(args) && i + json_c_arguments(args).len() <= n && s@.subrange(
                i as int,
                i + json_c_arguments(args).len(),
            ) == json_c_arguments(args)) ==> (r matches Some(p) && p.0@.map_values(
                |x: (String, Option<String>)| c_argument_view(x),
            ) == args && p.1 == i + json_c_arguments(args).len()),
{
    proof {
        reveal_strlit("[");
        reveal_strlit("]");
        lemma_c_arguments_shape_all(s@, i as int, n as int);
    }
    let i1 = match expect_lit(s, i, n, "[") {
        Some(j) => j,
        None => {
            return None;
        },
    };
    if let Some(j2) = expect_lit(s, i1, n, "]") {
        let empty: Vec<(String, Option<String>)> = Vec::new();
        let r = Some((empty, j2));
        proof {
            assert forall|args: Seq<(Seq<char>, Option<Seq<char>>)>|
                #![trigger json_c_arguments(args)]
                (plain_c_arguments(args) && i + json_c_arguments(args).len() <= n && s@.subrange(
                    i as int,
                    i + json_c_arguments(args).len(),
                ) == json_c_arguments(args)) implies ({
                r matches Some(p) && p.0@.map_values(
                    |x: (String, Option<String>)| c_argument_view(x),
                ) == args && p.1 == i + json_c_arguments(args).len()
            }) by {
                if args.len() >= 1 {
                    assert(s@[i1 as int] == ']') by {
                        assert(s@.subrange(i1 as int, i1 + 1)[0] == s@[i1 as int]);
                    }
                } else {
                    assert(r->Some_0.0@.map_values(
                        |x: (String, Option<String>)| c_argument_view(x),
                    ) =~= args);
                }
            }
        }
        return r;
    }
    match parse_c_args_items(s, i1, n) {
        Some(p) => {
            let r = Some(p);
            proof {
                assert forall|args: Seq<(Seq<char>, Option<Seq<char>>)>|
                    #![trigger json_c_arguments(args)]
                    (plain_c_arguments(args) && i + json_c_arguments(args).len() <= n
                        && s@.subrange(i as int, i + json_c_arguments(args).len())
                        == json_c_arguments(args)) implies ({
                    r matches Some(q) && q.0@.map_values(
                        |x: (String, Option<String>)| c_argument_view(x),
                    ) == args && q.1 == i + json_c_arguments(args).len()
                }) by {
                    if args.len() == 0 {
                        assert(crate::parser::tag_at_spec(s@, i1 as int, "]"@));
                    }
                }
            }
            r
        },
        None => {
            None
        },
    }
}

/// A C-argument-list document is its opening bracket followed by the list
/// body; a non-empty body starts with an argument's opening bracket.
proof fn lemma_c_arguments_shape_all(s: Seq<char>, i: int, n: int)
    requires
        0 <= i,
        n == s.len(),
    ensures
        forall|args: Seq<(Seq<char>, Option<Seq<char>>)>|
            #![trigger json_c_arguments(args)]
            (i + json_c_arguments(args).len() <= n && s.subrange(
                i,
                i + json_c_arguments(args).len(),
            ) == json_c_arguments(args)) ==> ({
                let body = list_items_doc(c_argument_docs(args), "]"@);
                &&& crate::parser::tag_at_spec(s, i, "["@)
                &&& (args.len() == 0 ==> crate::parser::tag_at_spec(s, i + 1, "]"@)
                    && json_c_arguments(args).len() == 2)
                &&& (args.len() >= 1 ==> s[i + 1] != ']' && s.subrange(
                    i + 1,
                    i + 1 + body.len(),
                ) == body && json_c_arguments(args).len() == 1 + body.len())
            }),
{
    reveal_strlit("[");
    reveal_strlit("]");
    assert forall|args: Seq<(Seq<char>, Option<Seq<char>>)>|
        #![trigger json_c_arguments(args)]
        (i + json_c_arguments(args).len() <= n && s.subrange(i, i + json_c_arguments(args).len())
            == json_c_arguments(args)) implies ({
        let body = list_items_doc(c_argument_docs(args), "]"@);
        &&& crate::parser::tag_at_spec(s, i, "["@)
        &&& (args.len() == 0 ==> crate::parser::tag_at_spec(s, i + 1, "]"@) && json_c_arguments(
            args,
        ).len() == 2)
        &&& (args.len() >= 1 ==> s[i + 1] != ']' && s.subrange(i + 1, i + 1 + body.len()) == body
            && json_c_arguments(args).len() == 1 + body.len())
    }) by {
        let mapped = c_argument_docs(args);
        let doc = json_c_arguments(args);
        let body = list_items_doc(mapped, "]"@);
        assert(doc =~= "["@ + body);
        assert(s.subrange(i, i + 1) == "["@) by {
            lemma_piece_at(s, i, doc, 0, 1);
            assert(doc.subrange(0, 1) =~= "["@);
        }
        if args.len() == 0 {
            assert(doc =~= seq!['[', ']']);
            assert(s.subrange(i + 1, i + 2) == "]"@) by {
                lemma_piece_at(s, i, doc, 1, 2);
                assert(doc.subrange(1, 2) =~= "]"@);
            }
        } else {
            lemma_list_items_doc_head(mapped, "]"@);
            assert(body[0] == mapped[0][0]);
            assert(mapped[0][0] == '[');
            lemma_char_at(s, i, doc, 1);
            assert(s.subrange(i + 1, i + 1 + body.len()) == body) by {
                lemma_piece_at(s, i, doc, 1, doc.len() as int);
                assert(doc.subrange(1, doc.len() as int) =~= body);
            }
        }
    }
}

/// One entry of the generic-default map: its key and its split type.
pub open spec fn json_default_entry(kv: (Seq<char>, SplitTypeView)) -> Seq<char> {
    json_string(kv.0) + ":"@ + json_split_type(kv.1)
}

/// The entry documents of a generic-default map.
pub open spec fn defaults_docs(ds: Seq<(Seq<char>, SplitTypeView)>) -> Seq<Seq<char>> {
    ds.map_values(|kv: (Seq<char>, SplitTypeView)| json_default_entry(kv))
}

/// Whether every entry of the map has unescapable strings.
pub open spec fn plain_defaults(ds: Seq<(Seq<char>, SplitTypeView)>) -> bool {
    forall|k: int|
        0 <= k < ds.len() ==> json_plain((#[trigger] ds[k]).0) && plain_split_type(ds[k].1)
}

/// Where a document carries one default entry, its pieces sit at fixed
/// offsets, stated for every entry the document might carry.
proof fn lemma_default_entry_pieces(s: Seq<char>, i: int, n: int)
    requires
        0 <= i,
        n == s.len(),
    ensures
        forall|kv: (Seq<char>, SplitTypeView)|
            #![trigger json_default_entry(kv)]
            (i + json_default_entry(kv).len() <= n && s.subrange(
                i,
                i + json_default_entry(kv).len(),
            ) == json_default_entry(kv)) ==> ({
                let q1 = i + json_string(kv.0).len();
                let q2 = q1 + 1;
                let q3 = q2 + json_split_type(kv.1).len();
                &&& s[i] == '"'
                &&& s.subrange(i, q1) == json_string(kv.0)
                &&& crate::parser::tag_at_spec(s, q1, ":"@)
                &&& s.subrange(q2, q3) == json_split_type(kv.1)
                &&& i + json_default_entry(kv).len() == q3
            }),
{
    reveal_strlit(":");
    reveal_strlit("\"");
    assert forall|kv: (Seq<char>, SplitTypeView)|
        (i + json_default_entry(kv).len() <= n && s.subrange(i, i + json_default_entry(kv).len())
            == json_default_entry(kv)) implies ({
        let q1 = i + json_string(kv.0).len();
        let q2 = q1 + 1;
        let q3 = q2 + json_split_type(kv.1).len();
        &&& s[i] == '"'
        &&& s.subrange(i, q1) == json_string(kv.0)
        &&& crate::parser::tag_at_spec(s, q1, ":"@)
        &&& s.subrange(q2, q3) == json_split_type(kv.1)
        &&& i + json_default_entry(kv).len() == q3
    }) by {
        let doc = json_default_entry(kv);
        let q1 = json_string(kv.0).len() as int;
        let q2 = q1 + 1;
        let q3 = q2 + json_split_type(kv.1).len();
        lemma_char_at(s, i, doc, 0);
        assert(doc[0] == '"');
        assert(s.subrange(i, i + q1) == json_string(kv.0)) by {
            lemma_piece_at(s, i, doc, 0, q1);
            assert(doc.subrange(0, q1) =~= json_string(kv.0));
        }
        assert(s.subrange(i + q1, i + q2) == ":"@) by {
            lemma_piece_at(s, i, doc, q1, q2);
            assert(doc.subrange(q1, q2) =~= ":"@);
        }
        assert(s.subrange(i + q2, i + q3) == json_split_type(kv.1)) by {
            lemma_piece_at(s, i, doc, q2, q3);
            assert(doc.subrange(q2, q3) =~= json_split_type(kv.1));
        }
    }
}

/// Where a document carries a non-empty default-map body, its first entry,
/// the following delimiter, and any remaining body sit at fixed offsets.
proof fn lemma_defaults_items_pieces(s: Seq<char>, cur: int, n: int)
    requires
        0 <= cur,
        n == s.len(),
    ensures
        forall|ds: Seq<(Seq<char>, SplitTypeView)>|
            #![trigger list_items_doc(defaults_docs(ds), "}"@)]
            ({
                let body = list_items_doc(defaults_docs(ds), "}"@);
                (ds.len() >= 1 && cur + body.len() <= n && s.subrange(cur, cur + body.len())
                    == body) ==> ({
                    let q = cur + json_default_entry(ds[0]).len();
                    &&& s.subrange(cur, q) == json_default_entry(ds[0])
                    &&& (ds.len() == 1 ==> crate::parser::tag_at_spec(s, q, "}"@) && cur
                        + body.len() == q + 1)
                    &&& (ds.len() >= 2 ==> {
                        let rest_body = list_items_doc(defaults_docs(ds.skip(1)), "}"@);
                        &&& crate::parser::tag_at_spec(s, q, ","@)
                        &&& s[q] != '}'
                        &&& s.subrange(q + 1, q + 1 + rest_body.len()) == rest_body
                        &&& cur + body.len() == q + 1 + rest_body.len()
                    })
                })
            }),
{
    reveal_strlit("}");
    reveal_strlit(",");
    assert forall|ds: Seq<(Seq<char>, SplitTypeView)>|
        #![trigger list_items_doc(defaults_docs(ds), "}"@)]
        ({
            let body = list_items_doc(defaults_docs(ds), "}"@);
            (ds.len() >= 1 && cur + body.len() <= n && s.subrange(cur, cur + body.len())
                == body) ==> ({
                let q = cur + json_default_entry(ds[0]).len();
                &&& s.subrange(cur, q) == json_default_entry(ds[0])
                &&& (ds.len() == 1 ==> crate::parser::tag_at_spec(s, q, "}"@) && cur + body.len()
                    == q + 1)
                &&& (ds.len() >= 2 ==> {
                    let rest_body = list_items_doc(defaults_docs(ds.skip(1)), "}"@);
                    &&& crate::parser::tag_at_spec(s, q, ","@)
                    &&& s[q] != '}'
                    &&& s.subrange(q + 1, q + 1 + rest_body.len()) == rest_body
                    &&& cur + body.len() == q + 1 + rest_body.len()
                })
            })
        }) by {
        let mapped = defaults_docs(ds);
        let body = list_items_doc(mapped, "}"@);
        if ds.len() >= 1 && cur + body.len() <= n && s.subrange(cur, cur + body.len()) == body {
            lemma_list_items_doc_head(mapped, "}"@);
            let d0 = json_default_entry(ds[0]);
            let q = cur + d0.len();
            assert(s.subrange(cur, q) == d0) by {
                lemma_piece_at(s, cur, body, 0, d0.len() as int);
                assert(body.subrange(0, d0.len() as int) =~= d0);
            }
            if ds.len() == 1 {
                assert(s.subrange(q, q + 1) == "}"@) by {
                    lemma_piece_at(s, cur, body, d0.len() as int, d0.len() as int + 1);
                    assert(body.subrange(d0.len() as int, d0.len() as int + 1) =~= "}"@);
                }
            } else {
                assert(mapped.skip(1) =~= defaults_docs(ds.skip(1)));
                let rest_body = list_items_doc(defaults_docs(ds.skip(1)), "}"@);
                assert(list_items_doc(mapped.skip(1), "}"@) == rest_body);
                assert(body[d0.len() as int] == ',');
                lemma_char_at(s, cur, body, d0.len() as int);
                assert(s.subrange(q, q + 1) == ","@) by {
                    lemma_piece_at(s, cur, body, d0.len() as int, d0.len() as int + 1);
                    assert(body.subrange(d0.len() as int, d0.len() as int + 1) =~= ","@);
                }
                assert(s.subrange(q + 1, q + 1 + rest_body.len()) == rest_body) by {
                    lemma_piece_at(s, cur, body, d0.len() as int + 1, body.len() as int);
                    assert(body.subrange(d0.len() as int + 1, body.len() as int) =~= rest_body);
                }
            }
        }
    }
}

/// Parses the entries of a non-empty default-map body, through its closing
/// brace.
fn parse_defaults_items(s: &str, cur: usize, n: usize) -> (r: Option<
    (Vec<(String, SplitType)>, usize),
>)
    requires
        cur <= n,
        n == s@.len(),
    ensures
        r matches Some(p) ==> cur < p.1 <= n,
        forall|ds: Seq<(Seq<char>, SplitTypeView)>|
            #![trigger list_items_doc(defaults_docs(ds), "}"@)]
            ({
                let body = list_items_doc(defaults_docs(ds), "}"@);
                (ds.len() >= 1 && plain_defaults(ds) && cur + body.len() <= n && s@.subrange(
                    cur as int,
                    cur + body.len(),
                ) == body) ==> (r matches Some(p) && p.0@.map_values(
                    |x: (String, SplitType)| (x.0@, x.1@),
                ) == ds && p.1 == cur + body.len())
            }),
    decreases n - cur,
{
    proof {
        reveal_strlit("}");
        reveal_strlit(",");
        reveal_strlit(":");
        lemma_defaults_items_pieces(s@, cur as int, n as int);
        lemma_default_entry_pieces(s@, cur as int, n as int);
    }
    let (key, j1) = match parse_jstring(s, cur, n) {
        Some(p) => p,
        None => {
            return None;
        },
    };
    let j2 = match expect_lit(s, j1, n, ":") {
        Some(x) => x,
        None => {
            return None;
        },
    };
    let (ty, j) = match parse_split_type_json(s, j2, n) {
        Some(p) => p,
        None => {
            return None;
        },
    };
    if let Some(j2b) = expect_lit(s, j, n, "}") {
        let mut items: Vec<(String, SplitType)> = Vec::new();
        items.push((key, ty));
        let r = Some((items, j2b));
        proof {
            assert forall|ds: Seq<(Seq<char>, SplitTypeView)>|
                #![trigger list_items_doc(defaults_docs(ds), "}"@)]
                ({
                    let body = list_items_doc(defaults_docs(ds), "}"@);
                    (ds.len() >= 1 && plain_defaults(ds) && cur + body.len() <= n && s@.subrange(
                        cur as int,
                        cur + body.len(),
                    ) == body)
                }) implies ({
                let body = list_items_doc(defaults_docs(ds), "}"@);
                r matches Some(p) && p.0@.map_values(|x: (String, SplitType)| (x.0@, x.1@)) == ds
                    && p.1 == cur + body.len()
            }) by {
                if ds.len() >= 2 {
                    assert(s@[j as int] == '}') by {
                        assert(s@.subrange(j as int, j + 1)[0] == s@[j as int]);
                    }
                } else {
                    assert(r->Some_0.0@.map_values(|x: (String, SplitType)| (x.0@, x.1@))
                        =~= ds);
                }
            }
        }
        return r;
    }
    let j3 = match expect_lit(s, j, n, ",") {
        Some(x) => x,
        None => {
            return None;
        },
    };
    if j3 <= cur {
        return None;
    }
    match parse_defaults_items(s, j3, n) {
        Some((rest, j4)) => {
            let ghost rest0 = rest@;
            let ghost key0 = key@;
            let ghost ty0 = ty@;
            let mut items: Vec<(String, SplitType)> = Vec::new();
            items.push((key, ty));
            let mut rest = rest;
            items.append(&mut rest);
            proof {
                assert(items@.len() == 1 + rest0.len());
                assert(items@[0].0@ == key0 && items@[0].1@ == ty0);
                assert(forall|k: int| 0 <= k < rest0.len() ==> #[trigger] items@[k + 1]
                    == rest0[k]);
            }
            let r = Some((items, j4));
            proof {
                assert forall|ds: Seq<(Seq<char>, SplitTypeView)>|
                    #![trigger list_items_doc(defaults_docs(ds), "}"@)]
                    ({
                        let body = list_items_doc(defaults_docs(ds), "}"@);
                        (ds.len() >= 1 && plain_defaults(ds) && cur + body.len() <= n
                            && s@.subrange(cur as int, cur + body.len()) == body)
                    }) implies ({
                    let body = list_items_doc(defaults_docs(ds), "}"@);
                    r matches Some(p) && p.0@.map_values(|x: (String, SplitType)| (x.0@, x.1@))
                        == ds && p.1 == cur + body.len()
                }) by {
                    if ds.len() == 1 {
                        assert(crate::parser::tag_at_spec(s@, j as int, "}"@));
                    } else {
                        assert(plain_defaults(ds.skip(1))) by {
                            assert(forall|k: int|
                                0 <= k < ds.skip(1).len() ==> #[trigger] ds.skip(1)[k] == ds[k
                                    + 1]);
                        }
                        assert(rest0.map_values(|x: (String, SplitType)| (x.0@, x.1@))
                            == ds.skip(1));
                        assert forall|k: int|
                            0 <= k < items@.len() implies ((#[trigger] items@[k]).0@,
                        items@[k].1@) == ds[k] by {
                            if k >= 1 {
                                let kk = k - 1;
                                assert(items@[kk + 1] == rest0[kk]);
                                assert(rest0.map_values(
                                    |x: (String, SplitType)| (x.0@, x.1@),
                                )[kk] == (rest0[kk].0@, rest0[kk].1@));
                                assert(ds.skip(1)[kk] == ds[kk + 1]);
                            }
                        }
                        assert(r->Some_0.0@.map_values(|x: (String, SplitType)| (x.0@, x.1@))
                            =~= ds);
                    }
                }
            }
            r
        },
        None => {
            None
        },
    }
}

/// A default-map document is its opening brace followed by the entry body;
/// a non-empty body starts with a key's quote.
proof fn lemma_defaults_shape_all(s: Seq<char>, i: int, n: int)
    requires
        0 <= i,
        n == s.len(),
    ensures
        forall|ds: Seq<(Seq<char>, SplitTypeView)>|
            #![trigger json_defaults(ds)]
            (i + json_defaults(ds).len() <= n && s.subrange(i, i + json_defaults(ds).len())
                == json_defaults(ds)) ==> ({
                let body = list_items_doc(defaults_docs(ds), "}"@);
                &&& crate::parser::tag_at_spec(s, i, "{"@)
                &&& (ds.len() == 0 ==> crate::parser::tag_at_spec(s, i + 1, "}"@)
                    && json_defaults(ds).len() == 2)
                &&& (ds.len() >= 1 ==> s[i + 1] != '}' && s.subrange(i + 1, i + 1 + body.len())
                    == body && json_defaults(ds).len() == 1 + body.len())
            }),
{
    reveal_strlit("{");
    reveal_strlit("}");
    reveal_strlit("\"");
    assert forall|ds: Seq<(Seq<char>, SplitTypeView)>|
        #![trigger json_defaults(ds)]
        (i + json_defaults(ds).len() <= n && s.subrange(i, i + json_defaults(ds).len())
            == json_defaults(ds)) implies ({
        let body = list_items_doc(defaults_docs(ds), "}"@);
        &&& crate::parser::tag_at_spec(s, i, "{"@)
        &&& (ds.len() == 0 ==> crate::parser::tag_at_spec(s, i + 1, "}"@) && json_defaults(
            ds,
        ).len() == 2)
        &&& (ds.len() >= 1 ==> s[i + 1] != '}' && s.subrange(i + 1, i + 1 + body.len()) == body
            && json_defaults(ds).len() == 1 + body.len())
    }) by {
        let mapped = defaults_docs(ds);
        assert(mapped =~= ds.map_values(
            |kv: (Seq<char>, SplitTypeView)| json_string(kv.0) + ":"@ + json_split_type(kv.1),
        ));
        lemma_join_from_empty("{"@, ","@, ds.map_values(
            |kv: (Seq<char>, SplitTypeView)| json_string(kv.0) + ":"@ + json_split_type(kv.1),
        ));
        let doc = json_defaults(ds);
        let body = list_items_doc(mapped, "}"@);
        assert(util::join_spec(Seq::empty(), ","@, mapped) == util::join_spec(
            Seq::empty(),
            ","@,
            ds.map_values(
                |kv: (Seq<char>, SplitTypeView)| json_string(kv.0) + ":"@ + json_split_type(
                    kv.1,
                ),
            ),
        ));
        assert(doc =~= "{"@ + body);
        assert(s.subrange(i, i + 1) == "{"@) by {
            lemma_piece_at(s, i, doc, 0, 1);
            assert(doc.subrange(0, 1) =~= "{"@);
        }
        if ds.len() == 0 {
            assert(doc =~= seq!['{', '}']);
            assert(s.subrange(i + 1, i + 2) == "}"@) by {
                lemma_piece_at(s, i, doc, 1, 2);
                assert(doc.subrange(1, 2) =~= "}"@);
            }
        } else {
            lemma_list_items_doc_head(mapped, "}"@);
            assert(body[0] == mapped[0][0]);
            assert(mapped[0][0] == '"');
            lemma_char_at(s, i, doc, 1);
            assert(s.subrange(i + 1, i + 1 + body.len()) == body) by {
                lemma_piece_at(s, i, doc, 1, doc.len() as int);
                assert(doc.subrange(1, doc.len() as int) =~= body);
            }
        }
    }
}

/// Parses the generic-default map at `i`. Reads back exactly any default map
/// with unescapable strings that the document carries here.
fn parse_defaults_json(s: &str, i: usize, n: usize) -> (r: Option<
    (Vec<(String, SplitType)>, usize),
>)
    requires
        i <= n,
        n == s@.len(),
    ensures
        r matches Some(p) ==> i < p.1 <= n,
        forall|ds: Seq<(Seq<char>, SplitTypeView)>|
            #![trigger json_defaults(ds)]
            (plain_defaults(ds) && i + json_defaults(ds).len() <= n && s@.subrange(
                i as int,
                i + json_defaults(ds).len(),
            ) == json_defaults(ds)) ==> (r matches Some(p) && p.0@.map_values(
                |x: (String, SplitType)| (x.0@, x.1@),
            ) == ds && p.1 == i + json_defaults(ds).len()),
{
    proof {
        reveal_strlit("{");
        reveal_strlit("}");
        lemma_defaults_shape_all(s@, i as int, n as int);
    }
    let i1 = match expect_lit(s, i, n, "{") {
        Some(j) => j,
        None => {
            return None;
        },
    };
    if let Some(j2) = expect_lit(s, i1, n, "}") {
        let empty: Vec<(String, SplitType)> = Vec::new();
        let r = Some((empty, j2));
        proof {
            assert forall|ds: Seq<(Seq<char>, SplitTypeView)>|
                #![trigger json_defaults(ds)]
                (plain_defaults(ds) && i + json_defaults(ds).len() <= n && s@.subrange(
                    i as int,
                    i + json_defaults(ds).len(),
                ) == json_defaults(ds)) implies ({
                r matches Some(p) && p.0@.map_values(|x: (String, SplitType)| (x.0@, x.1@)) == ds
                    && p.1 == i + json_defaults(ds).len()
            }) by {
                if ds.len() >= 1 {
                    assert(s@[i1 as int] == '}') by {
                        assert(s@.subrange(i1 as int, i1 + 1)[0] == s@[i1 as int]);
                    }
                } else {
                    assert(r->Some_0.0@.map_values(|x: (String, SplitType)| (x.0@, x.1@))
                        =~= ds);
                }
            }
        }
        return r;
    }
    match parse_defaults_items(s, i1, n) {
        Some(p) => {
            let r = Some(p);
            proof {
                assert forall|ds: Seq<(Seq<char>, SplitTypeView)>|
                    #![trigger json_defaults(ds)]
                    (plain_defaults(ds) && i + json_defaults(ds).len() <= n && s@.subrange(
                        i as int,
                        i + json_defaults(ds).len(),
                    ) == json_defaults(ds)) implies ({
                    r matches Some(q) && q.0@.map_values(|x: (String, SplitType)| (x.0@, x.1@))
                        == ds && q.1 == i + json_defaults(ds).len()
                }) by {
                    if ds.len() == 0 {
                        assert(crate::parser::tag_at_spec(s@, i1 as int, "}"@));
                    }
                }
            }
            r
        },
        None => {
            None
        },
    }
}

/// Where a document carries a C declaration, each of its pieces sits at a
/// fixed offset, stated for every declaration the document might carry.
#[verifier::rlimit(100)]
proof fn lemma_c_decl_pieces(s: Seq<char>, i: int, n: int)
    requires
        0 <= i,
        n == s.len(),
    ensures
        forall|d: CDeclView|
            #![trigger json_c_decl(d)]
            (i + json_c_decl(d).len() <= n && s.subrange(i, i + json_c_decl(d).len())
                == json_c_decl(d)) ==> ({
                let q1 = i + "{\"return_type\":"@.len();
                let q2 = q1 + json_string(d.return_type).len();
                let q3 = q2 + ",\"func_name\":"@.len();
                let q4 = q3 + json_string(d.func_name).len();
                let q5 = q4 + ",\"arguments\":"@.len();
                let q6 = q5 + json_c_arguments(d.arguments).len();
                &&& crate::parser::tag_at_spec(s, i, "{\"return_type\":"@)
                &&& s.subrange(q1, q2) == json_string(d.return_type)
                &&& crate::parser::tag_at_spec(s, q2, ",\"func_name\":"@)
                &&& s.subrange(q3, q4) == json_string(d.func_name)
                &&& crate::parser::tag_at_spec(s, q4, ",\"arguments\":"@)
                &&& s.subrange(q5, q6) == json_c_arguments(d.arguments)
                &&& crate::parser::tag_at_spec(s, q6, "}"@)
                &&& i + json_c_decl(d).len() == q6 + 1
            }),
{
    reveal_strlit("{\"return_type\":");
    reveal_strlit(",\"func_name\":");
    reveal_strlit(",\"arguments\":");
    reveal_strlit("[");
    reveal_strlit("]");
    reveal_strlit("]}");
    reveal_strlit("}");
    assert forall|d: CDeclView|
        (i + json_c_decl(d).len() <= n && s.subrange(i, i + json_c_decl(d).len())
            == json_c_decl(d)) implies ({
        let q1 = i + "{\"return_type\":"@.len();
        let q2 = q1 + json_string(d.return_type).len();
        let q3 = q2 + ",\"func_name\":"@.len();
        let q4 = q3 + json_string(d.func_name).len();
        let q5 = q4 + ",\"arguments\":"@.len();
        let q6 = q5 + json_c_arguments(d.arguments).len();
        &&& crate::parser::tag_at_spec(s, i, "{\"return_type\":"@)
        &&& s.subrange(q1, q2) == json_string(d.return_type)
        &&& crate::parser::tag_at_spec(s, q2, ",\"func_name\":"@)
        &&& s.subrange(q3, q4) == json_string(d.func_name)
        &&& crate::parser::tag_at_spec(s, q4, ",\"arguments\":"@)
        &&& s.subrange(q5, q6) == json_c_arguments(d.arguments)
        &&& crate::parser::tag_at_spec(s, q6, "}"@)
        &&& i + json_c_decl(d).len() == q6 + 1
    }) by {
        let doc = json_c_decl(d);
        let a = "{\"return_type\":"@;
        let b = ",\"func_name\":"@;
        let c = ",\"arguments\":"@;
        let q1 = a.len() as int;
        let q2 = q1 + json_string(d.return_type).len();
        let q3 = q2 + b.len();
        let q4 = q3 + json_string(d.func_name).len();
        let q5 = q4 + c.len();
        let q6 = q5 + json_c_arguments(d.arguments).len();
        lemma_join_from_empty("["@, ","@, d.arguments.map_values(
            |x: (Seq<char>, Option<Seq<char>>)| json_c_argument(x),
        ));
        assert(c_argument_docs(d.arguments) =~= d.arguments.map_values(
            |x: (Seq<char>, Option<Seq<char>>)| json_c_argument(x),
        ));
        assert(doc =~= a + json_string(d.return_type) + b + json_string(d.func_name) + c
            + json_c_arguments(d.arguments) + "}"@);
        assert(s.subrange(i, i + q1) == a) by {
            lemma_piece_at(s, i, doc, 0, q1);
            assert(doc.subrange(0, q1) =~= a);
        }
        assert(s.subrange(i + q1, i + q2) == json_string(d.return_type)) by {
            lemma_piece_at(s, i, doc, q1, q2);
            assert(doc.subrange(q1, q2) =~= json_string(d.return_type));
        }
        assert(s.subrange(i + q2, i + q3) == b) by {
            lemma_piece_at(s, i, doc, q2, q3);
            assert(doc.subrange(q2, q3) =~= b);
        }
        assert(s.subrange(i + q3, i + q4) == json_string(d.func_name)) by {
            lemma_piece_at(s, i, doc, q3, q4);
            assert(doc.subrange(q3, q4) =~= json_string(d.func_name));
        }
        assert(s.subrange(i + q4, i + q5) == c) by {
            lemma_piece_at(s, i, doc, q4, q5);
            assert(doc.subrange(q4, q5) =~= c);
        }
        assert(s.subrange(i + q5, i + q6) == json_c_arguments(d.arguments)) by {
            lemma_piece_at(s, i, doc, q5, q6);
            assert(doc.subrange(q5, q6) =~= json_c_arguments(d.arguments));
        }
        assert(s.subrange(i + q6, i + q6 + 1) == "}"@) by {
            lemma_piece_at(s, i, doc, q6, q6 + 1);
            assert(doc.subrange(q6, q6 + 1) =~= "}"@);
        }
    }
}

/// Parses a C declaration at `i`. Reads back exactly any declaration with
/// unescapable strings that the document carries here.
fn parse_c_decl_json(s: &str, i: usize, n: usize) -> (r: Option<(CDecl, usize)>)
    requires
        i <= n,
        n == s@.len(),
    ensures
        r matches Some(p) ==> i < p.1 <= n,
        forall|d: CDeclView|
            #![trigger json_c_decl(d)]
            (plain_c_decl(d) && i + json_c_decl(d).len() <= n && s@.subrange(
                i as int,
                i + json_c_decl(d).len(),
            ) == json_c_decl(d)) ==> (r matches Some(p) && p.0@ == d && p.1 == i + json_c_decl(
                d,
            ).len()),
{
    proof {
        reveal_strlit("{\"return_type\":");
        reveal_strlit(",\"func_name\":");
        reveal_strlit(",\"arguments\":");
        reveal_strlit("}");
        lemma_c_decl_pieces(s@, i as int, n as int);
    }
    let i1 = match expect_lit(s, i, n, "{\"return_type\":") {
        Some(j) => j,
        None => {
            return None;
        },
    };
    let (return_type, i2) = match parse_jstring(s, i1, n) {
        Some(p) => p,
        None => {
            return None;
        },
    };
    let i3 = match expect_lit(s, i2, n, ",\"func_name\":") {
        Some(j) => j,
        None => {
            return None;
        },
    };
    let (func_name, i4) = match parse_jstring(s, i3, n) {
        Some(p) => p,
        None => {
            return None;
        },
    };
    let i5 = match expect_lit(s, i4, n, ",\"arguments\":") {
        Some(j) => j,
        None => {
            return None;
        },
    };
    let (arguments, i6) = match parse_c_arguments_json(s, i5, n) {
        Some(p) => p,
        None => {
            return None;
        },
    };
    let i7 = match expect_lit(s, i6, n, "}") {
        Some(j) => j,
        None => {
            return None;
        },
    };
    let r = Some((CDecl { return_type, func_name, arguments }, i7));
    proof {
        assert forall|d: CDeclView|
            (plain_c_decl(d) && i + json_c_decl(d).len() <= n && s@.subrange(
                i as int,
                i + json_c_decl(d).len(),
            ) == json_c_decl(d)) implies (r matches Some(p) && p.0@ == d && p.1 == i
            + json_c_decl(d).len()) by {
            assert(r->Some_0.0@.arguments =~= d.arguments);
        }
    }
    r
}

/// Where a document carries a whole annotation, each of its pieces sits at a
/// fixed offset, stated for every annotation the document might carry.
#[verifier::rlimit(100)]
proof fn lemma_annotation_pieces(s: Seq<char>, i: int, n: int)
    requires
        0 <= i,
        n == s.len(),
    ensures
        forall|a: AnnotationView|
            #![trigger json_annotation(a)]
            (i + json_annotation(a).len() <= n && s.subrange(i, i + json_annotation(a).len())
                == json_annotation(a)) ==> ({
                let q1 = i + "{\"function\":"@.len();
                let q2 = q1 + json_c_decl(a.function).len();
                let q3 = q2 + ",\"params\":"@.len();
                let q4 = q3 + json_parameters(a.params).len();
                let q5 = q4 + ",\"return_param\":"@.len();
                let q6 = q5 + json_opt_parameter(a.return_param).len();
                let q7 = q6 + ",\"defaults\":"@.len();
                let q8 = q7 + json_defaults(a.defaults).len();
                &&& crate::parser::tag_at_spec(s, i, "{\"function\":"@)
                &&& s.subrange(q1, q2) == json_c_decl(a.function)
                &&& crate::parser::tag_at_spec(s, q2, ",\"params\":"@)
                &&& s.subrange(q3, q4) == json_parameters(a.params)
                &&& crate::parser::tag_at_spec(s, q4, ",\"return_param\":"@)
                &&& s.subrange(q5, q6) == json_opt_parameter(a.return_param)
                &&& (a.return_param is None ==> crate::parser::tag_at_spec(s, q5, "null"@))
                &&& (a.return_param is Some ==> s[q5] == '{')
                &&& crate::parser::tag_at_spec(s, q6, ",\"defaults\":"@)
                &&& s.subrange(q7, q8) == json_defaults(a.defaults)
                &&& crate::parser::tag_at_spec(s, q8, "}"@)
                &&& i + json_annotation(a).len() == q8 + 1
            }),
{
    reveal_strlit("{\"function\":");
    reveal_strlit(",\"params\":");
    reveal_strlit(",\"return_param\":");
    reveal_strlit(",\"defaults\":");
    reveal_strlit("}");
    reveal_strlit("null");
    reveal_strlit("{\"ty\":");
    assert forall|a: AnnotationView|
        (i + json_annotation(a).len() <= n && s.subrange(i, i + json_annotation(a).len())
            == json_annotation(a)) implies ({
        let q1 = i + "{\"function\":"@.len();
        let q2 = q1 + json_c_decl(a.function).len();
        let q3 = q2 + ",\"params\":"@.len();
        let q4 = q3 + json_parameters(a.params).len();
        let q5 = q4 + ",\"return_param\":"@.len();
        let q6 = q5 + json_opt_parameter(a.return_param).len();
        let q7 = q6 + ",\"defaults\":"@.len();
        let q8 = q7 + json_defaults(a.defaults).len();
        &&& crate::parser::tag_at_spec(s, i, "{\"function\":"@)
        &&& s.subrange(q1, q2) == json_c_decl(a.function)
        &&& crate::parser::tag_at_spec(s, q2, ",\"params\":"@)
        &&& s.subrange(q3, q4) == json_parameters(a.params)
        &&& crate::parser::tag_at_spec(s, q4, ",\"return_param\":"@)
        &&& s.subrange(q5, q6) == json_opt_parameter(a.return_param)
        &&& (a.return_param is None ==> crate::parser::tag_at_spec(s, q5, "null"@))
        &&& (a.return_param is Some ==> s[q5] == '{')
        &&& crate::parser::tag_at_spec(s, q6, ",\"defaults\":"@)
        &&& s.subrange(q7, q8) == json_defaults(a.defaults)
        &&& crate::parser::tag_at_spec(s, q8, "}"@)
        &&& i + json_annotation(a).len() == q8 + 1
    }) by {
        let doc = json_annotation(a);
        let t1 = "{\"function\":"@;
        let t2 = ",\"params\":"@;
        let t3 = ",\"return_param\":"@;
        let t4 = ",\"defaults\":"@;
        let q1 = t1.len() as int;
        let q2 = q1 + json_c_decl(a.function).len();
        let q3 = q2 + t2.len();
        let q4 = q3 + json_parameters(a.params).len();
        let q5 = q4 + t3.len();
        let q6 = q5 + json_opt_parameter(a.return_param).len();
        let q7 = q6 + t4.len();
        let q8 = q7 + json_defaults(a.defaults).len();
        assert(s.subrange(i, i + q1) == t1) by {
            lemma_piece_at(s, i, doc, 0, q1);
            assert(doc.subrange(0, q1) =~= t1);
        }
        assert(s.subrange(i + q1, i + q2) == json_c_decl(a.function)) by {
            lemma_piece_at(s, i, doc, q1, q2);
            assert(doc.subrange(q1, q2) =~= json_c_decl(a.function));
        }
        assert(s.subrange(i + q2, i + q3) == t2) by {
            lemma_piece_at(s, i, doc, q2, q3);
            assert(doc.subrange(q2, q3) =~= t2);
        }
        assert(s.subrange(i + q3, i + q4) == json_parameters(a.params)) by {
            lemma_piece_at(s, i, doc, q3, q4);
            assert(doc.subrange(q3, q4) =~= json_parameters(a.params));
        }
        assert(s.subrange(i + q4, i + q5) == t3) by {
            lemma_piece_at(s, i, doc, q4, q5);
            assert(doc.subrange(q4, q5) =~= t3);
        }
        assert(s.subrange(i + q5, i + q6) == json_opt_parameter(a.return_param)) by {
            lemma_piece_at(s, i, doc, q5, q6);
            assert(doc.subrange(q5, q6) =~= json_opt_parameter(a.return_param));
        }
        if a.return_param is Some {
            lemma_char_at(s, i, doc, q5);
            assert(doc[q5] == json_opt_parameter(a.return_param)[0]);
            assert(json_opt_parameter(a.return_param)[0] == '{');
        }
        assert(s.subrange(i + q6, i + q7) == t4) by {
            lemma_piece_at(s, i, doc, q6, q7);
            assert(doc.subrange(q6, q7) =~= t4);
        }
        assert(s.subrange(i + q7, i + q8) == json_defaults(a.defaults)) by {
            lemma_piece_at(s, i, doc, q7, q8);
            assert(doc.subrange(q7, q8) =~= json_defaults(a.defaults));
        }
        assert(s.subrange(i + q8, i + q8 + 1) == "}"@) by {
            lemma_piece_at(s, i, doc, q8, q8 + 1);
            assert(doc.subrange(q8, q8 + 1) =~= "}"@);
        }
    }
}

/// Parses a whole annotation document at `i`. Reads back exactly any
/// annotation with unescapable strings whose canonical document the text
/// carries here.
#[verifier::rlimit(100)]
fn parse_annotation_json(s: &str, i: usize, n: usize) -> (r: Option<(Annotation, usize)>)
    requires
        i <= n,
        n == s@.len(),
    ensures
        r matches Some(p) ==> i < p.1 <= n,
        forall|a: AnnotationView|
            #![trigger json_annotation(a)]
            (plain_annotation(a) && i + json_annotation(a).len() <= n && s@.subrange(
                i as int,
                i + json_annotation(a).len(),
            ) == json_annotation(a)) ==> (r matches Some(p) && p.0@ == a && p.1 == i
                + json_annotation(a).len()),
{
    proof {
        reveal_strlit("{\"function\":");
        reveal_strlit(",\"params\":");
        reveal_strlit(",\"return_param\":");
        reveal_strlit(",\"defaults\":");
        reveal_strlit("}");
        reveal_strlit("null");
        lemma_annotation_pieces(s@, i as int, n as int);
    }
    let i1 = match expect_lit(s, i, n, "{\"function\":") {
        Some(j) => j,
        None => {
            return None;
        },
    };
    let (function, i2) = match parse_c_decl_json(s, i1, n) {
        Some(p) => p,
        None => {
            return None;
        },
    };
    let i3 = match expect_lit(s, i2, n, ",\"params\":") {
        Some(j) => j,
        None => {
            return None;
        },
    };
    let (params, i4) = match parse_parameters_json(s, i3, n) {
        Some(p) => p,
        None => {
            return None;
        },
    };
    let i5 = match expect_lit(s, i4, n, ",\"return_param\":") {
        Some(j) => j,
        None => {
            return None;
        },
    };
    let (return_param, i6) = if let Some(x) = expect_lit(s, i5, n, "null") {
        proof {
            assert forall|a: AnnotationView|
                (plain_annotation(a) && i + json_annotation(a).len() <= n && s@.subrange(
                    i as int,
                    i + json_annotation(a).len(),
                ) == json_annotation(a)) implies a.return_param is None by {
                if a.return_param is Some {
                    assert(s@.subrange(i5 as int, i5 + 4)[0] == s@[i5 as int]);
                }
            }
        }
        (None, x)
    } else {
        match parse_parameter_json(s, i5, n) {
            Some(p) => (Some(p.0), p.1),
            None => {
                return None;
            },
        }
    };
    let i7 = match expect_lit(s, i6, n, ",\"defaults\":") {
        Some(j) => j,
        None => {
            return None;
        },
    };
    let (defaults, i8) = match parse_defaults_json(s, i7, n) {
        Some(p) => p,
        None => {
            return None;
        },
    };
    let i9 = match expect_lit(s, i8, n, "}") {
        Some(j) => j,
        None => {
            return None;
        },
    };
    let r = Some((Annotation { function, params, return_param, defaults }, i9));
    proof {
        assert forall|a: AnnotationView|
            (plain_annotation(a) && i + json_annotation(a).len() <= n && s@.subrange(
                i as int,
                i + json_annotation(a).len(),
            ) == json_annotation(a)) implies (r matches Some(p) && p.0@ == a && p.1 == i
            + json_annotation(a).len()) by {
            let built = r->Some_0.0;
            assert(built@.params =~= a.params);
            assert(built@.defaults =~= a.defaults);
            match a.return_param {
                None => {},
                Some(rp) => {
                    assert(built@.return_param == a.return_param);
                },
            }
            assert(built@ =~= a);
        }
    }
    r
}

impl Annotation {
    /// Parses an annotation from its canonical JSON document: the exact text
    /// [`to_json`] writes, which the generated headers embed. The parsed
    /// annotation is serialized again and accepted only if that reproduces
    /// the input, so a returned annotation is exactly the one whose
    /// canonical document is `s` — and on the canonical document of any
    /// annotation whose strings are unescapable, parsing is guaranteed to
    /// succeed and return that annotation. Together with [`to_json`]'s
    /// contract this gives the round trip: parsing back a serialized
    /// annotation yields a structurally equal annotation.
    pub fn from_json(s: &str) -> (r: Result<Annotation, Error>)
        ensures
            r matches Ok(a) ==> s@ == json_annotation(a@),
            forall|av: AnnotationView|
                #![trigger json_annotation(av)]
                (plain_annotation(av) && s@ == json_annotation(av)) ==> (r matches Ok(a) && a@
                    == av),
    {
        let n = s.unicode_len();
        let parsed = match parse_annotation_json(s, 0, n) {
            Some((a, end)) => {
                if end != n {
                    proof {
                        assert forall|av: AnnotationView|
                            (plain_annotation(av) && s@ == json_annotation(av)) implies false by {
                            assert(s@.subrange(0, json_annotation(av).len() as int) =~= s@);
                        }
                    }
                    return Err(Error::new(String::from_str("Parse error")));
                }
                a
            },
            None => {
                proof {
                    assert forall|av: AnnotationView|
                        (plain_annotation(av) && s@ == json_annotation(av)) implies false by {
                        assert(s@.subrange(0, json_annotation(av).len() as int) =~= s@);
                    }
                }
                return Err(Error::new(String::from_str("Parse error")));
            },
        };
        let round = to_json(&parsed);
        if util::str_eq(round.as_str(), s) {
            let r = Ok(parsed);
            proof {
                assert forall|av: AnnotationView|
                    (plain_annotation(av) && s@ == json_annotation(av)) implies (r matches Ok(a)
                    && a@ == av) by {
                    assert(s@.subrange(0, json_annotation(av).len() as int) =~= s@);
                }
            }
            r
        } else {
            proof {
                assert forall|av: AnnotationView|
                    (plain_annotation(av) && s@ == json_annotation(av)) implies false by {
                    assert(s@.subrange(0, json_annotation(av).len() as int) =~= s@);
                }
            }
            Err(Error::new(String::from_str("Parse error")))
        }
    }
}

} // verus!
