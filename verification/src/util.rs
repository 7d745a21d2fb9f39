//! Shared utility functions.

use vstd::prelude::*;

verus! {

/// The string obtained by appending every element of `strings` to `start`,
/// with `sep` between consecutive elements (but not between `start` and the
/// first element).
pub open spec fn join_spec(start: Seq<char>, sep: Seq<char>, strings: Seq<Seq<char>>) -> Seq<char>
    decreases strings.len(),
{
    if strings.len() == 0 {
        start
    } else if strings.len() == 1 {
        start + strings[0]
    } else {
        join_spec(start, sep, strings.drop_last()) + sep + strings.last()
    }
}

/// Compares two string slices character by character.
pub fn str_eq(a: &str, b: &str) -> (r: bool)
    ensures
        r == (a@ == b@),
{
    let na = a.unicode_len();
    let nb = b.unicode_len();
    if na != nb {
        return false;
    }
    let mut i: usize = 0;
    while i < na
        invariant
            i <= na,
            na == a@.len(),
            na == b@.len(),
            forall|j: int| 0 <= j < i ==> a@[j] == b@[j],
        decreases na - i,
    {
        if a.get_char(i) != b.get_char(i) {
            return false;
        }
        i = i + 1;
    }
    proof {
        assert(a@ =~= b@);
    }
    true
}

/// Joins a list of strings using a delimiter, starting from `start`.
pub fn join(start: String, sep: &str, strings: &Vec<String>) -> (r: String)
    ensures
        r@ == join_spec(start@, sep@, strings@.map_values(|s: String| s@)),
{
    let ghost views = strings@.map_values(|s: String| s@);
    let mut buf = start;
    let mut i: usize = 0;
    while i < strings.len()
        invariant
            i <= strings.len(),
            views == strings@.map_values(|s: String| s@),
            buf@ == join_spec(start@, sep@, views.take(i as int)),
        decreases strings.len() - i,
    {
        if i > 0 {
            buf.append(sep);
        }
        buf.append(strings[i].as_str());
        proof {
            assert(views.take(i + 1).drop_last() =~= views.take(i as int));
            assert(views.take(i + 1).last() == views[i as int]);
        }
        i = i + 1;
    }
    proof {
        assert(views.take(strings@.len() as int) =~= views);
    }
    buf
}

} // verus!
