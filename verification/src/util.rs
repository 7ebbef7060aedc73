//! Small helpers shared by the engine's callers: list edits driven by a
//! predicate, month names, string joining, and the progress glyph scale.

use vstd::prelude::*;
use vstd::std_specs::cmp::PartialEqSpec;
use vstd::string::StringExecFns;

verus! {

/// Removes every element equal to the given one, in the sense of the
/// element type's own equality.
pub fn remove_from_vec<T: PartialEq>(vec: &mut Vec<T>, instance: &T)
    ensures
        final(vec)@.len() <= old(vec)@.len(),
        T::obeys_eq_spec() ==> forall|k: int|
            0 <= k < final(vec)@.len() ==> !(#[trigger] final(vec)@[k]).eq_spec(instance),
{
    let ghost n0 = old(vec)@.len();
    let mut kept: Vec<T> = Vec::new();
    while vec.len() > 0
        invariant
            kept@.len() + vec@.len() <= n0,
            T::obeys_eq_spec() ==> forall|k: int|
                0 <= k < kept@.len() ==> !(#[trigger] kept@[k]).eq_spec(instance),
        decreases vec@.len(),
    {
        let x = vec.remove(0);
        if !(x == *instance) {
            kept.push(x);
        }
    }
    *vec = kept;
}

/// Removes every element the predicate selects; what remains got a negative
/// answer from the predicate.
pub fn remove_from_vec_if<T, F: Fn(&T) -> bool>(vec: &mut Vec<T>, predicate: &F)
    requires
        forall|y: &T| #[trigger] call_requires(*predicate, (y,)),
    ensures
        final(vec)@.len() <= old(vec)@.len(),
        forall|k: int|
            0 <= k < final(vec)@.len() ==> call_ensures(
                *predicate,
                (&final(vec)@[k],),
                false,
            ),
{
    let ghost n0 = old(vec)@.len();
    let mut kept: Vec<T> = Vec::new();
    while vec.len() > 0
        invariant
            forall|y: &T| #[trigger] call_requires(*predicate, (y,)),
            kept@.len() + vec@.len() <= n0,
            forall|k: int|
                0 <= k < kept@.len() ==> call_ensures(*predicate, (&kept@[k],), false),
        decreases vec@.len(),
    {
        let x = vec.remove(0);
        if !predicate(&x) {
            kept.push(x);
        }
    }
    *vec = kept;
}

/// Whether the predicate answers yes for some element.
pub fn vec_any_match<T, F: Fn(&T) -> bool>(vec: &Vec<T>, predicate: &F) -> (r: bool)
    requires
        forall|y: &T| #[trigger] call_requires(*predicate, (y,)),
    ensures
        r ==> exists|k: int|
            0 <= k < vec@.len() && call_ensures(*predicate, (&vec@[k],), true),
        !r ==> forall|k: int|
            0 <= k < vec@.len() ==> call_ensures(*predicate, (&vec@[k],), false),
{
    let mut i: usize = 0;
    while i < vec.len()
        invariant
            forall|y: &T| #[trigger] call_requires(*predicate, (y,)),
            0 <= i <= vec@.len(),
            forall|k: int| 0 <= k < i ==> call_ensures(*predicate, (&vec@[k],), false),
        decreases vec@.len() - i,
    {
        if predicate(&vec[i]) {
            assert(call_ensures(*predicate, (&vec@[i as int],), true));
            return true;
        }
        i += 1;
    }
    false
}

/// Whether the predicate answers yes for every element.
pub fn vec_all_match<T, F: Fn(&T) -> bool>(vec: &Vec<T>, predicate: &F) -> (r: bool)
    requires
        forall|y: &T| #[trigger] call_requires(*predicate, (y,)),
    ensures
        r ==> forall|k: int|
            0 <= k < vec@.len() ==> call_ensures(*predicate, (&vec@[k],), true),
        !r ==> exists|k: int|
            0 <= k < vec@.len() && call_ensures(*predicate, (&vec@[k],), false),
{
    let mut i: usize = 0;
    while i < vec.len()
        invariant
            forall|y: &T| #[trigger] call_requires(*predicate, (y,)),
            0 <= i <= vec@.len(),
            forall|k: int| 0 <= k < i ==> call_ensures(*predicate, (&vec@[k],), true),
        decreases vec@.len() - i,
    {
        if !predicate(&vec[i]) {
            assert(call_ensures(*predicate, (&vec@[i as int],), false));
            return false;
        }
        i += 1;
    }
    true
}

/// Whether the predicate answers no for every element.
pub fn vec_none_match<T, F: Fn(&T) -> bool>(vec: &Vec<T>, predicate: &F) -> (r: bool)
    requires
        forall|y: &T| #[trigger] call_requires(*predicate, (y,)),
    ensures
        r ==> forall|k: int|
            0 <= k < vec@.len() ==> call_ensures(*predicate, (&vec@[k],), false),
        !r ==> exists|k: int|
            0 <= k < vec@.len() && call_ensures(*predicate, (&vec@[k],), true),
{
    let mut i: usize = 0;
    while i < vec.len()
        invariant
            forall|y: &T| #[trigger] call_requires(*predicate, (y,)),
            0 <= i <= vec@.len(),
            forall|k: int| 0 <= k < i ==> call_ensures(*predicate, (&vec@[k],), false),
        decreases vec@.len() - i,
    {
        if predicate(&vec[i]) {
            assert(call_ensures(*predicate, (&vec@[i as int],), true));
            return false;
        }
        i += 1;
    }
    true
}

/// The three-letter English abbreviation of a month number.
pub fn get_month_str(month: u32) -> (r: String)
    requires
        1 <= month <= 12,
    ensures
        month == 1 ==> r@ == "Jan"@,
        month == 2 ==> r@ == "Feb"@,
        month == 3 ==> r@ == "Mar"@,
        month == 4 ==> r@ == "Apr"@,
        month == 5 ==> r@ == "May"@,
        month == 6 ==> r@ == "Jun"@,
        month == 7 ==> r@ == "Jul"@,
        month == 8 ==> r@ == "Aug"@,
        month == 9 ==> r@ == "Sep"@,
        month == 10 ==> r@ == "Oct"@,
        month == 11 ==> r@ == "Nov"@,
        month == 12 ==> r@ == "Dec"@,
{
    match month {
        1 => "Jan".to_owned(),
        2 => "Feb".to_owned(),
        3 => "Mar".to_owned(),
        4 => "Apr".to_owned(),
        5 => "May".to_owned(),
        6 => "Jun".to_owned(),
        7 => "Jul".to_owned(),
        8 => "Aug".to_owned(),
        9 => "Sep".to_owned(),
        10 => "Oct".to_owned(),
        11 => "Nov".to_owned(),
        _ => "Dec".to_owned(),
    }
}

/// The view of a borrowed-string list: each part's characters.
pub open spec fn strs_view(parts: Seq<&str>) -> Seq<Seq<char>> {
    parts.map_values(|s: &str| s@)
}

/// The remaining parts of a join, each preceded by the separator.
pub open spec fn join_tail(parts: Seq<Seq<char>>, sep: Seq<char>) -> Seq<char>
    decreases parts.len(),
{
    if parts.len() == 0 {
        Seq::empty()
    } else {
        sep + parts.first() + join_tail(parts.drop_first(), sep)
    }
}

/// The parts joined with the separator between each adjacent pair.
pub open spec fn join_of(parts: Seq<Seq<char>>, sep: Seq<char>) -> Seq<char> {
    if parts.len() == 0 {
        Seq::empty()
    } else {
        parts.first() + join_tail(parts.drop_first(), sep)
    }
}

/// Appending one part to a join appends the separator and the part.
proof fn lemma_join_tail_push(parts: Seq<Seq<char>>, p: Seq<char>, sep: Seq<char>)
    ensures
        join_tail(parts.push(p), sep) == join_tail(parts, sep) + (sep + p),
    decreases parts.len(),
{
    if parts.len() == 0 {
        assert(parts.push(p).first() == p);
        assert(parts.push(p).drop_first() =~= parts);
        assert(join_tail(parts.push(p), sep) =~= join_tail(parts, sep) + (sep + p));
    } else {
        assert(parts.push(p).first() == parts.first());
        assert(parts.push(p).drop_first() =~= parts.drop_first().push(p));
        lemma_join_tail_push(parts.drop_first(), p, sep);
        assert(join_tail(parts.push(p), sep) =~= join_tail(parts, sep) + (sep + p));
    }
}

/// Joins the parts, placing the separator between each adjacent pair; empty
/// input joins to the empty string.
pub fn join_str_with(vec: Vec<&str>, with: &str) -> (r: String)
    ensures
        r@ == join_of(strs_view(vec@), with@),
{
    let ghost parts = strs_view(vec@);
    if vec.len() == 0 {
        let r = String::new();
        assert(r@ =~= join_of(parts, with@));
        return r;
    }
    let mut string = String::from_str(vec[0]);
    let mut i: usize = 1;
    while i < vec.len()
        invariant
            parts == strs_view(vec@),
            1 <= i <= vec@.len(),
            vec@.len() == parts.len(),
            string@ == parts.first() + join_tail(parts.subrange(1, i as int), with@),
        decreases vec@.len() - i,
    {
        let ghost prefix = parts.subrange(1, i as int);
        string.append(with);
        string.append(vec[i]);
        proof {
            assert(parts.subrange(1, i + 1) =~= prefix.push(parts[i as int]));
            lemma_join_tail_push(prefix, parts[i as int], with@);
            assert(string@ =~= parts.first() + join_tail(parts.subrange(1, i + 1), with@));
        }
        i += 1;
    }
    proof {
        assert(parts.subrange(1, parts.len() as int) =~= parts.drop_first());
        assert(string@ =~= join_of(parts, with@));
    }
    string
}

/// The glyph showing a completion percentage in nine steps, from an empty
/// circle at zero to a full one at a hundred.
pub fn get_progression_char(percent: u32) -> (r: char)
    requires
        percent <= 100,
    ensures
        percent == 0 ==> r == '\u{f0766}',
        0 < percent <= 13 ==> r == '\u{f0a9e}',
        13 < percent <= 25 ==> r == '\u{f0a9f}',
        25 < percent <= 38 ==> r == '\u{f0aa0}',
        38 < percent <= 50 ==> r == '\u{f0aa1}',
        50 < percent <= 63 ==> r == '\u{f0aa2}',
        63 < percent <= 75 ==> r == '\u{f0aa3}',
        75 < percent <= 88 ==> r == '\u{f0aa4}',
        88 < percent <= 100 ==> r == '\u{f0aa5}',
{
    if percent == 0 {
        '\u{f0766}'
    } else if percent <= 13 {
        '\u{f0a9e}'
    } else if percent <= 25 {
        '\u{f0a9f}'
    } else if percent <= 38 {
        '\u{f0aa0}'
    } else if percent <= 50 {
        '\u{f0aa1}'
    } else if percent <= 63 {
        '\u{f0aa2}'
    } else if percent <= 75 {
        '\u{f0aa3}'
    } else if percent <= 88 {
        '\u{f0aa4}'
    } else {
        '\u{f0aa5}'
    }
}

/// Drops a value, ending its lifetime explicitly.
pub fn destroy<T>(_obj: T) {
}

} // verus!
