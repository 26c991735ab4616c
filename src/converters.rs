use vstd::prelude::*;

pub mod sqlite;

verus! {

/// An error of a conversion, with the byte range `[start, end)` of the query
/// text that it concerns.
#[derive(Debug, Clone, PartialEq, Eq)]
pub struct ConvertError<E> {
    pub error: E,
    pub start: usize,
    pub end: usize,
}

/// A backend that turns queries into its own filter form `O`, or an error
/// carrying an `E`.
pub trait Convert<O, E> {
    /// Converts parsed terms.
    fn convert_terms(&self, terms: &[crate::ast::Term]) -> Result<O, ConvertError<E>>;

    /// Parses and converts a query.
    fn convert(&self, query: &str) -> Result<O, ConvertError<E>>;
}

/// The mathematical content of a `ConvertError` with a text message.
pub struct ErrorModel {
    pub error: Seq<char>,
    pub start: int,
    pub end: int,
}

impl View for ConvertError<String> {
    type V = ErrorModel;

    open spec fn view(&self) -> ErrorModel {
        ErrorModel { error: self.error@, start: self.start as int, end: self.end as int }
    }
}

pub open spec fn min3(a: nat, b: nat, c: nat) -> nat {
    if a <= b && a <= c {
        a
    } else if b <= c {
        b
    } else {
        c
    }
}

/// The Levenshtein distance: the least number of single-character insertions,
/// deletions and substitutions that turn `a` into `b`.
pub open spec fn edit_distance(a: Seq<char>, b: Seq<char>) -> nat
    decreases a.len() + b.len(),
{
    if a.len() == 0 {
        b.len()
    } else if b.len() == 0 {
        a.len()
    } else {
        min3(
            edit_distance(a.drop_last(), b) + 1,
            edit_distance(a, b.drop_last()) + 1,
            edit_distance(a.drop_last(), b.drop_last()) + if a.last() == b.last() {
                0nat
            } else {
                1nat
            },
        )
    }
}

/// Relies on `strsim::levenshtein`: the Levenshtein distance between the
/// characters of `a` and those of `b`.
#[verifier::external_body]
fn levenshtein(a: &str, b: &str) -> (r: usize)
    ensures
        r == edit_distance(a@, b@),
{
    strsim::levenshtein(a, b)
}

/// The views of a sequence of strings.
pub open spec fn strings_view(items: Seq<String>) -> Seq<Seq<char>> {
    items.map_values(|s: String| s@)
}

/// The first of `items` within edit distance `dist` of `name`.
pub open spec fn closest(items: Seq<Seq<char>>, name: Seq<char>, dist: nat) -> Option<Seq<char>>
    decreases items.len(),
{
    if items.len() == 0 {
        None
    } else if edit_distance(items[0], name) <= dist {
        Some(items[0])
    } else {
        closest(items.drop_first(), name, dist)
    }
}

/// The first of `items` within edit distance `dist` (3 when not given) of `name`.
pub fn propose_closest(items: &[String], name: &str, dist: Option<usize>) -> (r: Option<String>)
    ensures
        match r {
            Some(s) => closest(strings_view(items@), name@, dist.unwrap_or(3) as nat) == Some(s@),
            None => closest(strings_view(items@), name@, dist.unwrap_or(3) as nat) is None,
        },
{
    let d = match dist {
        Some(d) => d,
        None => 3,
    };
    assert(d as nat == dist.unwrap_or(3) as nat);
    let ghost all = strings_view(items@);
    assert(all.subrange(0, all.len() as int) =~= all);
    let mut i: usize = 0;
    while i < items.len()
        invariant
            i <= items@.len(),
            all == strings_view(items@),
            d as nat == dist.unwrap_or(3) as nat,
            closest(all, name@, d as nat) == closest(all.subrange(i as int, all.len() as int), name@, d as nat),
        decreases items.len() - i,
    {
        let entry = &items[i];
        let dist_here = levenshtein(entry.as_str(), name);
        let ghost rest = all.subrange(i as int, all.len() as int);
        assert(rest[0] == entry@);
        if dist_here <= d {
            return Some(entry.clone());
        }
        assert(rest.drop_first() =~= all.subrange(i + 1, all.len() as int));
        i = i + 1;
    }
    assert(all.subrange(i as int, all.len() as int) =~= Seq::<Seq<char>>::empty());
    None
}

} // verus!
