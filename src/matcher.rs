//! Query tokens turned into an in-order containment test on paths.
use vstd::prelude::*;
use crate::text::{chars_of, lower_of, lowercase};

verus! {

/// `tok` occurs in `hay` starting at index `i`.
pub open spec fn occurs_at(hay: Seq<char>, tok: Seq<char>, i: int) -> bool {
    0 <= i && i + tok.len() <= hay.len() && hay.subrange(i, i + tok.len()) == tok
}

/// The tokens occur in `hay`, in order and without overlapping, at or
/// after index `pos`.
pub open spec fn matches_from(hay: Seq<char>, toks: Seq<Seq<char>>, pos: int) -> bool
    decreases toks.len(),
{
    if toks.len() == 0 {
        true
    } else {
        exists|i: int|
            pos <= i && #[trigger] occurs_at(hay, toks[0], i) && matches_from(
                hay,
                toks.drop_first(),
                i + toks[0].len(),
            )
    }
}

/// `hay` holds every token as a substring, in the order given.
pub open spec fn contains_in_order(hay: Seq<char>, toks: Seq<Seq<char>>) -> bool {
    matches_from(hay, toks, 0)
}

/// Matching later in the path is harder than matching earlier.
proof fn lemma_matches_from_earlier(hay: Seq<char>, toks: Seq<Seq<char>>, p1: int, p2: int)
    requires
        p1 <= p2,
        matches_from(hay, toks, p2),
    ensures
        matches_from(hay, toks, p1),
{
    if toks.len() > 0 {
        assert(exists|i: int|
            p2 <= i && #[trigger] occurs_at(hay, toks[0], i) && matches_from(
                hay,
                toks.drop_first(),
                i + toks[0].len(),
            ));
        let i = choose|i: int|
            p2 <= i && #[trigger] occurs_at(hay, toks[0], i) && matches_from(
                hay,
                toks.drop_first(),
                i + toks[0].len(),
            );
        assert(p1 <= i && occurs_at(hay, toks[0], i) && matches_from(
            hay,
            toks.drop_first(),
            i + toks[0].len(),
        ));
    }
}

/// Whether `tok` occurs in `hay` at index `i`.
fn occurs_at_index(hay: &Vec<char>, tok: &Vec<char>, i: usize) -> (r: bool)
    ensures
        r == occurs_at(hay@, tok@, i as int),
{
    if tok.len() > hay.len() || i > hay.len() - tok.len() {
        return false;
    }
    let mut k: usize = 0;
    while k < tok.len()
        invariant
            k <= tok.len(),
            i + tok.len() <= hay.len(),
            forall|m: int| 0 <= m < k ==> hay@[i + m] == tok@[m],
        decreases tok.len() - k,
    {
        if hay[i + k] != tok[k] {
            assert(hay@.subrange(i as int, i + tok.len())[k as int] != tok@[k as int]);
            return false;
        }
        k = k + 1;
    }
    assert(hay@.subrange(i as int, i + tok.len()) =~= tok@);
    true
}

/// The first index at or after `pos` where `tok` occurs in `hay`.
fn find_from(hay: &Vec<char>, tok: &Vec<char>, pos: usize) -> (r: Option<usize>)
    ensures
        r matches Some(i) ==> pos <= i && occurs_at(hay@, tok@, i as int) && forall|j: int|
            pos <= j < i ==> !occurs_at(hay@, tok@, j),
        r is None ==> forall|j: int| pos <= j ==> !occurs_at(hay@, tok@, j),
{
    if tok.len() > hay.len() || pos > hay.len() - tok.len() {
        return None;
    }
    if tok.len() == 0 {
        assert(hay@.subrange(pos as int, pos as int) =~= tok@);
        return Some(pos);
    }
    let last = hay.len() - tok.len();
    let mut i = pos;
    while i <= last
        invariant
            pos <= i,
            i <= last + 1,
            last < hay.len(),
            last == hay.len() - tok.len(),
            forall|j: int| pos <= j < i ==> !occurs_at(hay@, tok@, j),
        decreases last + 1 - i,
    {
        if occurs_at_index(hay, tok, i) {
            return Some(i);
        }
        i = i + 1;
    }
    None
}

/// A query: lowercased tokens that a path must contain in order.
pub struct Pattern {
    tokens: Vec<Vec<char>>,
}

impl View for Pattern {
    type V = Seq<Seq<char>>;

    closed spec fn view(&self) -> Seq<Seq<char>> {
        self.tokens@.map_values(|t: Vec<char>| t@)
    }
}

/// Builds the pattern of a query: each token lowercased, order kept.
pub fn build_pattern(tokens: &Vec<String>) -> (p: Pattern)
    ensures
        p@.len() == tokens.len(),
        forall|i: int| 0 <= i < tokens.len() ==> #[trigger] p@[i] == lower_of(tokens[i]@),
{
    let mut out: Vec<Vec<char>> = Vec::new();
    let mut k: usize = 0;
    while k < tokens.len()
        invariant
            k <= tokens.len(),
            out.len() == k,
            forall|i: int| 0 <= i < k ==> #[trigger] out[i]@ == lower_of(tokens[i]@),
        decreases tokens.len() - k,
    {
        let low = lowercase(tokens[k].as_str());
        out.push(chars_of(low.as_str()));
        k = k + 1;
    }
    Pattern { tokens: out }
}

impl Pattern {
    /// Whether the pattern holds no token; such a pattern selects nothing.
    pub fn is_empty(&self) -> (r: bool)
        ensures
            r == (self@.len() == 0),
    {
        self.tokens.len() == 0
    }

    /// Whether `path` contains every token of the pattern, in order.
    pub fn matches(&self, path: &str) -> (r: bool)
        ensures
            r == contains_in_order(path@, self@),
    {
        let hay = chars_of(path);
        let ghost toks = self@;
        let mut pos: usize = 0;
        let mut k: usize = 0;
        assert(toks.skip(0) =~= toks);
        while k < self.tokens.len()
            invariant
                k <= self.tokens.len(),
                pos <= hay.len(),
                toks == self@,
                hay@ == path@,
                contains_in_order(hay@, toks) == matches_from(hay@, toks.skip(k as int), pos as int),
            decreases self.tokens.len() - k,
        {
            let tok = &self.tokens[k];
            let ghost rest = toks.skip(k as int);
            assert(rest.len() > 0);
            assert(rest[0] == tok@);
            assert(rest.drop_first() =~= toks.skip(k + 1));
            match find_from(&hay, tok, pos) {
                None => {
                    proof {
                        if matches_from(hay@, rest, pos as int) {
                            let j = choose|j: int|
                                pos <= j && #[trigger] occurs_at(hay@, rest[0], j) && matches_from(
                                    hay@,
                                    rest.drop_first(),
                                    j + rest[0].len(),
                                );
                            assert(!occurs_at(hay@, tok@, j));
                        }
                    }
                    return false;
                },
                Some(i) => {
                    proof {
                        if matches_from(hay@, rest, pos as int) {
                            let j = choose|j: int|
                                pos <= j && #[trigger] occurs_at(hay@, rest[0], j) && matches_from(
                                    hay@,
                                    rest.drop_first(),
                                    j + rest[0].len(),
                                );
                            assert(i <= j);
                            lemma_matches_from_earlier(
                                hay@,
                                rest.drop_first(),
                                i + tok@.len(),
                                j + rest[0].len(),
                            );
                        }
                        if matches_from(hay@, rest.drop_first(), i + tok@.len()) {
                            assert(pos <= i && occurs_at(hay@, rest[0], i as int));
                        }
                        assert(matches_from(hay@, rest, pos as int) == matches_from(
                            hay@,
                            toks.skip(k + 1),
                            i + tok@.len(),
                        ));
                    }
                    pos = i + tok.len();
                },
            }
            k = k + 1;
        }
        assert(toks.skip(k as int).len() == 0);
        true
    }
}

} // verus!
