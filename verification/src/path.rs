//! Paths: `/`-separated sequences of names.

use crate::text::{fields, lemma_fields_head, lemma_fields_of_nothing, lemma_fields_skip};
use vstd::prelude::*;

verus! {

/// What separates the names of a path.
pub open spec fn is_slash() -> spec_fn(char) -> bool {
    |c: char| c == '/'
}

/// The names a path is made of: its maximal non-empty runs of characters
/// other than `/`, in order. Leading, trailing and repeated separators count
/// for nothing.
pub open spec fn components(s: Seq<char>) -> Seq<Seq<char>> {
    fields(s, is_slash())
}

/// The views of a vector of names.
pub open spec fn names_of(parts: Seq<String>) -> Seq<Seq<char>> {
    Seq::new(parts.len(), |i: int| parts[i]@)
}

/// The names of `parts` from position `from` on.
pub open spec fn names_from(parts: Seq<String>, from: int) -> Seq<Seq<char>> {
    names_of(parts).subrange(from, parts.len() as int)
}

/// `names_from` steps through the names one at a time.
pub proof fn lemma_names_from_step(parts: Seq<String>, from: int)
    requires
        0 <= from < parts.len(),
    ensures
        names_from(parts, from).len() == parts.len() - from,
        names_from(parts, from)[0] == parts[from]@,
        names_from(parts, from).drop_first() == names_from(parts, from + 1),
{
    assert(names_from(parts, from).drop_first() =~= names_from(parts, from + 1));
}

/// Splits a path into its names.
pub fn split_path(path: &str) -> (parts: Vec<String>)
    ensures
        names_of(parts@) == components(path@),
{
    let n = path.unicode_len();
    let mut parts: Vec<String> = Vec::new();
    let mut start: usize = 0;
    let mut i: usize = 0;
    proof {
        assert(path@.subrange(0, n as int) =~= path@);
        assert(names_of(parts@) + components(path@) =~= components(path@));
    }
    while i < n
        invariant
            n == path@.len(),
            start <= i <= n,
            forall|j: int| start <= j < i ==> path@[j] != '/',
            components(path@) == names_of(parts@) + components(
                path@.subrange(start as int, n as int),
            ),
        decreases n - i,
    {
        let c = path.get_char(i);
        if c == '/' {
            let ghost tail = path@.subrange(start as int, n as int);
            let ghost k = i - start;
            let ghost next = path@.subrange(i + 1, n as int);
            let ghost before = parts@;
            if start < i {
                let name = path.substring_char(start, i);
                parts.push(name.to_owned());
                proof {
                    let after = tail.subrange(k, tail.len() as int);
                    lemma_fields_head(tail, is_slash(), k);
                    lemma_fields_skip(after, is_slash());
                    assert(after.drop_first() =~= next);
                    assert(tail.subrange(0, k) =~= name@);
                    assert(names_of(parts@) =~= names_of(before) + seq![name@]);
                    assert(names_of(before) + (seq![name@] + components(next)) =~= names_of(parts@)
                        + components(next));
                }
            } else {
                proof {
                    lemma_fields_skip(tail, is_slash());
                    assert(tail.drop_first() =~= next);
                }
            }
            start = i + 1;
        }
        i += 1;
    }
    if start < n {
        let name = path.substring_char(start, n);
        let ghost before = parts@;
        let ghost tail = path@.subrange(start as int, n as int);
        parts.push(name.to_owned());
        proof {
            lemma_fields_head(tail, is_slash(), tail.len() as int);
            assert(tail.subrange(0, tail.len() as int) =~= tail);
            lemma_fields_of_nothing(tail.subrange(tail.len() as int, tail.len() as int), is_slash());
            assert(names_of(parts@) =~= names_of(before) + seq![tail]);
        }
    } else {
        proof {
            lemma_fields_of_nothing(path@.subrange(start as int, n as int), is_slash());
            assert(names_of(parts@) + Seq::<Seq<char>>::empty() =~= names_of(parts@));
        }
    }
    parts
}

} // verus!
