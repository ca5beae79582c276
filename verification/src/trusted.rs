//! Calls into outside crates and into std functions that vstd does not
//! specify. Verus takes the contracts below on trust; each doc comment names
//! the outside function and says what is claimed of it.
use itertools::Itertools;
use vstd::prelude::*;

verus! {

/// The first occurrence of each value of `s`, in the order of `s`.
pub open spec fn first_occurrences(s: Seq<usize>) -> Seq<usize>
    decreases s.len(),
{
    if s.len() == 0 {
        Seq::empty()
    } else {
        let rest = first_occurrences(s.drop_last());
        if s.drop_last().contains(s.last()) {
            rest
        } else {
            rest.push(s.last())
        }
    }
}

/// `itertools::Itertools::unique`, collected into a `Vec`: the adaptor yields
/// each element that it has not yielded before, in iteration order, so the
/// result is the first occurrence of each value of `values`, in order.
#[verifier::external_body]
pub(crate) fn unique_values(values: &Vec<usize>) -> (r: Vec<usize>)
    ensures
        r@ == first_occurrences(values@),
{
    values.iter().copied().unique().collect()
}

/// `<[usize]>::sort` on the vector's elements: std documents that it sorts
/// the slice in ascending order, so the result is ascending and holds the
/// same elements as before, as many times each.
#[verifier::external_body]
pub(crate) fn sort_values(values: &mut Vec<usize>)
    ensures
        final(values)@.to_multiset() == old(values)@.to_multiset(),
        forall|i: int, j: int|
            0 <= i < j < final(values)@.len() ==> final(values)@[i] <= final(values)@[j],
{
    values.sort();
}

/// The first occurrences hold each value of `s` once.
pub proof fn lemma_first_occurrences(s: Seq<usize>)
    ensures
        first_occurrences(s).no_duplicates(),
        first_occurrences(s).to_set() == s.to_set(),
    decreases s.len(),
{
    if s.len() > 0 {
        let init = s.drop_last();
        lemma_first_occurrences(init);
        let rest = first_occurrences(init);
        assert(s =~= init.push(s.last()));
        assert(s.to_set() =~= init.to_set().insert(s.last())) by {
            assert forall|x: usize| s.to_set().contains(x) <==> init.to_set().insert(
                s.last(),
            ).contains(x) by {
                if s.contains(x) {
                    let w = choose|w: int| 0 <= w < s.len() && s[w] == x;
                    if w < s.len() - 1 {
                        assert(init[w] == x);
                    }
                }
                if init.contains(x) {
                    let w = choose|w: int| 0 <= w < init.len() && init[w] == x;
                    assert(s[w] == x);
                }
                if x == s.last() {
                    assert(s[s.len() - 1] == x);
                }
            }
        }
        if !init.contains(s.last()) {
            assert(!rest.to_set().contains(s.last()));
            assert(rest.push(s.last()).to_set() =~= rest.to_set().insert(s.last())) by {
                assert forall|x: usize| rest.push(s.last()).to_set().contains(x) <==> rest.to_set().insert(
                    s.last(),
                ).contains(x) by {
                    let p = rest.push(s.last());
                    if p.contains(x) {
                        let w = choose|w: int| 0 <= w < p.len() && p[w] == x;
                        if w < rest.len() {
                            assert(rest[w] == x);
                        }
                    }
                    if rest.contains(x) {
                        let w = choose|w: int| 0 <= w < rest.len() && rest[w] == x;
                        assert(p[w] == x);
                    }
                    if x == s.last() {
                        assert(p[p.len() - 1] == x);
                    }
                }
            }
            assert forall|i: int, j: int|
                0 <= i < rest.push(s.last()).len() && 0 <= j < rest.push(s.last()).len() && i
                    != j implies rest.push(s.last())[i] != rest.push(s.last())[j] by {
                if i == rest.len() && j < rest.len() {
                    assert(rest.to_set().contains(rest[j]));
                }
                if j == rest.len() && i < rest.len() {
                    assert(rest.to_set().contains(rest[i]));
                }
            }
        } else {
            assert(init.to_set().contains(s.last()));
            assert(init.to_set().insert(s.last()) =~= init.to_set());
        }
    }
}

} // verus!
