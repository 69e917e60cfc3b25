//! Which variables a text refers to.

use crate::grammar::{lemma_scan_progress, scan_at, Scan, TokenView};
use crate::text::{
    compare_chars, lemma_lex_lt_irreflexive, lemma_lex_lt_transitive, lex_lt, Order,
};
use vstd::prelude::*;
use vstd::slice::slice_to_vec;

verus! {

/// The names of the variable tokens of `text` at or after `pos`, up to the
/// end of the text or to the first construct that is malformed. Only tokens
/// of the text itself count: what stands inside a command, a quoted region
/// or the text behind a modifier is not looked into.
pub open spec fn referenced_names(text: Seq<char>, pos: int) -> Set<Seq<char>>
    decreases text.len() - pos,
{
    match scan_at(text, pos) {
        Scan::End => Set::empty(),
        Scan::Fail(_) => Set::empty(),
        Scan::Token { token, end } => {
            proof {
                lemma_scan_progress(text, pos);
            }
            match token {
                TokenView::Variable { name, .. } => referenced_names(text, end).insert(name),
                _ => referenced_names(text, end),
            }
        },
    }
}

/// Each text is below the ones behind it. No text occurs twice in such a
/// sequence.
pub open spec fn strictly_sorted(names: Seq<Seq<char>>) -> bool {
    forall|i: int, j: int| 0 <= i < j < names.len() ==> lex_lt(#[trigger] names[i], #[trigger] names[j])
}

/// A strictly sorted sequence holds no text twice.
pub proof fn lemma_sorted_names_are_distinct(names: Seq<Seq<char>>)
    requires
        strictly_sorted(names),
    ensures
        forall|i: int, j: int|
            0 <= i < names.len() && 0 <= j < names.len() && i != j ==> #[trigger] names[i]
                != #[trigger] names[j],
{
    assert forall|i: int, j: int|
        0 <= i < names.len() && 0 <= j < names.len() && i != j implies #[trigger] names[i]
        != #[trigger] names[j] by {
        lemma_lex_lt_irreflexive(names[i]);
        if i < j {
            assert(lex_lt(names[i], names[j]));
        } else {
            assert(lex_lt(names[j], names[i]));
        }
    }
}

/// The texts of `names`, in order.
pub open spec fn texts(names: Seq<Vec<char>>) -> Seq<Seq<char>> {
    names.map_values(|n: Vec<char>| n@)
}

/// Where `name` stands in `names`, or where it would have to be put: the
/// index of the first text that is not below it, and whether that text is
/// `name` itself.
fn find_slot(names: &Vec<Vec<char>>, name: &[char]) -> (r: (usize, bool))
    ensures
        r.0 <= names@.len(),
        forall|k: int| 0 <= k < r.0 ==> lex_lt(#[trigger] texts(names@)[k], name@),
        r.1 ==> r.0 < names@.len() && texts(names@)[r.0 as int] == name@,
        !r.1 && r.0 < names@.len() ==> lex_lt(name@, texts(names@)[r.0 as int]),
{
    let mut i: usize = 0;
    while i < names.len()
        invariant
            i <= names@.len(),
            forall|k: int| 0 <= k < i ==> lex_lt(#[trigger] texts(names@)[k], name@),
        decreases names@.len() - i,
    {
        match compare_chars(names[i].as_slice(), name) {
            Order::Below => {
                i += 1;
            },
            Order::Same => {
                return (i, true);
            },
            Order::Above => {
                return (i, false);
            },
        }
    }
    (i, false)
}

/// Puts `name` into the sorted `names` unless it is there already.
pub fn insert_sorted(names: &mut Vec<Vec<char>>, name: &[char])
    requires
        strictly_sorted(texts(old(names)@)),
    ensures
        strictly_sorted(texts(final(names)@)),
        texts(final(names)@).to_set() == texts(old(names)@).to_set().insert(name@),
{
    let ghost before = texts(names@);
    let (i, found) = find_slot(names, name);
    if found {
        proof {
            assert(before.to_set().insert(name@) =~= before.to_set()) by {
                assert(before.contains(before[i as int]));
            }
        }
        return ;
    }
    let owned = slice_to_vec(name);
    names.insert(i, owned);
    proof {
        let after = texts(names@);
        assert(after =~= before.insert(i as int, name@));
        assert forall|a: int, b: int| 0 <= a < b < after.len() implies lex_lt(
            #[trigger] after[a],
            #[trigger] after[b],
        ) by {
            if b < i {
                assert(after[a] == before[a] && after[b] == before[b]);
            } else if b == i {
                assert(after[a] == before[a]);
            } else if a == i {
                assert(after[b] == before[b - 1]);
                if b - 1 > i {
                    lemma_lex_lt_transitive(name@, before[i as int], before[b - 1]);
                }
            } else if a < i {
                assert(after[a] == before[a] && after[b] == before[b - 1]);
            } else {
                assert(after[a] == before[a - 1] && after[b] == before[b - 1]);
            }
        }
        assert(after.to_set() =~= before.to_set().insert(name@)) by {
            assert forall|n: Seq<char>| after.to_set().contains(n) implies before.to_set().insert(
                name@,
            ).contains(n) by {
                let k = choose|k: int| 0 <= k < after.len() && after[k] == n;
                if k < i {
                    assert(before[k] == n);
                } else if k > i {
                    assert(before[k - 1] == n);
                }
            }
            assert forall|n: Seq<char>| before.to_set().insert(name@).contains(
                n,
            ) implies after.to_set().contains(n) by {
                if n == name@ {
                    assert(after[i as int] == n);
                } else {
                    let k = choose|k: int| 0 <= k < before.len() && before[k] == n;
                    if k < i {
                        assert(after[k] == n);
                    } else {
                        assert(after[k + 1] == n);
                    }
                }
            }
        }
    }
}

} // verus!
