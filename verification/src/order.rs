//! Sorting by two-part text keys.
use vstd::prelude::*;

use crate::text::{compare_chars, lemma_seq_lt_asymmetric, lemma_seq_lt_irreflexive,
    lemma_seq_lt_total, lemma_seq_lt_transitive, seq_lt};

verus! {

/// Lexicographic order on a pair of texts: the first part, then the second.
pub open spec fn pair_lt(a: (Seq<char>, Seq<char>), b: (Seq<char>, Seq<char>)) -> bool {
    seq_lt(a.0, b.0) || (a.0 == b.0 && seq_lt(a.1, b.1))
}

pub open spec fn pair_le(a: (Seq<char>, Seq<char>), b: (Seq<char>, Seq<char>)) -> bool {
    a == b || pair_lt(a, b)
}

pub open spec fn key_view(k: (Vec<char>, Vec<char>)) -> (Seq<char>, Seq<char>) {
    (k.0@, k.1@)
}

pub proof fn lemma_pair_lt_total(a: (Seq<char>, Seq<char>), b: (Seq<char>, Seq<char>))
    ensures
        a == b || pair_lt(a, b) || pair_lt(b, a),
        !(pair_lt(a, b) && pair_lt(b, a)),
{
    lemma_seq_lt_total(a.0, b.0);
    lemma_seq_lt_total(a.1, b.1);
    lemma_seq_lt_asymmetric(a.0, b.0);
    lemma_seq_lt_asymmetric(a.1, b.1);
    lemma_seq_lt_irreflexive(a.0);
    lemma_seq_lt_irreflexive(b.0);
}

pub proof fn lemma_pair_lt_transitive(
    a: (Seq<char>, Seq<char>),
    b: (Seq<char>, Seq<char>),
    c: (Seq<char>, Seq<char>),
)
    requires
        pair_lt(a, b),
        pair_lt(b, c),
    ensures
        pair_lt(a, c),
{
    if seq_lt(a.0, b.0) && seq_lt(b.0, c.0) {
        lemma_seq_lt_transitive(a.0, b.0, c.0);
    } else if seq_lt(a.1, b.1) && seq_lt(b.1, c.1) && a.0 == b.0 && b.0 == c.0 {
        lemma_seq_lt_transitive(a.1, b.1, c.1);
    }
}

/// Three-way comparison of two keys: negative, zero or positive.
pub fn compare_pair(a: &(Vec<char>, Vec<char>), b: &(Vec<char>, Vec<char>)) -> (res: i8)
    ensures
        res < 0 <==> pair_lt(key_view(*a), key_view(*b)),
        res == 0 <==> key_view(*a) == key_view(*b),
        res > 0 <==> pair_lt(key_view(*b), key_view(*a)),
{
    let first = compare_chars(&a.0, &b.0);
    proof {
        lemma_pair_lt_total(key_view(*a), key_view(*b));
        lemma_seq_lt_irreflexive(a.0@);
        lemma_seq_lt_irreflexive(a.1@);
    }
    if first != 0 {
        first
    } else {
        compare_chars(&a.1, &b.1)
    }
}

/// The order in which to visit `keys` so they come out ascending: a
/// permutation of `0..keys.len()` (ties keep their original order).
pub fn sort_order(keys: &Vec<(Vec<char>, Vec<char>)>) -> (res: Vec<usize>)
    ensures
        res@.len() == keys@.len(),
        forall|a: int| 0 <= a < res@.len() ==> #[trigger] res@[a] < keys@.len(),
        forall|a: int, c: int|
            0 <= a < res@.len() && 0 <= c < res@.len() && a != c ==> res@[a] != res@[c],
        forall|b: usize| b < keys@.len() ==> #[trigger] res@.contains(b),
        forall|a: int, c: int|
            0 <= a < c < res@.len() ==> pair_le(
                key_view(keys@[res@[a] as int]),
                key_view(keys@[res@[c] as int]),
            ),
{
    let mut res: Vec<usize> = Vec::new();
    let ghost mut place: Seq<int> = Seq::empty();
    let mut i: usize = 0;
    while i < keys.len()
        invariant
            i <= keys@.len(),
            res@.len() == i,
            place.len() == i,
            forall|a: int| 0 <= a < i ==> #[trigger] res@[a] < i,
            forall|b: int| #![trigger place[b]] 0 <= b < i ==> 0 <= place[b] < i && res@[place[b]] == b,
            forall|a: int, c: int|
                #![trigger res@[a], res@[c]]
                0 <= a < i && 0 <= c < i && a != c ==> res@[a] != res@[c],
            forall|a: int, c: int|
                #![trigger res@[a], res@[c]]
                0 <= a < c < i ==> pair_le(
                    key_view(keys@[res@[a] as int]),
                    key_view(keys@[res@[c] as int]),
                ),
        decreases keys@.len() - i,
    {
        let mut pos: usize = 0;
        while pos < res.len() && compare_pair(&keys[res[pos]], &keys[i]) <= 0
            invariant
                pos <= res@.len(),
                res@.len() == i,
                i < keys@.len(),
                forall|a: int| 0 <= a < i ==> #[trigger] res@[a] < i,
                forall|a: int|
                    0 <= a < pos ==> pair_le(
                        key_view(keys@[#[trigger] res@[a] as int]),
                        key_view(keys@[i as int]),
                    ),
            decreases res@.len() - pos,
        {
            pos = pos + 1;
        }
        let ghost old_res = res@;
        let ghost old_place = place;
        let ghost k = key_view(keys@[i as int]);
        proof {
            assert forall|a: int| pos <= a < old_res.len() implies pair_lt(
                k,
                key_view(keys@[#[trigger] old_res[a] as int]),
            ) by {
                let kp = key_view(keys@[old_res[pos as int] as int]);
                lemma_pair_lt_total(k, kp);
                if a > pos {
                    let ka = key_view(keys@[old_res[a] as int]);
                    assert(pair_le(kp, ka));
                    if kp != ka {
                        lemma_pair_lt_transitive(k, kp, ka);
                    }
                }
            }
        }
        res.insert(pos, i);
        proof {
            place = Seq::new(
                (i + 1) as nat,
                |b: int|
                    if b == i {
                        pos as int
                    } else if old_place[b] >= pos {
                        old_place[b] + 1
                    } else {
                        old_place[b]
                    },
            );
        }
        i = i + 1;
        proof {
            assert forall|a: int| 0 <= a < i implies #[trigger] res@[a] < i by {
                if a < pos {
                    assert(res@[a] == old_res[a]);
                } else if a > pos {
                    assert(res@[a] == old_res[a - 1]);
                }
            }
            assert forall|b: int| #![trigger place[b]] 0 <= b < i implies 0 <= place[b] < i
                && res@[place[b]] == b by {
                if b < i - 1 {
                    assert(0 <= old_place[b] < i - 1);
                    assert(old_res[old_place[b]] == b);
                }
            }
            assert forall|a: int, c: int|
                #![trigger res@[a], res@[c]]
                0 <= a < i && 0 <= c < i && a != c implies res@[a] != res@[c] by {
                let oa = if a < pos { a } else { a - 1 };
                let oc = if c < pos { c } else { c - 1 };
                if a != pos && c != pos {
                    assert(res@[a] == old_res[oa] && res@[c] == old_res[oc]);
                } else if a == pos {
                    assert(res@[c] == old_res[oc]);
                } else {
                    assert(res@[a] == old_res[oa]);
                }
            }
            assert forall|a: int, c: int|
                #![trigger res@[a], res@[c]]
                0 <= a < c < i implies pair_le(
                key_view(keys@[res@[a] as int]),
                key_view(keys@[res@[c] as int]),
            ) by {
                let oa = if a < pos { a } else { a - 1 };
                let oc = if c < pos { c } else { c - 1 };
                if a != pos && c != pos {
                    assert(res@[a] == old_res[oa] && res@[c] == old_res[oc]);
                } else if a == pos {
                    assert(res@[c] == old_res[oc]);
                } else {
                    assert(res@[a] == old_res[oa]);
                }
            }
        }
    }
    proof {
        assert forall|b: usize| b < keys@.len() implies #[trigger] res@.contains(b) by {
            assert(res@[place[b as int]] == b);
        }
    }
    res
}

} // verus!
