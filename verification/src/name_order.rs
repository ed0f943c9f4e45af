//! The order of room names: lexicographic by character, which is the order
//! `String` itself compares in.
use vstd::prelude::*;
use crate::components::names;

verus! {

/// `a` comes before `b`: at the first position where they differ, `a` has
/// the smaller character, or `a` is a proper prefix of `b`.
pub open spec fn precedes(a: Seq<char>, b: Seq<char>) -> bool {
    exists|i: int| #[trigger] differs_first_at(a, b, i) && precedes_at(a, b, i)
}

/// `a` and `b` agree on their first `i` characters.
pub open spec fn differs_first_at(a: Seq<char>, b: Seq<char>, i: int) -> bool {
    &&& 0 <= i <= a.len()
    &&& i <= b.len()
    &&& forall|j: int| 0 <= j < i ==> #[trigger] a[j] == b[j]
}

/// Past a common prefix of length `i`, `a` ends first or has the smaller
/// character.
pub open spec fn precedes_at(a: Seq<char>, b: Seq<char>, i: int) -> bool {
    ||| i == a.len() && i < b.len()
    ||| i < a.len() && i < b.len() && (a[i] as int) < (b[i] as int)
}

/// `a` does not come after `b`.
pub open spec fn name_le(a: Seq<char>, b: Seq<char>) -> bool {
    !precedes(b, a)
}

/// The names are in order.
pub open spec fn names_sorted(s: Seq<Seq<char>>) -> bool {
    forall|i: int, j: int| 0 <= i < j < s.len() ==> name_le(#[trigger] s[i], #[trigger] s[j])
}

/// No name comes before itself.
pub proof fn lemma_precedes_irreflexive(a: Seq<char>)
    ensures
        !precedes(a, a),
{
}

/// Two different names are ordered one way or the other.
pub proof fn lemma_precedes_total(a: Seq<char>, b: Seq<char>)
    requires
        a != b,
    ensures
        precedes(a, b) || precedes(b, a),
{
    let n = if a.len() <= b.len() {
        a.len()
    } else {
        b.len()
    };
    if forall|j: int| 0 <= j < n ==> #[trigger] a[j] == b[j] {
        if a.len() == b.len() {
            assert(a =~= b);
        } else if a.len() < b.len() {
            assert(differs_first_at(a, b, n as int));
        } else {
            assert(differs_first_at(b, a, n as int));
        }
    } else {
        let k = choose|k: int| 0 <= k < n && #[trigger] a[k] != b[k];
        lemma_first_difference(a, b, k);
    }
}

/// Below a position where two names differ there is a first one.
proof fn lemma_first_difference(a: Seq<char>, b: Seq<char>, k: int)
    requires
        0 <= k < a.len(),
        k < b.len(),
        a[k] != b[k],
    ensures
        precedes(a, b) || precedes(b, a),
    decreases k,
{
    if forall|j: int| 0 <= j < k ==> #[trigger] a[j] == b[j] {
        assert(differs_first_at(a, b, k));
        assert(differs_first_at(b, a, k));
        assert((a[k] as int) != (b[k] as int));
    } else {
        let m = choose|m: int| 0 <= m < k && #[trigger] a[m] != b[m];
        lemma_first_difference(a, b, m);
    }
}

/// Two witnesses of a precedence agree on where the names first differ.
proof fn lemma_witness_unique(a: Seq<char>, b: Seq<char>, i: int, j: int)
    requires
        differs_first_at(a, b, i),
        precedes_at(a, b, i),
        differs_first_at(a, b, j),
    ensures
        j <= i,
{
    if j > i {
        assert(a[i] == b[i]);
    }
}

/// Precedence is transitive.
pub proof fn lemma_precedes_transitive(a: Seq<char>, b: Seq<char>, c: Seq<char>)
    requires
        precedes(a, b),
        precedes(b, c),
    ensures
        precedes(a, c),
{
    let i = choose|i: int| #[trigger] differs_first_at(a, b, i) && precedes_at(a, b, i);
    let j = choose|j: int| #[trigger] differs_first_at(b, c, j) && precedes_at(b, c, j);
    let k = if i <= j {
        i
    } else {
        j
    };
    assert forall|m: int| 0 <= m < k implies #[trigger] a[m] == c[m] by {
        assert(a[m] == b[m]);
        assert(b[m] == c[m]);
    }
    assert(differs_first_at(a, c, k));
    assert(precedes_at(a, c, k));
}

/// Precedence is asymmetric.
pub proof fn lemma_precedes_asymmetric(a: Seq<char>, b: Seq<char>)
    requires
        precedes(a, b),
    ensures
        !precedes(b, a),
{
    if precedes(b, a) {
        lemma_precedes_transitive(a, b, a);
        lemma_precedes_irreflexive(a);
    }
}

/// Whether `a` comes before `b`.
pub fn name_precedes(a: &String, b: &String) -> (r: bool)
    ensures
        r == precedes(a@, b@),
{
    let sa: &str = a.as_str();
    let sb: &str = b.as_str();
    let la: usize = sa.unicode_len();
    let lb: usize = sb.unicode_len();
    let mut i: usize = 0;
    while i < la && i < lb
        invariant
            sa@ == a@,
            sb@ == b@,
            la == a@.len(),
            lb == b@.len(),
            i <= la,
            i <= lb,
            forall|j: int| 0 <= j < i ==> #[trigger] a@[j] == b@[j],
        decreases la - i,
    {
        let ca: char = sa.get_char(i);
        let cb: char = sb.get_char(i);
        if ca != cb {
            proof {
                assert(differs_first_at(a@, b@, i as int));
                assert(differs_first_at(b@, a@, i as int));
                if precedes(a@, b@) {
                    let w = choose|w: int| #[trigger] differs_first_at(a@, b@, w) && precedes_at(a@, b@, w);
                    lemma_witness_unique(a@, b@, w, i as int);
                    if w < i {
                        assert(a@[w] == b@[w]);
                    }
                }
                if (ca as u32) < (cb as u32) {
                    assert(precedes_at(a@, b@, i as int));
                }
            }
            return (ca as u32) < (cb as u32);
        }
        i = i + 1;
    }
    proof {
        assert(differs_first_at(a@, b@, i as int));
        if la < lb {
            assert(precedes_at(a@, b@, i as int));
        }
        if precedes(a@, b@) {
            let w = choose|w: int| #[trigger] differs_first_at(a@, b@, w) && precedes_at(a@, b@, w);
            if w < i {
                assert(a@[w] == b@[w]);
            }
        }
    }
    la < lb
}

/// The names, in order: the same names, each as often, sorted.
pub fn sorted_names(list: &Vec<String>) -> (sorted: Vec<String>)
    ensures
        names(sorted@).to_multiset() == names(list@).to_multiset(),
        names_sorted(names(sorted@)),
{
    let ghost src = names(list@);
    let mut sorted: Vec<String> = Vec::new();
    proof {
        assert(names(sorted@) =~= src.take(0));
    }
    let mut k: usize = 0;
    while k < list.len()
        invariant
            k <= list@.len(),
            src == names(list@),
            names(sorted@).to_multiset() == src.take(k as int).to_multiset(),
            names_sorted(names(sorted@)),
        decreases list@.len() - k,
    {
        let x = &list[k];
        let mut p: usize = 0;
        while p < sorted.len() && !name_precedes(x, &sorted[p])
            invariant
                p <= sorted@.len(),
                forall|q: int| 0 <= q < p ==> !precedes(x@, #[trigger] sorted@[q]@),
            decreases sorted@.len() - p,
        {
            p = p + 1;
        }
        let ghost before = names(sorted@);
        sorted.insert(p, x.clone());
        proof {
            let after = names(sorted@);
            assert(after =~= before.take(p as int) + seq![x@] + before.skip(p as int));
            assert forall|i: int, j: int| 0 <= i < j < after.len() implies name_le(
                #[trigger] after[i],
                #[trigger] after[j],
            ) by {
                if i < p && j == p {
                    assert(before[i] == sorted@[i]@);
                    if precedes(x@, before[i]) {
                    } else if x@ != before[i] {
                        lemma_precedes_total(x@, before[i]);
                        lemma_precedes_asymmetric(before[i], x@);
                    }
                } else if i == p && j > p {
                    if p < before.len() {
                        assert(precedes(x@, before[p as int]));
                        if precedes(before[j - 1], x@) {
                            if before[p as int] == before[j - 1] {
                                lemma_precedes_asymmetric(x@, before[j - 1]);
                            } else {
                                assert(name_le(before[p as int], before[j - 1]));
                                lemma_precedes_total(before[p as int], before[j - 1]);
                                lemma_precedes_transitive(x@, before[p as int], before[j - 1]);
                                lemma_precedes_asymmetric(x@, before[j - 1]);
                            }
                        }
                    }
                } else if i < p && j < p {
                    assert(after[i] == before[i] && after[j] == before[j]);
                } else if i < p && j > p {
                    assert(after[i] == before[i] && after[j] == before[j - 1]);
                } else {
                    assert(after[i] == before[i - 1] && after[j] == before[j - 1]);
                }
            }
            vstd::seq_lib::lemma_multiset_commutative(before.take(p as int) + seq![x@], before.skip(p as int));
            vstd::seq_lib::lemma_multiset_commutative(before.take(p as int), seq![x@]);
            vstd::seq_lib::lemma_multiset_commutative(before.take(p as int), before.skip(p as int));
            assert(before.take(p as int) + before.skip(p as int) =~= before);
            assert(src.take(k + 1) =~= src.take(k as int).push(src[k as int]));
            assert(src[k as int] == x@);
            src.take(k as int).to_multiset_ensures();
            assert(seq![x@].to_multiset() =~= vstd::multiset::Multiset::empty().insert(x@)) by {
                Seq::<Seq<char>>::empty().to_multiset_ensures();
                assert(Seq::<Seq<char>>::empty().push(x@) =~= seq![x@]);
            }
        }
        k = k + 1;
    }
    proof {
        assert(src.take(list@.len() as int) =~= src);
    }
    sorted
}

} // verus!
