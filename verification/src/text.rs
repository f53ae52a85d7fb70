use vstd::prelude::*;

verus! {

broadcast use vstd::string::axiom_spec_iter;

/// What `str::to_lowercase` gives for a string (full Unicode case mapping).
pub uninterp spec fn lowercase_of(s: Seq<char>) -> Seq<char>;

/// Calls `str::to_lowercase`: the result is the name `lowercase_of` applied to
/// the characters of `s`. Which characters come out is not stated here.
#[verifier::external_body]
pub(crate) fn to_lowercase(s: &str) -> (res: String)
    ensures
        res@ == lowercase_of(s@),
{
    s.to_lowercase()
}

/// Three-way comparison of character sequences, by code point, as `Ord` on
/// strings orders them (UTF-8 keeps code point order): -1, 0 or 1.
pub open spec fn lex_order(a: Seq<char>, b: Seq<char>) -> int
    decreases a.len(),
{
    if a.len() == 0 {
        if b.len() == 0 {
            0
        } else {
            -1
        }
    } else if b.len() == 0 {
        1
    } else if a[0] < b[0] {
        -1
    } else if a[0] > b[0] {
        1
    } else {
        lex_order(a.drop_first(), b.drop_first())
    }
}

/// The characters of `s`, one per element.
pub fn chars_of(s: &str) -> (res: Vec<char>)
    ensures
        res@ == s@,
{
    let mut res: Vec<char> = Vec::new();
    for c in it: s.chars()
        invariant
            res@ == it.seq().take(it.index() as int),
            it.seq() == s@,
    {
        res.push(c);
    }
    res
}

proof fn lemma_lex_antisym(a: Seq<char>, b: Seq<char>)
    ensures
        lex_order(a, b) == -lex_order(b, a),
    decreases a.len(),
{
    if a.len() > 0 && b.len() > 0 && a[0] == b[0] {
        lemma_lex_antisym(a.drop_first(), b.drop_first());
    }
}

proof fn lemma_lex_trans(a: Seq<char>, b: Seq<char>, c: Seq<char>)
    requires
        lex_order(a, b) <= 0,
        lex_order(b, c) <= 0,
    ensures
        lex_order(a, c) <= 0,
        lex_order(a, b) < 0 || lex_order(b, c) < 0 ==> lex_order(a, c) < 0,
    decreases a.len(),
{
    if a.len() > 0 && b.len() > 0 && c.len() > 0 && a[0] == b[0] && b[0] == c[0] {
        lemma_lex_trans(a.drop_first(), b.drop_first(), c.drop_first());
    }
}

/// `x` comes before `y` when ordered by key, and by position among equal keys.
pub open spec fn key_before(keys: Seq<Seq<char>>, x: usize, y: usize) -> bool {
    lex_order(keys[x as int], keys[y as int]) < 0 || (lex_order(keys[x as int], keys[y as int])
        == 0 && x < y)
}

/// `order` lists exactly the indices of `from`, ordered by key and then by index.
pub open spec fn stably_sorted(keys: Seq<Seq<char>>, from: Seq<usize>, order: Seq<usize>) -> bool {
    &&& order.len() == from.len()
    &&& order.to_multiset() == from.to_multiset()
    &&& forall|i: int, j: int|
        0 <= i < j < order.len() ==> key_before(keys, #[trigger] order[i], #[trigger] order[j])
}

/// Three-way comparison of two character vectors, as `lex_order` states.
pub fn compare_chars(a: &Vec<char>, b: &Vec<char>) -> (r: i8)
    ensures
        r == lex_order(a@, b@),
{
    let mut i: usize = 0;
    proof {
        assert(a@.skip(0) =~= a@);
        assert(b@.skip(0) =~= b@);
    }
    while i < a.len() && i < b.len()
        invariant
            i <= a@.len(),
            i <= b@.len(),
            lex_order(a@, b@) == lex_order(a@.skip(i as int), b@.skip(i as int)),
        decreases a@.len() - i,
    {
        proof {
            assert(a@.skip(i as int).drop_first() =~= a@.skip(i + 1));
            assert(b@.skip(i as int).drop_first() =~= b@.skip(i + 1));
        }
        if a[i] < b[i] {
            return -1;
        }
        if a[i] > b[i] {
            return 1;
        }
        i += 1;
    }
    if i < a.len() {
        1
    } else if i < b.len() {
        -1
    } else {
        0
    }
}

/// Sorts the indices in `from` (given in increasing order) by their keys,
/// keeping equal keys in index order: insertion sort.
pub fn stable_sort_indices(keys: &Vec<Vec<char>>, from: &Vec<usize>) -> (order: Vec<usize>)
    requires
        forall|i: int| 0 <= i < from@.len() ==> #[trigger] from@[i] < keys@.len(),
        forall|i: int, j: int| 0 <= i < j < from@.len() ==> from@[i] < from@[j],
    ensures
        stably_sorted(keys@.map_values(|k: Vec<char>| k@), from@, order@),
{
    let ghost ks = keys@.map_values(|k: Vec<char>| k@);
    let mut order: Vec<usize> = Vec::new();
    let mut i: usize = 0;
    proof {
        broadcast use vstd::seq_lib::group_to_multiset_ensures;
        assert(from@.subrange(0, 0) =~= Seq::<usize>::empty());
        assert(order@ =~= Seq::<usize>::empty());
    }
    while i < from.len()
        invariant
            ks == keys@.map_values(|k: Vec<char>| k@),
            forall|t: int| 0 <= t < from@.len() ==> #[trigger] from@[t] < keys@.len(),
            forall|t: int, u: int| 0 <= t < u < from@.len() ==> from@[t] < from@[u],
            i <= from@.len(),
            stably_sorted(ks, from@.subrange(0, i as int), order@),
            forall|t: int| 0 <= t < order@.len() ==> from@.subrange(0, i as int).contains(#[trigger] order@[t]),
        decreases from@.len() - i,
    {
        let c = from[i];
        let mut p: usize = 0;
        while p < order.len() && compare_chars(&keys[order[p]], &keys[c]) <= 0
            invariant
                p <= order@.len(),
                forall|t: int| 0 <= t < order@.len() ==> from@.subrange(0, i as int).contains(#[trigger] order@[t]),
                forall|t: int| 0 <= t < from@.len() ==> #[trigger] from@[t] < keys@.len(),
                forall|t: int| 0 <= t < p ==> lex_order(ks[#[trigger] order@[t] as int], ks[c as int]) <= 0,
                ks == keys@.map_values(|k: Vec<char>| k@),
                c == from@[i as int],
                i < from@.len(),
            decreases order@.len() - p,
        {
            p += 1;
        }
        let ghost prev = order@;
        proof {
            assert forall|t: int| 0 <= t < prev.len() implies #[trigger] prev[t] < c by {
                let w = choose|w: int| 0 <= w < i && from@.subrange(0, i as int)[w] == prev[t];
                assert(from@[w] == prev[t]);
            }
        }
        order.insert(p, c);
        proof {
            let sub = from@.subrange(0, i as int);
            let sub1 = from@.subrange(0, i + 1);
            assert(sub1 =~= sub.push(c));
            assert(order@ =~= prev.subrange(0, p as int).push(c) + prev.subrange(p as int, prev.len() as int));
            assert(prev =~= prev.subrange(0, p as int) + prev.subrange(p as int, prev.len() as int));
            assert(order@.to_multiset() =~= sub1.to_multiset()) by {
                broadcast use vstd::seq_lib::group_to_multiset_ensures;
                let l = prev.subrange(0, p as int);
                let r = prev.subrange(p as int, prev.len() as int);
                vstd::seq_lib::lemma_multiset_commutative(l.push(c), r);
                vstd::seq_lib::lemma_multiset_commutative(l, r);
            }
            assert forall|t: int, u: int| 0 <= t < u < order@.len() implies key_before(
                ks,
                #[trigger] order@[t],
                #[trigger] order@[u],
            ) by {
                if u < p {
                    assert(order@[t] == prev[t] && order@[u] == prev[u]);
                } else if u == p {
                    assert(order@[t] == prev[t]);
                    assert(lex_order(ks[prev[t] as int], ks[c as int]) <= 0);
                } else if t < p {
                    assert(order@[t] == prev[t] && order@[u] == prev[u - 1]);
                } else if t == p {
                    assert(order@[u] == prev[u - 1]);
                    assert(p < prev.len());
                    assert(lex_order(ks[prev[p as int] as int], ks[c as int]) > 0);
                    lemma_lex_antisym(ks[prev[p as int] as int], ks[c as int]);
                    if u - 1 > p {
                        assert(key_before(ks, prev[p as int], prev[u - 1]));
                        lemma_lex_trans(ks[c as int], ks[prev[p as int] as int], ks[prev[u - 1] as int]);
                    }
                } else {
                    assert(order@[t] == prev[t - 1] && order@[u] == prev[u - 1]);
                }
            }
            assert forall|t: int| 0 <= t < order@.len() implies sub1.contains(#[trigger] order@[t]) by {
                if t < p {
                    assert(order@[t] == prev[t]);
                    let w = choose|w: int| 0 <= w < sub.len() && sub[w] == prev[t];
                    assert(sub1[w] == prev[t]);
                } else if t == p {
                    assert(sub1[i as int] == c);
                } else {
                    assert(order@[t] == prev[t - 1]);
                    let w = choose|w: int| 0 <= w < sub.len() && sub[w] == prev[t - 1];
                    assert(sub1[w] == prev[t - 1]);
                }
            }
        }
        i += 1;
    }
    proof {
        assert(from@.subrange(0, from@.len() as int) =~= from@);
    }
    order
}

} // verus!
