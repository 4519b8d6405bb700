//! The permutation generator: every ordering of the source numbers,
//! produced by choosing each position in turn as the front element and
//! recursing on the remainder.

use vstd::prelude::*;

verus! {

/// The factorial of `n`: how many orderings a sequence of `n` positions has.
pub open spec fn fact(n: nat) -> nat
    decreases n,
{
    if n == 0 {
        1
    } else {
        n * fact((n - 1) as nat)
    }
}

/// Every sequence of `ps` with `x` prepended, in the order of `ps`.
pub open spec fn prepend_all(x: u32, ps: Seq<Seq<u32>>) -> Seq<Seq<u32>> {
    ps.map_values(|p: Seq<u32>| seq![x] + p)
}

/// The orderings of `s` whose front element is drawn from index `k` or
/// later: for each such index in turn, the element there is prepended to
/// every ordering of the rest of `s`.
pub open spec fn perms_from(s: Seq<u32>, k: int) -> Seq<Seq<u32>>
    decreases s.len(), 0nat, s.len() - k,
{
    if k < 0 || k >= s.len() {
        Seq::empty()
    } else {
        prepend_all(s[k], perms_of(s.remove(k))) + perms_from(s, k + 1)
    }
}

/// Every ordering of `s`, by position: an empty input has the single empty
/// ordering, and a nonempty one contributes, for each index in turn, that
/// element prepended to every ordering of the remainder. Equal values at
/// different positions still contribute separate orderings.
pub open spec fn perms_of(s: Seq<u32>) -> Seq<Seq<u32>>
    decreases s.len(), 1nat, 0nat,
{
    if s.len() == 0 {
        seq![Seq::<u32>::empty()]
    } else {
        perms_from(s, 0)
    }
}

/// Law: the generator yields exactly `fact(n)` orderings for an input of
/// length `n`, duplicates in the input notwithstanding, since positions and
/// not values are treated as distinct.
pub proof fn lemma_perms_count(s: Seq<u32>)
    ensures
        perms_of(s).len() == fact(s.len()),
    decreases s.len(), 1nat, 0nat,
{
    if s.len() > 0 {
        lemma_perms_from_count(s, 0);
    }
}

proof fn lemma_perms_from_count(s: Seq<u32>, k: int)
    requires
        0 <= k <= s.len(),
    ensures
        perms_from(s, k).len() == (s.len() - k) * fact((s.len() - 1) as nat),
    decreases s.len(), 0nat, s.len() - k,
{
    if k == s.len() {
        assert((s.len() - k) * fact((s.len() - 1) as nat) == 0) by (nonlinear_arith)
            requires
                k == s.len(),
        ;
    } else {
        lemma_perms_from_count(s, k + 1);
        lemma_perms_count(s.remove(k));
        assert(s.remove(k).len() == s.len() - 1);
        let f = fact((s.len() - 1) as nat);
        assert(perms_from(s, k).len() == f + (s.len() - (k + 1)) * f);
        assert(f + (s.len() - (k + 1)) * f == (s.len() - k) * f) by (nonlinear_arith);
    }
}

/// Law: every ordering the generator yields has the input's length and
/// carries exactly the input's multiset of values.
pub proof fn lemma_perms_are_permutations(s: Seq<u32>)
    ensures
        forall|i: int|
            0 <= i < perms_of(s).len() ==> (#[trigger] perms_of(s)[i]).len() == s.len(),
        forall|i: int|
            0 <= i < perms_of(s).len() ==> (#[trigger] perms_of(s)[i]).to_multiset()
                == s.to_multiset(),
    decreases s.len(), 1nat, 0nat,
{
    if s.len() == 0 {
        assert forall|i: int| 0 <= i < perms_of(s).len() implies (#[trigger] perms_of(s)[i]).len()
            == s.len() && perms_of(s)[i].to_multiset() == s.to_multiset() by {
            assert(i == 0);
            assert(perms_of(s)[0] =~= s);
        }
    } else {
        lemma_perms_from_permutations(s, 0);
        assert(perms_of(s) == perms_from(s, 0));
    }
}

proof fn lemma_perms_from_permutations(s: Seq<u32>, k: int)
    requires
        0 <= k <= s.len(),
        s.len() > 0,
    ensures
        forall|i: int|
            0 <= i < perms_from(s, k).len() ==> (#[trigger] perms_from(s, k)[i]).len()
                == s.len(),
        forall|i: int|
            0 <= i < perms_from(s, k).len() ==> (#[trigger] perms_from(s, k)[i]).to_multiset()
                == s.to_multiset(),
    decreases s.len(), 0nat, s.len() - k,
{
    broadcast use vstd::seq_lib::group_to_multiset_ensures;
    broadcast use vstd::multiset::group_multiset_axioms;

    if k == s.len() {
    } else {
        lemma_perms_from_permutations(s, k + 1);
        let rem = s.remove(k);
        lemma_perms_are_permutations(rem);
        let g = prepend_all(s[k], perms_of(rem));
        assert forall|i: int| 0 <= i < g.len() implies (#[trigger] g[i]).len() == s.len()
            && g[i].to_multiset() == s.to_multiset() by {
            let p = perms_of(rem)[i];
            assert(g[i] == seq![s[k]] + p);
            assert(g[i] =~= p.insert(0, s[k]));
            assert(g[i].to_multiset() == p.to_multiset().insert(s[k]));
            assert(p.to_multiset() == rem.to_multiset());
            assert(rem.to_multiset() == s.to_multiset().remove(s[k]));
            assert(s.contains(s[k]));
            assert(s.to_multiset().count(s[k]) > 0);
            assert(s.to_multiset().remove(s[k]).insert(s[k]) =~= s.to_multiset());
        }
        assert forall|i: int| 0 <= i < perms_from(s, k).len() implies (#[trigger] perms_from(
            s,
            k,
        )[i]).len() == s.len() && perms_from(s, k)[i].to_multiset() == s.to_multiset() by {
            if i < g.len() {
                assert(perms_from(s, k)[i] == g[i]);
            } else {
                assert(perms_from(s, k)[i] == perms_from(s, k + 1)[i - g.len()]);
            }
        }
    }
}

/// Law: when the input holds no duplicate value, the generated orderings
/// are pairwise distinct. With duplicated inputs the generator still works
/// position by position, so two orderings may coincide in value; only then
/// can the output repeat.
pub proof fn lemma_perms_distinct(s: Seq<u32>)
    requires
        s.no_duplicates(),
    ensures
        perms_of(s).no_duplicates(),
    decreases s.len(), 1nat, 0nat,
{
    if s.len() > 0 {
        lemma_perms_from_distinct(s, 0);
    }
}

proof fn lemma_remove_no_duplicates(s: Seq<u32>, k: int)
    requires
        s.no_duplicates(),
        0 <= k < s.len(),
    ensures
        s.remove(k).no_duplicates(),
{
    let rem = s.remove(k);
    assert forall|i: int, j: int|
        0 <= i < rem.len() && 0 <= j < rem.len() && i != j implies rem[i] != rem[j] by {
        assert(rem[i] == (if i < k {
            s[i]
        } else {
            s[i + 1]
        }));
        assert(rem[j] == (if j < k {
            s[j]
        } else {
            s[j + 1]
        }));
    }
}

proof fn lemma_perms_from_distinct(s: Seq<u32>, k: int)
    requires
        s.no_duplicates(),
        0 < s.len(),
        0 <= k <= s.len(),
    ensures
        perms_from(s, k).no_duplicates(),
        forall|i: int|
            0 <= i < perms_from(s, k).len() ==> s.skip(k).contains(
                (#[trigger] perms_from(s, k)[i]).first(),
            ),
    decreases s.len(), 0nat, s.len() - k,
{
    if k == s.len() {
    } else {
        lemma_perms_from_distinct(s, k + 1);
        lemma_perms_from_permutations(s, k + 1);
        let rem = s.remove(k);
        lemma_remove_no_duplicates(s, k);
        lemma_perms_distinct(rem);
        let g = prepend_all(s[k], perms_of(rem));
        let t = perms_from(s, k + 1);
        let whole = perms_from(s, k);

        assert forall|i: int| 0 <= i < whole.len() implies s.skip(k).contains(
            (#[trigger] whole[i]).first(),
        ) by {
            if i < g.len() {
                assert(whole[i] == g[i]);
                assert(g[i] == seq![s[k]] + perms_of(rem)[i]);
                assert(g[i][0] == s[k]);
                assert(s.skip(k)[0] == s[k]);
            } else {
                assert(whole[i] == t[i - g.len()]);
                assert(s.skip(k + 1).contains(t[i - g.len()].first()));
                let m = choose|m: int|
                    0 <= m < s.skip(k + 1).len() && #[trigger] s.skip(k + 1)[m] == t[i
                        - g.len()].first();
                assert(s.skip(k)[m + 1] == s[k + 1 + m]);
                assert(s.skip(k)[m + 1] == whole[i].first());
            }
        }

        assert forall|i: int, j: int|
            0 <= i < whole.len() && 0 <= j < whole.len() && i != j implies whole[i] != whole[j] by {
            if i < g.len() && j < g.len() {
                let pi = perms_of(rem)[i];
                let pj = perms_of(rem)[j];
                assert(whole[i] == seq![s[k]] + pi);
                assert(whole[j] == seq![s[k]] + pj);
                assert((seq![s[k]] + pi).skip(1) =~= pi);
                assert((seq![s[k]] + pj).skip(1) =~= pj);
                assert(pi != pj);
            } else if i >= g.len() && j >= g.len() {
                assert(whole[i] == t[i - g.len()]);
                assert(whole[j] == t[j - g.len()]);
            } else {
                let gi: int = if i < g.len() {
                    i
                } else {
                    j
                };
                let tj: int = if i < g.len() {
                    j - g.len()
                } else {
                    i - g.len()
                };
                assert(whole[gi] == seq![s[k]] + perms_of(rem)[gi]);
                assert(whole[gi][0] == s[k]);
                let other = t[tj];
                assert(other.len() == s.len());
                assert(s.skip(k + 1).contains(other.first()));
                let m = choose|m: int|
                    0 <= m < s.skip(k + 1).len() && #[trigger] s.skip(k + 1)[m] == other.first();
                assert(other[0] == s[k + 1 + m]);
                assert(s[k] != s[k + 1 + m]);
                assert(whole[gi][0] != other[0]);
            }
        }
    }
}

/// Law: whenever `s` holds the value `v`, some ordering of `s` ends with
/// `v`; the search finds its zero-step solution from that ordering.
pub proof fn lemma_perms_with_last(s: Seq<u32>, v: u32)
    requires
        s.contains(v),
    ensures
        exists|p: Seq<u32>|
            #[trigger] perms_of(s).contains(p) && p.len() == s.len() && p.last() == v,
    decreases s.len(),
{
    let j = choose|j: int| 0 <= j < s.len() && #[trigger] s[j] == v;
    if s.len() == 1 {
        let w = seq![s[0]] + Seq::<u32>::empty();
        assert(s.remove(0) =~= Seq::<u32>::empty());
        assert(perms_of(s.remove(0)) == seq![Seq::<u32>::empty()]);
        assert(prepend_all(s[0], perms_of(s.remove(0)))[0] == w);
        assert(perms_from(s, 0)[0] == w);
        assert(perms_of(s).contains(w) && w.len() == s.len() && w.last() == v);
    } else {
        let k: int = if j == 0 {
            1
        } else {
            0
        };
        let rem = s.remove(k);
        let j2: int = if j < k {
            j
        } else {
            j - 1
        };
        assert(rem[j2] == v);
        assert(rem.contains(v));
        lemma_perms_with_last(rem, v);
        let p = choose|p: Seq<u32>|
            #[trigger] perms_of(rem).contains(p) && p.len() == rem.len() && p.last() == v;
        let i = choose|i: int| 0 <= i < perms_of(rem).len() && #[trigger] perms_of(rem)[i] == p;
        let w = seq![s[k]] + p;
        assert(prepend_all(s[k], perms_of(rem))[i] == w);
        assert(prepend_all(s[k], perms_of(rem)).contains(w));
        lemma_perms_from_covers(s, 0, k, w);
        assert(w.last() == p.last());
        assert(perms_of(s).contains(w) && w.len() == s.len() && w.last() == v);
    }
}

proof fn lemma_perms_from_covers(s: Seq<u32>, m: int, k: int, x: Seq<u32>)
    requires
        0 <= m <= k < s.len(),
        prepend_all(s[k], perms_of(s.remove(k))).contains(x),
    ensures
        perms_from(s, m).contains(x),
    decreases k - m,
{
    if m == k {
        let g = prepend_all(s[k], perms_of(s.remove(k)));
        let i = choose|i: int| 0 <= i < g.len() && #[trigger] g[i] == x;
        assert(perms_from(s, m)[i] == x);
    } else {
        lemma_perms_from_covers(s, m + 1, k, x);
        let g = prepend_all(s[m], perms_of(s.remove(m)));
        let i = choose|i: int| 0 <= i < perms_from(s, m + 1).len() && #[trigger] perms_from(s, m + 1)[i] == x;
        assert(perms_from(s, m)[g.len() + i] == x);
    }
}

/// The views of the orderings held in a vector of vectors.
pub open spec fn orders_view(v: Seq<Vec<u32>>) -> Seq<Seq<u32>> {
    v.map_values(|o: Vec<u32>| o@)
}

/// Copies a vector of plainly copyable values element by element.
pub(crate) fn copy_vec<T: Copy>(v: &Vec<T>) -> (r: Vec<T>)
    ensures
        r@ == v@,
{
    let mut r: Vec<T> = Vec::new();
    for i in 0..v.len()
        invariant
            r@ == v@.take(i as int),
    {
        r.push(v[i]);
        proof {
            assert(r@ =~= v@.take(i + 1));
        }
    }
    proof {
        assert(v@.take(v@.len() as int) =~= v@);
    }
    r
}

/// Produces every ordering of `slice`, exactly as `perms_of` lists them:
/// for each index in turn, the element there is removed, the remainder is
/// permuted recursively, and the removed element is prepended to each
/// recursive result.
pub fn build_permutations_r(slice: &Vec<u32>) -> (result: Vec<Vec<u32>>)
    ensures
        orders_view(result@) == perms_of(slice@),
    decreases slice@.len(),
{
    if slice.len() == 0 {
        let mut total: Vec<Vec<u32>> = Vec::new();
        total.push(Vec::new());
        proof {
            assert(orders_view(total@) =~= perms_of(slice@));
        }
        return total;
    }

    let mut total: Vec<Vec<u32>> = Vec::new();
    proof {
        assert(orders_view(total@) + perms_from(slice@, 0) =~= perms_from(slice@, 0));
    }
    for index in 0..slice.len()
        invariant
            orders_view(total@) + perms_from(slice@, index as int) == perms_from(slice@, 0),
    {
        let mut c = copy_vec(slice);
        let at = c.remove(index);
        let sub = build_permutations_r(&c);
        proof {
            assert(prepend_all(at, perms_of(c@)).skip(0) =~= prepend_all(at, perms_of(c@)));
            assert(orders_view(total@) + prepend_all(at, perms_of(c@)).skip(0)
                + perms_from(slice@, index as int + 1) =~= orders_view(total@) + perms_from(
                slice@,
                index as int,
            ));
        }
        for j in 0..sub.len()
            invariant
                c@ == slice@.remove(index as int),
                at == slice@[index as int],
                orders_view(sub@) == perms_of(c@),
                orders_view(total@) + prepend_all(at, perms_of(c@)).skip(j as int)
                    + perms_from(slice@, index as int + 1) == perms_from(slice@, 0),
        {
            let ghost total_before = total@;
            let mut p = copy_vec(&sub[j]);
            p.insert(0, at);
            total.push(p);
            proof {
                let g = prepend_all(at, perms_of(c@));
                assert(p@ =~= g[j as int]);
                assert(g.skip(j as int) =~= seq![g[j as int]] + g.skip(j + 1));
                assert(orders_view(total@) =~= orders_view(total_before).push(p@));
                assert(orders_view(total@) + g.skip(j + 1) =~= orders_view(total_before)
                    + g.skip(j as int));
                assert(orders_view(total@) + g.skip(j + 1) + perms_from(
                    slice@,
                    index as int + 1,
                ) =~= orders_view(total_before) + g.skip(j as int) + perms_from(
                    slice@,
                    index as int + 1,
                ));
            }
        }
        proof {
            let g = prepend_all(at, perms_of(c@));
            assert(g.skip(g.len() as int) =~= Seq::<Seq<u32>>::empty());
            assert(orders_view(total@) + g.skip(g.len() as int) =~= orders_view(total@));
        }
    }
    proof {
        assert(perms_from(slice@, slice@.len() as int) =~= Seq::<Seq<u32>>::empty());
        assert(orders_view(total@) + perms_from(slice@, slice@.len() as int) =~= orders_view(
            total@,
        ));
    }
    total
}

} // verus!
