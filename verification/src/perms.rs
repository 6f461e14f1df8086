use vstd::prelude::*;
use vstd::slice::slice_to_vec;

verus! {

broadcast use vstd::seq_lib::group_to_multiset_ensures, vstd::multiset::group_multiset_axioms;

/// Some entry of `vs` reads exactly `p`.
pub open spec fn contains_seq(vs: Seq<Vec<i64>>, p: Seq<i64>) -> bool {
    exists|i: int| 0 <= i < vs.len() && #[trigger] vs[i]@ == p
}

/// No two entries of `vs` read the same.
pub open spec fn distinct_seqs(vs: Seq<Vec<i64>>) -> bool {
    forall|i: int, j: int| 0 <= i < j < vs.len() ==> (#[trigger] vs[i])@ != (#[trigger] vs[j])@
}

proof fn lemma_contains_seq_push(vs: Seq<Vec<i64>>, w: Vec<i64>, p: Seq<i64>)
    requires
        contains_seq(vs, p),
    ensures
        contains_seq(vs.push(w), p),
{
    let i = choose|i: int| 0 <= i < vs.len() && #[trigger] vs[i]@ == p;
    assert(vs.push(w)[i]@ == p);
}

/// A copy of `v`.
pub fn copy_cards(v: &Vec<i64>) -> (res: Vec<i64>)
    ensures
        res@ == v@,
{
    let mut res: Vec<i64> = Vec::new();
    for i in 0..v.len()
        invariant
            res@ == v@.take(i as int),
    {
        res.push(v[i]);
        proof {
            assert(res@ =~= v@.take(i as int + 1));
        }
    }
    proof {
        assert(v@.take(v@.len() as int) =~= v@);
    }
    res
}

/// Whether two card sequences read the same.
fn cards_eq(a: &Vec<i64>, b: &Vec<i64>) -> (r: bool)
    ensures
        r == (a@ == b@),
{
    if a.len() != b.len() {
        return false;
    }
    for i in 0..a.len()
        invariant
            a@.len() == b@.len(),
            forall|j: int| 0 <= j < i ==> a@[j] == b@[j],
    {
        if a[i] != b[i] {
            return false;
        }
    }
    proof {
        assert(a@ =~= b@);
    }
    true
}

fn holds_hand(vs: &Vec<Vec<i64>>, p: &Vec<i64>) -> (r: bool)
    ensures
        r == contains_seq(vs@, p@),
{
    for i in 0..vs.len()
        invariant
            forall|j: int| 0 <= j < i ==> (#[trigger] vs@[j])@ != p@,
    {
        if cards_eq(&vs[i], p) {
            return true;
        }
    }
    false
}

/// `n` factorial.
pub open spec fn factorial(n: nat) -> nat
    decreases n,
{
    if n == 0 {
        1
    } else {
        n * factorial((n - 1) as nat)
    }
}

/// Every ordering of `s`, one entry per choice sequence, ordered by the
/// position of the first pick: `factorial(s.len())` entries, with orderings
/// of equal cards repeated.
pub open spec fn perms_spec(s: Seq<i64>) -> Seq<Seq<i64>>
    decreases s.len(), s.len() + 1,
{
    if s.len() <= 1 {
        seq![s]
    } else {
        perms_upto(s, s.len() as int)
    }
}

/// The orderings whose first pick stands at a position below `i`.
pub open spec fn perms_upto(s: Seq<i64>, i: int) -> Seq<Seq<i64>>
    decreases s.len(), i,
{
    if i <= 0 || i > s.len() {
        Seq::empty()
    } else {
        perms_upto(s, i - 1) + perms_spec(s.remove(i - 1)).map_values(
            |p: Seq<i64>| seq![s[i - 1]] + p,
        )
    }
}

/// The ordering sequence has exactly `factorial(s.len())` entries.
pub proof fn lemma_perms_spec_len(s: Seq<i64>)
    ensures
        perms_spec(s).len() == factorial(s.len()),
    decreases s.len(), s.len() + 1,
{
    if s.len() <= 1 {
        assert(factorial(1) == 1 * factorial(0));
    } else {
        lemma_perms_upto_len(s, s.len() as int);
    }
}

proof fn lemma_perms_upto_len(s: Seq<i64>, i: int)
    requires
        0 <= i <= s.len(),
        s.len() >= 2,
    ensures
        perms_upto(s, i).len() == i * factorial((s.len() - 1) as nat),
    decreases s.len(), i,
{
    let f = factorial((s.len() - 1) as nat) as int;
    if i == 0 {
        assert(0 * f == 0) by (nonlinear_arith);
    } else {
        lemma_perms_upto_len(s, i - 1);
        lemma_perms_spec_len(s.remove(i - 1));
        assert(s.remove(i - 1).len() == s.len() - 1);
        assert((i - 1) * f + f == i * f) by (nonlinear_arith);
    }
}

/// Every ordering of `values`, one entry per choice sequence: exactly
/// `factorial(values.len())` entries reading the specification's ordering
/// sequence, so orderings of equal cards are repeated. Each entry holds
/// exactly the cards of `values`, and every sequence holding exactly those
/// cards occurs.
pub fn permutations(values: &[i64]) -> (res: Vec<Vec<i64>>)
    ensures
        views_match(res@, perms_spec(values@)),
        res@.len() == factorial(values@.len()),
        forall|i: int|
            0 <= i < res@.len() ==> (#[trigger] res@[i])@.to_multiset() == values@.to_multiset(),
        forall|p: Seq<i64>| p.to_multiset() == values@.to_multiset() ==> contains_seq(res@, p),
    decreases values@.len(),
{
    proof {
        lemma_perms_spec_len(values@);
    }
    if values.len() <= 1 {
        let single = slice_to_vec(values);
        let mut res: Vec<Vec<i64>> = Vec::new();
        res.push(single);
        proof {
            assert(res@[0]@ == values@);
            assert forall|p: Seq<i64>| p.to_multiset() == values@.to_multiset() implies contains_seq(
                res@,
                p,
            ) by {
                p.to_multiset_ensures();
                values@.to_multiset_ensures();
                assert(p.len() == values@.len());
                if p.len() == 1 {
                    assert(p.contains(p[0]));
                    assert(values@.to_multiset().count(p[0]) > 0);
                    assert(values@.contains(p[0]));
                }
                assert(p =~= values@);
                assert(res@[0]@ == p);
            }
        }
        proof {
            assert(views_match(res@, perms_spec(values@)));
        }
        return res;
    }
    let n = values.len();
    let mut res: Vec<Vec<i64>> = Vec::new();
    for i in 0..n
        invariant
            n == values@.len(),
            n >= 2,
            views_match(res@, perms_upto(values@, i as int)),
            forall|m: int|
                0 <= m < res@.len() ==> (#[trigger] res@[m])@.to_multiset()
                    == values@.to_multiset(),
            forall|p: Seq<i64>|
                (p.to_multiset() == values@.to_multiset() && exists|j: int|
                    0 <= j < i && values@[j] == p[0]) ==> contains_seq(res@, p),
    {
        let mut rem = slice_to_vec(values);
        let picked = rem.remove(i);
        proof {
            values@.to_multiset_ensures();
            assert(rem@ == values@.remove(i as int));
            assert(rem@.to_multiset() == values@.to_multiset().remove(values@[i as int]));
        }
        let sub = permutations(rem.as_slice());
        let ghost mapped = perms_spec(rem@).map_values(|p: Seq<i64>| seq![values@[i as int]] + p);
        for k in 0..sub.len()
            invariant
                n == values@.len(),
                n >= 2,
                0 <= i < n,
                picked == values@[i as int],
                rem@ == values@.remove(i as int),
                views_match(sub@, perms_spec(rem@)),
                mapped == perms_spec(rem@).map_values(
                    |p: Seq<i64>| seq![values@[i as int]] + p,
                ),
                views_match(res@, perms_upto(values@, i as int) + mapped.take(k as int)),
                forall|m: int|
                    0 <= m < sub@.len() ==> (#[trigger] sub@[m])@.to_multiset()
                        == rem@.to_multiset(),
                forall|m: int|
                    0 <= m < res@.len() ==> (#[trigger] res@[m])@.to_multiset()
                        == values@.to_multiset(),
                forall|p: Seq<i64>|
                    (p.to_multiset() == values@.to_multiset() && exists|j: int|
                        0 <= j < i && values@[j] == p[0]) ==> contains_seq(res@, p),
                forall|k0: int|
                    0 <= k0 < k ==> contains_seq(
                        res@,
                        seq![values@[i as int]] + (#[trigger] sub@[k0])@,
                    ),
        {
            let rest = &sub[k];
            let mut hand: Vec<i64> = Vec::new();
            hand.push(picked);
            for m in 0..rest.len()
                invariant
                    hand@ == seq![picked] + rest@.take(m as int),
            {
                hand.push(rest[m]);
                proof {
                    assert(hand@ =~= seq![picked] + rest@.take(m as int + 1));
                }
            }
            proof {
                assert(rest@.take(rest@.len() as int) =~= rest@);
                assert(hand@ == seq![picked] + rest@);
                // The new hand holds exactly the cards of `values`.
                assert(rest@.to_multiset() == rem@.to_multiset());
                assert(values@.remove(i as int).to_multiset() == values@.to_multiset().remove(
                    values@[i as int],
                ));
                assert(rem@.to_multiset() == values@.to_multiset().remove(values@[i as int]));
                assert(hand@.remove(0) =~= rest@);
                assert(hand@.remove(0).to_multiset() == hand@.to_multiset().remove(hand@[0]));
                assert(hand@[0] == picked);
                assert(hand@.to_multiset().remove(picked) == values@.to_multiset().remove(
                    picked,
                ));
                assert(hand@.contains(picked));
                assert(values@.contains(values@[i as int]));
                assert(hand@.to_multiset().count(picked) > 0);
                assert(values@.to_multiset().count(picked) > 0);
                assert forall|x: i64|
                    hand@.to_multiset().count(x) == values@.to_multiset().count(x) by {
                    if x == picked {
                        assert(hand@.to_multiset().count(picked) == hand@.to_multiset().remove(
                            picked,
                        ).count(picked) + 1);
                        assert(values@.to_multiset().count(picked) == values@.to_multiset().remove(
                            picked,
                        ).count(picked) + 1);
                    } else {
                        assert(hand@.to_multiset().remove(picked).count(x)
                            == hand@.to_multiset().count(x));
                        assert(values@.to_multiset().remove(picked).count(x)
                            == values@.to_multiset().count(x));
                    }
                }
                assert(hand@.to_multiset() =~= values@.to_multiset());
            }
            let ghost old_res = res@;
            res.push(hand);
            proof {
                assert(rest@ == sub@[k as int]@);
                assert(hand@ == mapped[k as int]);
                lemma_views_match_push(
                    old_res,
                    perms_upto(values@, i as int) + mapped.take(k as int),
                    hand,
                    hand@,
                );
                assert((perms_upto(values@, i as int) + mapped.take(k as int)).push(hand@)
                    =~= perms_upto(values@, i as int) + mapped.take(k as int + 1));
                assert forall|p: Seq<i64>|
                    (p.to_multiset() == values@.to_multiset() && exists|j: int|
                        0 <= j < i && values@[j] == p[0]) implies contains_seq(res@, p) by {
                    assert(contains_seq(old_res, p));
                    lemma_contains_seq_push(old_res, hand, p);
                }
                assert forall|k0: int| 0 <= k0 < k + 1 implies contains_seq(
                    res@,
                    seq![values@[i as int]] + (#[trigger] sub@[k0])@,
                ) by {
                    if k0 < k {
                        assert(contains_seq(old_res, seq![values@[i as int]] + sub@[k0]@));
                        lemma_contains_seq_push(
                            old_res,
                            hand,
                            seq![values@[i as int]] + sub@[k0]@,
                        );
                    } else {
                        let ki = k as int;
                        assert(res@[old_res.len() as int]@ == seq![values@[i as int]] + sub@[ki]@);
                    }
                }
            }
        }
        proof {
            assert(mapped.take(mapped.len() as int) =~= mapped);
            assert(perms_upto(values@, i as int + 1) == perms_upto(values@, i as int) + mapped);
            // Every ordering starting with `values[i]` is now present.
            assert forall|p: Seq<i64>|
                (p.to_multiset() == values@.to_multiset() && exists|j: int|
                    0 <= j < i + 1 && values@[j] == p[0]) implies contains_seq(res@, p) by {
                let j = choose|j: int| 0 <= j < i + 1 && values@[j] == p[0];
                if j == i {
                    assert(p.to_multiset().len() == p.len());
                    assert(p.len() == values@.len());
                    assert(p.remove(0).to_multiset() == p.to_multiset().remove(p[0]));
                    assert(values@.remove(i as int).to_multiset()
                        == values@.to_multiset().remove(values@[i as int]));
                    assert(rem@.to_multiset() == values@.to_multiset().remove(
                        values@[i as int],
                    ));
                    assert(p.remove(0).to_multiset() == rem@.to_multiset());
                    assert(contains_seq(sub@, p.remove(0)));
                    let k0 = choose|k0: int|
                        0 <= k0 < sub@.len() && #[trigger] sub@[k0]@ == p.remove(0);
                    assert(contains_seq(res@, seq![values@[i as int]] + sub@[k0]@));
                    assert(seq![values@[i as int]] + sub@[k0]@ =~= p);
                }
            }
        }
    }
    proof {
        assert(views_match(res@, perms_spec(values@)));
        // Any ordering of the hand starts with some card of `values`.
        assert forall|p: Seq<i64>| p.to_multiset() == values@.to_multiset() implies contains_seq(
            res@,
            p,
        ) by {
            p.to_multiset_ensures();
            values@.to_multiset_ensures();
            assert(p.len() == values@.len());
            assert(p.contains(p[0]));
            assert(values@.to_multiset().count(p[0]) > 0);
            assert(values@.contains(p[0]));
            let j = choose|j: int| 0 <= j < values@.len() && values@[j] == p[0];
            assert(exists|j: int| 0 <= j < n && values@[j] == p[0]);
        }
    }
    res
}

/// Drop repeated orderings, keeping first occurrences in order: the result
/// holds exactly the distinct card sequences of the input, each once.
pub fn dedup_hands(hands: &Vec<Vec<i64>>) -> (res: Vec<Vec<i64>>)
    ensures
        forall|p: Seq<i64>| contains_seq(res@, p) <==> contains_seq(hands@, p),
        distinct_seqs(res@),
{
    let mut res: Vec<Vec<i64>> = Vec::new();
    for k in 0..hands.len()
        invariant
            forall|p: Seq<i64>| contains_seq(res@, p) <==> contains_seq(
                hands@.take(k as int),
                p,
            ),
            distinct_seqs(res@),
    {
        let ghost old_res = res@;
        if !holds_hand(&res, &hands[k]) {
            res.push(copy_cards(&hands[k]));
        }
        proof {
            assert(hands@.take(k as int + 1)[k as int]@ == hands@[k as int]@);
            assert forall|p: Seq<i64>| contains_seq(res@, p) implies contains_seq(
                hands@.take(k as int + 1),
                p,
            ) by {
                let i = choose|i: int| 0 <= i < res@.len() && #[trigger] res@[i]@ == p;
                if i < old_res.len() {
                    assert(contains_seq(old_res, p));
                    let m = choose|m: int|
                        0 <= m < hands@.take(k as int).len() && #[trigger] hands@.take(
                            k as int,
                        )[m]@ == p;
                    assert(hands@.take(k as int + 1)[m]@ == p);
                } else {
                    assert(res@[i]@ == hands@[k as int]@);
                    assert(hands@.take(k as int + 1)[k as int]@ == p);
                }
            }
            assert forall|p: Seq<i64>| contains_seq(hands@.take(k as int + 1), p) implies
                contains_seq(res@, p) by {
                let m = choose|m: int|
                    0 <= m < hands@.take(k as int + 1).len() && #[trigger] hands@.take(
                        k as int + 1,
                    )[m]@ == p;
                if m < k {
                    assert(hands@.take(k as int)[m]@ == p);
                    assert(contains_seq(old_res, p));
                    let i = choose|i: int| 0 <= i < old_res.len() && #[trigger] old_res[i]@ == p;
                    assert(res@[i]@ == p);
                } else {
                    assert(hands@[k as int]@ == p);
                    if contains_seq(old_res, hands@[k as int]@) {
                        let i = choose|i: int|
                            0 <= i < old_res.len() && #[trigger] old_res[i]@ == hands@[k as int]@;
                        assert(res@[i]@ == p);
                    } else {
                        assert(res@[res@.len() - 1]@ == p);
                    }
                }
            }
        }
    }
    proof {
        assert(hands@.take(hands@.len() as int) =~= hands@);
    }
    res
}

/// Entry `j` of `vs` reads exactly entry `j` of `ss`.
pub open spec fn views_match(vs: Seq<Vec<i64>>, ss: Seq<Seq<i64>>) -> bool {
    &&& vs.len() == ss.len()
    &&& forall|j: int| 0 <= j < vs.len() ==> (#[trigger] vs[j])@ == ss[j]
}

proof fn lemma_views_match_push(vs: Seq<Vec<i64>>, ss: Seq<Seq<i64>>, w: Vec<i64>, x: Seq<i64>)
    requires
        views_match(vs, ss),
        w@ == x,
    ensures
        views_match(vs.push(w), ss.push(x)),
{
    assert forall|j: int| 0 <= j < vs.push(w).len() implies (#[trigger] vs.push(w)[j])@
        == ss.push(x)[j] by {
        if j < vs.len() {
            assert(vs.push(w)[j] == vs[j]);
        }
    }
}

/// Every way to pick `k` cards from `s` keeping their order, one entry per
/// index choice, ordered by the position of the first pick.
pub open spec fn combos_spec(s: Seq<i64>, k: nat) -> Seq<Seq<i64>>
    decreases s.len(), s.len() + 1,
{
    if k == 0 {
        seq![Seq::<i64>::empty()]
    } else if s.len() < k {
        Seq::empty()
    } else {
        combos_upto(s, k, s.len() as int)
    }
}

/// The picks whose first chosen position is below `i`.
pub open spec fn combos_upto(s: Seq<i64>, k: nat, i: int) -> Seq<Seq<i64>>
    decreases s.len(), i,
{
    if k == 0 || i <= 0 || i > s.len() {
        Seq::empty()
    } else {
        combos_upto(s, k, i - 1) + combos_spec(
            s.subrange(i, s.len() as int),
            (k - 1) as nat,
        ).map_values(|c: Seq<i64>| seq![s[i - 1]] + c)
    }
}

/// Every way to pick `k` cards from `values` keeping their order, one entry
/// per index choice. The result reads exactly the pick sequence of the
/// specification; in particular each entry has length `k` and draws only
/// cards of `values`.
pub fn combinations(values: &[i64], k: usize) -> (res: Vec<Vec<i64>>)
    ensures
        views_match(res@, combos_spec(values@, k as nat)),
        forall|j: int| 0 <= j < res@.len() ==> (#[trigger] res@[j])@.len() == k as int,
        forall|j: int, m: int|
            0 <= j < res@.len() && 0 <= m < k as int ==> values@.contains(
                #[trigger] res@[j]@[m],
            ),
    decreases values@.len(), k,
{
    let mut res: Vec<Vec<i64>> = Vec::new();
    if k == 0 {
        let empty_hand: Vec<i64> = Vec::new();
        res.push(empty_hand);
        proof {
            assert(views_match(res@, combos_spec(values@, 0)));
        }
        return res;
    }
    if values.len() < k {
        return res;
    }
    let n = values.len();
    for i in 0..n
        invariant
            k as int >= 1,
            k as int <= n,
            n == values@.len(),
            views_match(res@, combos_upto(values@, k as nat, i as int)),
            forall|j: int| 0 <= j < res@.len() ==> (#[trigger] res@[j])@.len() == k as int,
            forall|j: int, m: int|
                0 <= j < res@.len() && 0 <= m < k as int ==> values@.contains(
                    #[trigger] res@[j]@[m],
                ),
    {
        let mut tail: Vec<i64> = Vec::new();
        for t in (i + 1)..n
            invariant
                i < t <= n,
                n == values@.len(),
                tail@ == values@.subrange(i as int + 1, t as int),
        {
            tail.push(values[t]);
            proof {
                assert(tail@ =~= values@.subrange(i as int + 1, t as int + 1));
            }
        }
        let rests = combinations(tail.as_slice(), k - 1);
        let ghost mapped = combos_spec(tail@, (k - 1) as nat).map_values(
            |c: Seq<i64>| seq![values@[i as int]] + c,
        );
        for r in 0..rests.len()
            invariant
                0 <= i < n,
                k as int >= 1,
                n == values@.len(),
                tail@ == values@.subrange(i as int + 1, n as int),
                views_match(rests@, combos_spec(tail@, (k - 1) as nat)),
                mapped == combos_spec(tail@, (k - 1) as nat).map_values(
                    |c: Seq<i64>| seq![values@[i as int]] + c,
                ),
                forall|j: int|
                    0 <= j < rests@.len() ==> (#[trigger] rests@[j])@.len() == k as int - 1,
                forall|j: int, m: int|
                    0 <= j < rests@.len() && 0 <= m < k as int - 1 ==> tail@.contains(
                        #[trigger] rests@[j]@[m],
                    ),
                views_match(res@, combos_upto(values@, k as nat, i as int) + mapped.take(
                    r as int,
                )),
                forall|j: int| 0 <= j < res@.len() ==> (#[trigger] res@[j])@.len() == k as int,
                forall|j: int, m: int|
                    0 <= j < res@.len() && 0 <= m < k as int ==> values@.contains(
                        #[trigger] res@[j]@[m],
                    ),
        {
            let rest = &rests[r];
            let mut hand: Vec<i64> = Vec::new();
            hand.push(values[i]);
            for m in 0..rest.len()
                invariant
                    hand@ == seq![values@[i as int]] + rest@.take(m as int),
            {
                hand.push(rest[m]);
                proof {
                    assert(hand@ =~= seq![values@[i as int]] + rest@.take(m as int + 1));
                }
            }
            proof {
                assert(rest@.take(rest@.len() as int) =~= rest@);
                assert(hand@ == seq![values@[i as int]] + rest@);
                assert(hand@ == mapped[r as int]);
                assert(values@.contains(values@[i as int]));
                assert forall|m: int| 0 <= m < k as int implies values@.contains(
                    #[trigger] hand@[m],
                ) by {
                    if m >= 1 {
                        assert(hand@[m] == rest@[m - 1]);
                        assert(tail@.contains(rest@[m - 1]));
                        let w = choose|w: int| 0 <= w < tail@.len() && tail@[w] == rest@[m - 1];
                        assert(values@[i as int + 1 + w] == rest@[m - 1]);
                    }
                }
                lemma_views_match_push(
                    res@,
                    combos_upto(values@, k as nat, i as int) + mapped.take(r as int),
                    hand,
                    hand@,
                );
                assert((combos_upto(values@, k as nat, i as int) + mapped.take(r as int)).push(
                    hand@,
                ) =~= combos_upto(values@, k as nat, i as int) + mapped.take(r as int + 1));
            }
            res.push(hand);
        }
        proof {
            assert(mapped.take(mapped.len() as int) =~= mapped);
            assert(combos_upto(values@, k as nat, i as int + 1) == combos_upto(
                values@,
                k as nat,
                i as int,
            ) + mapped);
        }
    }
    proof {
        assert(combos_spec(values@, k as nat) == combos_upto(values@, k as nat, n as int));
    }
    res
}

} // verus!
