use crate::formula::{
    eval_idx, eval_val, idx_ok, is_assigned, leaves, lemma_assigned_eval, lemma_leaves_idx_ok,
    lemma_mag_cap_small, lemma_mag_idx_cap, mag_idx, AssignedFormula, IndexFormula, MAX_CARD,
};
use crate::perms::{contains_seq, dedup_hands, distinct_seqs, permutations};
use crate::rational::Rational;
use crate::shapes::{
    get_formulas_cached, lemma_shape_seq_complete, lemma_shape_seq_leaves, shape_seq, slot_range,
    ShapeCache, MAX_ARITY,
};
use std::collections::HashSet;
use vstd::prelude::*;

verus! {

broadcast use
    vstd::seq_lib::group_to_multiset_ensures,
    vstd::multiset::group_multiset_axioms,
    vstd::std_specs::hash::group_hash_axioms;

/// A hand the engine accepts: one to `MAX_ARITY` cards, each of magnitude at
/// most `MAX_CARD` (the bound the fixed-width rational arithmetic forces).
pub open spec fn valid_hand(cards: Seq<i64>) -> bool {
    &&& 1 <= cards.len() <= MAX_ARITY as int
    &&& forall|i: int|
        0 <= i < cards.len() ==> -(MAX_CARD as int) <= #[trigger] cards[i] <= MAX_CARD as int
}

/// The shape `t` over the ordering `p` evaluates exactly to the integer `v`.
pub open spec fn hits_value(t: IndexFormula, p: Seq<i64>, v: int) -> bool {
    match eval_idx(t, p) {
        Some(pair) => pair.0 == v * pair.1,
        None => false,
    }
}

/// The ordering `p` of the hand `cards`, under the shape `t`, evaluates to
/// exactly the integer `k`.
pub open spec fn ordering_reaches(cards: Seq<i64>, p: Seq<i64>, t: IndexFormula, k: int) -> bool {
    &&& p.to_multiset() == cards.to_multiset()
    &&& leaves(t) == slot_range(cards.len() as int)
    &&& hits_value(t, p, k)
}

/// Some expression over the hand evaluates to exactly the integer `k`.
pub open spec fn reaches_int(cards: Seq<i64>, k: int) -> bool {
    exists|p: Seq<i64>, t: IndexFormula| #[trigger] ordering_reaches(cards, p, t, k)
}

/// `orderings` covers every ordering of `cards`, and `shapes` is exactly the
/// shape set for the hand's size.
pub open spec fn covers_hand(
    orderings: Seq<Vec<i64>>,
    shapes: Seq<IndexFormula>,
    cards: Seq<i64>,
) -> bool {
    &&& shapes == shape_seq(slot_range(cards.len() as int))
    &&& forall|m: int|
        0 <= m < orderings.len() ==> (#[trigger] orderings[m])@.to_multiset()
            == cards.to_multiset()
    &&& forall|p: Seq<i64>| p.to_multiset() == cards.to_multiset() ==> contains_seq(orderings, p)
}

/// Position (`a0`, `b0`) of the walk (ordering-major, shape-minor) comes
/// strictly before position (`a1`, `b1`).
pub open spec fn lex_before(a0: int, b0: int, a1: int, b1: int) -> bool {
    a0 < a1 || (a0 == a1 && b0 < b1)
}

/// No pair at or after position (`j0`, `k0`) and strictly before position
/// (`j1`, `k1`) of the walk over `orderings` and `shapes` evaluates exactly
/// to `v`.
pub open spec fn scan_clean_range(
    orderings: Seq<Vec<i64>>,
    shapes: Seq<IndexFormula>,
    v: int,
    j0: int,
    k0: int,
    j1: int,
    k1: int,
) -> bool {
    forall|a: int, b: int|
        0 <= a < orderings.len() && 0 <= b < shapes.len() && !lex_before(a, b, j0, k0)
            && lex_before(a, b, j1, k1) ==> !#[trigger] hits_value(shapes[b], orderings[a]@, v)
}

/// Extending a clean scan by one pair that does not hit.
proof fn lemma_scan_step(
    orderings: Seq<Vec<i64>>,
    shapes: Seq<IndexFormula>,
    v: int,
    j0: int,
    k0: int,
    j: int,
    k: int,
)
    requires
        scan_clean_range(orderings, shapes, v, j0, k0, j, k),
        0 <= j < orderings.len(),
        0 <= k < shapes.len(),
        !hits_value(shapes[k], orderings[j]@, v),
    ensures
        scan_clean_range(orderings, shapes, v, j0, k0, j, k + 1),
{
    assert forall|a: int, b: int|
        0 <= a < orderings.len() && 0 <= b < shapes.len() && !lex_before(a, b, j0, k0)
            && lex_before(a, b, j, k + 1) implies !#[trigger] hits_value(
        shapes[b],
        orderings[a]@,
        v,
    ) by {
        if !lex_before(a, b, j, k) {
            assert(a == j && b == k);
        }
    }
}

/// A clean scan through all shapes of one ordering is a clean scan up to the
/// start of the next ordering.
proof fn lemma_scan_wrap(
    orderings: Seq<Vec<i64>>,
    shapes: Seq<IndexFormula>,
    v: int,
    j0: int,
    k0: int,
    j: int,
)
    requires
        scan_clean_range(orderings, shapes, v, j0, k0, j, shapes.len() as int),
    ensures
        scan_clean_range(orderings, shapes, v, j0, k0, j + 1, 0),
{
    assert forall|a: int, b: int|
        0 <= a < orderings.len() && 0 <= b < shapes.len() && !lex_before(a, b, j0, k0)
            && lex_before(a, b, j + 1, 0) implies !#[trigger] hits_value(
        shapes[b],
        orderings[a]@,
        v,
    ) by {
        assert(lex_before(a, b, j, shapes.len() as int));
    }
}

/// A clean scan of a whole covering walk rules the value out entirely: no
/// ordering of the hand reaches it under any shape.
proof fn lemma_scan_unreachable(
    orderings: Seq<Vec<i64>>,
    shapes: Seq<IndexFormula>,
    cards: Seq<i64>,
    v: int,
)
    requires
        covers_hand(orderings, shapes, cards),
        scan_clean_range(orderings, shapes, v, 0, 0, orderings.len() as int, 0),
    ensures
        !reaches_int(cards, v),
{
    if reaches_int(cards, v) {
        let (p, t): (Seq<i64>, IndexFormula) = choose|p: Seq<i64>, t: IndexFormula|
            #[trigger] ordering_reaches(cards, p, t, v);
        assert(contains_seq(orderings, p));
        let a = choose|a: int| 0 <= a < orderings.len() && #[trigger] orderings[a]@ == p;
        lemma_shape_seq_complete(slot_range(cards.len() as int), t);
        let b = choose|b: int| 0 <= b < shapes.len() && shapes[b] == t;
        assert(hits_value(shapes[b], orderings[a]@, v));
        assert(!hits_value(shapes[b], orderings[a]@, v));
    }
}

/// A permutation of a valid hand keeps its bounds and length, and every
/// shape for the hand's size may be applied to it without overflow.
proof fn lemma_apply_pre(t: IndexFormula, p: Seq<i64>, cards: Seq<i64>)
    requires
        valid_hand(cards),
        p.to_multiset() == cards.to_multiset(),
        leaves(t) == slot_range(cards.len() as int),
    ensures
        p.len() == cards.len(),
        idx_ok(t, p.len() as int),
        mag_idx(t, p) <= i64::MAX as int,
{
    p.to_multiset_ensures();
    cards.to_multiset_ensures();
    assert(p.len() == cards.len());
    assert forall|i: int|
        0 <= i < p.len() implies -(MAX_CARD as int) <= #[trigger] p[i] <= MAX_CARD as int by {
        assert(p.contains(p[i]));
        assert(cards.to_multiset().count(p[i]) > 0);
        assert(cards.contains(p[i]));
    }
    let n = cards.len() as int;
    assert forall|j: int| 0 <= j < leaves(t).len() implies #[trigger] leaves(t)[j] < n by {
        assert(leaves(t)[j] == slot_range(n)[j]);
    }
    lemma_leaves_idx_ok(t, n);
    lemma_mag_idx_cap(t, p);
    lemma_mag_cap_small(leaves(t).len());
}

/// The deduplicated orderings of a hand still each hold exactly its cards.
proof fn lemma_dedup_sound(all_orderings: Seq<Vec<i64>>, orderings: Seq<Vec<i64>>, cards: Seq<i64>)
    requires
        forall|w: int|
            0 <= w < all_orderings.len() ==> (#[trigger] all_orderings[w])@.to_multiset()
                == cards.to_multiset(),
        forall|p: Seq<i64>| contains_seq(orderings, p) <==> contains_seq(all_orderings, p),
    ensures
        forall|m: int|
            0 <= m < orderings.len() ==> (#[trigger] orderings[m])@.to_multiset()
                == cards.to_multiset(),
{
    assert forall|m: int|
        0 <= m < orderings.len() implies (#[trigger] orderings[m])@.to_multiset()
        == cards.to_multiset() by {
        assert(orderings[m]@ == orderings[m]@);
        assert(contains_seq(orderings, orderings[m]@));
        assert(contains_seq(all_orderings, orderings[m]@));
        let w = choose|w: int|
            0 <= w < all_orderings.len() && #[trigger] all_orderings[w]@ == orderings[m]@;
    }
}

/// A demand-driven walk over the deduplicated orderings of one hand and the
/// cached shapes for its size, yielding each satisfying expression in turn.
/// Each search owns its cursor; only the read-only shape cache is shared.
pub struct AnswerSearch {
    target: i64,
    perms: Vec<Vec<i64>>,
    shapes: Vec<IndexFormula>,
    perm_idx: usize,
    shape_idx: usize,
    cards: Ghost<Seq<i64>>,
}

/// `r` is the answer the cursor step from `pre` to `post` yielded: the pair
/// just before `post`'s position hits the target and `r` is its assignment,
/// that pair stands at or after `pre`'s position, and no pair from `pre`'s
/// position up to it hits. So each pull returns the first match at or after
/// the cursor, in walk order, exactly once.
pub open spec fn yields_at(pre: AnswerSearch, post: AnswerSearch, r: AssignedFormula) -> bool {
    let jj = post.position().0;
    let kk = post.position().1 - 1;
    &&& 0 <= jj < pre.orderings().len()
    &&& 0 <= kk < pre.shapes().len()
    &&& !lex_before(jj, kk, pre.position().0, pre.position().1)
    &&& scan_clean_range(
        pre.orderings(),
        pre.shapes(),
        pre.target_spec() as int,
        pre.position().0,
        pre.position().1,
        jj,
        kk,
    )
    &&& hits_value(pre.shapes()[kk], pre.orderings()[jj]@, pre.target_spec() as int)
    &&& is_assigned(pre.shapes()[kk], pre.orderings()[jj]@, r)
}

/// The cursor step from `pre` to `post` exhausted the walk: no pair at or
/// after `pre`'s position hits the target, and `post` stands at the end.
pub open spec fn exhausted_from(pre: AnswerSearch, post: AnswerSearch) -> bool {
    &&& post.position() == (pre.orderings().len() as int, 0int)
    &&& scan_clean_range(
        pre.orderings(),
        pre.shapes(),
        pre.target_spec() as int,
        pre.position().0,
        pre.position().1,
        pre.orderings().len() as int,
        0,
    )
}

impl AnswerSearch {
    /// The hand this search walks.
    pub closed spec fn hand(self) -> Seq<i64> {
        self.cards@
    }

    /// The target this search matches against.
    pub closed spec fn target_spec(self) -> i64 {
        self.target
    }

    /// The deduplicated orderings the walk ranges over (outer loop).
    pub closed spec fn orderings(self) -> Seq<Vec<i64>> {
        self.perms@
    }

    /// The shape set the walk ranges over (inner loop).
    pub closed spec fn shapes(self) -> Seq<IndexFormula> {
        self.shapes@
    }

    /// The cursor: the next pair to examine, ordering-major.
    pub closed spec fn position(self) -> (int, int) {
        (self.perm_idx as int, self.shape_idx as int)
    }

    /// No answer has been taken yet.
    pub open spec fn at_start(self) -> bool {
        self.position() == (0int, 0int)
    }

    /// The cursor's orderings are exactly the distinct orderings of the
    /// hand, its shapes exactly the shape set for the hand's size, and its
    /// position is in range.
    pub open spec fn wf(self) -> bool {
        &&& valid_hand(self.hand())
        &&& covers_hand(self.orderings(), self.shapes(), self.hand())
        &&& distinct_seqs(self.orderings())
        &&& 0 <= self.position().0 <= self.orderings().len()
        &&& 0 <= self.position().1 <= self.shapes().len()
        &&& self.position().0 == self.orderings().len() ==> self.position().1 == 0
    }

    /// The next expression over the hand that evaluates exactly to the
    /// target: the first hitting (ordering, shape) pair at or after the
    /// cursor, with the cursor advanced just past it; `None` once no hitting
    /// pair remains, with the cursor at the end. Division by exact zero and
    /// mismatched values only skip their pair. On a fresh cursor, `None`
    /// means no expression over the hand reaches the target at all.
    #[verifier::rlimit(60)]
    pub fn next_answer(&mut self) -> (res: Option<AssignedFormula>)
        requires
            old(self).wf(),
        ensures
            final(self).wf(),
            final(self).hand() == old(self).hand(),
            final(self).target_spec() == old(self).target_spec(),
            final(self).orderings() == old(self).orderings(),
            final(self).shapes() == old(self).shapes(),
            (match res {
                Some(r) => {
                    &&& yields_at(*old(self), *final(self), r)
                    &&& (match eval_val(r) {
                        Some(pair) => pair.0 == old(self).target_spec() as int * pair.1,
                        None => false,
                    })
                    &&& exists|p: Seq<i64>, t: IndexFormula|
                        #[trigger] ordering_reaches(
                            old(self).hand(),
                            p,
                            t,
                            old(self).target_spec() as int,
                        ) && is_assigned(t, p, r)
                },
                None => {
                    &&& exhausted_from(*old(self), *final(self))
                    &&& (old(self).at_start() ==> !reaches_int(
                        old(self).hand(),
                        old(self).target_spec() as int,
                    ))
                },
            }),
    {
        let ghost orderings = self.perms@;
        let ghost shapes = self.shapes@;
        let ghost goal = self.target as int;
        let ghost j0 = self.perm_idx as int;
        let ghost k0 = self.shape_idx as int;
        while self.perm_idx < self.perms.len()
            invariant
                self.wf(),
                self.cards == old(self).cards,
                self.target == old(self).target,
                self.perms@ == orderings,
                self.shapes@ == shapes,
                orderings == old(self).orderings(),
                shapes == old(self).shapes(),
                goal == self.target as int,
                goal == old(self).target_spec() as int,
                j0 == old(self).position().0,
                k0 == old(self).position().1,
                !lex_before(self.perm_idx as int, self.shape_idx as int, j0, k0),
                scan_clean_range(
                    orderings,
                    shapes,
                    goal,
                    j0,
                    k0,
                    self.perm_idx as int,
                    self.shape_idx as int,
                ),
            decreases
                    self.perms@.len() - self.perm_idx,
                    self.shapes@.len() - self.shape_idx,
        {
            if self.shape_idx < self.shapes.len() {
                let ghost j = self.perm_idx as int;
                let ghost k = self.shape_idx as int;
                let shape = &self.shapes[self.shape_idx];
                let ordering = &self.perms[self.perm_idx];
                proof {
                    assert(shape_seq(slot_range(self.cards@.len() as int)).contains(shapes[k]));
                    lemma_shape_seq_leaves(slot_range(self.cards@.len() as int), shapes[k]);
                    lemma_apply_pre(shapes[k], orderings[j]@, self.cards@);
                }
                let outcome = shape.apply(ordering.as_slice());
                self.shape_idx = self.shape_idx + 1;
                match outcome {
                    Ok(value) => {
                        if value == Rational::from_int(self.target) {
                            let r = shape.assign(ordering.as_slice());
                            proof {
                                lemma_assigned_eval(shapes[k], orderings[j]@, r);
                                assert(hits_value(shapes[k], orderings[j]@, goal));
                                assert(ordering_reaches(
                                    self.cards@,
                                    orderings[j]@,
                                    shapes[k],
                                    goal,
                                ));
                                assert(yields_at(*old(self), *self, r));
                            }
                            return Some(r);
                        }
                        proof {
                            assert(!hits_value(shapes[k], orderings[j]@, goal));
                            lemma_scan_step(orderings, shapes, goal, j0, k0, j, k);
                        }
                    },
                    Err(_) => {
                        proof {
                            assert(!hits_value(shapes[k], orderings[j]@, goal));
                            lemma_scan_step(orderings, shapes, goal, j0, k0, j, k);
                        }
                    },
                }
            } else {
                let ghost j = self.perm_idx as int;
                self.perm_idx = self.perm_idx + 1;
                self.shape_idx = 0;
                proof {
                    lemma_scan_wrap(orderings, shapes, goal, j0, k0, j);
                }
            }
        }
        proof {
            assert(exhausted_from(*old(self), *self));
            if old(self).at_start() {
                lemma_scan_unreachable(orderings, shapes, self.cards@, goal);
            }
        }
        None
    }
}

/// Begin a search for expressions over `cards` that evaluate exactly to
/// `target`. Every call starts a fresh walk; searches share only the
/// read-only shape cache.
pub fn find_answers(cache: &mut ShapeCache, cards: &[i64], target: i64) -> (res: AnswerSearch)
    requires
        old(cache).wf(),
        valid_hand(cards@),
    ensures
        final(cache).wf(),
        res.wf(),
        res.hand() == cards@,
        res.target_spec() == target,
        res.at_start(),
{
    let shapes = get_formulas_cached(cache, cards.len());
    let all_orderings = permutations(cards);
    let orderings = dedup_hands(&all_orderings);
    proof {
        lemma_dedup_sound(all_orderings@, orderings@, cards@);
    }
    AnswerSearch {
        target,
        perms: orderings,
        shapes,
        perm_idx: 0,
        shape_idx: 0,
        cards: Ghost(cards@),
    }
}

/// The subset of `within` that no expression over `cards` reaches: every
/// deduplicated ordering is walked against every cached shape, each exact
/// integer value reached is removed, and the sweep stops early once nothing
/// remains. Division by exact zero only skips its pair.
#[verifier::rlimit(60)]
pub fn compute_impossibles(cache: &mut ShapeCache, cards: &[i64], within: HashSet<i64>) -> (res:
    HashSet<i64>)
    requires
        old(cache).wf(),
        valid_hand(cards@),
    ensures
        final(cache).wf(),
        forall|v: i64|
            res@.contains(v) <==> (within@.contains(v) && !reaches_int(cards@, v as int)),
{
    let ghost initial = within@;
    let mut impossibles = within;
    let formulas = get_formulas_cached(cache, cards.len());
    let all_orderings = permutations(cards);
    let orderings = dedup_hands(&all_orderings);
    proof {
        lemma_dedup_sound(all_orderings@, orderings@, cards@);
    }
    let mut done = false;
    for j in 0..orderings.len()
        invariant
            valid_hand(cards@),
            covers_hand(orderings@, formulas@, cards@),
            forall|v: i64| impossibles@.contains(v) ==> initial.contains(v),
            forall|v: i64|
                initial.contains(v) && !reaches_int(cards@, v as int) ==> impossibles@.contains(
                    v,
                ),
            done ==> impossibles@ =~= Set::<i64>::empty(),
            !done ==> forall|v: i64|
                impossibles@.contains(v) ==> scan_clean_range(
                    orderings@,
                    formulas@,
                    v as int,
                    0,
                    0,
                    j as int,
                    0,
                ),
    {
        if !done {
            for k in 0..formulas.len()
                invariant
                    valid_hand(cards@),
                    covers_hand(orderings@, formulas@, cards@),
                    0 <= j < orderings@.len(),
                    forall|v: i64| impossibles@.contains(v) ==> initial.contains(v),
                    forall|v: i64|
                        initial.contains(v) && !reaches_int(cards@, v as int)
                            ==> impossibles@.contains(v),
                    done ==> impossibles@ =~= Set::<i64>::empty(),
                    !done ==> forall|v: i64|
                        impossibles@.contains(v) ==> scan_clean_range(
                            orderings@,
                            formulas@,
                            v as int,
                            0,
                            0,
                            j as int,
                            k as int,
                        ),
            {
                if !done {
                    let shape = &formulas[k];
                    let ordering = &orderings[j];
                    proof {
                        assert(shape_seq(slot_range(cards@.len() as int)).contains(
                            formulas@[k as int],
                        ));
                        lemma_shape_seq_leaves(slot_range(cards@.len() as int), formulas@[k as int]);
                        lemma_apply_pre(formulas@[k as int], orderings@[j as int]@, cards@);
                    }
                    match shape.apply(ordering.as_slice()) {
                        Ok(value) => {
                            if value.is_integer() {
                                proof {
                                    let w = choose|w: int| value.denotes_int(w);
                                    crate::rational::lemma_int_witness_fits(
                                        value.num(),
                                        value.den(),
                                        w,
                                    );
                                }
                                let reached = value.to_integer();
                                impossibles.remove(&reached);
                                proof {
                                    assert(hits_value(
                                        formulas@[k as int],
                                        orderings@[j as int]@,
                                        reached as int,
                                    ));
                                    assert(ordering_reaches(
                                        cards@,
                                        orderings@[j as int]@,
                                        formulas@[k as int],
                                        reached as int,
                                    ));
                                    assert(reaches_int(cards@, reached as int));
                                }
                            }
                            proof {
                                assert forall|v: i64| impossibles@.contains(v) implies !hits_value(
                                    formulas@[k as int],
                                    orderings@[j as int]@,
                                    v as int,
                                ) by {
                                    if hits_value(
                                        formulas@[k as int],
                                        orderings@[j as int]@,
                                        v as int,
                                    ) {
                                        assert(value.denotes_int(v as int));
                                    }
                                }
                            }
                        },
                        Err(_) => {
                            proof {
                                assert forall|v: i64| impossibles@.contains(v) implies !hits_value(
                                    formulas@[k as int],
                                    orderings@[j as int]@,
                                    v as int,
                                ) by {
                                }
                            }
                        },
                    }
                    proof {
                        if !impossibles@.is_empty() {
                            assert forall|v: i64| impossibles@.contains(v) implies scan_clean_range(
                                orderings@,
                                formulas@,
                                v as int,
                                0,
                                0,
                                j as int,
                                k as int + 1,
                            ) by {
                                lemma_scan_step(
                                    orderings@,
                                    formulas@,
                                    v as int,
                                    0,
                                    0,
                                    j as int,
                                    k as int,
                                );
                            }
                        }
                    }
                    if impossibles.is_empty() {
                        done = true;
                    }
                }
            }
            proof {
                if !done {
                    assert forall|v: i64| impossibles@.contains(v) implies scan_clean_range(
                        orderings@,
                        formulas@,
                        v as int,
                        0,
                        0,
                        j as int + 1,
                        0,
                    ) by {
                        lemma_scan_wrap(orderings@, formulas@, v as int, 0, 0, j as int);
                    }
                }
            }
        }
    }
    proof {
        assert(initial == within@);
        assert forall|v: i64|
            impossibles@.contains(v) <==> (within@.contains(v) && !reaches_int(
            cards@,
            v as int,
        )) by {
            if impossibles@.contains(v) {
                assert(!done);
                lemma_scan_unreachable(orderings@, formulas@, cards@, v as int);
                assert(initial.contains(v));
                assert(!reaches_int(cards@, v as int));
            }
            if initial.contains(v) && !reaches_int(cards@, v as int) {
                assert(impossibles@.contains(v));
            }
        }
    }
    impossibles
}

} // verus!
