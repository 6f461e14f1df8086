use crate::formula::{eval_val, format_spec, is_assigned, AssignedFormula, IndexFormula};
use crate::perms::contains_seq;
use crate::search::{
    find_answers, lex_before, ordering_reaches, reaches_int, valid_hand, AnswerSearch,
};
use crate::shapes::{lemma_shape_seq_complete, shape_seq, slot_range};
use vstd::prelude::*;

verus! {

/// A client error at the query boundary, carrying a human-readable reason.
pub struct Error {
    pub reason: String,
}

/// The raw query parameters of a solve request, before validation: a
/// comma-separated card list, a target integer, and an optional result
/// count.
pub struct SolveParams {
    pub cards: Option<String>,
    pub target: Option<String>,
    pub limit: Option<String>,
}

/// One satisfying expression together with its rendered infix form.
pub struct Answer {
    pub formula: AssignedFormula,
    pub display: String,
}

impl Answer {
    /// The display string is the rendering of the formula.
    pub open spec fn wf(self) -> bool {
        self.display@ == format_spec(self.formula)
    }

    /// The formula evaluates exactly to `target`.
    pub open spec fn answers(self, target: i64) -> bool {
        match eval_val(self.formula) {
            Some(pair) => pair.0 == target as int * pair.1,
            None => false,
        }
    }

    pub fn new(formula: AssignedFormula) -> (res: Answer)
        ensures
            res.formula == formula,
            res.wf(),
    {
        let display = formula.format();
        Answer { formula, display }
    }
}

/// The reaching pair (`p`, `t`) is represented among the collected answers.
pub open spec fn collected(res: Seq<Answer>, p: Seq<i64>, t: IndexFormula) -> bool {
    exists|i: int| 0 <= i < res.len() && #[trigger] is_assigned(t, p, res[i].formula)
}

/// The reaching pair (`p`, `t`) is either already collected or still stands
/// at or after the cursor, so driving the walk on will find it.
spec fn collected_or_pending(
    res: Seq<Answer>,
    search: AnswerSearch,
    p: Seq<i64>,
    t: IndexFormula,
) -> bool {
    ||| collected(res, p, t)
    ||| exists|a: int, b: int|
        0 <= a < search.orderings().len() && 0 <= b < search.shapes().len() && (
        #[trigger] search.orderings()[a])@ == p && #[trigger] search.shapes()[b] == t
            && !lex_before(a, b, search.position().0, search.position().1)
}

/// Collect up to `limit` satisfying expressions over the hand by driving a
/// fresh walk, each paired with its rendering. A result shorter than
/// `limit` holds every answer there is — in particular, an unreachable
/// target yields an empty vector, never an error.
pub fn solve(cache: &mut crate::shapes::ShapeCache, cards: &[i64], target: i64, limit: usize) -> (res: Vec<
    Answer,
>)
    requires
        old(cache).wf(),
        valid_hand(cards@),
    ensures
        final(cache).wf(),
        res@.len() <= limit as int,
        forall|i: int|
            0 <= i < res@.len() ==> (#[trigger] res@[i]).wf() && res@[i].answers(target),
        (limit > 0 && res@.len() == 0) ==> !reaches_int(cards@, target as int),
        res@.len() < limit as int ==> forall|p: Seq<i64>, t: IndexFormula|
            #[trigger] ordering_reaches(cards@, p, t, target as int) ==> collected(res@, p, t),
{
    let mut search = find_answers(cache, cards, target);
    let mut res: Vec<Answer> = Vec::new();
    proof {
        assert forall|p: Seq<i64>, t: IndexFormula|
            #[trigger] ordering_reaches(cards@, p, t, target as int) implies collected_or_pending(
            res@,
            search,
            p,
            t,
        ) by {
            assert(contains_seq(search.orderings(), p));
            let a = choose|a: int|
                0 <= a < search.orderings().len() && #[trigger] search.orderings()[a]@ == p;
            lemma_shape_seq_complete(slot_range(cards@.len() as int), t);
            assert(shape_seq(slot_range(cards@.len() as int)).contains(t));
            let b = choose|b: int|
                0 <= b < search.shapes().len() && #[trigger] search.shapes()[b] == t;
            assert(!lex_before(a, b, search.position().0, search.position().1));
        }
    }
    let mut stop = false;
    while !stop && res.len() < limit
        invariant
            search.wf(),
            search.hand() == cards@,
            search.target_spec() == target,
            res@.len() <= limit as int,
            forall|i: int|
                0 <= i < res@.len() ==> (#[trigger] res@[i]).wf() && res@[i].answers(target),
            (res@.len() == 0 && !stop) ==> search.at_start(),
            (stop && res@.len() == 0) ==> !reaches_int(cards@, target as int),
            forall|p: Seq<i64>, t: IndexFormula|
                #[trigger] ordering_reaches(cards@, p, t, target as int)
                    ==> collected_or_pending(res@, search, p, t),
            stop ==> forall|p: Seq<i64>, t: IndexFormula|
                #[trigger] ordering_reaches(cards@, p, t, target as int) ==> collected(
                    res@,
                    p,
                    t,
                ),
        decreases limit as int - res@.len(), (if stop { 0int } else { 1int }),
    {
        let ghost pre = search;
        let ghost old_res = res@;
        match search.next_answer() {
            Some(r) => {
                res.push(Answer::new(r));
                proof {
                    let jj = search.position().0;
                    let kk = search.position().1 - 1;
                    assert forall|p: Seq<i64>, t: IndexFormula|
                        #[trigger] ordering_reaches(
                        cards@,
                        p,
                        t,
                        target as int,
                    ) implies collected_or_pending(res@, search, p, t) by {
                        if collected(old_res, p, t) {
                            let i = choose|i: int|
                                0 <= i < old_res.len() && #[trigger] is_assigned(
                                    t,
                                    p,
                                    old_res[i].formula,
                                );
                            assert(res@[i] == old_res[i]);
                            assert(collected(res@, p, t));
                        } else {
                            let (a, b): (int, int) = choose|a: int, b: int|
                                0 <= a < pre.orderings().len() && 0 <= b < pre.shapes().len()
                                    && (#[trigger] pre.orderings()[a])@ == p
                                    && #[trigger] pre.shapes()[b] == t && !lex_before(
                                    a,
                                    b,
                                    pre.position().0,
                                    pre.position().1,
                                );
                            if !lex_before(a, b, jj, kk + 1) {
                                assert(search.orderings()[a]@ == p);
                                assert(search.shapes()[b] == t);
                            } else if a == jj && b == kk {
                                assert(is_assigned(t, p, res@[res@.len() - 1].formula));
                                assert(collected(res@, p, t));
                            } else {
                                assert(lex_before(a, b, jj, kk));
                                assert(!crate::search::hits_value(
                                    pre.shapes()[b],
                                    pre.orderings()[a]@,
                                    target as int,
                                ));
                                assert(false);
                            }
                        }
                    }
                }
            },
            None => {
                stop = true;
                proof {
                    assert forall|p: Seq<i64>, t: IndexFormula|
                        #[trigger] ordering_reaches(
                        cards@,
                        p,
                        t,
                        target as int,
                    ) implies collected(res@, p, t) by {
                        if !collected(old_res, p, t) {
                            let (a, b): (int, int) = choose|a: int, b: int|
                                0 <= a < pre.orderings().len() && 0 <= b < pre.shapes().len()
                                    && (#[trigger] pre.orderings()[a])@ == p
                                    && #[trigger] pre.shapes()[b] == t && !lex_before(
                                    a,
                                    b,
                                    pre.position().0,
                                    pre.position().1,
                                );
                            assert(lex_before(a, b, pre.orderings().len() as int, 0));
                            assert(!crate::search::hits_value(
                                pre.shapes()[b],
                                pre.orderings()[a]@,
                                target as int,
                            ));
                            assert(false);
                        }
                    }
                }
            },
        }
    }
    res
}

} // verus!
