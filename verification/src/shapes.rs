use crate::formula::{leaves, lemma_leaves_len_pos, Formula, IndexFormula};
use vstd::prelude::*;

verus! {

/// The largest hand size the shape cache will enumerate. The shape count
/// grows superexponentially with arity, so enumeration is deliberately
/// capped.
pub const MAX_ARITY: usize = 5;

/// The slot sequence `0, 1, ..., n - 1`.
pub open spec fn slot_range(n: int) -> Seq<usize> {
    Seq::new(n as nat, |i: int| i as usize)
}

/// The four trees that combine `l` and `r` with each operator, in the fixed
/// enumeration order.
pub open spec fn four_ops(l: IndexFormula, r: IndexFormula) -> Seq<IndexFormula> {
    seq![
        Formula::Add(Box::new(l), Box::new(r)),
        Formula::Sub(Box::new(l), Box::new(r)),
        Formula::Mul(Box::new(l), Box::new(r)),
        Formula::Div(Box::new(l), Box::new(r)),
    ]
}

/// All trees pairing `l` with each right subtree of `rs`, in order.
pub open spec fn cross_right(l: IndexFormula, rs: Seq<IndexFormula>) -> Seq<IndexFormula>
    decreases rs.len(),
{
    if rs.len() == 0 {
        Seq::empty()
    } else {
        four_ops(l, rs[0]) + cross_right(l, rs.drop_first())
    }
}

/// All trees pairing each left subtree of `ls` with each right subtree of
/// `rs`, in order.
pub open spec fn cross(ls: Seq<IndexFormula>, rs: Seq<IndexFormula>) -> Seq<IndexFormula>
    decreases ls.len(),
{
    if ls.len() == 0 {
        Seq::empty()
    } else {
        cross_right(ls[0], rs) + cross(ls.drop_first(), rs)
    }
}

/// Every tree over the slot sequence `s`: for one slot, the single leaf;
/// otherwise every break of `s` into a nonempty prefix and suffix, every
/// pair of subtrees over the two parts, and every operator.
pub open spec fn shape_seq(s: Seq<usize>) -> Seq<IndexFormula>
    decreases s.len(), s.len() + 1,
{
    if s.len() == 1 {
        seq![Formula::Leaf(s[0])]
    } else if s.len() == 0 {
        Seq::empty()
    } else {
        splits_upto(s, s.len() as int)
    }
}

/// The trees contributed by every break point below `k` (break point `b`
/// splits `s` into `s[..b]` and `s[b..]`, for `1 <= b <= s.len() - 1`).
pub open spec fn splits_upto(s: Seq<usize>, k: int) -> Seq<IndexFormula>
    decreases s.len(), k,
{
    if k <= 1 || k > s.len() {
        Seq::empty()
    } else {
        splits_upto(s, k - 1) + cross(
            shape_seq(s.subrange(0, k - 1)),
            shape_seq(s.subrange(k - 1, s.len() as int)),
        )
    }
}

proof fn lemma_cross_right_take(l: IndexFormula, rs: Seq<IndexFormula>, j: int)
    requires
        0 <= j < rs.len(),
    ensures
        cross_right(l, rs.take(j + 1)) == cross_right(l, rs.take(j)) + four_ops(l, rs[j]),
    decreases j,
{
    if j == 0 {
        assert(rs.take(1).len() == 1);
        assert(rs.take(1).drop_first() =~= Seq::<IndexFormula>::empty());
        assert(rs.take(1)[0] == rs[0]);
        assert(cross_right(l, rs.take(1)) == four_ops(l, rs.take(1)[0]) + cross_right(
            l,
            rs.take(1).drop_first(),
        ));
        assert(cross_right(l, Seq::<IndexFormula>::empty()) =~= Seq::<IndexFormula>::empty());
        assert(rs.take(0) =~= Seq::<IndexFormula>::empty());
        assert(cross_right(l, rs.take(1)) =~= cross_right(l, rs.take(0)) + four_ops(l, rs[0]));
    } else {
        lemma_cross_right_take(l, rs.drop_first(), j - 1);
        assert(rs.take(j + 1).drop_first() =~= rs.drop_first().take(j));
        assert(rs.take(j).drop_first() =~= rs.drop_first().take(j - 1));
        assert(rs.drop_first()[j - 1] == rs[j]);
        assert(rs.take(j + 1)[0] == rs[0]);
        assert(rs.take(j)[0] == rs[0]);
        assert(cross_right(l, rs.take(j + 1)) =~= cross_right(l, rs.take(j)) + four_ops(l, rs[j]));
    }
}

proof fn lemma_cross_take(ls: Seq<IndexFormula>, rs: Seq<IndexFormula>, i: int)
    requires
        0 <= i < ls.len(),
    ensures
        cross(ls.take(i + 1), rs) == cross(ls.take(i), rs) + cross_right(ls[i], rs),
    decreases i,
{
    if i == 0 {
        assert(ls.take(1).len() == 1);
        assert(ls.take(1).drop_first() =~= Seq::<IndexFormula>::empty());
        assert(ls.take(1)[0] == ls[0]);
        assert(cross(ls.take(1), rs) == cross_right(ls.take(1)[0], rs) + cross(
            ls.take(1).drop_first(),
            rs,
        ));
        assert(cross(Seq::<IndexFormula>::empty(), rs) =~= Seq::<IndexFormula>::empty());
        assert(ls.take(0) =~= Seq::<IndexFormula>::empty());
        assert(cross(ls.take(1), rs) =~= cross(ls.take(0), rs) + cross_right(ls[0], rs));
    } else {
        lemma_cross_take(ls.drop_first(), rs, i - 1);
        assert(ls.take(i + 1).drop_first() =~= ls.drop_first().take(i));
        assert(ls.take(i).drop_first() =~= ls.drop_first().take(i - 1));
        assert(ls.drop_first()[i - 1] == ls[i]);
        assert(ls.take(i + 1)[0] == ls[0]);
        assert(ls.take(i)[0] == ls[0]);
        assert(cross(ls.take(i + 1), rs) =~= cross(ls.take(i), rs) + cross_right(ls[i], rs));
    }
}

/// A structural copy of a vector of trees.
pub fn clone_formulas(v: &Vec<IndexFormula>) -> (res: Vec<IndexFormula>)
    ensures
        res@ == v@,
{
    let mut res: Vec<IndexFormula> = Vec::new();
    for i in 0..v.len()
        invariant
            res@ == v@.take(i as int),
    {
        res.push(v[i].duplicate());
        proof {
            assert(res@ =~= v@.take(i as int + 1));
        }
    }
    proof {
        assert(v@.take(v@.len() as int) =~= v@);
    }
    res
}

/// The slot indices `0..n` as a vector.
fn slot_vec(n: usize) -> (res: Vec<usize>)
    ensures
        res@ == slot_range(n as int),
{
    let mut res: Vec<usize> = Vec::new();
    for i in 0..n
        invariant
            res@ == slot_range(i as int),
    {
        res.push(i);
        proof {
            assert(res@ =~= slot_range(i as int + 1));
        }
    }
    res
}

/// Enumerate every tree over the given slot sequence: a single slot yields
/// its leaf; otherwise each break into a nonempty prefix and suffix is
/// expanded recursively, and each pair of subtrees is combined with each of
/// the four operators. The output order is fixed by the specification, so
/// repeated calls agree.
pub fn enumerate_formulas(indices: &[usize]) -> (res: Vec<IndexFormula>)
    ensures
        res@ == shape_seq(indices@),
    decreases indices@.len(),
{
    let n = indices.len();
    if n == 1 {
        let mut res: Vec<IndexFormula> = Vec::new();
        res.push(Formula::Leaf(indices[0]));
        proof {
            assert(res@ =~= shape_seq(indices@));
        }
        return res;
    }
    let mut res: Vec<IndexFormula> = Vec::new();
    if n == 0 {
        proof {
            assert(res@ =~= shape_seq(indices@));
        }
        return res;
    }
    for break_at in 1..n
        invariant
            2 <= n,
            n == indices@.len(),
            1 <= break_at <= n,
            res@ == splits_upto(indices@, break_at as int),
    {
        let mut left: Vec<usize> = Vec::new();
        for i in 0..break_at
            invariant
                i <= break_at < n,
                n == indices@.len(),
                left@ == indices@.subrange(0, i as int),
        {
            left.push(indices[i]);
            proof {
                assert(left@ =~= indices@.subrange(0, i as int + 1));
            }
        }
        let mut right: Vec<usize> = Vec::new();
        for i in break_at..n
            invariant
                break_at <= i <= n,
                break_at >= 1,
                n == indices@.len(),
                right@ == indices@.subrange(break_at as int, i as int),
        {
            right.push(indices[i]);
            proof {
                assert(right@ =~= indices@.subrange(break_at as int, i as int + 1));
            }
        }
        let left_formulas = enumerate_formulas(left.as_slice());
        let right_formulas = enumerate_formulas(right.as_slice());
        for i in 0..left_formulas.len()
            invariant
                2 <= n,
                n == indices@.len(),
                1 <= break_at < n,
                i <= left_formulas@.len(),
                left_formulas@ == shape_seq(indices@.subrange(0, break_at as int)),
                right_formulas@ == shape_seq(indices@.subrange(break_at as int, n as int)),
                res@ == splits_upto(indices@, break_at as int) + cross(
                    left_formulas@.take(i as int),
                    right_formulas@,
                ),
        {
            for j in 0..right_formulas.len()
                invariant
                    2 <= n,
                    n == indices@.len(),
                    1 <= break_at < n,
                    i < left_formulas@.len(),
                    j <= right_formulas@.len(),
                    left_formulas@ == shape_seq(indices@.subrange(0, break_at as int)),
                    right_formulas@ == shape_seq(indices@.subrange(break_at as int, n as int)),
                    res@ == splits_upto(indices@, break_at as int) + cross(
                        left_formulas@.take(i as int),
                        right_formulas@,
                    ) + cross_right(left_formulas@[i as int], right_formulas@.take(j as int)),
            {
                let lf = &left_formulas[i];
                let rf = &right_formulas[j];
                res.push(Formula::Add(Box::new(lf.duplicate()), Box::new(rf.duplicate())));
                res.push(Formula::Sub(Box::new(lf.duplicate()), Box::new(rf.duplicate())));
                res.push(Formula::Mul(Box::new(lf.duplicate()), Box::new(rf.duplicate())));
                res.push(Formula::Div(Box::new(lf.duplicate()), Box::new(rf.duplicate())));
                proof {
                    lemma_cross_right_take(
                        left_formulas@[i as int],
                        right_formulas@,
                        j as int,
                    );
                    assert(res@ =~= splits_upto(indices@, break_at as int) + cross(
                        left_formulas@.take(i as int),
                        right_formulas@,
                    ) + cross_right(
                        left_formulas@[i as int],
                        right_formulas@.take(j as int + 1),
                    ));
                }
            }
            proof {
                assert(right_formulas@.take(right_formulas@.len() as int) =~= right_formulas@);
                lemma_cross_take(left_formulas@, right_formulas@, i as int);
                assert(res@ =~= splits_upto(indices@, break_at as int) + cross(
                    left_formulas@.take(i as int + 1),
                    right_formulas@,
                ));
            }
        }
        proof {
            assert(left_formulas@.take(left_formulas@.len() as int) =~= left_formulas@);
            assert(res@ =~= splits_upto(indices@, break_at as int + 1));
        }
    }
    proof {
        assert(res@ == splits_upto(indices@, n as int));
    }
    res
}

/// A memoization table for shape sets, keyed by arity. Entries are computed
/// lazily on first request and never evicted; every entry always holds
/// exactly the specification's shape sequence for its arity, so every
/// caller, at any time, observes the same shape set for a given size.
pub struct ShapeCache {
    table: Vec<Option<Vec<IndexFormula>>>,
}

impl ShapeCache {
    /// The table has one slot per supported arity, and each filled slot
    /// holds exactly the shape sequence for its arity.
    pub closed spec fn wf(self) -> bool {
        &&& self.table@.len() == MAX_ARITY as int + 1
        &&& forall|m: int|
            0 <= m <= MAX_ARITY as int ==> (#[trigger] self.table@[m] matches Some(v) ==> v@
                == shape_seq(slot_range(m)))
    }

    /// An empty cache covering arities up to `MAX_ARITY`.
    pub fn new() -> (res: ShapeCache)
        ensures
            res.wf(),
    {
        let mut table: Vec<Option<Vec<IndexFormula>>> = Vec::new();
        for i in 0..6
            invariant
                table@.len() == i,
                forall|m: int| 0 <= m < i ==> #[trigger] table@[m] is None,
        {
            table.push(None);
        }
        ShapeCache { table }
    }
}

/// The shape set for `n` slots, memoized: computed with `enumerate_formulas`
/// on the first request for `n` and replayed from the cache afterwards.
/// Arities above `MAX_ARITY` are rejected by precondition, a deliberate
/// safety valve against runaway enumeration.
pub fn get_formulas_cached(cache: &mut ShapeCache, n: usize) -> (res: Vec<IndexFormula>)
    requires
        old(cache).wf(),
        n <= MAX_ARITY,
    ensures
        final(cache).wf(),
        res@ == shape_seq(slot_range(n as int)),
{
    let hit = match &cache.table[n] {
        Some(cached) => Some(clone_formulas(cached)),
        None => None,
    };
    match hit {
        Some(res) => res,
        None => {
            let slots = slot_vec(n);
            let formulas = enumerate_formulas(slots.as_slice());
            let copy = clone_formulas(&formulas);
            let ghost old_table = cache.table@;
            let _vacant = cache.table.remove(n);
            cache.table.insert(n, Some(formulas));
            proof {
                assert(cache.table@ =~= old_table.update(n as int, Some(formulas)));
            }
            copy
        },
    }
}


/// `t` combines `l` and `r` with one of the four operators.
pub open spec fn is_op_pair(t: IndexFormula, l: IndexFormula, r: IndexFormula) -> bool {
    ||| t == Formula::Add(Box::new(l), Box::new(r))
    ||| t == Formula::Sub(Box::new(l), Box::new(r))
    ||| t == Formula::Mul(Box::new(l), Box::new(r))
    ||| t == Formula::Div(Box::new(l), Box::new(r))
}

proof fn lemma_cross_right_elem(l: IndexFormula, rs: Seq<IndexFormula>, t: IndexFormula)
    requires
        cross_right(l, rs).contains(t),
    ensures
        exists|r: IndexFormula| #[trigger] rs.contains(r) && is_op_pair(t, l, r),
    decreases rs.len(),
{
    let s = cross_right(l, rs);
    let i = choose|i: int| 0 <= i < s.len() && s[i] == t;
    if i < 4 {
        assert(four_ops(l, rs[0]).contains(t));
        assert(rs.contains(rs[0]) && is_op_pair(t, l, rs[0]));
    } else {
        assert(cross_right(l, rs.drop_first())[i - 4] == t);
        assert(cross_right(l, rs.drop_first()).contains(t));
        lemma_cross_right_elem(l, rs.drop_first(), t);
        let r = choose|r: IndexFormula| #[trigger] rs.drop_first().contains(r) && is_op_pair(t, l, r);
        let k = choose|k: int| 0 <= k < rs.drop_first().len() && rs.drop_first()[k] == r;
        assert(rs[k + 1] == r);
        assert(rs.contains(r));
    }
}

proof fn lemma_cross_elem(ls: Seq<IndexFormula>, rs: Seq<IndexFormula>, t: IndexFormula)
    requires
        cross(ls, rs).contains(t),
    ensures
        exists|l: IndexFormula, r: IndexFormula|
            #[trigger] ls.contains(l) && #[trigger] rs.contains(r) && is_op_pair(t, l, r),
    decreases ls.len(),
{
    let s = cross(ls, rs);
    let i = choose|i: int| 0 <= i < s.len() && s[i] == t;
    if i < cross_right(ls[0], rs).len() {
        assert(cross_right(ls[0], rs).contains(t));
        lemma_cross_right_elem(ls[0], rs, t);
        let r = choose|r: IndexFormula| #[trigger] rs.contains(r) && is_op_pair(t, ls[0], r);
        assert(ls.contains(ls[0]));
    } else {
        assert(cross(ls.drop_first(), rs)[i - cross_right(ls[0], rs).len()] == t);
        assert(cross(ls.drop_first(), rs).contains(t));
        lemma_cross_elem(ls.drop_first(), rs, t);
        let (l, r): (IndexFormula, IndexFormula) = choose|l: IndexFormula, r: IndexFormula|
            #[trigger] ls.drop_first().contains(l) && #[trigger] rs.contains(r) && is_op_pair(t, l, r);
        let k = choose|k: int| 0 <= k < ls.drop_first().len() && ls.drop_first()[k] == l;
        assert(ls[k + 1] == l);
        assert(ls.contains(l));
    }
}

proof fn lemma_cross_right_intro(l: IndexFormula, rs: Seq<IndexFormula>, r: IndexFormula, t: IndexFormula)
    requires
        rs.contains(r),
        is_op_pair(t, l, r),
    ensures
        cross_right(l, rs).contains(t),
    decreases rs.len(),
{
    let i = choose|i: int| 0 <= i < rs.len() && rs[i] == r;
    if i == 0 {
        assert(four_ops(l, r).contains(t));
        let j = choose|j: int| 0 <= j < 4 && four_ops(l, r)[j] == t;
        assert(cross_right(l, rs)[j] == t);
    } else {
        assert(rs.drop_first()[i - 1] == r);
        assert(rs.drop_first().contains(r));
        lemma_cross_right_intro(l, rs.drop_first(), r, t);
        let j = choose|j: int|
            0 <= j < cross_right(l, rs.drop_first()).len() && cross_right(l, rs.drop_first())[j] == t;
        assert(cross_right(l, rs)[4 + j] == t);
    }
}

proof fn lemma_cross_intro(ls: Seq<IndexFormula>, rs: Seq<IndexFormula>, l: IndexFormula, r: IndexFormula, t: IndexFormula)
    requires
        ls.contains(l),
        rs.contains(r),
        is_op_pair(t, l, r),
    ensures
        cross(ls, rs).contains(t),
    decreases ls.len(),
{
    let i = choose|i: int| 0 <= i < ls.len() && ls[i] == l;
    if i == 0 {
        lemma_cross_right_intro(l, rs, r, t);
        let j = choose|j: int| 0 <= j < cross_right(l, rs).len() && cross_right(l, rs)[j] == t;
        assert(cross(ls, rs)[j] == t);
    } else {
        assert(ls.drop_first()[i - 1] == l);
        assert(ls.drop_first().contains(l));
        lemma_cross_intro(ls.drop_first(), rs, l, r, t);
        let j = choose|j: int|
            0 <= j < cross(ls.drop_first(), rs).len() && cross(ls.drop_first(), rs)[j] == t;
        assert(cross(ls, rs)[cross_right(ls[0], rs).len() + j] == t);
    }
}

/// Every tree in the shape set for slots `s` has exactly `s` as its leaf
/// sequence, read left to right: no gaps, no repeats, no omissions.
pub proof fn lemma_shape_seq_leaves(s: Seq<usize>, t: IndexFormula)
    requires
        shape_seq(s).contains(t),
    ensures
        leaves(t) == s,
    decreases s.len(), s.len() + 1,
{
    if s.len() == 1 {
        assert(t == Formula::<usize>::Leaf(s[0]));
        assert(leaves(t) =~= s);
    } else if s.len() == 0 {
        assert(false);
    } else {
        lemma_splits_upto_leaves(s, s.len() as int, t);
    }
}

proof fn lemma_splits_upto_leaves(s: Seq<usize>, k: int, t: IndexFormula)
    requires
        s.len() >= 2,
        2 <= k <= s.len(),
        splits_upto(s, k).contains(t),
    ensures
        leaves(t) == s,
    decreases s.len(), k,
{
    let prefix = splits_upto(s, k - 1);
    let ls = shape_seq(s.subrange(0, k - 1));
    let rs = shape_seq(s.subrange(k - 1, s.len() as int));
    let i = choose|i: int| 0 <= i < splits_upto(s, k).len() && splits_upto(s, k)[i] == t;
    if i < prefix.len() {
        assert(prefix.contains(t));
        lemma_splits_upto_leaves(s, k - 1, t);
    } else {
        assert(cross(ls, rs)[i - prefix.len()] == t);
        assert(cross(ls, rs).contains(t));
        lemma_cross_elem(ls, rs, t);
        let (l, r): (IndexFormula, IndexFormula) = choose|l: IndexFormula, r: IndexFormula|
            #[trigger] ls.contains(l) && #[trigger] rs.contains(r) && is_op_pair(t, l, r);
        lemma_shape_seq_leaves(s.subrange(0, k - 1), l);
        lemma_shape_seq_leaves(s.subrange(k - 1, s.len() as int), r);
        assert(leaves(t) == leaves(l) + leaves(r));
        assert(leaves(t) =~= s);
    }
}

proof fn lemma_splits_upto_mono(s: Seq<usize>, k1: int, k2: int, t: IndexFormula)
    requires
        k1 <= k2 <= s.len(),
        splits_upto(s, k1).contains(t),
    ensures
        splits_upto(s, k2).contains(t),
    decreases k2 - k1,
{
    if k1 < k2 {
        if k1 <= 1 || k1 > s.len() {
            assert(false);
        }
        let i = choose|i: int| 0 <= i < splits_upto(s, k1).len() && splits_upto(s, k1)[i] == t;
        assert(splits_upto(s, k1 + 1)[i] == t);
        assert(splits_upto(s, k1 + 1).contains(t));
        lemma_splits_upto_mono(s, k1 + 1, k2, t);
    }
}

/// A left comb over `s`: a witness tree with leaf sequence exactly `s`.
spec fn comb(s: Seq<usize>) -> IndexFormula
    decreases s.len(),
{
    if s.len() <= 1 {
        Formula::Leaf(s[0])
    } else {
        Formula::Add(Box::new(Formula::Leaf(s[0])), Box::new(comb(s.drop_first())))
    }
}

proof fn lemma_comb_leaves(s: Seq<usize>)
    requires
        s.len() >= 1,
    ensures
        leaves(comb(s)) == s,
    decreases s.len(),
{
    if s.len() == 1 {
        assert(leaves(comb(s)) =~= s);
    } else {
        lemma_comb_leaves(s.drop_first());
        assert(comb(s) == Formula::Add(
            Box::new(Formula::<usize>::Leaf(s[0])),
            Box::new(comb(s.drop_first())),
        ));
        assert(leaves(comb(s)) == leaves(Formula::<usize>::Leaf(s[0])) + leaves(
            comb(s.drop_first()),
        ));
        assert(leaves(comb(s)) =~= s);
    }
}

/// Completeness of the enumeration: every tree whose leaves read exactly
/// `s` occurs in the shape set for `s`.
pub proof fn lemma_shape_seq_complete(s: Seq<usize>, t: IndexFormula)
    requires
        leaves(t) == s,
    ensures
        shape_seq(s).contains(t),
    decreases t,
{
    match t {
        Formula::Leaf(i) => {
            assert(s =~= seq![i]);
            assert(shape_seq(s)[0] == t);
        },
        Formula::Add(l, r) | Formula::Sub(l, r) | Formula::Mul(l, r) | Formula::Div(l, r) => {
            lemma_leaves_len_pos(*l);
            lemma_leaves_len_pos(*r);
            let k = leaves(*l).len() as int;
            assert(leaves(t) == leaves(*l) + leaves(*r));
            assert(1 <= k <= s.len() - 1);
            assert(leaves(*l) =~= s.subrange(0, k));
            assert(leaves(*r) =~= s.subrange(k, s.len() as int));
            lemma_shape_seq_complete(s.subrange(0, k), *l);
            lemma_shape_seq_complete(s.subrange(k, s.len() as int), *r);
            let ls = shape_seq(s.subrange(0, k));
            let rs = shape_seq(s.subrange(k, s.len() as int));
            assert(is_op_pair(t, *l, *r));
            lemma_cross_intro(ls, rs, *l, *r, t);
            let j = choose|j: int| 0 <= j < cross(ls, rs).len() && cross(ls, rs)[j] == t;
            assert(splits_upto(s, k + 1)[splits_upto(s, k).len() + j] == t);
            assert(splits_upto(s, k + 1).contains(t));
            lemma_splits_upto_mono(s, k + 1, s.len() as int, t);
        },
    }
}

/// The shape set for a nonempty slot sequence is nonempty.
pub proof fn lemma_shape_seq_nonempty(s: Seq<usize>)
    requires
        s.len() >= 1,
    ensures
        shape_seq(s).len() >= 1,
{
    lemma_comb_leaves(s);
    lemma_shape_seq_complete(s, comb(s));
}

/// For every supported arity the cached shape set is nonempty, and any two
/// results the cache hands out for the same arity are structurally equal:
/// both read exactly the shape sequence for that arity.
pub proof fn lemma_cache_results_agree(n: int, r1: Seq<IndexFormula>, r2: Seq<IndexFormula>)
    requires
        1 <= n <= MAX_ARITY as int,
        r1 == shape_seq(slot_range(n)),
        r2 == shape_seq(slot_range(n)),
    ensures
        r1 == r2,
        r1.len() >= 1,
{
    lemma_shape_seq_nonempty(slot_range(n));
}

} // verus!
