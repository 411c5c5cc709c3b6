//! The neighbor-selection heuristic: consume candidates in descending
//! query-score order and accept a candidate exactly when no already-accepted
//! point is closer to it than it is to the query.

use vstd::prelude::*;

use crate::scored::{distinct_ids, distinct_u32, ScoredPointOffset};
use crate::scorer::{dot_spec, VectorStorage};

verus! {

/// `c` is accepted against the already-selected ids `acc`: every selected
/// point scores against `c` no better than `c` scores against the query.
pub open spec fn sel_good(st: VectorStorage, acc: Seq<u32>, c: ScoredPointOffset) -> bool {
    forall|j: int|
        0 <= j < acc.len() ==> dot_spec(st.vec_at(c.idx as int), st.vec_at(#[trigger] acc[j] as int))
            <= c.score
}

/// The selection: walk the candidates in order, accept each good one until
/// the budget `m` is filled, starting from the already-accepted `acc`.
pub open spec fn select_rec(
    st: VectorStorage,
    cands: Seq<ScoredPointOffset>,
    m: int,
    acc: Seq<u32>,
) -> Seq<u32>
    decreases cands.len(),
{
    if cands.len() == 0 || acc.len() >= m {
        acc
    } else if sel_good(st, acc, cands[0]) {
        select_rec(st, cands.drop_first(), m, acc.push(cands[0].idx))
    } else {
        select_rec(st, cands.drop_first(), m, acc)
    }
}

/// What the heuristic selects from `cands` with budget `m`.
pub open spec fn select_spec(st: VectorStorage, cands: Seq<ScoredPointOffset>, m: int) -> Seq<
    u32,
> {
    select_rec(st, cands, m, Seq::empty())
}

/// Appending one candidate extends the selection by exactly the step the
/// loop takes on it.
pub proof fn lemma_select_rec_push(
    st: VectorStorage,
    s: Seq<ScoredPointOffset>,
    y: ScoredPointOffset,
    m: int,
    acc: Seq<u32>,
)
    ensures
        select_rec(st, s.push(y), m, acc) == (if select_rec(st, s, m, acc).len() >= m {
            select_rec(st, s, m, acc)
        } else if sel_good(st, select_rec(st, s, m, acc), y) {
            select_rec(st, s, m, acc).push(y.idx)
        } else {
            select_rec(st, s, m, acc)
        }),
    decreases s.len(),
{
    if acc.len() >= m {
        assert(select_rec(st, s, m, acc) == acc);
        assert(select_rec(st, s.push(y), m, acc) == acc);
    } else if s.len() == 0 {
        assert(s.push(y)[0] == y);
        assert(s.push(y).drop_first() =~= Seq::<ScoredPointOffset>::empty());
        assert(select_rec(st, s, m, acc) == acc);
        if sel_good(st, acc, y) {
            assert(select_rec(st, s.push(y), m, acc) == select_rec(
                st,
                Seq::<ScoredPointOffset>::empty(),
                m,
                acc.push(y.idx),
            ));
            assert(select_rec(st, Seq::<ScoredPointOffset>::empty(), m, acc.push(y.idx))
                == acc.push(y.idx));
        } else {
            assert(select_rec(st, s.push(y), m, acc) == select_rec(
                st,
                Seq::<ScoredPointOffset>::empty(),
                m,
                acc,
            ));
            assert(select_rec(st, Seq::<ScoredPointOffset>::empty(), m, acc) == acc);
        }
    } else {
        assert(s.push(y)[0] == s[0]);
        assert(s.push(y).drop_first() =~= s.drop_first().push(y));
        if sel_good(st, acc, s[0]) {
            let acc2 = acc.push(s[0].idx);
            lemma_select_rec_push(st, s.drop_first(), y, m, acc2);
            assert(select_rec(st, s, m, acc) == select_rec(st, s.drop_first(), m, acc2));
            assert(select_rec(st, s.push(y), m, acc) == select_rec(
                st,
                s.drop_first().push(y),
                m,
                acc2,
            ));
        } else {
            lemma_select_rec_push(st, s.drop_first(), y, m, acc);
            assert(select_rec(st, s, m, acc) == select_rec(st, s.drop_first(), m, acc));
            assert(select_rec(st, s.push(y), m, acc) == select_rec(
                st,
                s.drop_first().push(y),
                m,
                acc,
            ));
        }
    }
}

/// Structural facts about the selection: the accumulator stays a prefix,
/// the budget is respected, every new id comes from the candidates, and
/// distinct inputs yield a distinct selection.
pub proof fn lemma_select_rec_props(
    st: VectorStorage,
    cands: Seq<ScoredPointOffset>,
    m: int,
    acc: Seq<u32>,
)
    requires
        acc.len() <= m,
    ensures
        ({
            let r = select_rec(st, cands, m, acc);
            &&& r.len() <= m
            &&& r.len() <= acc.len() + cands.len()
            &&& r.len() >= acc.len()
            &&& forall|k: int| 0 <= k < acc.len() ==> r[k] == acc[k]
            &&& forall|k: int|
                acc.len() <= k < r.len() ==> exists|j: int|
                    0 <= j < cands.len() && (#[trigger] cands[j]).idx == #[trigger] r[k]
            &&& (distinct_u32(acc) && distinct_ids(cands) && (forall|i: int, k: int|
                0 <= i < cands.len() && 0 <= k < acc.len() ==> (#[trigger] cands[i]).idx != (
                #[trigger] acc[k])) ==> distinct_u32(r))
        }),
    decreases cands.len(),
{
    if cands.len() == 0 || acc.len() >= m {
    } else {
        let rest = cands.drop_first();
        assert(forall|i: int| 0 <= i < rest.len() ==> rest[i] == cands[i + 1]);
        if sel_good(st, acc, cands[0]) {
            let acc2 = acc.push(cands[0].idx);
            lemma_select_rec_props(st, rest, m, acc2);
            let r = select_rec(st, cands, m, acc);
            assert forall|k: int|
                acc.len() <= k < r.len() implies exists|j: int|
                0 <= j < cands.len() && (#[trigger] cands[j]).idx == #[trigger] r[k] by {
                if k == acc.len() {
                    assert(cands[0].idx == r[k]);
                } else {
                    let j = choose|j: int| 0 <= j < rest.len() && (#[trigger] rest[j]).idx == r[k];
                    assert(cands[j + 1].idx == r[k]);
                }
            }
        } else {
            lemma_select_rec_props(st, rest, m, acc);
            let r = select_rec(st, cands, m, acc);
            assert forall|k: int|
                acc.len() <= k < r.len() implies exists|j: int|
                0 <= j < cands.len() && (#[trigger] cands[j]).idx == #[trigger] r[k] by {
                let j = choose|j: int| 0 <= j < rest.len() && (#[trigger] rest[j]).idx == r[k];
                assert(cands[j + 1].idx == r[k]);
            }
        }
    }
}

/// With at least one candidate and a positive budget, something is always
/// selected: the first candidate faces no already-accepted competition.
pub proof fn lemma_select_nonempty(st: VectorStorage, cands: Seq<ScoredPointOffset>, m: int)
    requires
        cands.len() >= 1,
        m >= 1,
    ensures
        select_spec(st, cands, m).len() >= 1,
{
    assert(sel_good(st, Seq::empty(), cands[0]));
    let acc1 = Seq::<u32>::empty().push(cands[0].idx);
    lemma_select_rec_props(st, cands.drop_first(), m, acc1);
    assert(select_spec(st, cands, m) == select_rec(st, cands.drop_first(), m, acc1));
}

/// Heuristic monotonicity: every candidate left out of the selection was
/// either beaten — some selected point scores against it strictly better
/// than its own query score — or arrived once the budget was already full.
pub proof fn lemma_heuristic_monotonicity(
    st: VectorStorage,
    cands: Seq<ScoredPointOffset>,
    m: int,
    acc: Seq<u32>,
)
    requires
        acc.len() <= m,
    ensures
        ({
            let r = select_rec(st, cands, m, acc);
            forall|i: int|
                0 <= i < cands.len() && !r.contains((#[trigger] cands[i]).idx) ==> r.len() == m
                    || exists|j: int|
                    0 <= j < r.len() && dot_spec(
                        st.vec_at(cands[i].idx as int),
                        st.vec_at(#[trigger] r[j] as int),
                    ) > cands[i].score
        }),
    decreases cands.len(),
{
    let r = select_rec(st, cands, m, acc);
    lemma_select_rec_props(st, cands, m, acc);
    if cands.len() == 0 {
    } else if acc.len() >= m {
        assert(r == acc);
    } else {
        let rest = cands.drop_first();
        assert(forall|i: int| 0 <= i < rest.len() ==> rest[i] == cands[i + 1]);
        let c0 = cands[0];
        if sel_good(st, acc, c0) {
            let acc2 = acc.push(c0.idx);
            lemma_heuristic_monotonicity(st, rest, m, acc2);
            lemma_select_rec_props(st, rest, m, acc2);
            assert forall|i: int|
                0 <= i < cands.len() && !r.contains((#[trigger] cands[i]).idx) implies r.len() == m
                || exists|j: int|
                0 <= j < r.len() && dot_spec(
                    st.vec_at(cands[i].idx as int),
                    st.vec_at(#[trigger] r[j] as int),
                ) > cands[i].score by {
                if i == 0 {
                    assert(r[acc.len() as int] == c0.idx);
                    assert(r.contains(c0.idx));
                } else {
                    assert(rest[i - 1] == cands[i]);
                }
            }
        } else {
            lemma_heuristic_monotonicity(st, rest, m, acc);
            lemma_select_rec_props(st, rest, m, acc);
            assert(!sel_good(st, acc, c0));
            assert forall|i: int|
                0 <= i < cands.len() && !r.contains((#[trigger] cands[i]).idx) implies r.len() == m
                || exists|j: int|
                0 <= j < r.len() && dot_spec(
                    st.vec_at(cands[i].idx as int),
                    st.vec_at(#[trigger] r[j] as int),
                ) > cands[i].score by {
                if i == 0 {
                    let j = choose|j: int|
                        0 <= j < acc.len() && dot_spec(
                            st.vec_at(c0.idx as int),
                            st.vec_at(#[trigger] acc[j] as int),
                        ) > c0.score;
                    assert(r[j] == acc[j]);
                    assert(dot_spec(st.vec_at(c0.idx as int), st.vec_at(r[j] as int)) > c0.score);
                } else {
                    assert(rest[i - 1] == cands[i]);
                }
            }
        }
    }
}

} // verus!
