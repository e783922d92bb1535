use vstd::prelude::*;

use crate::feedback::{feasible, feedback, Evaluation};
use crate::sequence::{all_below, is_code, Guess, MASK_BITS};
use crate::space::{code_at, sequence_at, space_size};

verus! {

/// One round of a game: a guess and the evaluation it received.
#[derive(Debug, Clone)]
pub struct Entry {
    pub guess: Guess,
    pub evaluation: Evaluation,
}

/// `code` would have produced every evaluation recorded in `history`.
pub open spec fn consistent(code: Seq<u32>, history: Seq<Entry>) -> bool {
    forall|i: int|
        0 <= i < history.len() ==> feedback(code, #[trigger] history[i].guess@)
            == history[i].evaluation
}

/// Every recorded guess has `n` fields over the presence-set colors, and
/// every recorded evaluation is feasible for `n` fields.
pub open spec fn history_fits(history: Seq<Entry>, n: nat) -> bool {
    forall|i: int|
        0 <= i < history.len() ==> {
            &&& (#[trigger] history[i]).guess@.len() == n
            &&& all_below(history[i].guess@, MASK_BITS as nat)
            &&& feasible(history[i].evaluation, n)
        }
}

/// The sequences of the vector, each seen as its colors.
pub open spec fn views(v: Seq<Guess>) -> Seq<Seq<u32>> {
    v.map_values(|g: Guess| g@)
}

/// All sequences of length `n` over `k` colors, in enumeration order.
pub open spec fn enumeration(n: nat, k: nat) -> Seq<Seq<u32>> {
    Seq::new(space_size(n, k), |i: int| sequence_at(n, k, i as nat))
}

/// Keeps the codes that agree with `history`.
pub open spec fn agrees_with(history: Seq<Entry>) -> spec_fn(Seq<u32>) -> bool {
    |s: Seq<u32>| s.no_duplicates() && consistent(s, history)
}

/// Keeps the codes.
pub open spec fn distinct_colors() -> spec_fn(Seq<u32>) -> bool {
    |s: Seq<u32>| s.no_duplicates()
}

/// The codes of length `n` over `k` colors that agree with `history`, in
/// enumeration order.
pub open spec fn consistent_codes(n: nat, k: nat, history: Seq<Entry>) -> Seq<Seq<u32>> {
    enumeration(n, k).filter(agrees_with(history))
}

/// The codes that agree with `history`, as a set.
pub open spec fn consistent_set(n: nat, k: nat, history: Seq<Entry>) -> Set<Seq<u32>> {
    Set::new(|s: Seq<u32>| is_code(s, n, k) && consistent(s, history))
}

/// A filter that keeps only codes ignores a stretch of the enumeration that
/// holds none.
pub(crate) proof fn lemma_filter_skips(
    n: nat,
    k: nat,
    pred: spec_fn(Seq<u32>) -> bool,
    p: nat,
    q: nat,
)
    requires
        p <= q <= space_size(n, k),
        forall|s: Seq<u32>| #[trigger] pred(s) ==> s.no_duplicates(),
        forall|j: nat| p <= j < q ==> !#[trigger] code_at(n, k, j),
    ensures
        enumeration(n, k).take(q as int).filter(pred) == enumeration(n, k).take(p as int).filter(
            pred,
        ),
    decreases q - p,
{
    if p < q {
        let e = enumeration(n, k);
        lemma_filter_skips(n, k, pred, p, (q - 1) as nat);
        assert(e.take(q as int) =~= e.take(q - 1).push(e[q - 1]));
        e.take(q - 1).lemma_filter_push(e[q - 1], pred);
        assert(!code_at(n, k, (q - 1) as nat));
    }
}

/// A filter over the enumeration gains the entry at `q` when it keeps it.
pub(crate) proof fn lemma_filter_step(n: nat, k: nat, pred: spec_fn(Seq<u32>) -> bool, q: nat)
    requires
        q < space_size(n, k),
    ensures
        enumeration(n, k).take(q + 1 as int).filter(pred) == if pred(sequence_at(n, k, q)) {
            enumeration(n, k).take(q as int).filter(pred).push(sequence_at(n, k, q))
        } else {
            enumeration(n, k).take(q as int).filter(pred)
        },
{
    let e = enumeration(n, k);
    assert(e.take(q + 1 as int) =~= e.take(q as int).push(e[q as int]));
    e.take(q as int).lemma_filter_push(e[q as int], pred);
}

/// Recording one more round never brings back a code that an earlier round
/// ruled out: the codes consistent with the first `count + 1` entries are
/// among those consistent with the first `count`.
pub proof fn lemma_consistent_monotone(n: nat, k: nat, history: Seq<Entry>, count: int)
    requires
        0 <= count < history.len(),
    ensures
        consistent_set(n, k, history.take(count + 1)).subset_of(
            consistent_set(n, k, history.take(count)),
        ),
        forall|s: Seq<u32>|
            #[trigger] consistent_codes(n, k, history.take(count + 1)).contains(s)
                ==> consistent_codes(n, k, history.take(count)).contains(s),
{
    broadcast use vstd::seq_lib::group_filter_ensures;

    let longer = history.take(count + 1);
    let shorter = history.take(count);
    assert forall|s: Seq<u32>| consistent(s, longer) implies consistent(s, shorter) by {
        assert forall|i: int| 0 <= i < shorter.len() implies feedback(
            s,
            #[trigger] shorter[i].guess@,
        ) == shorter[i].evaluation by {
            assert(shorter[i] == longer[i]);
        }
    }
    let e = enumeration(n, k);
    assert forall|s: Seq<u32>| #[trigger]
        consistent_codes(n, k, longer).contains(s) implies consistent_codes(
        n,
        k,
        shorter,
    ).contains(s) by {
        let f = e.filter(agrees_with(longer));
        let i = choose|i: int| 0 <= i < f.len() && f[i] == s;
        assert(agrees_with(longer)(f[i]));
        e.lemma_filter_contains_rev(agrees_with(longer), s);
        let j = choose|j: int| 0 <= j < e.len() && e[j] == s;
        assert(agrees_with(shorter)(e[j]));
    }
}

} // verus!
