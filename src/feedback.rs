use vstd::prelude::*;

use crate::sequence::{
    all_below, lemma_mask_empty, lemma_mask_insert, mask_has, ColorBitmask, Guess, MASK_BITS,
};

verus! {

/// The score of a guess against a code: colors that occur in the code at
/// another position, and positions that match exactly.
#[derive(Clone, Copy, PartialEq, Eq, Debug, Structural)]
pub struct Evaluation {
    pub correct_color: u32,
    pub exact: u32,
}

/// Number of positions below `n` where `code` and `guess` agree.
pub open spec fn exact_matches(code: Seq<u32>, guess: Seq<u32>, n: int) -> nat
    decreases n,
{
    if n <= 0 {
        0
    } else {
        exact_matches(code, guess, n - 1) + if code[n - 1] == guess[n - 1] {
            1nat
        } else {
            0nat
        }
    }
}

/// Number of positions below `n` where `guess` differs from `code` but holds
/// a color that occurs somewhere in `code`. A color repeated in the guess is
/// credited at each of its positions.
pub open spec fn color_matches(code: Seq<u32>, guess: Seq<u32>, n: int) -> nat
    decreases n,
{
    if n <= 0 {
        0
    } else {
        color_matches(code, guess, n - 1) + if code[n - 1] != guess[n - 1] && code.contains(
            guess[n - 1],
        ) {
            1nat
        } else {
            0nat
        }
    }
}

/// The evaluation that `guess` receives against `code`.
pub open spec fn feedback(code: Seq<u32>, guess: Seq<u32>) -> Evaluation {
    Evaluation {
        correct_color: color_matches(code, guess, guess.len() as int) as u32,
        exact: exact_matches(code, guess, guess.len() as int) as u32,
    }
}

/// A pair that some code of length `n` can produce.
pub open spec fn feasible(e: Evaluation, n: nat) -> bool {
    e.correct_color + e.exact <= n
}

proof fn lemma_matches_bound(code: Seq<u32>, guess: Seq<u32>, n: int)
    requires
        0 <= n,
    ensures
        exact_matches(code, guess, n) + color_matches(code, guess, n) <= n,
    decreases n,
{
    if n > 0 {
        lemma_matches_bound(code, guess, n - 1);
    }
}

/// Scores `guess` against `code`: a position counts as exact when both hold
/// the same color, and otherwise as a color match when the guess's color is
/// present in the code. The code is expected to hold distinct colors; a
/// guess that repeats a color of the code is credited once per position.
pub fn evaluate(code: &Guess, guess: &Guess) -> (r: Evaluation)
    requires
        code@.len() == guess@.len(),
        guess@.len() <= u32::MAX,
        all_below(code@, MASK_BITS as nat),
        all_below(guess@, MASK_BITS as nat),
    ensures
        r.exact == exact_matches(code@, guess@, guess@.len() as int),
        r.correct_color == color_matches(code@, guess@, guess@.len() as int),
        r == feedback(code@, guess@),
        feasible(r, guess@.len()),
{
    let n = code.0.len();
    let mut colors: ColorBitmask = 0;
    let mut i: usize = 0;
    proof {
        assert forall|c: u32| c < 32 implies !#[trigger] mask_has(colors, c) by {
            lemma_mask_empty(c);
        }
    }
    while i < n
        invariant
            n == code@.len(),
            i <= n,
            all_below(code@, 32),
            forall|c: u32|
                c < 32 ==> (#[trigger] mask_has(colors, c) <==> code@.subrange(
                    0,
                    i as int,
                ).contains(c)),
        decreases n - i,
    {
        let color = code.0[i];
        proof {
            let pre = code@.subrange(0, i as int);
            let post = code@.subrange(0, i + 1);
            assert(post =~= pre.push(color));
            assert forall|c: u32| c < 32 implies (#[trigger] mask_has(
                colors | (1u32 << color),
                c,
            ) <==> post.contains(c)) by {
                lemma_mask_insert(colors, color, c);
                if pre.contains(c) {
                    let j = choose|j: int| 0 <= j < pre.len() && pre[j] == c;
                    assert(post[j] == c);
                }
                if post.contains(c) && c != color {
                    let j = choose|j: int| 0 <= j < post.len() && post[j] == c;
                    assert(pre[j] == c);
                }
                if c == color {
                    assert(post[i as int] == c);
                }
            }
        }
        colors = colors | (1u32 << color);
        i = i + 1;
    }
    assert(code@.subrange(0, n as int) =~= code@);
    let mut exact: u32 = 0;
    let mut correct_color: u32 = 0;
    let mut i: usize = 0;
    while i < n
        invariant
            n == code@.len(),
            n == guess@.len(),
            n <= u32::MAX,
            i <= n,
            all_below(guess@, 32),
            forall|c: u32| c < 32 ==> (#[trigger] mask_has(colors, c) <==> code@.contains(c)),
            exact == exact_matches(code@, guess@, i as int),
            correct_color == color_matches(code@, guess@, i as int),
        decreases n - i,
    {
        proof {
            lemma_matches_bound(code@, guess@, i as int);
        }
        let color = guess.0[i];
        if code.0[i] == color {
            exact = exact + 1;
        } else if colors & (1u32 << color) != 0 {
            assert(mask_has(colors, color));
            correct_color = correct_color + 1;
        } else {
            assert(!mask_has(colors, color));
        }
        i = i + 1;
    }
    proof {
        lemma_matches_bound(code@, guess@, n as int);
    }
    Evaluation { correct_color, exact }
}


/// Positions below `n` where `code` and `guess` agree.
pub open spec fn agreeing_positions(code: Seq<u32>, guess: Seq<u32>, n: int) -> Set<int> {
    Set::new(|i: int| 0 <= i < n && code[i] == guess[i])
}

/// The exact count of an evaluation is the number of positions at which code
/// and guess hold the same color.
pub proof fn lemma_exact_counts_agreement(code: Seq<u32>, guess: Seq<u32>)
    requires
        code.len() == guess.len(),
    ensures
        agreeing_positions(code, guess, guess.len() as int).finite(),
        exact_matches(code, guess, guess.len() as int) == agreeing_positions(
            code,
            guess,
            guess.len() as int,
        ).len(),
{
    lemma_agreement_prefix(code, guess, guess.len() as int);
}

proof fn lemma_agreement_prefix(code: Seq<u32>, guess: Seq<u32>, n: int)
    requires
        0 <= n,
    ensures
        agreeing_positions(code, guess, n).finite(),
        exact_matches(code, guess, n) == agreeing_positions(code, guess, n).len(),
    decreases n,
{
    if n == 0 {
        assert(agreeing_positions(code, guess, n) =~= Set::empty());
    } else {
        lemma_agreement_prefix(code, guess, n - 1);
        let prev = agreeing_positions(code, guess, n - 1);
        if code[n - 1] == guess[n - 1] {
            assert(agreeing_positions(code, guess, n) =~= prev.insert(n - 1));
        } else {
            assert(agreeing_positions(code, guess, n) =~= prev);
        }
    }
}

/// A sequence scored against itself matches exactly at every position and
/// has no further color matches.
pub proof fn lemma_self_evaluation(code: Seq<u32>)
    ensures
        exact_matches(code, code, code.len() as int) == code.len(),
        color_matches(code, code, code.len() as int) == 0,
{
    lemma_self_prefix(code, code.len() as int);
}

proof fn lemma_self_prefix(code: Seq<u32>, n: int)
    requires
        0 <= n,
    ensures
        exact_matches(code, code, n) == n,
        color_matches(code, code, n) == 0,
    decreases n,
{
    if n > 0 {
        lemma_self_prefix(code, n - 1);
    }
}

/// `(i + 2)(i + 1) / 2`: the number of feasible evaluations for `i` fields.
pub open spec fn triangular(i: nat) -> nat {
    ((i + 2) * (i + 1) / 2) as nat
}

proof fn lemma_triangular_step(i: nat)
    ensures
        triangular(i + 1) == triangular(i) + i + 2,
        triangular(i) >= i + 1,
{
    assert((i + 3) * (i + 2) == (i + 2) * (i + 1) + 2 * (i + 2)) by (nonlinear_arith);
    assert((i + 2) * (i + 1) >= 2 * (i + 1)) by (nonlinear_arith);
}

proof fn lemma_triangular_monotone(a: nat, b: nat)
    requires
        a <= b,
    ensures
        triangular(a) <= triangular(b),
    decreases b - a,
{
    if a < b {
        lemma_triangular_step(a);
        lemma_triangular_monotone((a + 1) as nat, b);
    }
}

/// The index of a feasible evaluation among the `triangular(n)` ones. The
/// evaluations are grouped by exact count, each group a contiguous block of
/// `n - exact + 1` indices ordered by color count; the blocks go by
/// increasing exact count, so the all-exact evaluation takes the last index.
pub open spec fn rank(e: Evaluation, n: nat) -> int {
    triangular(n) + e.correct_color - triangular((n - e.exact) as nat)
}

proof fn lemma_rank_range(e: Evaluation, n: nat)
    requires
        feasible(e, n),
    ensures
        0 <= rank(e, n) < triangular(n),
{
    let m = (n - e.exact) as nat;
    lemma_triangular_monotone(m, n);
    lemma_triangular_step(m);
}

proof fn lemma_rank_separates(e1: Evaluation, e2: Evaluation, n: nat)
    requires
        feasible(e1, n),
        feasible(e2, n),
        e1.exact < e2.exact,
    ensures
        rank(e1, n) < rank(e2, n),
{
    let m1 = (n - e1.exact - 1) as nat;
    let m2 = (n - e2.exact) as nat;
    lemma_triangular_step(m1);
    lemma_triangular_monotone(m2, m1);
}

/// Some feasible evaluation ranks at `idx`.
pub open spec fn rank_reached(idx: int, n: nat) -> bool {
    exists|e: Evaluation| feasible(e, n) && rank(e, n) == idx
}

proof fn lemma_rank_onto(n: nat, idx: int)
    requires
        n <= u32::MAX,
        0 <= idx < triangular(n),
    ensures
        rank_reached(idx, n),
    decreases n,
{
    if idx <= n {
        let e = Evaluation { correct_color: idx as u32, exact: 0 };
        assert(rank(e, n) == idx);
    } else {
        let m = (n - 1) as nat;
        lemma_triangular_step(m);
        lemma_rank_onto(m, idx - n - 1);
        let e0 = choose|e: Evaluation| feasible(e, m) && rank(e, m) == idx - n - 1;
        let e = Evaluation { correct_color: e0.correct_color, exact: (e0.exact + 1) as u32 };
        assert((n - e.exact) as nat == (m - e0.exact) as nat);
        assert(rank(e, n) == idx);
    }
}

/// For a fixed number of fields, ranking is a bijection from the feasible
/// evaluations onto the indices `[0, triangular(n))`: every feasible
/// evaluation lands in range, distinct ones land on distinct indices, and
/// every index is reached.
pub proof fn lemma_rank_bijective(n: nat)
    requires
        n <= u32::MAX,
    ensures
        forall|e: Evaluation| feasible(e, n) ==> 0 <= #[trigger] rank(e, n) < triangular(n),
        forall|e1: Evaluation, e2: Evaluation|
            feasible(e1, n) && feasible(e2, n) && #[trigger] rank(e1, n) == #[trigger] rank(
                e2,
                n,
            ) ==> e1 == e2,
        forall|idx: int| 0 <= idx < triangular(n) ==> #[trigger] rank_reached(idx, n),
{
    assert forall|e: Evaluation| feasible(e, n) implies 0 <= #[trigger] rank(e, n) < triangular(
        n,
    ) by {
        lemma_rank_range(e, n);
    }
    assert forall|e1: Evaluation, e2: Evaluation|
        feasible(e1, n) && feasible(e2, n) && #[trigger] rank(e1, n) == #[trigger] rank(
            e2,
            n,
        ) implies e1 == e2 by {
        if e1.exact < e2.exact {
            lemma_rank_separates(e1, e2, n);
        } else if e2.exact < e1.exact {
            lemma_rank_separates(e2, e1, n);
        }
    }
    assert forall|idx: int| 0 <= idx < triangular(n) implies #[trigger] rank_reached(idx, n) by {
        lemma_rank_onto(n, idx);
    }
}

/// `(i + 2)(i + 1) / 2`, the number of feasible evaluations for `i` fields.
pub fn max_gauss(i: usize) -> (r: usize)
    requires
        (i + 2) * (i + 1) <= usize::MAX,
    ensures
        r == triangular(i as nat),
{
    assert(i + 2 <= (i + 2) * (i + 1)) by (nonlinear_arith);
    (i + 2) * (i + 1) / 2
}

fn lut_for_index(i: u32) -> (r: u64)
    requires
        triangular(i as nat) <= u32::MAX,
    ensures
        r == triangular(i as nat),
{
    assert((i + 2) * (i + 1) <= 2 * u32::MAX + 1);
    assert(i + 2 <= (i + 2) * (i + 1)) by (nonlinear_arith);
    (i as u64 + 2) * (i as u64 + 1) / 2
}

impl Evaluation {
    /// The index of this evaluation among the feasible ones for `fields`
    /// fields; see [`rank`].
    pub fn to_u32(&self, fields: u32) -> (r: u32)
        requires
            feasible(*self, fields as nat),
            triangular(fields as nat) <= u32::MAX,
        ensures
            r == rank(*self, fields as nat),
            r < triangular(fields as nat),
    {
        let m = fields - self.exact;
        proof {
            lemma_triangular_monotone(m as nat, fields as nat);
            lemma_rank_range(*self, fields as nat);
        }
        let all = lut_for_index(fields);
        let rest = lut_for_index(m);
        (all + self.correct_color as u64 - rest) as u32
    }
}

} // verus!
