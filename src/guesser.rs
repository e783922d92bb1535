use vstd::prelude::*;

use rayon::iter::{IntoParallelRefIterator, ParallelIterator};

use crate::feedback::{evaluate, feedback, rank, triangular};
use crate::history::{
    agrees_with, consistent, consistent_codes, distinct_colors, enumeration, history_fits,
    lemma_filter_skips, lemma_filter_step, views, Entry,
};
use crate::sequence::{all_below, Guess, MASK_BITS};
use crate::space::{lemma_enumeration_bijective, space_size, CodeIterator, GuessIterator};

verus! {

/// Which sequences the guesser considers as its next guess.
#[derive(Clone, Copy, PartialEq, Eq, Debug, Structural)]
pub enum Universe {
    /// Every sequence, colors may repeat: slower, and discriminates better.
    AllSequences,
    /// Only codes, whose colors are pairwise distinct.
    ValidCodes,
}

/// The candidate guesses of a universe, in enumeration order.
pub open spec fn candidates(universe: Universe, n: nat, k: nat) -> Seq<Seq<u32>> {
    match universe {
        Universe::AllSequences => enumeration(n, k),
        Universe::ValidCodes => enumeration(n, k).filter(distinct_colors()),
    }
}

/// The guesser: it holds its configuration and nothing of a game, which is
/// handed to it whole at every call.
#[derive(Clone, Copy, Debug)]
pub struct SimpleGuesser {
    pub fields: usize,
    pub colors: u32,
    pub universe: Universe,
}

/// Number of `codes` whose evaluation of `guess` ranks at `bucket`.
pub open spec fn bucket_size(codes: Seq<Seq<u32>>, guess: Seq<u32>, n: nat, bucket: int) -> nat
    decreases codes.len(),
{
    if codes.len() == 0 {
        0
    } else {
        bucket_size(codes.drop_last(), guess, n, bucket) + if rank(
            feedback(codes.last(), guess),
            n,
        ) == bucket {
            1nat
        } else {
            0nat
        }
    }
}

/// `counts` holds, for every rank of an evaluation with `n` fields, how
/// many of `codes` evaluate `guess` to it.
pub open spec fn is_partition(
    counts: Seq<usize>,
    codes: Seq<Seq<u32>>,
    guess: Seq<u32>,
    n: nat,
) -> bool {
    &&& counts.len() == triangular(n)
    &&& forall|b: int|
        0 <= b < counts.len() ==> #[trigger] counts[b] == bucket_size(codes, guess, n, b)
}

/// The largest of the first `upto` buckets of the partition of `codes` by
/// `guess`.
pub open spec fn largest_bucket(codes: Seq<Seq<u32>>, guess: Seq<u32>, n: nat, upto: int) -> nat
    decreases upto,
{
    if upto <= 0 {
        0
    } else {
        let rest = largest_bucket(codes, guess, n, upto - 1);
        let last = bucket_size(codes, guess, n, upto - 1);
        if last > rest {
            last
        } else {
            rest
        }
    }
}

/// How many codes a guess leaves in the worst case: its largest bucket.
pub open spec fn worst_case(codes: Seq<Seq<u32>>, guess: Seq<u32>, n: nat) -> nat {
    largest_bucket(codes, guess, n, triangular(n) as int)
}

/// `i` is the first of `cands` whose worst case is smallest.
pub open spec fn first_best(cands: Seq<Seq<u32>>, codes: Seq<Seq<u32>>, n: nat, i: int) -> bool {
    &&& 0 <= i < cands.len()
    &&& forall|j: int|
        0 <= j < cands.len() ==> worst_case(codes, cands[i], n) <= #[trigger] worst_case(
            codes,
            cands[j],
            n,
        )
    &&& forall|j: int|
        0 <= j < i ==> worst_case(codes, cands[i], n) < #[trigger] worst_case(codes, cands[j], n)
}

/// `g` and `score` are what the worst-case choice makes among `cands`: the
/// first candidate of smallest worst case and that size, or the first code
/// when that size is 1.
pub open spec fn minimax_pick(
    cands: Seq<Seq<u32>>,
    codes: Seq<Seq<u32>>,
    n: nat,
    g: Seq<u32>,
    score: nat,
) -> bool {
    exists|i: int|
        #[trigger] first_best(cands, codes, n, i) && score == worst_case(codes, cands[i], n) && g
            == if score == 1 {
            codes[0]
        } else {
            cands[i]
        }
}

/// Every sequence of `v` has `n` fields over the presence-set colors.
pub open spec fn fit(v: Seq<Guess>, n: nat) -> bool {
    forall|i: int|
        0 <= i < v.len() ==> (#[trigger] v[i])@.len() == n && all_below(v[i]@, MASK_BITS as nat)
}

/// Counts, for each rank of evaluation, the codes that evaluate `guess` to
/// it.
pub fn partition_counts(codes: &Vec<Guess>, guess: &Guess, fields: usize) -> (r: Vec<usize>)
    requires
        triangular(fields as nat) <= u32::MAX,
        fit(codes@, fields as nat),
        guess@.len() == fields,
        all_below(guess@, MASK_BITS as nat),
    ensures
        is_partition(r@, views(codes@), guess@, fields as nat),
{
    let ghost n = fields as nat;
    let ghost all = views(codes@);
    proof {
        lemma_fields_fit(n);
    }
    let size = max_gauss_u32(fields as u32) as usize;
    let mut counts: Vec<usize> = Vec::new();
    let mut b: usize = 0;
    while b < size
        invariant
            b <= size,
            counts@.len() == b,
            forall|j: int| 0 <= j < b ==> #[trigger] counts@[j] == 0,
        decreases size - b,
    {
        counts.push(0);
        b = b + 1;
    }
    let mut i: usize = 0;
    while i < codes.len()
        invariant
            n == fields,
            fields <= u32::MAX,
            size == triangular(n),
            triangular(n) <= u32::MAX,
            all == views(codes@),
            fit(codes@, n),
            guess@.len() == n,
            all_below(guess@, MASK_BITS as nat),
            i <= codes@.len(),
            counts@.len() == size,
            forall|j: int|
                0 <= j < size ==> #[trigger] counts@[j] == bucket_size(
                    all.take(i as int),
                    guess@,
                    n,
                    j,
                ),
            forall|j: int| 0 <= j < size ==> #[trigger] counts@[j] <= i,
        decreases codes@.len() - i,
    {
        let code = &codes[i];
        assert(code@.len() == n);
        let e = evaluate(code, guess);
        let idx = e.to_u32(fields as u32) as usize;
        proof {
            let pre = all.take(i as int);
            let post = all.take(i + 1);
            assert(post.drop_last() =~= pre);
            assert(post.last() == code@);
        }
        let bumped = counts[idx] + 1;
        counts.set(idx, bumped);
        i = i + 1;
    }
    assert(all.take(codes@.len() as int) =~= all);
    counts
}

fn max_gauss_u32(i: u32) -> (r: u32)
    requires
        triangular(i as nat) <= u32::MAX,
    ensures
        r == triangular(i as nat),
{
    assert((i + 2) * (i + 1) <= 2 * u32::MAX + 1);
    assert(i + 2 <= (i + 2) * (i + 1)) by (nonlinear_arith);
    ((i as u64 + 2) * (i as u64 + 1) / 2) as u32
}

/// The largest count of a partition.
fn largest(
    counts: &Vec<usize>,
    codes: Ghost<Seq<Seq<u32>>>,
    guess: Ghost<Seq<u32>>,
    fields: Ghost<nat>,
) -> (r: usize)
    requires
        is_partition(counts@, codes@, guess@, fields@),
    ensures
        r == worst_case(codes@, guess@, fields@),
{
    let mut m: usize = 0;
    let mut b: usize = 0;
    while b < counts.len()
        invariant
            is_partition(counts@, codes@, guess@, fields@),
            b <= counts@.len(),
            m == largest_bucket(codes@, guess@, fields@, b as int),
        decreases counts@.len() - b,
    {
        if counts[b] > m {
            m = counts[b];
        }
        b = b + 1;
    }
    m
}

/// Relies on rayon's `par_iter().map(..).collect()` over a slice: each
/// candidate is mapped on its own, and the indexed collect keeps every result
/// at its candidate's position.
#[verifier::external_body]
fn partition_all(codes: &Vec<Guess>, guesses: &Vec<Guess>, fields: usize) -> (r: Vec<Vec<usize>>)
    requires
        triangular(fields as nat) <= u32::MAX,
        fit(codes@, fields as nat),
        fit(guesses@, fields as nat),
    ensures
        r@.len() == guesses@.len(),
        forall|i: int|
            0 <= i < r@.len() ==> is_partition(
                #[trigger] r@[i]@,
                views(codes@),
                guesses@[i]@,
                fields as nat,
            ),
{
    guesses.par_iter().map(|guess| partition_counts(codes, guess, fields)).collect()
}

impl SimpleGuesser {
    /// The configuration is usable: colors fit a presence set and the
    /// evaluations of `fields` fields can be ranked in a `u32`.
    pub open spec fn wf(&self) -> bool {
        &&& self.colors <= MASK_BITS
        &&& triangular(self.fields as nat) <= u32::MAX
    }

    /// Whether `current_guess` would have produced every evaluation of
    /// `history`.
    pub fn code_is_valid(&self, history: &[Entry], current_guess: &Guess) -> (r: bool)
        requires
            self.wf(),
            history_fits(history@, self.fields as nat),
            current_guess@.len() == self.fields,
            all_below(current_guess@, MASK_BITS as nat),
        ensures
            r == consistent(current_guess@, history@),
    {
        proof {
            lemma_fields_fit(self.fields as nat);
        }
        let mut i: usize = 0;
        while i < history.len()
            invariant
                self.wf(),
                self.fields <= u32::MAX,
                history_fits(history@, self.fields as nat),
                current_guess@.len() == self.fields,
                all_below(current_guess@, MASK_BITS as nat),
                i <= history@.len(),
                forall|j: int|
                    0 <= j < i ==> feedback(current_guess@, #[trigger] history@[j].guess@)
                        == history@[j].evaluation,
            decreases history@.len() - i,
        {
            let entry = &history[i];
            assert(history@[i as int].guess@.len() == self.fields);
            if evaluate(current_guess, &entry.guess) != entry.evaluation {
                return false;
            }
            i = i + 1;
        }
        true
    }

    /// The codes that agree with every entry of `history`, in enumeration
    /// order. An empty result means the history contradicts itself.
    pub fn generate_valid_codes(&self, history: &[Entry]) -> (r: Vec<Guess>)
        requires
            self.wf(),
            history_fits(history@, self.fields as nat),
        ensures
            views(r@) == consistent_codes(self.fields as nat, self.colors as nat, history@),
    {
        let ghost n = self.fields as nat;
        let ghost k = self.colors as nat;
        let ghost pred = agrees_with(history@);
        let mut valid_codes: Vec<Guess> = Vec::new();
        let mut codes = CodeIterator::new(self.fields, self.colors);
        loop
            invariant
                self.wf(),
                n == self.fields,
                k == self.colors,
                pred == agrees_with(history@),
                history_fits(history@, n),
                codes.wf(),
                codes.fields() == n,
                codes.colors() == k,
                codes.position() <= space_size(n, k),
                views(valid_codes@) == enumeration(n, k).take(codes.position() as int).filter(pred),
            decreases space_size(n, k) - codes.position(),
        {
            let ghost before = codes.position();
            match codes.next() {
                None => {
                    proof {
                        if before < codes.position() {
                            lemma_filter_skips(n, k, pred, before, (codes.position() - 1) as nat);
                            lemma_filter_step(n, k, pred, (codes.position() - 1) as nat);
                        }
                        assert(enumeration(n, k).take(space_size(n, k) as int) =~= enumeration(
                            n,
                            k,
                        ));
                    }
                    return valid_codes;
                },
                Some(code) => {
                    let ghost q = (codes.position() - 1) as nat;
                    proof {
                        lemma_filter_skips(n, k, pred, before, q);
                        lemma_filter_step(n, k, pred, q);
                        lemma_enumeration_bijective(n, k);
                        assert(crate::sequence::is_sequence(code@, n, k));
                    }
                    if self.code_is_valid(history, &code) {
                        proof {
                            assert(views(valid_codes@.push(code)) =~= views(valid_codes@).push(
                                code@,
                            ));
                        }
                        valid_codes.push(code);
                    }
                },
            }
        }
    }

    /// Picks the next guess by its worst case: the candidate whose largest
    /// bucket, over the codes that agree with `history`, is smallest (the
    /// first such candidate), along with that size. When that size is 1 it
    /// returns the first agreeing code instead, which settles the game. It
    /// returns `None` exactly when no code agrees with `history`.
    pub fn minimax_guess(&self, history: &[Entry]) -> (r: Option<(Guess, usize)>)
        requires
            self.wf(),
            history_fits(history@, self.fields as nat),
        ensures
            r is None <==> consistent_codes(self.fields as nat, self.colors as nat, history@).len()
                == 0,
            r matches Some((g, score)) ==> minimax_pick(
                candidates(self.universe, self.fields as nat, self.colors as nat),
                consistent_codes(self.fields as nat, self.colors as nat, history@),
                self.fields as nat,
                g@,
                score as nat,
            ),
    {
        broadcast use vstd::seq_lib::group_filter_ensures;

        let ghost n = self.fields as nat;
        let ghost k = self.colors as nat;
        let codes = self.generate_valid_codes(history);
        if codes.len() == 0 {
            return None;
        }
        let guesses = self.candidate_guesses();
        let ghost all = views(codes@);
        let ghost cands = views(guesses@);
        proof {
            let e = enumeration(n, k);
            assert forall|i: int| 0 <= i < codes@.len() implies e.contains(
                #[trigger] views(codes@)[i],
            ) by {
                assert(e.filter(agrees_with(history@)).contains(all[i]));
                e.lemma_filter_contains_rev(agrees_with(history@), all[i]);
            }
            lemma_drawn_fit(codes@, n, k);
            assert forall|i: int| 0 <= i < guesses@.len() implies e.contains(
                #[trigger] views(guesses@)[i],
            ) by {
                if self.universe == Universe::ValidCodes {
                    assert(e.filter(distinct_colors()).contains(cands[i]));
                    e.lemma_filter_contains_rev(distinct_colors(), cands[i]);
                } else {
                    assert(e[i] == cands[i]);
                }
            }
            lemma_drawn_fit(guesses@, n, k);
            assert(agrees_with(history@)(all[0]));
            e.lemma_filter_contains_rev(agrees_with(history@), all[0]);
            let j = choose|j: int| 0 <= j < e.len() && e[j] == all[0];
            if self.universe == Universe::ValidCodes {
                assert(distinct_colors()(e[j]));
                assert(e.filter(distinct_colors()).contains(e[j]));
            }
            assert(cands.len() > 0);
        }
        let table = self.partition_table(&codes, &guesses);
        let mut best: usize = 0;
        let mut best_score = largest(&table[0], Ghost(all), Ghost(cands[0]), Ghost(n));
        let mut i: usize = 1;
        while i < guesses.len()
            invariant
                n == self.fields,
                all == views(codes@),
                cands == views(guesses@),
                table@.len() == guesses@.len(),
                forall|t: int|
                    0 <= t < table@.len() ==> is_partition(#[trigger] table@[t]@, all, cands[t], n),
                0 <= best < i <= guesses@.len(),
                best_score == worst_case(all, cands[best as int], n),
                forall|j: int| 0 <= j < i ==> best_score <= #[trigger] worst_case(all, cands[j], n),
                forall|j: int|
                    0 <= j < best ==> best_score < #[trigger] worst_case(all, cands[j], n),
            decreases guesses@.len() - i,
        {
            assert(guesses@[i as int]@ == cands[i as int]);
            let score = largest(&table[i], Ghost(all), Ghost(cands[i as int]), Ghost(n));
            if score < best_score {
                best = i;
                best_score = score;
            }
            i = i + 1;
        }
        assert(first_best(cands, all, n, best as int));
        if best_score == 1 {
            assert(codes@[0]@ == all[0]);
            Some((codes[0].duplicate(), best_score))
        } else {
            assert(guesses@[best as int]@ == cands[best as int]);
            Some((guesses[best].duplicate(), best_score))
        }
    }

    /// The partition of `codes` by each of `guesses`, computed for all
    /// guesses in parallel: row `i` counts, for every rank of evaluation,
    /// the codes that evaluate `guesses[i]` to it.
    pub fn partition_table(&self, codes: &Vec<Guess>, guesses: &Vec<Guess>) -> (r: Vec<Vec<usize>>)
        requires
            self.wf(),
            fit(codes@, self.fields as nat),
            fit(guesses@, self.fields as nat),
        ensures
            r@.len() == guesses@.len(),
            forall|i: int|
                0 <= i < r@.len() ==> is_partition(
                    #[trigger] r@[i]@,
                    views(codes@),
                    guesses@[i]@,
                    self.fields as nat,
                ),
    {
        partition_all(codes, guesses, self.fields)
    }

    /// The candidate guesses of the configured universe, in enumeration
    /// order.
    pub fn candidate_guesses(&self) -> (r: Vec<Guess>)
        requires
            self.wf(),
        ensures
            views(r@) == candidates(self.universe, self.fields as nat, self.colors as nat),
    {
        match self.universe {
            Universe::AllSequences => all_sequences(self.fields, self.colors),
            Universe::ValidCodes => all_codes(self.fields, self.colors),
        }
    }
}

proof fn lemma_drawn_fit(v: Seq<Guess>, n: nat, k: nat)
    requires
        k <= MASK_BITS,
        forall|i: int| 0 <= i < v.len() ==> enumeration(n, k).contains(#[trigger] views(v)[i]),
    ensures
        fit(v, n),
{
    lemma_enumeration_bijective(n, k);
    assert forall|i: int| 0 <= i < v.len() implies (#[trigger] v[i])@.len() == n && all_below(
        v[i]@,
        MASK_BITS as nat,
    ) by {
        assert(views(v)[i] == v[i]@);
        assert(enumeration(n, k).contains(views(v)[i]));
        let j = choose|j: int| 0 <= j < enumeration(n, k).len() && enumeration(n, k)[j] == v[i]@;
        assert(crate::sequence::is_sequence(crate::space::sequence_at(n, k, j as nat), n, k));
    }
}

proof fn lemma_fields_fit(n: nat)
    requires
        triangular(n) <= u32::MAX,
    ensures
        n <= u32::MAX,
{
    assert((n + 2) * (n + 1) >= 2 * (n + 1)) by (nonlinear_arith);
}

/// Every sequence of length `fields` over `colors` colors, in enumeration
/// order.
pub fn all_sequences(fields: usize, colors: u32) -> (r: Vec<Guess>)
    ensures
        views(r@) == enumeration(fields as nat, colors as nat),
{
    let ghost n = fields as nat;
    let ghost k = colors as nat;
    let mut out: Vec<Guess> = Vec::new();
    let mut space = GuessIterator::new(fields, colors);
    loop
        invariant
            n == fields,
            k == colors,
            space.wf(),
            space.fields() == n,
            space.colors() == k,
            space.position() <= space_size(n, k),
            views(out@) == enumeration(n, k).take(space.position() as int),
        decreases space_size(n, k) - space.position(),
    {
        match space.next() {
            None => {
                assert(enumeration(n, k).take(space_size(n, k) as int) =~= enumeration(n, k));
                return out;
            },
            Some(g) => {
                proof {
                    assert(views(out@.push(g)) =~= views(out@).push(g@));
                    assert(enumeration(n, k).take(space.position() as int) =~= enumeration(
                        n,
                        k,
                    ).take(space.position() - 1).push(g@));
                }
                out.push(g);
            },
        }
    }
}

/// Every code of length `fields` over `colors` colors, in enumeration order.
pub fn all_codes(fields: usize, colors: u32) -> (r: Vec<Guess>)
    requires
        colors <= MASK_BITS,
    ensures
        views(r@) == enumeration(fields as nat, colors as nat).filter(distinct_colors()),
{
    let ghost n = fields as nat;
    let ghost k = colors as nat;
    let ghost pred = distinct_colors();
    let mut out: Vec<Guess> = Vec::new();
    let mut codes = CodeIterator::new(fields, colors);
    loop
        invariant
            n == fields,
            k == colors,
            pred == distinct_colors(),
            codes.wf(),
            codes.fields() == n,
            codes.colors() == k,
            codes.position() <= space_size(n, k),
            views(out@) == enumeration(n, k).take(codes.position() as int).filter(pred),
        decreases space_size(n, k) - codes.position(),
    {
        let ghost before = codes.position();
        match codes.next() {
            None => {
                proof {
                    if before < codes.position() {
                        lemma_filter_skips(n, k, pred, before, (codes.position() - 1) as nat);
                        lemma_filter_step(n, k, pred, (codes.position() - 1) as nat);
                    }
                    assert(enumeration(n, k).take(space_size(n, k) as int) =~= enumeration(n, k));
                }
                return out;
            },
            Some(code) => {
                proof {
                    let q = (codes.position() - 1) as nat;
                    lemma_filter_skips(n, k, pred, before, q);
                    lemma_filter_step(n, k, pred, q);
                    assert(views(out@.push(code)) =~= views(out@).push(code@));
                }
                out.push(code);
            },
        }
    }
}

/// A baseline guesser: it always guesses the all-zero sequence and ignores
/// the history.
#[derive(Clone, Copy, Debug)]
pub struct DummyGuesser {
    pub fields: usize,
}

impl DummyGuesser {
    /// The all-zero sequence of the configured length, whatever `history`
    /// holds.
    pub fn guess(&self, history: &[Entry]) -> (r: Guess)
        ensures
            r@ == Seq::new(self.fields as nat, |i: int| 0u32),
    {
        Guess::zeros(self.fields)
    }
}

} // verus!
