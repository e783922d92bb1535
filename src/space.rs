use vstd::prelude::*;

use vstd::arithmetic::div_mod::{
    lemma_fundamental_div_mod, lemma_fundamental_div_mod_converse, lemma_mod_pos_bound,
};

use crate::sequence::{all_below, is_sequence, Guess, MASK_BITS};

verus! {

/// `k^n`: the number of sequences of length `n` over `k` colors.
pub open spec fn space_size(n: nat, k: nat) -> nat
    decreases n,
{
    if n == 0 {
        1
    } else {
        k * space_size((n - 1) as nat, k)
    }
}

/// The number that `s` writes in base `k`, position 0 being the least
/// significant digit.
pub open spec fn value(s: Seq<u32>, k: nat) -> nat
    decreases s.len(),
{
    if s.len() == 0 {
        0
    } else {
        s[0] as nat + k * value(s.drop_first(), k)
    }
}

/// The sequence at index `idx` of the enumeration of length-`n` sequences
/// over `k` colors: the base-`k` digits of `idx`, least significant first.
pub open spec fn sequence_at(n: nat, k: nat, idx: nat) -> Seq<u32>
    decreases n,
{
    if n == 0 {
        Seq::empty()
    } else {
        seq![(idx % k) as u32] + sequence_at((n - 1) as nat, k, idx / k)
    }
}

proof fn lemma_value_bound(s: Seq<u32>, k: nat)
    requires
        all_below(s, k),
    ensures
        value(s, k) < space_size(s.len(), k),
    decreases s.len(),
{
    if s.len() > 0 {
        let rest = s.drop_first();
        lemma_value_bound(rest, k);
        let v = value(rest, k);
        let m = space_size(rest.len(), k);
        assert(s[0] + k * v < k * m) by (nonlinear_arith)
            requires
                s[0] < k,
                v < m,
        ;
    }
}

proof fn lemma_value_all_last(s: Seq<u32>, k: nat)
    requires
        forall|i: int| 0 <= i < s.len() ==> s[i] + 1 == k,
    ensures
        value(s, k) + 1 == space_size(s.len(), k),
    decreases s.len(),
{
    if s.len() > 0 {
        let rest = s.drop_first();
        lemma_value_all_last(rest, k);
        let v = value(rest, k);
        assert(s[0] + k * v + 1 == k * (v + 1)) by (nonlinear_arith)
            requires
                s[0] + 1 == k,
        ;
    }
}

proof fn lemma_value_update(s: Seq<u32>, k: nat, i: int, x: u32)
    requires
        0 <= i < s.len(),
    ensures
        value(s.update(i, x), k) + s[i] * space_size(i as nat, k) == value(s, k) + x
            * space_size(i as nat, k),
    decreases s.len(),
{
    let t = s.update(i, x);
    if i == 0 {
        assert(t.drop_first() =~= s.drop_first());
        assert(space_size(0, k) == 1);
        assert(value(t, k) == x + k * value(s.drop_first(), k));
        let one = space_size(i as nat, k);
        assert(s[i] * one == s[i] && x * one == x) by (nonlinear_arith)
            requires
                one == 1,
        ;
    } else {
        assert(t.drop_first() =~= s.drop_first().update(i - 1, x));
        lemma_value_update(s.drop_first(), k, i - 1, x);
        let a = value(s.drop_first(), k);
        let b = value(t.drop_first(), k);
        let p = space_size((i - 1) as nat, k);
        assert(k * b + s[i] * (k * p) == k * a + x * (k * p)) by (nonlinear_arith)
            requires
                b + s[i] * p == a + x * p,
        ;
        assert(space_size(i as nat, k) == k * p);
    }
}

proof fn lemma_sequence_at_value(s: Seq<u32>, k: nat)
    requires
        all_below(s, k),
        k <= u32::MAX,
    ensures
        sequence_at(s.len(), k, value(s, k)) == s,
    decreases s.len(),
{
    if s.len() > 0 {
        let rest = s.drop_first();
        lemma_sequence_at_value(rest, k);
        let v = value(rest, k);
        let x = value(s, k);
        assert(x == v * k + s[0]) by (nonlinear_arith)
            requires
                x == s[0] + k * v,
        ;
        lemma_fundamental_div_mod_converse(x as int, k as int, v as int, s[0] as int);
        assert(sequence_at(s.len(), k, x) =~= s);
    }
}

proof fn lemma_value_sequence_at(n: nat, k: nat, idx: nat)
    requires
        idx < space_size(n, k),
        k <= u32::MAX,
    ensures
        is_sequence(sequence_at(n, k, idx), n, k),
        value(sequence_at(n, k, idx), k) == idx,
    decreases n,
{
    if n > 0 {
        let m = space_size((n - 1) as nat, k);
        assert(k > 0) by (nonlinear_arith)
            requires
                idx < k * m,
        ;
        let q = idx / k;
        let r = idx % k;
        lemma_fundamental_div_mod(idx as int, k as int);
        lemma_mod_pos_bound(idx as int, k as int);
        assert(q < m) by (nonlinear_arith)
            requires
                idx == k * q + r,
                idx < k * m,
                0 <= r,
        ;
        lemma_value_sequence_at((n - 1) as nat, k, q);
        let s = sequence_at(n, k, idx);
        assert(s.drop_first() =~= sequence_at((n - 1) as nat, k, q));
    }
}

/// The enumeration of length-`n` sequences over `k` colors lists every such
/// sequence exactly once: each of its `k^n` entries is such a sequence,
/// distinct indices give distinct sequences, and every such sequence has an
/// index.
pub proof fn lemma_enumeration_bijective(n: nat, k: nat)
    requires
        k <= u32::MAX,
    ensures
        forall|i: nat| i < space_size(n, k) ==> is_sequence(#[trigger] sequence_at(n, k, i), n, k),
        forall|i: nat, j: nat|
            i < space_size(n, k) && j < space_size(n, k) && #[trigger] sequence_at(n, k, i)
                == #[trigger] sequence_at(n, k, j) ==> i == j,
        forall|s: Seq<u32>|
            #[trigger] is_sequence(s, n, k) ==> value(s, k) < space_size(n, k) && sequence_at(
                n,
                k,
                value(s, k),
            ) == s,
{
    assert forall|i: nat| i < space_size(n, k) implies is_sequence(
        #[trigger] sequence_at(n, k, i),
        n,
        k,
    ) by {
        lemma_value_sequence_at(n, k, i);
    }
    assert forall|i: nat, j: nat|
        i < space_size(n, k) && j < space_size(n, k) && #[trigger] sequence_at(n, k, i)
            == #[trigger] sequence_at(n, k, j) implies i == j by {
        lemma_value_sequence_at(n, k, i);
        lemma_value_sequence_at(n, k, j);
    }
    assert forall|s: Seq<u32>| #[trigger] is_sequence(s, n, k) implies value(s, k) < space_size(
        n,
        k,
    ) && sequence_at(n, k, value(s, k)) == s by {
        lemma_value_bound(s, k);
        lemma_sequence_at_value(s, k);
    }
}


/// Lazily enumerates every sequence of a fixed length over `[0, colors)`,
/// in counting order with position 0 varying fastest. Once the last
/// sequence has been handed out it stays exhausted.
pub struct GuessIterator {
    current: Guess,
    colors: u32,
    exhausted: bool,
}

impl GuessIterator {
    /// Length of the sequences enumerated.
    pub closed spec fn fields(&self) -> nat {
        self.current@.len()
    }

    /// Number of colors.
    pub closed spec fn colors(&self) -> nat {
        self.colors as nat
    }

    /// Index of the next sequence to hand out; the size of the space once
    /// exhausted.
    pub closed spec fn position(&self) -> nat {
        if self.exhausted {
            space_size(self.fields(), self.colors())
        } else {
            value(self.current@, self.colors())
        }
    }

    pub closed spec fn wf(&self) -> bool {
        !self.exhausted ==> all_below(self.current@, self.colors as nat)
    }

    /// The position never passes the end of the enumeration.
    pub proof fn lemma_position_bound(&self)
        requires
            self.wf(),
        ensures
            self.position() <= space_size(self.fields(), self.colors()),
    {
        if !self.exhausted {
            lemma_value_bound(self.current@, self.colors());
        }
    }

    /// An enumeration of the sequences of length `fields` over `colors`
    /// colors, from the first.
    pub fn new(fields: usize, colors: u32) -> (r: GuessIterator)
        ensures
            r.wf(),
            r.fields() == fields,
            r.colors() == colors,
            r.position() == 0,
    {
        let current = Guess::zeros(fields);
        proof {
            lemma_zeros_value(current@, colors as nat);
        }
        if colors == 0 && fields > 0 {
            proof {
                assert(space_size(fields as nat, 0) == 0 * space_size((fields - 1) as nat, 0));
            }
            GuessIterator { current, colors, exhausted: true }
        } else {
            GuessIterator { current, colors, exhausted: false }
        }
    }

    /// Hands out the sequence at the current position and moves past it, or
    /// returns `None` once every sequence has been handed out.
    pub fn next(&mut self) -> (r: Option<Guess>)
        requires
            old(self).wf(),
        ensures
            final(self).wf(),
            final(self).fields() == old(self).fields(),
            final(self).colors() == old(self).colors(),
            old(self).position() <= space_size(old(self).fields(), old(self).colors()),
            match r {
                Some(g) => {
                    &&& old(self).position() < space_size(old(self).fields(), old(self).colors())
                    &&& g@ == sequence_at(
                        old(self).fields(),
                        old(self).colors(),
                        old(self).position(),
                    )
                    &&& final(self).position() == old(self).position() + 1
                },
                None => {
                    &&& old(self).position() == space_size(old(self).fields(), old(self).colors())
                    &&& final(self).position() == old(self).position()
                },
            },
    {
        proof {
            self.lemma_position_bound();
        }
        if self.exhausted {
            return None;
        }
        let k = Ghost(self.colors as nat);
        let start = Ghost(self.current@);
        proof {
            lemma_value_bound(start@, k@);
            lemma_sequence_at_value(start@, k@);
        }
        let out = self.current.duplicate();
        let n = self.current.0.len();
        let mut i: usize = 0;
        while i < n && self.current.0[i] + 1 == self.colors
            invariant
                n == self.current@.len(),
                self.current@ == start@,
                self.colors == k@,
                all_below(start@, k@),
                i <= n,
                forall|j: int| 0 <= j < i ==> start@[j] + 1 == k@,
            decreases n - i,
        {
            i = i + 1;
        }
        if i == n {
            proof {
                lemma_value_all_last(start@, k@);
            }
            self.exhausted = true;
            return Some(out);
        }
        let mut j: usize = 0;
        while j < i
            invariant
                n == self.current@.len(),
                n == start@.len(),
                self.colors == k@,
                !self.exhausted,
                i < n,
                j <= i,
                all_below(start@, k@),
                all_below(self.current@, k@),
                forall|t: int| 0 <= t < i ==> start@[t] + 1 == k@,
                forall|t: int| j <= t < n ==> self.current@[t] == start@[t],
                value(self.current@, k@) + space_size(j as nat, k@) == value(start@, k@) + 1,
            decreases i - j,
        {
            let ghost before = self.current@;
            proof {
                lemma_value_update(before, k@, j as int, 0);
                assert(space_size((j + 1) as nat, k@) == k@ * space_size(j as nat, k@));
                let p = space_size(j as nat, k@);
                let d = before[j as int];
                assert(before[j as int] == start@[j as int]);
                assert(start@[j as int] + 1 == k@);
                assert(d * p + p == k@ * p && 0 * p == 0) by (nonlinear_arith)
                    requires
                        d + 1 == k@,
                ;
            }
            self.current.0.set(j, 0);
            j = j + 1;
        }
        let ghost before = self.current@;
        let bumped = self.current.0[i] + 1;
        proof {
            lemma_value_update(before, k@, i as int, bumped);
            let p = space_size(i as nat, k@);
            let d = before[i as int];
            assert(bumped * p == d * p + p) by (nonlinear_arith)
                requires
                    bumped == d + 1,
            ;
        }
        self.current.0.set(i, bumped);
        proof {
            assert(self.current@ == before.update(i as int, bumped));
        }
        Some(out)
    }

    /// Moves past the next `count` sequences, or to the end of the
    /// enumeration if fewer remain.
    pub fn skip(&mut self, count: usize)
        requires
            old(self).wf(),
        ensures
            final(self).wf(),
            final(self).fields() == old(self).fields(),
            final(self).colors() == old(self).colors(),
            final(self).position() == if old(self).position() + count <= space_size(
                old(self).fields(),
                old(self).colors(),
            ) {
                old(self).position() + count
            } else {
                space_size(old(self).fields(), old(self).colors()) as int
            },
    {
        let ghost size = space_size(self.fields(), self.colors());
        let ghost start = self.position();
        proof {
            self.lemma_position_bound();
        }
        let mut done: usize = 0;
        while done < count
            invariant
                self.wf(),
                self.fields() == old(self).fields(),
                self.colors() == old(self).colors(),
                size == space_size(self.fields(), self.colors()),
                done <= count,
                self.position() == if start + done <= size {
                    start + done
                } else {
                    size as int
                },
            decreases count - done,
        {
            let _ = self.next();
            done = done + 1;
        }
    }
}

proof fn lemma_zeros_value(s: Seq<u32>, k: nat)
    requires
        forall|i: int| 0 <= i < s.len() ==> s[i] == 0,
    ensures
        value(s, k) == 0,
        k > 0 ==> all_below(s, k),
    decreases s.len(),
{
    if s.len() > 0 {
        lemma_zeros_value(s.drop_first(), k);
        assert(k * 0 == 0) by (nonlinear_arith);
    }
}

impl Guess {
    /// An enumeration over `colors` colors that starts at this sequence.
    pub fn iter(&self, colors: u32) -> (r: GuessIterator)
        requires
            all_below(self@, colors as nat),
        ensures
            r.wf(),
            r.fields() == self@.len(),
            r.colors() == colors,
            r.position() == value(self@, colors as nat),
    {
        GuessIterator { current: self.duplicate(), colors, exhausted: false }
    }
}


/// The entry at index `idx` of the enumeration is a code: its colors are
/// pairwise distinct.
pub open spec fn code_at(n: nat, k: nat, idx: nat) -> bool {
    sequence_at(n, k, idx).no_duplicates()
}

/// Enumerates the codes of a fixed length over `[0, colors)`: the sequences
/// of a [`GuessIterator`] whose colors are pairwise distinct, in its order.
pub struct CodeIterator {
    space: GuessIterator,
}

impl CodeIterator {
    /// Length of the codes enumerated.
    pub closed spec fn fields(&self) -> nat {
        self.space.fields()
    }

    /// Number of colors.
    pub closed spec fn colors(&self) -> nat {
        self.space.colors()
    }

    /// Index, in the enumeration of all sequences, of the next sequence to
    /// examine.
    pub closed spec fn position(&self) -> nat {
        self.space.position()
    }

    pub closed spec fn wf(&self) -> bool {
        self.space.wf() && self.space.colors() <= MASK_BITS
    }

    /// An enumeration of the codes of length `fields` over `colors` colors,
    /// from the first.
    pub fn new(fields: usize, colors: u32) -> (r: CodeIterator)
        requires
            colors <= MASK_BITS,
        ensures
            r.wf(),
            r.fields() == fields,
            r.colors() == colors,
            r.position() == 0,
    {
        CodeIterator { space: GuessIterator::new(fields, colors) }
    }

    /// Hands out the first code at or after the current position and moves
    /// past it, or returns `None` when no code remains.
    pub fn next(&mut self) -> (r: Option<Guess>)
        requires
            old(self).wf(),
        ensures
            final(self).wf(),
            final(self).fields() == old(self).fields(),
            final(self).colors() == old(self).colors(),
            old(self).position() <= final(self).position() <= space_size(
                old(self).fields(),
                old(self).colors(),
            ),
            forall|j: nat|
                old(self).position() <= j < final(self).position() - 1 ==> !#[trigger] code_at(
                    old(self).fields(),
                    old(self).colors(),
                    j,
                ),
            match r {
                Some(g) => {
                    &&& old(self).position() < final(self).position()
                    &&& g@ == sequence_at(
                        old(self).fields(),
                        old(self).colors(),
                        (final(self).position() - 1) as nat,
                    )
                    &&& g@.no_duplicates()
                },
                None => {
                    &&& final(self).position() == space_size(old(self).fields(), old(self).colors())
                    &&& (old(self).position() < final(self).position() ==> !code_at(
                        old(self).fields(),
                        old(self).colors(),
                        (final(self).position() - 1) as nat,
                    ))
                },
            },
    {
        let ghost n = self.fields();
        let ghost k = self.colors();
        let ghost start = self.position();
        proof {
            self.space.lemma_position_bound();
        }
        loop
            invariant
                self.wf(),
                self.fields() == n,
                self.colors() == k,
                n == old(self).fields(),
                k == old(self).colors(),
                start == old(self).position(),
                k <= 32,
                start <= self.position() <= space_size(n, k),
                forall|j: nat| start <= j < self.position() ==> !#[trigger] code_at(n, k, j),
            decreases space_size(n, k) - self.position(),
        {
            let ghost at = self.position();
            match self.space.next() {
                None => {
                    return None;
                },
                Some(g) => {
                    proof {
                        lemma_value_sequence_at(n, k, at);
                    }
                    if g.is_valid_code() {
                        return Some(g);
                    }
                },
            }
        }
    }
}

} // verus!
