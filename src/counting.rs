use vstd::prelude::*;

use vstd::relations::injective_on;
use vstd::set_lib::{lemma_len_subset, lemma_map_size, lemma_set_disjoint_lens};

use crate::history::{distinct_colors, enumeration};
use crate::sequence::{is_code, is_sequence};
use crate::space::{code_at, lemma_enumeration_bijective, sequence_at, space_size, value};

verus! {

/// `n!`.
pub open spec fn factorial(n: nat) -> nat
    decreases n,
{
    if n == 0 {
        1
    } else {
        n * factorial((n - 1) as nat)
    }
}

/// `k (k - 1) ... (k - n + 1)`: the number of ways to fill `n` positions
/// with distinct colors out of `k`.
pub open spec fn falling(k: nat, n: nat) -> nat
    decreases n,
{
    if n == 0 {
        1
    } else if k == 0 {
        0
    } else {
        k * falling((k - 1) as nat, (n - 1) as nat)
    }
}

/// The sequences of length `n` with pairwise distinct colors drawn from `a`.
pub open spec fn codes_over(n: nat, a: Set<u32>) -> Set<Seq<u32>> {
    Set::new(
        |s: Seq<u32>|
            {
                &&& s.len() == n
                &&& s.no_duplicates()
                &&& forall|i: int| 0 <= i < s.len() ==> a.contains(s[i])
            },
    )
}

/// The codes of length `n` over `[0, k)`.
pub open spec fn codes(n: nat, k: nat) -> Set<Seq<u32>> {
    Set::new(|s: Seq<u32>| is_code(s, n, k))
}

/// The indices of the enumeration of length-`n` sequences over `k` colors
/// whose entries are codes.
pub open spec fn code_indices(n: nat, k: nat) -> Set<nat> {
    Set::new(|i: nat| i < space_size(n, k) && code_at(n, k, i))
}

spec fn prepend(x: u32) -> spec_fn(Seq<u32>) -> Seq<u32> {
    |t: Seq<u32>| seq![x] + t
}

/// The codes over `a` of length `n + 1` whose first color is in `b`.
spec fn led_by(n: nat, a: Set<u32>, b: Set<u32>) -> Set<Seq<u32>> {
    Set::new(|s: Seq<u32>| codes_over(n + 1, a).contains(s) && b.contains(s[0]))
}

proof fn lemma_led_by_one(n: nat, a: Set<u32>, x: u32)
    requires
        a.contains(x),
    ensures
        led_by(n, a, set![x]) == codes_over(n, a.remove(x)).map(prepend(x)),
{
    let lhs = led_by(n, a, set![x]);
    let rhs = codes_over(n, a.remove(x)).map(prepend(x));
    assert forall|s: Seq<u32>| lhs.contains(s) implies rhs.contains(s) by {
        let t = s.drop_first();
        assert(s =~= seq![x] + t);
        assert forall|i: int| 0 <= i < t.len() implies a.remove(x).contains(t[i]) by {
            assert(s[i + 1] == t[i]);
            assert(s[0] != s[i + 1]);
        }
        assert forall|i: int, j: int| 0 <= i < t.len() && 0 <= j < t.len() && i != j implies t[i]
            != t[j] by {
            assert(s[i + 1] == t[i] && s[j + 1] == t[j]);
        }
        assert(codes_over(n, a.remove(x)).contains(t));
        assert(prepend(x)(t) == s);
    }
    assert forall|s: Seq<u32>| rhs.contains(s) implies lhs.contains(s) by {
        let t = choose|t: Seq<u32>| codes_over(n, a.remove(x)).contains(t) && prepend(x)(t) == s;
        assert(s =~= seq![x] + t);
        assert forall|i: int| 0 <= i < s.len() implies a.contains(s[i]) by {
            if i > 0 {
                assert(s[i] == t[i - 1]);
            }
        }
        assert forall|i: int, j: int| 0 <= i < s.len() && 0 <= j < s.len() && i != j implies s[i]
            != s[j] by {
            if i > 0 {
                assert(s[i] == t[i - 1]);
                assert(a.remove(x).contains(t[i - 1]));
            }
            if j > 0 {
                assert(s[j] == t[j - 1]);
                assert(a.remove(x).contains(t[j - 1]));
            }
        }
    }
    assert(lhs =~= rhs);
}

proof fn lemma_led_by_size(n: nat, a: Set<u32>, b: Set<u32>)
    requires
        a.finite(),
        b.finite(),
        b.subset_of(a),
        forall|x: u32|
            a.contains(x) ==> (#[trigger] codes_over(n, a.remove(x))).finite() && codes_over(
                n,
                a.remove(x),
            ).len() == falling((a.len() - 1) as nat, n),
    ensures
        led_by(n, a, b).finite(),
        led_by(n, a, b).len() == b.len() * falling((a.len() - 1) as nat, n),
    decreases b.len(),
{
    if b.len() == 0 {
        assert(b =~= Set::empty());
        assert(led_by(n, a, b) =~= Set::empty());
    } else {
        let x = b.choose();
        let rest = b.remove(x);
        lemma_led_by_size(n, a, rest);
        lemma_led_by_one(n, a, x);
        let one = led_by(n, a, set![x]);
        let f = prepend(x);
        assert(injective_on(f, codes_over(n, a.remove(x)))) by {
            assert forall|t1: Seq<u32>, t2: Seq<u32>|
                codes_over(n, a.remove(x)).contains(t1) && codes_over(n, a.remove(x)).contains(t2)
                    && #[trigger] f(t1) == #[trigger] f(t2) implies t1 == t2 by {
                assert(f(t1).drop_first() =~= t1);
                assert(f(t2).drop_first() =~= t2);
            }
        }
        lemma_map_size(codes_over(n, a.remove(x)), one, f);
        let other = led_by(n, a, rest);
        assert(other.disjoint(one));
        assert(led_by(n, a, b) =~= other + one);
        lemma_set_disjoint_lens(other, one);
        assert(b.len() * falling((a.len() - 1) as nat, n) == rest.len() * falling(
            (a.len() - 1) as nat,
            n,
        ) + falling((a.len() - 1) as nat, n)) by (nonlinear_arith)
            requires
                rest.len() + 1 == b.len(),
        ;
    }
}

proof fn lemma_codes_over_size(n: nat, a: Set<u32>)
    requires
        a.finite(),
    ensures
        codes_over(n, a).finite(),
        codes_over(n, a).len() == falling(a.len(), n),
    decreases n,
{
    if n == 0 {
        assert forall|s: Seq<u32>| codes_over(n, a).contains(s) implies s == Seq::<u32>::empty()
            by {
            assert(s =~= Seq::<u32>::empty());
        }
        assert(codes_over(n, a).contains(Seq::<u32>::empty()));
        assert(codes_over(n, a) =~= set![Seq::<u32>::empty()]);
    } else {
        let m = (n - 1) as nat;
        assert forall|x: u32| a.contains(x) implies (#[trigger] codes_over(
            m,
            a.remove(x),
        )).finite() && codes_over(m, a.remove(x)).len() == falling((a.len() - 1) as nat, m) by {
            lemma_codes_over_size(m, a.remove(x));
        }
        lemma_led_by_size(m, a, a);
        assert(codes_over(n, a) =~= led_by(m, a, a)) by {
            assert forall|s: Seq<u32>| codes_over(n, a).contains(s) implies led_by(
                m,
                a,
                a,
            ).contains(s) by {
                assert(a.contains(s[0]));
            }
        }
        if a.len() == 0 {
            assert(a.len() * falling((a.len() - 1) as nat, m) == 0);
        }
    }
}

spec fn colors_below(k: nat) -> Set<u32> {
    Set::new(|c: u32| c < k)
}

proof fn lemma_colors_below(k: nat)
    requires
        k <= u32::MAX + 1,
    ensures
        colors_below(k).finite(),
        colors_below(k).len() == k,
    decreases k,
{
    if k == 0 {
        assert(colors_below(k) =~= Set::empty());
    } else {
        lemma_colors_below((k - 1) as nat);
        assert(colors_below(k) =~= colors_below((k - 1) as nat).insert((k - 1) as u32));
    }
}

spec fn indices_below(m: nat) -> Set<nat> {
    Set::new(|i: nat| i < m)
}

proof fn lemma_indices_below(m: nat)
    ensures
        indices_below(m).finite(),
    decreases m,
{
    if m == 0 {
        assert(indices_below(m) =~= Set::empty());
    } else {
        lemma_indices_below((m - 1) as nat);
        assert(indices_below(m) =~= indices_below((m - 1) as nat).insert((m - 1) as nat));
    }
}

proof fn lemma_falling_factorial(k: nat, n: nat)
    ensures
        n <= k ==> falling(k, n) * factorial((k - n) as nat) == factorial(k),
        n > k ==> falling(k, n) == 0,
    decreases n,
{
    if n == 0 {
        let r = factorial(k);
        assert(1 * r == r) by (nonlinear_arith);
    } else if k > 0 {
        lemma_falling_factorial((k - 1) as nat, (n - 1) as nat);
        let f = falling((k - 1) as nat, (n - 1) as nat);
        assert(falling(k, n) == k * f);
        if n <= k {
            let r = factorial((k - n) as nat);
            assert((k - 1 - (n - 1)) as nat == (k - n) as nat);
            assert(f * r == factorial((k - 1) as nat));
            assert(factorial(k) == k * factorial((k - 1) as nat));
            assert(k * f * r == k * (f * r)) by (nonlinear_arith);
        } else {
            assert(f == 0);
            assert(k * f == 0) by (nonlinear_arith)
                requires
                    f == 0,
            ;
        }
    }
}

/// There are `k! / (k - n)!` codes of length `n` over `k` colors (none when
/// `n > k`), and exactly that many entries of the enumeration of all
/// length-`n` sequences are codes.
pub proof fn lemma_code_count(n: nat, k: nat)
    requires
        k <= u32::MAX,
    ensures
        codes(n, k).finite(),
        codes(n, k).len() == falling(k, n),
        code_indices(n, k).finite(),
        code_indices(n, k).len() == falling(k, n),
        n <= k ==> falling(k, n) * factorial((k - n) as nat) == factorial(k),
        n > k ==> falling(k, n) == 0,
{
    lemma_colors_below(k);
    lemma_codes_over_size(n, colors_below(k));
    assert(codes(n, k) =~= codes_over(n, colors_below(k)));
    lemma_enumeration_bijective(n, k);
    lemma_indices_below(space_size(n, k));
    assert(code_indices(n, k).subset_of(indices_below(space_size(n, k))));
    lemma_len_subset(code_indices(n, k), indices_below(space_size(n, k)));
    let f = |i: nat| sequence_at(n, k, i);
    assert(code_indices(n, k).map(f) =~= codes(n, k)) by {
        assert forall|s: Seq<u32>| #[trigger] codes(n, k).contains(s) implies code_indices(
            n,
            k,
        ).map(f).contains(s) by {
            assert(crate::sequence::is_sequence(s, n, k));
            let i = value(s, k);
            assert(code_indices(n, k).contains(i));
            assert(f(i) == s);
        }
    }
    lemma_map_size(code_indices(n, k), codes(n, k), f);
    lemma_falling_factorial(k, n);
}

proof fn lemma_filter_keeps_unique(s: Seq<Seq<u32>>, pred: spec_fn(Seq<u32>) -> bool)
    requires
        s.no_duplicates(),
    ensures
        s.filter(pred).no_duplicates(),
    decreases s.len(),
{
    if s.len() > 0 {
        let rest = s.drop_last();
        let x = s.last();
        assert(rest.no_duplicates());
        lemma_filter_keeps_unique(rest, pred);
        assert(s =~= rest.push(x));
        rest.lemma_filter_push(x, pred);
        if pred(x) {
            let f = rest.filter(pred);
            if f.contains(x) {
                rest.lemma_filter_contains_rev(pred, x);
                let j = choose|j: int| 0 <= j < rest.len() && rest[j] == x;
                assert(s[j] == s[s.len() - 1]);
            }
            assert forall|i: int, j: int|
                0 <= i < f.push(x).len() && 0 <= j < f.push(x).len() && i != j implies f.push(x)[i]
                != f.push(x)[j] by {
                if i < f.len() && j < f.len() {
                    assert(f[i] != f[j]);
                } else if i < f.len() {
                    assert(f.contains(f[i]));
                } else if j < f.len() {
                    assert(f.contains(f[j]));
                }
            }
        }
    }
}

/// The codes that a code enumeration hands out, in order, are
/// `k! / (k - n)!` in number (none when `n > k`), each with pairwise
/// distinct colors, and no two alike.
pub proof fn lemma_code_filter_count(n: nat, k: nat)
    requires
        k <= u32::MAX,
    ensures
        enumeration(n, k).filter(distinct_colors()).len() == falling(k, n),
        enumeration(n, k).filter(distinct_colors()).no_duplicates(),
        forall|i: int|
            0 <= i < enumeration(n, k).filter(distinct_colors()).len() ==> (#[trigger] enumeration(
                n,
                k,
            ).filter(distinct_colors())[i]).no_duplicates(),
{
    broadcast use vstd::seq_lib::group_filter_ensures;

    let e = enumeration(n, k);
    let f = e.filter(distinct_colors());
    lemma_enumeration_bijective(n, k);
    assert(e.no_duplicates()) by {
        assert forall|i: int, j: int| 0 <= i < e.len() && 0 <= j < e.len() && i != j implies e[i]
            != e[j] by {
            assert(e[i] == sequence_at(n, k, i as nat));
            assert(e[j] == sequence_at(n, k, j as nat));
        }
    }
    lemma_filter_keeps_unique(e, distinct_colors());
    assert(f.to_set() =~= codes(n, k)) by {
        assert forall|s: Seq<u32>| f.to_set().contains(s) implies codes(n, k).contains(s) by {
            let i = choose|i: int| 0 <= i < f.len() && f[i] == s;
            assert(distinct_colors()(f[i]));
            e.lemma_filter_contains_rev(distinct_colors(), s);
            let j = choose|j: int| 0 <= j < e.len() && e[j] == s;
            assert(is_sequence(sequence_at(n, k, j as nat), n, k));
        }
        assert forall|s: Seq<u32>| codes(n, k).contains(s) implies f.to_set().contains(s) by {
            assert(is_sequence(s, n, k));
            let i = value(s, k);
            assert(e[i as int] == s);
            assert(distinct_colors()(e[i as int]));
        }
    }
    f.unique_seq_to_set();
    lemma_code_count(n, k);
}

} // verus!
