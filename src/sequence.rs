use vstd::prelude::*;

verus! {

/// Default number of colors in the palette.
pub const NUM_COLORS: u32 = 10;

/// Default number of fields (the length of a code).
pub const NUM_FIELDS: u32 = 6;

/// A presence set of colors: bit `c` is set when color `c` occurs.
pub type ColorBitmask = u32;

/// Width of a [`ColorBitmask`]: colors must lie below it.
pub const MASK_BITS: u32 = 32;

/// Whether color `c` is recorded in the presence set `m`.
pub open spec fn mask_has(m: u32, c: u32) -> bool {
    m & (1u32 << c) != 0
}

pub proof fn lemma_mask_empty(c: u32)
    requires
        c < 32,
    ensures
        !mask_has(0, c),
{
    assert(0u32 & (1u32 << c) == 0) by (bit_vector)
        requires
            c < 32,
    ;
}

pub proof fn lemma_mask_insert(m: u32, x: u32, c: u32)
    requires
        x < 32,
        c < 32,
    ensures
        mask_has(m | (1u32 << x), c) == (mask_has(m, c) || x == c),
{
    assert(((m | (1u32 << x)) & (1u32 << c) != 0) == ((m & (1u32 << c) != 0) || x == c))
        by (bit_vector)
        requires
            x < 32,
            c < 32,
    ;
}

/// Every symbol of `s` is below `k`.
pub open spec fn all_below(s: Seq<u32>, k: nat) -> bool {
    forall|i: int| 0 <= i < s.len() ==> s[i] < k
}

/// `s` is a sequence of length `n` over the alphabet `[0, k)`.
pub open spec fn is_sequence(s: Seq<u32>, n: nat, k: nat) -> bool {
    s.len() == n && all_below(s, k)
}

/// `s` is a code of length `n` over `[0, k)`: a sequence whose symbols are
/// pairwise distinct.
pub open spec fn is_code(s: Seq<u32>, n: nat, k: nat) -> bool {
    is_sequence(s, n, k) && s.no_duplicates()
}

/// A sequence of colors, used both as a guess (colors may repeat) and as a
/// code (all colors distinct).
#[derive(Debug, Clone)]
pub struct Guess(pub Vec<u32>);

impl View for Guess {
    type V = Seq<u32>;

    open spec fn view(&self) -> Seq<u32> {
        self.0@
    }
}

impl PartialEq for Guess {
    fn eq(&self, other: &Guess) -> (r: bool) {
        let n = self.0.len();
        if n != other.0.len() {
            return false;
        }
        let mut i: usize = 0;
        while i < n
            invariant
                n == self@.len(),
                n == other@.len(),
                i <= n,
                forall|j: int| 0 <= j < i ==> self@[j] == other@[j],
            decreases n - i,
        {
            if self.0[i] != other.0[i] {
                return false;
            }
            i = i + 1;
        }
        assert(self@ =~= other@);
        true
    }
}

impl vstd::std_specs::cmp::PartialEqSpecImpl for Guess {
    open spec fn obeys_eq_spec() -> bool {
        true
    }

    open spec fn eq_spec(&self, other: &Guess) -> bool {
        self@ == other@
    }
}

impl Guess {
    /// The sequence of `fields` zeros, the first sequence of every
    /// enumeration.
    pub fn zeros(fields: usize) -> (r: Guess)
        ensures
            r@ == Seq::new(fields as nat, |i: int| 0u32),
    {
        let mut v: Vec<u32> = Vec::new();
        let mut i: usize = 0;
        while i < fields
            invariant
                i <= fields,
                v@ == Seq::new(i as nat, |j: int| 0u32),
            decreases fields - i,
        {
            v.push(0);
            i = i + 1;
            assert(v@ =~= Seq::new(i as nat, |j: int| 0u32));
        }
        Guess(v)
    }

    /// A copy of this sequence.
    pub fn duplicate(&self) -> (r: Guess)
        ensures
            r@ == self@,
    {
        let n = self.0.len();
        let mut v: Vec<u32> = Vec::new();
        let mut i: usize = 0;
        while i < n
            invariant
                n == self@.len(),
                i <= n,
                v@ == self@.subrange(0, i as int),
            decreases n - i,
        {
            v.push(self.0[i]);
            i = i + 1;
            assert(v@ =~= self@.subrange(0, i as int));
        }
        assert(v@ =~= self@);
        Guess(v)
    }

    /// Whether the colors of this sequence are pairwise distinct, tested with
    /// a presence set.
    pub fn is_valid_code(&self) -> (r: bool)
        requires
            all_below(self@, MASK_BITS as nat),
        ensures
            r == self@.no_duplicates(),
    {
        let n = self.0.len();
        let mut colors: ColorBitmask = 0;
        let mut i: usize = 0;
        proof {
            assert forall|c: u32| c < 32 implies !#[trigger] mask_has(colors, c) by {
                lemma_mask_empty(c);
            }
        }
        while i < n
            invariant
                n == self@.len(),
                i <= n,
                all_below(self@, 32),
                self@.subrange(0, i as int).no_duplicates(),
                forall|c: u32|
                    c < 32 ==> (#[trigger] mask_has(colors, c) <==> self@.subrange(
                        0,
                        i as int,
                    ).contains(c)),
            decreases n - i,
        {
            let color = self.0[i];
            if colors & (1u32 << color) != 0 {
                proof {
                    assert(mask_has(colors, color));
                    let j = choose|j: int| 0 <= j < i && self@.subrange(0, i as int)[j] == color;
                    assert(self@[j] == self@[i as int]);
                }
                return false;
            }
            proof {
                let pre = self@.subrange(0, i as int);
                let post = self@.subrange(0, i + 1);
                assert(post =~= pre.push(color));
                assert(!mask_has(colors, color));
                assert(!pre.contains(color));
                assert forall|c: u32| c < 32 implies (#[trigger] mask_has(
                    colors | (1u32 << color),
                    c,
                ) <==> post.contains(c)) by {
                    lemma_mask_insert(colors, color, c);
                    if pre.contains(c) {
                        let j = choose|j: int| 0 <= j < pre.len() && pre[j] == c;
                        assert(post[j] == c);
                    }
                    if post.contains(c) && c != color {
                        let j = choose|j: int| 0 <= j < post.len() && post[j] == c;
                        assert(pre[j] == c);
                    }
                    if c == color {
                        assert(post[i as int] == c);
                    }
                }
            }
            colors = colors | (1u32 << color);
            i = i + 1;
        }
        assert(self@.subrange(0, n as int) =~= self@);
        true
    }
}

} // verus!
