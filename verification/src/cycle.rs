//! An immutable cycle value: an ordered sequence of at least two distinct
//! node identifiers, stored in canonical form (rotated so that the smallest
//! identifier comes first).  Two cycles that are rotations of each other
//! therefore compare equal.

use vstd::prelude::*;

verus! {

use crate::text::{decimal_of, joined, lemma_joined_push, push_decimal, string_from_chars};

/// The debug rendering of a cycle: the identifiers joined by arrows.
pub open spec fn cycle_rendered(ids: Seq<u32>) -> Seq<char> {
    seq!['C', 'y', 'c', 'l', 'e', '('] + joined(ids, seq![' ', '=', '>', ' ']) + seq![')']
}

/// A cycle through a directed graph, read as a closed walk: each element is
/// connected to the next, and the last element connects back to the first.
pub struct Cycle(Vec<u32>);

impl View for Cycle {
    type V = Seq<u32>;

    closed spec fn view(&self) -> Seq<u32> {
        self.0@
    }
}

/// `s` rotated left by `k`: element `k` of `s` comes first.
pub open spec fn rotated(s: Seq<u32>, k: int) -> Seq<u32> {
    s.subrange(k, s.len() as int) + s.subrange(0, k)
}

/// Whether position `i` holds the strictly smallest element of `s`.
pub open spec fn is_strict_min(s: Seq<u32>, i: int) -> bool {
    0 <= i < s.len() && (forall|j: int| 0 <= j < s.len() && j != i ==> s[i] < #[trigger] s[j])
}

/// The position of the unique minimum of a duplicate-free sequence.
pub open spec fn min_index(s: Seq<u32>) -> int {
    choose|i: int| is_strict_min(s, i)
}

/// The canonical form of a cycle sequence: rotated so its minimum is first.
pub open spec fn canonical(s: Seq<u32>) -> Seq<u32> {
    rotated(s, min_index(s))
}

/// Whether position `i` holds a (weakly) smallest element of `s`.
spec fn is_weak_min(s: Seq<u32>, i: int) -> bool {
    0 <= i < s.len() && (forall|j: int| 0 <= j < s.len() ==> s[i] <= #[trigger] s[j])
}

/// Some position of a nonempty sequence holds a smallest element.
proof fn lemma_min_exists(s: Seq<u32>)
    requires
        s.len() >= 1,
    ensures
        exists|i: int| is_weak_min(s, i),
    decreases s.len(),
{
    if s.len() == 1 {
        assert(is_weak_min(s, 0));
    } else {
        let t = s.drop_last();
        lemma_min_exists(t);
        let i = choose|i: int| is_weak_min(t, i);
        assert(is_weak_min(t, i));
        assert(forall|j: int| 0 <= j < s.len() - 1 ==> s[j] == t[j]);
        if s[i] <= s[s.len() - 1] {
            assert(is_weak_min(s, i));
        } else {
            assert(is_weak_min(s, s.len() - 1));
        }
    }
}

/// A duplicate-free nonempty sequence has a position holding a strictly
/// smallest element.
proof fn lemma_strict_min_exists(s: Seq<u32>)
    requires
        s.len() >= 1,
        s.no_duplicates(),
    ensures
        exists|i: int| is_strict_min(s, i),
{
    lemma_min_exists(s);
    let i = choose|i: int| is_weak_min(s, i);
    assert(is_weak_min(s, i));
    assert(forall|j: int| 0 <= j < s.len() && j != i ==> s[i] < #[trigger] s[j]);
    assert(is_strict_min(s, i));
}

/// A duplicate-free sequence of length at least one has a strict minimum,
/// and `min_index` names a position holding it.
pub proof fn lemma_min_index_is_strict_min(s: Seq<u32>)
    requires
        s.len() >= 1,
        s.no_duplicates(),
    ensures
        is_strict_min(s, min_index(s)),
{
    lemma_strict_min_exists(s);
    let i = choose|i: int| is_strict_min(s, i);
    assert(is_strict_min(s, i));
}

/// `min_index` agrees with any position shown to hold a strict minimum.
proof fn lemma_min_index_agrees(s: Seq<u32>, m: int)
    requires
        0 <= m < s.len(),
        forall|j: int| 0 <= j < s.len() && j != m ==> s[m] < #[trigger] s[j],
    ensures
        min_index(s) == m,
{
    assert(is_strict_min(s, m));
    let i = min_index(s);
    assert(is_strict_min(s, i));
    if i != m {
        assert(s[i] < s[m]);
        assert(s[m] < s[i]);
    }
}

/// Index-wise description of a rotation.
pub proof fn lemma_rotated_index(s: Seq<u32>, k: int)
    requires
        0 <= k <= s.len(),
    ensures
        rotated(s, k).len() == s.len(),
        forall|x: int|
            0 <= x < s.len() ==> #[trigger] rotated(s, k)[x] == (if x + k < s.len() {
                s[x + k]
            } else {
                s[x + k - s.len()]
            }),
{
}

/// A rotation of a duplicate-free sequence is duplicate-free.
pub proof fn lemma_rotated_no_duplicates(s: Seq<u32>, k: int)
    requires
        0 <= k <= s.len(),
        s.no_duplicates(),
    ensures
        rotated(s, k).no_duplicates(),
{
    lemma_rotated_index(s, k);
}

impl Cycle {
    /// A well-formed cycle: at least two distinct identifiers, smallest first.
    pub open spec fn wf(&self) -> bool {
        &&& self@.len() >= 2
        &&& self@.no_duplicates()
        &&& forall|j: int| 1 <= j < self@.len() ==> self@[0] < #[trigger] self@[j]
    }

    /// Rotates the vector left by `by` places, so element `by` comes first.
    fn rotate(cycle: &mut Vec<u32>, by: usize)
        requires
            by <= old(cycle)@.len(),
        ensures
            final(cycle)@ == rotated(old(cycle)@, by as int),
    {
        let n = cycle.len();
        let mut out: Vec<u32> = Vec::new();
        let mut i = by;
        while i < n
            invariant
                by <= i <= n,
                n == cycle@.len(),
                cycle@ == old(cycle)@,
                out@ == cycle@.subrange(by as int, i as int),
            decreases n - i,
        {
            out.push(cycle[i]);
            assert(out@ =~= cycle@.subrange(by as int, i + 1));
            i = i + 1;
        }
        let mut j: usize = 0;
        while j < by
            invariant
                0 <= j <= by <= n,
                n == cycle@.len(),
                cycle@ == old(cycle)@,
                out@ == cycle@.subrange(by as int, n as int) + cycle@.subrange(0, j as int),
            decreases by - j,
        {
            out.push(cycle[j]);
            assert(out@ =~= cycle@.subrange(by as int, n as int) + cycle@.subrange(0, j + 1));
            j = j + 1;
        }
        *cycle = out;
    }

    /// Constructs a cycle from a sequence of node identifiers.  Fails when
    /// the sequence is shorter than two or holds a duplicate; otherwise the
    /// sequence is rotated so its minimum comes first and stored.
    pub fn new(nodes: Vec<u32>) -> (r: Option<Self>)
        ensures
            match r {
                Some(c) => nodes@.len() >= 2 && nodes@.no_duplicates() && c.wf() && c@
                    == canonical(nodes@),
                None => nodes@.len() < 2 || !nodes@.no_duplicates(),
            },
    {
        let mut nodes = nodes;
        let ghost orig = nodes@;
        if nodes.len() < 2 || has_duplicate(&nodes) {
            return None;
        }
        let min_pos = min_position(&nodes);
        Self::rotate(&mut nodes, min_pos);
        proof {
            lemma_min_index_agrees(orig, min_pos as int);
            lemma_rotated_index(orig, min_pos as int);
            lemma_rotated_no_duplicates(orig, min_pos as int);
            assert(nodes@[0] == orig[min_pos as int]);
            assert forall|j: int| 1 <= j < nodes@.len() implies nodes@[0] < #[trigger] nodes@[j] by {
                if j + min_pos < orig.len() {
                    assert(nodes@[j] == orig[j + min_pos]);
                    assert(orig[min_pos as int] < orig[j + min_pos]);
                } else {
                    assert(nodes@[j] == orig[j + min_pos - orig.len()]);
                    assert(j + min_pos - orig.len() < min_pos);
                    assert(orig[min_pos as int] < orig[j + min_pos - orig.len()]);
                }
            }
        }
        Some(Cycle(nodes))
    }

    /// The number of nodes in the cycle.
    pub fn len(&self) -> (r: usize)
        ensures
            r == self@.len(),
    {
        self.0.len()
    }

    /// The canonical sequence of node identifiers, smallest first.
    pub fn slice(&self) -> (r: &[u32])
        ensures
            r@ == self@,
    {
        self.0.as_slice()
    }

    /// The debug rendering, identifiers joined by arrows:
    /// `Cycle(1 => 2 => 3)`.
    #[verifier::loop_isolation(false)]
    pub fn render(&self) -> (r: String)
        ensures
            r@ == cycle_rendered(self@),
    {
        let ghost sep = seq![' ', '=', '>', ' '];
        let ghost hdr = seq!['C', 'y', 'c', 'l', 'e', '('];
        let mut out: Vec<char> = Vec::new();
        out.push('C');
        out.push('y');
        out.push('c');
        out.push('l');
        out.push('e');
        out.push('(');
        proof {
            assert(out@ =~= hdr + joined(self@.subrange(0, 0), sep));
        }
        let n = self.0.len();
        let mut i: usize = 0;
        while i < n
            invariant
                0 <= i <= n,
                n == self@.len(),
                out@ == hdr + joined(self@.subrange(0, i as int), sep),
            decreases n - i,
        {
            let ghost head = out@;
            if i > 0 {
                out.push(' ');
                out.push('=');
                out.push('>');
                out.push(' ');
                proof {
                    assert(out@ =~= head + sep);
                }
            }
            let ghost mid = out@;
            push_decimal(&mut out, self.0[i]);
            proof {
                let d = decimal_of(self@[i as int] as nat);
                assert(out@ == mid + d);
                let done = self@.subrange(0, i as int);
                let done1 = self@.subrange(0, i + 1);
                assert(done1 =~= done.push(self@[i as int]));
                if i == 0 {
                    assert(done1 =~= seq![self@[0]]);
                    assert(joined(done1, sep) == d);
                    assert(out@ =~= hdr + joined(done1, sep));
                } else {
                    lemma_joined_push(done, self@[i as int], sep);
                    assert(joined(done1, sep) == joined(done, sep) + sep + d);
                    assert(out@ =~= hdr + joined(done1, sep));
                }
            }
            i = i + 1;
        }
        out.push(')');
        proof {
            assert(self@.subrange(0, n as int) =~= self@);
            assert(out@ =~= cycle_rendered(self@));
        }
        string_from_chars(&out)
    }
}

/// Whether the vector holds the same value at two positions.
fn has_duplicate(v: &Vec<u32>) -> (r: bool)
    ensures
        r == !v@.no_duplicates(),
{
    let n = v.len();
    let mut i: usize = 0;
    while i < n
        invariant
            0 <= i <= n,
            n == v@.len(),
            forall|p: int, q: int| 0 <= p < q < v@.len() && p < i ==> v@[p] != v@[q],
        decreases n - i,
    {
        let mut j = i + 1;
        while j < n
            invariant
                0 <= i < n,
                i < j <= n,
                n == v@.len(),
                forall|q: int| i < q < j ==> v@[i as int] != #[trigger] v@[q],
            decreases n - j,
        {
            if v[i] == v[j] {
                return true;
            }
            j = j + 1;
        }
        i = i + 1;
    }
    false
}

/// The position of the strictly smallest element of a duplicate-free vector.
fn min_position(v: &Vec<u32>) -> (r: usize)
    requires
        v@.len() >= 1,
        v@.no_duplicates(),
    ensures
        r < v@.len(),
        forall|j: int| 0 <= j < v@.len() && j != r ==> v@[r as int] < #[trigger] v@[j],
{
    let n = v.len();
    let mut best: usize = 0;
    let mut i: usize = 1;
    while i < n
        invariant
            0 <= best < i <= n,
            n == v@.len(),
            forall|j: int| 0 <= j < i ==> v@[best as int] <= #[trigger] v@[j],
        decreases n - i,
    {
        if v[i] < v[best] {
            best = i;
        }
        i = i + 1;
    }
    best
}

impl PartialEq for Cycle {
    /// Structural equality over the canonical sequences.
    fn eq(&self, other: &Self) -> (r: bool) {
        vecs_equal(&self.0, &other.0)
    }
}

impl vstd::std_specs::cmp::PartialEqSpecImpl for Cycle {
    open spec fn obeys_eq_spec() -> bool {
        true
    }

    open spec fn eq_spec(&self, other: &Cycle) -> bool {
        self@ == other@
    }
}

/// Element-wise comparison of two vectors.
fn vecs_equal(a: &Vec<u32>, b: &Vec<u32>) -> (r: bool)
    ensures
        r == (a@ == b@),
{
    if a.len() != b.len() {
        return false;
    }
    let n = a.len();
    let mut i: usize = 0;
    while i < n
        invariant
            0 <= i <= n,
            n == a@.len() == b@.len(),
            forall|j: int| 0 <= j < i ==> a@[j] == b@[j],
        decreases n - i,
    {
        if a[i] != b[i] {
            return false;
        }
        i = i + 1;
    }
    assert(a@ =~= b@);
    true
}

/// Canonicalization law: rotating a valid cycle sequence does not change its
/// canonical form, so a `Cycle` constructed from any rotation of a valid
/// sequence equals the `Cycle` constructed from the sequence itself.
pub proof fn lemma_canonical_rotation(s: Seq<u32>, k: int)
    requires
        s.len() >= 2,
        s.no_duplicates(),
        0 <= k <= s.len(),
    ensures
        canonical(rotated(s, k)) == canonical(s),
{
    let n = s.len() as int;
    let t = rotated(s, k);
    lemma_rotated_index(s, k);
    lemma_rotated_no_duplicates(s, k);
    lemma_strict_min_exists(s);
    let m = min_index(s);
    assert(is_strict_min(s, m));
    let m2 = if m >= k {
        m - k
    } else {
        m + n - k
    };
    assert(t[m2] == s[m]);
    assert forall|j: int| 0 <= j < n && j != m2 implies t[m2] < #[trigger] t[j] by {
        if j + k < n {
            assert(t[j] == s[j + k]);
            assert(j + k != m);
        } else {
            assert(t[j] == s[j + k - n]);
            assert(j + k - n != m);
        }
    }
    lemma_min_index_agrees(t, m2);
    lemma_rotated_index(t, m2);
    assert(rotated(t, m2) =~= rotated(s, m)) by {
        lemma_rotated_index(s, m);
        lemma_rotated_index(t, m2);
        assert forall|x: int| 0 <= x < n implies rotated(t, m2)[x] == rotated(s, m)[x] by {
            if x + m2 < n {
                assert(rotated(t, m2)[x] == t[x + m2]);
            } else {
                assert(rotated(t, m2)[x] == t[x + m2 - n]);
            }
        }
    }
}

} // verus!
