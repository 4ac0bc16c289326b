//! Union-find over run labels, with path compression and union by rank.

use vstd::prelude::*;

verus! {

/// `2^r`.
pub open spec fn pow2n(r: nat) -> nat
    decreases r,
{
    if r == 0 {
        1
    } else {
        2 * pow2n((r - 1) as nat)
    }
}

proof fn lemma_pow2n_monotone(a: nat, b: nat)
    requires
        a <= b,
    ensures
        pow2n(a) <= pow2n(b),
        pow2n(a) >= 1,
    decreases b,
{
    if a < b {
        lemma_pow2n_monotone(a, (b - 1) as nat);
    } else if a > 0 {
        lemma_pow2n_monotone((a - 1) as nat, (a - 1) as nat);
    }
}

proof fn lemma_pow2n_33()
    ensures
        pow2n(33) == 0x2_0000_0000,
{
    reveal_with_fuel(pow2n, 34);
}

/// Follows parent links `k` times from `x`.
pub open spec fn follow(parent: Seq<u32>, x: int, k: nat) -> int
    decreases k,
{
    if k == 0 {
        x
    } else {
        follow(parent, parent[x] as int, (k - 1) as nat)
    }
}

/// The representative of `x`: the end of its parent chain (every chain
/// reaches its root within 64 links).
pub open spec fn root_of(parent: Seq<u32>, x: int) -> int {
    follow(parent, x, 64)
}

pub open spec fn root_term(parent: Seq<u32>, size: Seq<nat>, x: int) -> nat {
    if parent[x] == x as u32 {
        size[x]
    } else {
        0
    }
}

/// The sizes of the roots among the first `k` elements, added up.
pub open spec fn roots_total(parent: Seq<u32>, size: Seq<nat>, k: int) -> nat
    decreases k,
{
    if k <= 0 {
        0
    } else {
        roots_total(parent, size, k - 1) + root_term(parent, size, k - 1)
    }
}

/// The parent forest is well formed: links stay inside, ranks grow strictly
/// along every link and stay at most 32, every root of rank `r` has at least
/// `2^r` elements, and the root sizes add up to the number of elements.
pub open spec fn forest_wf(parent: Seq<u32>, rank: Seq<u8>, size: Seq<nat>) -> bool {
    &&& parent.len() == rank.len()
    &&& parent.len() == size.len()
    &&& parent.len() <= 0x1_0000_0000
    &&& forall|x: int| 0 <= x < parent.len() ==> (#[trigger] parent[x]) < parent.len()
    &&& forall|x: int| 0 <= x < parent.len() ==> #[trigger] rank[x] <= 32
    &&& forall|x: int|
        0 <= x < parent.len() && parent[x] != x as u32 ==> rank[(#[trigger] parent[x]) as int] > rank[x]
    &&& forall|x: int|
        0 <= x < parent.len() && parent[x] == x as u32 ==> pow2n(rank[x] as nat) <= #[trigger] size[x]
    &&& roots_total(parent, size, parent.len() as int) == parent.len()
}

proof fn lemma_root_size_bound(parent: Seq<u32>, size: Seq<nat>, k: int, r: int)
    requires
        0 <= r < k <= parent.len(),
        parent.len() == size.len(),
        parent[r] == r as u32,
    ensures
        size[r] <= roots_total(parent, size, k),
    decreases k,
{
    if r < k - 1 {
        lemma_root_size_bound(parent, size, k - 1, r);
    }
}

proof fn lemma_roots_total_one_change(p1: Seq<u32>, s1: Seq<nat>, p2: Seq<u32>, s2: Seq<nat>, k: int, i: int)
    requires
        0 <= k <= p1.len(),
        p1.len() == s1.len(),
        p2.len() == p1.len(),
        s2.len() == s1.len(),
        forall|x: int| 0 <= x < p1.len() && x != i ==> root_term(p1, s1, x) == root_term(p2, s2, x),
    ensures
        roots_total(p2, s2, k) + (if 0 <= i < k { root_term(p1, s1, i) } else { 0 }) == roots_total(p1, s1, k) + (
        if 0 <= i < k {
            root_term(p2, s2, i)
        } else {
            0
        }),
    decreases k,
{
    if k > 0 {
        lemma_roots_total_one_change(p1, s1, p2, s2, k - 1, i);
    }
}

/// Within `32 - rank[x] + 1` links the chain of `x` reaches a root, and from
/// then on stays there.
proof fn lemma_follow_reaches_root(parent: Seq<u32>, rank: Seq<u8>, size: Seq<nat>, x: int, k: nat)
    requires
        forest_wf(parent, rank, size),
        0 <= x < parent.len(),
        k + rank[x] >= 33,
    ensures
        0 <= follow(parent, x, k) < parent.len(),
        parent[follow(parent, x, k)] == follow(parent, x, k) as u32,
        follow(parent, x, k) == root_of(parent, x),
    decreases 33 - rank[x],
{
    if parent[x] == x as u32 {
        lemma_follow_fixed(parent, x, k);
        lemma_follow_fixed(parent, x, 64);
    } else {
        assert(parent[x] < parent.len());
        assert(rank[parent[x] as int] > rank[x]);
        lemma_follow_reaches_root(parent, rank, size, parent[x] as int, (k - 1) as nat);
        lemma_follow_reaches_root(parent, rank, size, parent[x] as int, 63);
    }
}

proof fn lemma_follow_fixed(parent: Seq<u32>, x: int, k: nat)
    requires
        0 <= x < parent.len(),
        parent.len() <= 0x1_0000_0000,
        parent[x] == x as u32,
    ensures
        follow(parent, x, k) == x,
    decreases k,
{
    if k > 0 {
        lemma_follow_fixed(parent, x, (k - 1) as nat);
    }
}

/// The representative of `x` is a root, and a non-root shares its
/// parent's representative.
proof fn lemma_root_of_props(parent: Seq<u32>, rank: Seq<u8>, size: Seq<nat>, x: int)
    requires
        forest_wf(parent, rank, size),
        0 <= x < parent.len(),
    ensures
        0 <= root_of(parent, x) < parent.len(),
        parent[root_of(parent, x)] == root_of(parent, x) as u32,
        parent[x] == x as u32 ==> root_of(parent, x) == x,
        parent[x] != x as u32 ==> root_of(parent, x) == root_of(parent, parent[x] as int),
{
    lemma_follow_reaches_root(parent, rank, size, x, 64);
    if parent[x] == x as u32 {
        lemma_follow_fixed(parent, x, 64);
    } else {
        lemma_follow_reaches_root(parent, rank, size, parent[x] as int, 63);
        lemma_follow_reaches_root(parent, rank, size, parent[x] as int, 64);
    }
}

/// Two well-formed forests on the same elements where every element has
/// the same representative through its new parent as through its old one
/// have the same representatives.
proof fn lemma_same_roots(p1: Seq<u32>, r1: Seq<u8>, s1: Seq<nat>, p2: Seq<u32>, r2: Seq<u8>, s2: Seq<nat>, x: int)
    requires
        forest_wf(p1, r1, s1),
        forest_wf(p2, r2, s2),
        p1.len() == p2.len(),
        0 <= x < p1.len(),
        forall|y: int| 0 <= y < p1.len() && p2[y] == y as u32 ==> p1[y] == y as u32,
        forall|y: int|
            0 <= y < p1.len() && p2[y] != y as u32 ==> root_of(p1, p2[y] as int) == #[trigger] root_of(p1, y),
    ensures
        root_of(p2, x) == root_of(p1, x),
    decreases 33 - r2[x],
{
    lemma_root_of_props(p2, r2, s2, x);
    lemma_root_of_props(p1, r1, s1, x);
    if p2[x] != x as u32 {
        lemma_same_roots(p1, r1, s1, p2, r2, s2, p2[x] as int);
    }
}

/// The representative that survives merging the sets of representatives
/// `ra` and `rb`: the one of higher rank, `ra` on a tie.
pub open spec fn link_winner(ranks: Seq<u8>, ra: int, rb: int) -> int {
    if ranks[ra] < ranks[rb] {
        rb
    } else {
        ra
    }
}

/// The ranks after merging the sets of representatives `ra` and `rb`: two
/// distinct representatives of equal rank raise the rank of `ra` by one.
pub open spec fn link_ranks(ranks: Seq<u8>, ra: int, rb: int) -> Seq<u8> {
    if ra != rb && ranks[ra] == ranks[rb] {
        ranks.update(ra, (ranks[ra] + 1) as u8)
    } else {
        ranks
    }
}

/// The representatives and ranks of every label after merging the sets of
/// labels `a` and `b`.
pub open spec fn model_union(reps: Seq<int>, ranks: Seq<u8>, a: int, b: int) -> (Seq<int>, Seq<u8>) {
    let ra = reps[a];
    let rb = reps[b];
    let w = link_winner(ranks, ra, rb);
    (Seq::new(reps.len(), |y: int| if reps[y] == ra || reps[y] == rb { w } else { reps[y] }), link_ranks(ranks, ra, rb))
}

/// The representatives and ranks of `n` singleton labels after the merges
/// `pairs`, applied in order.
pub open spec fn model_after(n: nat, pairs: Seq<(int, int)>) -> (Seq<int>, Seq<u8>)
    decreases pairs.len(),
{
    if pairs.len() == 0 {
        (Seq::new(n, |k: int| k), Seq::new(n, |k: int| 0u8))
    } else {
        let s = model_after(n, pairs.drop_last());
        model_union(s.0, s.1, pairs.last().0, pairs.last().1)
    }
}

pub open spec fn singleton_at(parent: Seq<u32>, rank: Seq<u8>, size: Seq<nat>, x: int) -> bool {
    parent[x] == x as u32 && rank[x] == 0 && size[x] == 1
}

/// Disjoint sets over the labels `0..len`, each label pointing toward the
/// representative of its set.
pub struct RunDsu {
    parent: Vec<u32>,
    rank: Vec<u8>,
    size: Ghost<Seq<nat>>,
}

impl RunDsu {
    /// The structure is well formed.
    pub closed spec fn wf(&self) -> bool {
        forest_wf(self.parent@, self.rank@, self.size@)
    }

    /// The rank of label `x`: the bound on the length of its chain.
    pub closed spec fn rank_of(&self, x: int) -> int {
        self.rank@[x] as int
    }

    /// Whether label `x` is the representative of its set.
    pub closed spec fn is_root(&self, x: int) -> bool {
        self.parent@[x] == x as u32
    }

    /// The ranks of the labels.
    pub closed spec fn ranks(&self) -> Seq<u8> {
        self.rank@
    }

    /// The sizes recorded for the representatives.
    pub closed spec fn sizes(&self) -> Seq<nat> {
        self.size@
    }

    /// The number of labels.
    pub closed spec fn spec_len(&self) -> nat {
        self.parent@.len()
    }

    /// The representative of the set holding `x`.
    pub closed spec fn rep(&self, x: int) -> int {
        root_of(self.parent@, x)
    }

    /// The representative of every label, in label order.
    pub open spec fn reps(&self) -> Seq<int> {
        Seq::new(self.spec_len(), |x: int| self.rep(x))
    }

    /// `len` singleton sets, one per label.
    pub fn new(len: usize) -> (d: Self)
        requires
            len <= u32::MAX,
        ensures
            d.wf(),
            d.spec_len() == len,
            forall|x: int| 0 <= x < len ==> #[trigger] d.rep(x) == x,
            d.ranks() == Seq::new(len as nat, |k: int| 0u8),
    {
        let mut parent: Vec<u32> = Vec::new();
        let mut rank: Vec<u8> = Vec::new();
        let ghost mut size: Seq<nat> = Seq::empty();
        let mut i: u32 = 0;
        while (i as usize) < len
            invariant
                len <= u32::MAX,
                i <= len,
                parent@.len() == i,
                rank@.len() == i,
                size.len() == i,
                forall|x: int| 0 <= x < i ==> #[trigger] singleton_at(parent@, rank@, size, x),
                roots_total(parent@, size, i as int) == i,
            decreases len - i,
        {
            let ghost old_parent = parent@;
            let ghost old_size = size;
            let ghost old_rank = rank@;
            parent.push(i);
            rank.push(0);
            proof {
                size = size.push(1);
                assert forall|x: int| 0 <= x < i + 1 implies #[trigger] singleton_at(parent@, rank@, size, x) by {
                    if x < i {
                        assert(singleton_at(old_parent, old_rank, old_size, x));
                    }
                }
                assert(roots_total(parent@, size, i as int) == roots_total(old_parent, old_size, i as int)) by {
                    lemma_roots_total_one_change(old_parent.push(0), old_size.push(0), parent@, size, i as int, i as int);
                    lemma_roots_total_eq_prefix(old_parent, old_size, old_parent.push(0), old_size.push(0), i as int);
                }
            }
            i += 1;
        }
        let d = RunDsu { parent, rank, size: Ghost(size) };
        proof {
            assert forall|x: int| 0 <= x < len implies #[trigger] d.rep(x) == x by {
                assert(singleton_at(d.parent@, d.rank@, d.size@, x));
                lemma_follow_fixed(d.parent@, x, 64);
            }
            assert forall|x: int| 0 <= x < d.parent@.len() implies (#[trigger] d.parent@[x]) < d.parent@.len() by {
                assert(singleton_at(d.parent@, d.rank@, d.size@, x));
            }
            assert forall|x: int| 0 <= x < d.parent@.len() implies #[trigger] d.rank@[x] <= 32 by {
                assert(singleton_at(d.parent@, d.rank@, d.size@, x));
            }
            assert forall|x: int| 0 <= x < d.parent@.len() && d.parent@[x] != x as u32 implies d.rank@[(#[trigger] d.parent@[x]) as int]
                > d.rank@[x] by {
                assert(singleton_at(d.parent@, d.rank@, d.size@, x));
            }
            assert forall|x: int| 0 <= x < d.parent@.len() && d.parent@[x] == x as u32 implies pow2n(d.rank@[x] as nat)
                <= #[trigger] d.size@[x] by {
                assert(singleton_at(d.parent@, d.rank@, d.size@, x));
                reveal_with_fuel(pow2n, 1);
            }
            assert forall|k: int| 0 <= k < len implies d.rank@[k] == 0u8 by {
                assert(singleton_at(d.parent@, d.rank@, d.size@, k));
            }
            assert(d.ranks() =~= Seq::new(len as nat, |k: int| 0u8));
        }
        d
    }

    /// The number of labels.
    pub fn len(&self) -> (n: usize)
        ensures
            n == self.spec_len(),
    {
        self.parent.len()
    }

    /// The representative of the set holding `x`; shortens the links on the
    /// way without changing any set.
    pub fn find(&mut self, x: u32) -> (r: u32)
        requires
            old(self).wf(),
            x < old(self).spec_len(),
        ensures
            final(self).wf(),
            final(self).spec_len() == old(self).spec_len(),
            r == old(self).rep(x as int),
            forall|y: int| 0 <= y < old(self).spec_len() ==> #[trigger] final(self).rep(y) == old(self).rep(y),
            final(self).ranks() == old(self).ranks(),
            final(self).sizes() == old(self).sizes(),
            forall|y: int| 0 <= y < old(self).spec_len() ==> (#[trigger] final(self).is_root(y) <==> old(self).is_root(y)),
        decreases 33 - old(self).rank_of(x as int),
    {
        proof {
            lemma_root_of_props(self.parent@, self.rank@, self.size@, x as int);
        }
        let idx = x as usize;
        let parent = self.parent[idx];
        if parent == x {
            return x;
        }
        let ghost p0 = self.parent@;
        let ghost r0 = self.rank@;
        let ghost s0 = self.size@;
        let root = self.find(parent);
        let ghost p1 = self.parent@;
        proof {
            assert(self.rep(parent as int) == root_of(p0, parent as int));
            assert(self.rep(x as int) == root_of(p0, x as int));
            lemma_rank_below_root(p0, r0, s0, parent as int);
            assert(r0[root as int] > r0[x as int]);
            let xr = self.is_root(x as int);
            assert(!xr);
            assert(p1[x as int] != x);
            assert forall|y: int| 0 <= y < p0.len() implies #[trigger] root_of(p1, y) == root_of(p0, y) by {
                assert(self.rep(y) == root_of(p1, y));
            }
            assert forall|y: int| 0 <= y < p0.len() implies (#[trigger] p1[y] == y as u32) == (p0[y] == y as u32) by {
                let yr = self.is_root(y);
            }
            lemma_root_of_props(p0, r0, s0, x as int);
            lemma_compress(p1, r0, s0, x as int, root as int);
        }
        self.parent.set(idx, root);
        proof {
            assert forall|y: int| 0 <= y < p0.len() implies #[trigger] root_of(self.parent@, y) == root_of(p0, y) by {
                assert(root_of(p1, y) == root_of(p0, y));
            }
        }
        root
    }

    /// Merges the sets holding `a` and `b`; the lower-ranked representative
    /// is linked under the other (the first on a tie, whose rank then grows).
    pub fn union(&mut self, a: u32, b: u32)
        requires
            old(self).wf(),
            a < old(self).spec_len(),
            b < old(self).spec_len(),
        ensures
            final(self).wf(),
            final(self).spec_len() == old(self).spec_len(),
            final(self).reps() == model_union(old(self).reps(), old(self).ranks(), a as int, b as int).0,
            final(self).ranks() == model_union(old(self).reps(), old(self).ranks(), a as int, b as int).1,
            final(self).rep(a as int) == final(self).rep(b as int),
            final(self).rep(a as int) == old(self).rep(a as int) || final(self).rep(a as int) == old(self).rep(b as int),
            forall|y: int|
                0 <= y < old(self).spec_len() ==> #[trigger] final(self).rep(y) == if old(self).rep(y) == old(self).rep(a as int)
                    || old(self).rep(y) == old(self).rep(b as int) {
                    final(self).rep(a as int)
                } else {
                    old(self).rep(y)
                },
    {
        let ghost d0 = *self;
        self.link(a, b);
        proof {
            assert(self.reps() =~= model_union(d0.reps(), d0.ranks(), a as int, b as int).0);
        }
    }

    fn link(&mut self, a: u32, b: u32)
        requires
            old(self).wf(),
            a < old(self).spec_len(),
            b < old(self).spec_len(),
        ensures
            final(self).wf(),
            final(self).spec_len() == old(self).spec_len(),
            final(self).rep(a as int) == final(self).rep(b as int),
            final(self).rep(a as int) == link_winner(old(self).ranks(), old(self).rep(a as int), old(self).rep(b as int)),
            final(self).ranks() == link_ranks(old(self).ranks(), old(self).rep(a as int), old(self).rep(b as int)),
            final(self).rep(a as int) == old(self).rep(a as int) || final(self).rep(a as int) == old(self).rep(b as int),
            forall|y: int|
                0 <= y < old(self).spec_len() ==> #[trigger] final(self).rep(y) == if old(self).rep(y) == old(self).rep(a as int)
                    || old(self).rep(y) == old(self).rep(b as int) {
                    final(self).rep(a as int)
                } else {
                    old(self).rep(y)
                },
    {
        let ghost p0 = self.parent@;
        let mut root_a = self.find(a);
        let ghost pm = self.parent@;
        proof {
            assert forall|y: int| 0 <= y < p0.len() implies #[trigger] root_of(pm, y) == root_of(p0, y) by {
                assert(self.rep(y) == root_of(pm, y));
            }
        }
        let mut root_b = self.find(b);
        let ghost p1 = self.parent@;
        proof {
            assert forall|y: int| 0 <= y < p0.len() implies #[trigger] root_of(p1, y) == root_of(pm, y) by {
                assert(self.rep(y) == root_of(p1, y));
            }
            assert(self.rep(a as int) == root_of(pm, a as int));
            assert(root_of(pm, a as int) == root_of(p0, a as int));
            assert(self.rep(b as int) == root_of(p0, b as int)) by {
                assert(old(self).rep(b as int) == root_of(p0, b as int));
            }
        }
        let ghost r1 = self.rank@;
        let ghost s1 = self.size@;
        proof {
            lemma_root_of_props(p1, r1, s1, a as int);
            lemma_root_of_props(p1, r1, s1, b as int);
        }
        if root_a == root_b {
            return;
        }
        let ghost first = root_a as int;
        let ghost second = root_b as int;
        let rank_a = self.rank[root_a as usize];
        let rank_b = self.rank[root_b as usize];
        if rank_a < rank_b {
            let t = root_a;
            root_a = root_b;
            root_b = t;
        }
        let ghost ra = root_a as int;
        let ghost rb = root_b as int;
        let high = self.rank[root_a as usize];
        let low = self.rank[root_b as usize];
        proof {
            lemma_link(p1, r1, s1, ra, rb);
        }
        self.parent.set(root_b as usize, root_a);
        if high == low {
            self.rank.set(root_a as usize, high + 1);
        }
        proof {
            self.size@ = s1.update(ra, s1[ra] + s1[rb]);
            let p2 = self.parent@;
            assert(forall|y: int| 0 <= y < p2.len() ==> #[trigger] root_of(p2, y) == if root_of(p1, y) == rb {
                ra
            } else {
                root_of(p1, y)
            });
            assert(root_of(p2, a as int) == ra);
            assert(root_of(p2, b as int) == ra);
            assert(ra == link_winner(r1, first, second));
            assert(self.rank@ == link_ranks(r1, first, second));
            assert forall|y: int| 0 <= y < p2.len() implies #[trigger] root_of(p2, y) == if root_of(p0, y) == root_of(p0, a as int)
                || root_of(p0, y) == root_of(p0, b as int) {
                ra
            } else {
                root_of(p0, y)
            } by {
                assert(root_of(p1, y) == root_of(pm, y));
                assert(root_of(pm, y) == root_of(p0, y));
                lemma_root_of_props(p1, r1, s1, y);
            }
        }
    }
}

/// Linking a non-root `x` straight to its representative keeps the forest
/// well formed and every representative.
proof fn lemma_compress(p1: Seq<u32>, r: Seq<u8>, s: Seq<nat>, x: int, root: int)
    requires
        forest_wf(p1, r, s),
        0 <= x < p1.len(),
        p1[x] != x as u32,
        root == root_of(p1, x),
        r[root] > r[x],
    ensures
        forest_wf(p1.update(x, root as u32), r, s),
        forall|y: int| 0 <= y < p1.len() ==> #[trigger] root_of(p1.update(x, root as u32), y) == root_of(p1, y),
{
    let p2 = p1.update(x, root as u32);
    lemma_root_of_props(p1, r, s, x);
    assert(root != x);
    assert(roots_total(p2, s, p2.len() as int) == roots_total(p1, s, p1.len() as int)) by {
        lemma_roots_total_one_change(p1, s, p2, s, p1.len() as int, x);
    }
    assert forall|y: int| 0 <= y < p2.len() && p2[y] != y as u32 implies r[(#[trigger] p2[y]) as int] > r[y] by {
        if y != x {
            assert(p2[y] == p1[y]);
        }
    }
    assert forall|y: int| 0 <= y < p2.len() implies (#[trigger] p2[y]) < p2.len() by {}
    assert(forest_wf(p2, r, s));
    assert forall|y: int| 0 <= y < p2.len() && p2[y] != y as u32 implies root_of(p1, p2[y] as int)
        == #[trigger] root_of(p1, y) by {
        lemma_root_of_props(p1, r, s, y);
        if y == x {
            lemma_root_of_props(p1, r, s, root);
        }
    }
    assert forall|y: int| 0 <= y < p1.len() implies #[trigger] root_of(p2, y) == root_of(p1, y) by {
        lemma_same_roots(p1, r, s, p2, r, s, y);
    }
}

/// Linking root `rb` under root `ra` (of at least its rank; the rank of
/// `ra` grows on a tie) keeps the forest well formed and sends exactly the
/// set of `rb` to `ra`.
proof fn lemma_link(p1: Seq<u32>, r1: Seq<u8>, s1: Seq<nat>, ra: int, rb: int)
    requires
        forest_wf(p1, r1, s1),
        0 <= ra < p1.len(),
        0 <= rb < p1.len(),
        ra != rb,
        p1[ra] == ra as u32,
        p1[rb] == rb as u32,
        r1[ra] >= r1[rb],
    ensures
        ({
            let p2 = p1.update(rb, ra as u32);
            let r2 = if r1[ra] == r1[rb] { r1.update(ra, (r1[ra] + 1) as u8) } else { r1 };
            let s2 = s1.update(ra, s1[ra] + s1[rb]);
            &&& forest_wf(p2, r2, s2)
            &&& forall|y: int| 0 <= y < p1.len() ==> #[trigger] root_of(p2, y) == if root_of(p1, y) == rb {
                ra
            } else {
                root_of(p1, y)
            }
        }),
{
    let p2 = p1.update(rb, ra as u32);
    let high = r1[ra];
    let low = r1[rb];
    let r2 = if high == low { r1.update(ra, (high + 1) as u8) } else { r1 };
    let s2 = s1.update(ra, s1[ra] + s1[rb]);
    lemma_two_roots_bound(p1, s1, p1.len() as int, ra, rb);
    if high == low {
        assert(pow2n(high as nat + 1) == 2 * pow2n(high as nat));
        if high >= 32 {
            lemma_pow2n_monotone(33, high as nat + 1);
            lemma_pow2n_33();
        }
    }
    assert(roots_total(p2, s2, p2.len() as int) == p2.len()) by {
        lemma_roots_total_one_change(p1, s1, p1, s2, p1.len() as int, ra);
        lemma_roots_total_one_change(p1, s2, p2, s2, p1.len() as int, rb);
    }
    assert forall|y: int| 0 <= y < p2.len() && p2[y] != y as u32 implies r2[(#[trigger] p2[y]) as int] > r2[y] by {
        if y != rb {
            assert(p2[y] == p1[y]);
            assert(r1[p1[y] as int] > r1[y]);
        }
    }
    assert forall|y: int| 0 <= y < p2.len() && p2[y] == y as u32 implies pow2n(r2[y] as nat) <= #[trigger] s2[y] by {
        if y == ra && high == low {
            assert(pow2n(high as nat + 1) == 2 * pow2n(high as nat));
        }
    }
    assert forall|y: int| 0 <= y < p2.len() implies #[trigger] r2[y] <= 32 by {}
    assert forall|y: int| 0 <= y < p2.len() implies (#[trigger] p2[y]) < p2.len() by {}
    assert(forest_wf(p2, r2, s2));
    assert forall|y: int| 0 <= y < p1.len() implies #[trigger] root_of(p2, y) == if root_of(p1, y) == rb {
        ra
    } else {
        root_of(p1, y)
    } by {
        lemma_union_roots(p1, r1, s1, p2, r2, s2, ra, rb, y);
    }
}

proof fn lemma_rank_below_root(parent: Seq<u32>, rank: Seq<u8>, size: Seq<nat>, x: int)
    requires
        forest_wf(parent, rank, size),
        0 <= x < parent.len(),
    ensures
        rank[root_of(parent, x)] >= rank[x],
    decreases 33 - rank[x],
{
    lemma_root_of_props(parent, rank, size, x);
    if parent[x] != x as u32 {
        lemma_rank_below_root(parent, rank, size, parent[x] as int);
    }
}

proof fn lemma_roots_total_eq_prefix(p1: Seq<u32>, s1: Seq<nat>, p2: Seq<u32>, s2: Seq<nat>, k: int)
    requires
        0 <= k <= p1.len(),
        k <= p2.len(),
        p1.len() == s1.len(),
        p2.len() == s2.len(),
        forall|x: int| 0 <= x < k ==> p1[x] == p2[x] && s1[x] == s2[x],
    ensures
        roots_total(p1, s1, k) == roots_total(p2, s2, k),
    decreases k,
{
    if k > 0 {
        lemma_roots_total_eq_prefix(p1, s1, p2, s2, k - 1);
    }
}

proof fn lemma_two_roots_bound(parent: Seq<u32>, size: Seq<nat>, k: int, a: int, b: int)
    requires
        0 <= a < k,
        0 <= b < k,
        a != b,
        k <= parent.len(),
        parent.len() == size.len(),
        parent[a] == a as u32,
        parent[b] == b as u32,
    ensures
        size[a] + size[b] <= roots_total(parent, size, k),
    decreases k,
{
    if a == k - 1 {
        lemma_root_size_bound(parent, size, k - 1, b);
    } else if b == k - 1 {
        lemma_root_size_bound(parent, size, k - 1, a);
    } else {
        lemma_two_roots_bound(parent, size, k - 1, a, b);
    }
}

proof fn lemma_union_roots(
    p1: Seq<u32>,
    r1: Seq<u8>,
    s1: Seq<nat>,
    p2: Seq<u32>,
    r2: Seq<u8>,
    s2: Seq<nat>,
    ra: int,
    rb: int,
    y: int,
)
    requires
        forest_wf(p1, r1, s1),
        forest_wf(p2, r2, s2),
        p1.len() == p2.len(),
        0 <= ra < p1.len(),
        0 <= rb < p1.len(),
        ra != rb,
        p1[ra] == ra as u32,
        p1[rb] == rb as u32,
        p2 == p1.update(rb, ra as u32),
        0 <= y < p1.len(),
    ensures
        root_of(p2, y) == if root_of(p1, y) == rb {
            ra
        } else {
            root_of(p1, y)
        },
    decreases 33 - r2[y],
{
    lemma_root_of_props(p1, r1, s1, y);
    lemma_root_of_props(p2, r2, s2, y);
    if y == rb {
        lemma_root_of_props(p2, r2, s2, ra);
    } else if p1[y] == y as u32 {
    } else {
        lemma_union_roots(p1, r1, s1, p2, r2, s2, ra, rb, p1[y] as int);
    }
}

} // verus!

verus! {

impl RunDsu {
    /// Adds a new singleton set and returns its label.
    pub fn make_set(&mut self) -> (label: u32)
        requires
            old(self).wf(),
            old(self).spec_len() < u32::MAX,
        ensures
            final(self).wf(),
            final(self).spec_len() == old(self).spec_len() + 1,
            label == old(self).spec_len(),
            final(self).rep(label as int) == label,
            forall|y: int| 0 <= y < old(self).spec_len() ==> #[trigger] final(self).rep(y) == old(self).rep(y),
            final(self).ranks() == old(self).ranks().push(0u8),
    {
        let ghost p0 = self.parent@;
        let ghost r0 = self.rank@;
        let ghost s0 = self.size@;
        let idx = self.parent.len() as u32;
        self.parent.push(idx);
        self.rank.push(0);
        proof {
            self.size@ = s0.push(1);
            let p1 = self.parent@;
            let s1 = self.size@;
            let n = p0.len() as int;
            assert(roots_total(p1, s1, n + 1) == n + 1) by {
                lemma_roots_total_eq_prefix(p0, s0, p1, s1, n);
            }
            assert forall|x: int| 0 <= x < p1.len() && p1[x] == x as u32 implies pow2n(self.rank@[x] as nat)
                <= #[trigger] s1[x] by {
                if x == n {
                    reveal_with_fuel(pow2n, 1);
                }
            }
            assert forall|x: int| 0 <= x < p1.len() implies (#[trigger] p1[x]) < p1.len() by {}
            assert forall|x: int| 0 <= x < p1.len() implies #[trigger] self.rank@[x] <= 32 by {}
            assert(forest_wf(p1, self.rank@, s1));
            assert forall|y: int| 0 <= y < p0.len() implies #[trigger] root_of(p1, y) == root_of(p0, y) by {
                lemma_prefix_roots(p0, r0, s0, p1, self.rank@, s1, y);
            }
            lemma_follow_fixed(p1, n, 64);
        }
        idx
    }
}

/// Extending a forest with new elements keeps the representatives of the
/// old ones.
proof fn lemma_prefix_roots(p0: Seq<u32>, r0: Seq<u8>, s0: Seq<nat>, p1: Seq<u32>, r1: Seq<u8>, s1: Seq<nat>, y: int)
    requires
        forest_wf(p0, r0, s0),
        forest_wf(p1, r1, s1),
        p0.len() <= p1.len(),
        forall|x: int| 0 <= x < p0.len() ==> p1[x] == p0[x] && r1[x] == r0[x],
        0 <= y < p0.len(),
    ensures
        root_of(p1, y) == root_of(p0, y),
    decreases 33 - r0[y],
{
    lemma_root_of_props(p0, r0, s0, y);
    lemma_root_of_props(p1, r1, s1, y);
    if p0[y] != y as u32 {
        lemma_prefix_roots(p0, r0, s0, p1, r1, s1, p0[y] as int);
    }
}

/// Disjoint sets whose labels are handed out one by one; label 0 exists
/// from the start and is never handed out.
pub struct DisjointSet {
    pub sets: RunDsu,
}

impl DisjointSet {
    /// The structure is well formed.
    pub open spec fn wf(&self) -> bool {
        self.sets.wf()
    }

    /// The number of labels, the reserved label 0 included.
    pub open spec fn spec_len(&self) -> nat {
        self.sets.spec_len()
    }

    /// The representative of the set holding `x`.
    pub open spec fn rep(&self, x: int) -> int {
        self.sets.rep(x)
    }

    /// The ranks of the labels.
    pub open spec fn ranks(&self) -> Seq<u8> {
        self.sets.ranks()
    }

    /// The representative of every label, in label order.
    pub open spec fn reps(&self) -> Seq<int> {
        self.sets.reps()
    }

    /// A structure holding only the reserved label 0.
    pub fn new() -> (d: Self)
        ensures
            d.wf(),
            d.spec_len() == 1,
            d.rep(0) == 0,
            d.ranks() == seq![0u8],
    {
        let d = DisjointSet { sets: RunDsu::new(1) };
        proof {
            assert(d.ranks() =~= seq![0u8]);
        }
        d
    }

    /// The number of labels, the reserved label 0 included.
    pub fn len(&self) -> (n: usize)
        ensures
            n == self.spec_len(),
    {
        self.sets.len()
    }

    /// A new singleton set; returns its label.
    pub fn make_set(&mut self) -> (label: u32)
        requires
            old(self).wf(),
            old(self).spec_len() < u32::MAX,
        ensures
            final(self).wf(),
            final(self).spec_len() == old(self).spec_len() + 1,
            label == old(self).spec_len(),
            final(self).rep(label as int) == label,
            forall|y: int| 0 <= y < old(self).spec_len() ==> #[trigger] final(self).rep(y) == old(self).rep(y),
            final(self).ranks() == old(self).ranks().push(0u8),
    {
        self.sets.make_set()
    }

    /// The representative of the set holding `x`.
    pub fn find(&mut self, x: u32) -> (r: u32)
        requires
            old(self).wf(),
            x < old(self).spec_len(),
        ensures
            final(self).wf(),
            final(self).spec_len() == old(self).spec_len(),
            r == old(self).rep(x as int),
            forall|y: int| 0 <= y < old(self).spec_len() ==> #[trigger] final(self).rep(y) == old(self).rep(y),
            final(self).ranks() == old(self).ranks(),
    {
        self.sets.find(x)
    }

    /// Merges the sets holding `a` and `b`.
    pub fn union(&mut self, a: u32, b: u32)
        requires
            old(self).wf(),
            a < old(self).spec_len(),
            b < old(self).spec_len(),
        ensures
            final(self).wf(),
            final(self).spec_len() == old(self).spec_len(),
            final(self).reps() == model_union(old(self).reps(), old(self).ranks(), a as int, b as int).0,
            final(self).ranks() == model_union(old(self).reps(), old(self).ranks(), a as int, b as int).1,
            final(self).rep(a as int) == final(self).rep(b as int),
            final(self).rep(a as int) == old(self).rep(a as int) || final(self).rep(a as int) == old(self).rep(b as int),
            forall|y: int|
                0 <= y < old(self).spec_len() ==> #[trigger] final(self).rep(y) == if old(self).rep(y) == old(self).rep(a as int)
                    || old(self).rep(y) == old(self).rep(b as int) {
                    final(self).rep(a as int)
                } else {
                    old(self).rep(y)
                },
    {
        self.sets.union(a, b)
    }
}

impl RunDsu {
    /// Representatives are labels of the structure.
    pub proof fn lemma_rep_in_range(&self, x: int)
        requires
            self.wf(),
            0 <= x < self.spec_len(),
        ensures
            0 <= self.rep(x) < self.spec_len(),
            self.rep(self.rep(x)) == self.rep(x),
    {
        lemma_root_of_props(self.parent@, self.rank@, self.size@, x);
        lemma_follow_fixed(self.parent@, self.rep(x), 64);
    }
}

impl DisjointSet {
    /// Representatives are labels of the structure.
    pub proof fn lemma_rep_in_range(&self, x: int)
        requires
            self.wf(),
            0 <= x < self.spec_len(),
        ensures
            0 <= self.rep(x) < self.spec_len(),
            self.rep(self.rep(x)) == self.rep(x),
    {
        self.sets.lemma_rep_in_range(x);
    }
}

} // verus!
