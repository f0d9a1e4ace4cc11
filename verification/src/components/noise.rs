use std::sync::Arc;

use vstd::prelude::*;

verus! {

/// Number of lattice gradients of a Perlin noise, and the length of each of
/// its permutation tables.
pub const POINT_COUNT: usize = 256;

/// `s` with the entries at `a` and `b` exchanged.
pub open spec fn swapped(s: Seq<usize>, a: int, b: int) -> Seq<usize> {
    s.update(a, s[b]).update(b, s[a])
}

/// The table that the shuffle leaves behind: going down from position `top`,
/// the entry at each position is exchanged with the one at the next target.
pub open spec fn shuffled(s: Seq<usize>, top: int, targets: Seq<usize>) -> Seq<usize>
    decreases targets.len(),
{
    if targets.len() == 0 {
        s
    } else {
        shuffled(swapped(s, top, targets[0] as int), top - 1, targets.drop_first())
    }
}

/// The table `0, 1, ..., n - 1`.
pub open spec fn identity_table(n: nat) -> Seq<usize> {
    Seq::new(n, |i: int| i as usize)
}

/// `s` holds each of `0, 1, ..., n - 1` exactly once.
pub open spec fn is_permutation(s: Seq<usize>, n: nat) -> bool {
    &&& s.len() == n
    &&& forall|i: int| 0 <= i < n ==> #[trigger] s[i] < n
    &&& forall|i: int, j: int| 0 <= i < n && 0 <= j < n && i != j ==> s[i] != s[j]
}

/// The table position that an integer lattice coordinate falls on: the
/// coordinate taken modulo the table length (so negative coordinates wrap).
pub open spec fn lattice_slot(c: isize) -> int {
    (c as int) % (POINT_COUNT as int)
}

/// Index of the gradient at lattice point `(i, j, k)`: the three permuted slots
/// combined by exclusive or.
pub open spec fn lattice_hash(
    perm_x: Seq<usize>,
    perm_y: Seq<usize>,
    perm_z: Seq<usize>,
    i: isize,
    j: isize,
    k: isize,
) -> usize {
    perm_x[lattice_slot(i)] ^ perm_y[lattice_slot(j)] ^ perm_z[lattice_slot(k)]
}

/// Exchanging two entries in range keeps a table a permutation.
pub proof fn lemma_swap_keeps_permutation(s: Seq<usize>, n: nat, a: int, b: int)
    requires
        is_permutation(s, n),
        0 <= a < n,
        0 <= b < n,
    ensures
        is_permutation(swapped(s, a, b), n),
{
    let t = swapped(s, a, b);
    assert forall|i: int| 0 <= i < n implies #[trigger] t[i] < n by {
        if i == b {
        } else if i == a {
        } else {
        }
    }
    assert forall|i: int, j: int| 0 <= i < n && 0 <= j < n && i != j implies t[i] != t[j] by {
        let si = if i == b { a } else if i == a { b } else { i };
        let sj = if j == b { a } else if j == a { b } else { j };
        assert(t[i] == s[si]);
        assert(t[j] == s[sj]);
    }
}

/// Law: shuffling a permutation with targets in range gives a permutation again.
pub proof fn lemma_shuffle_keeps_permutation(s: Seq<usize>, n: nat, top: int, targets: Seq<usize>)
    requires
        is_permutation(s, n),
        top < n,
        top + 1 >= targets.len(),
        forall|k: int| 0 <= k < targets.len() ==> #[trigger] targets[k] < n,
    ensures
        is_permutation(shuffled(s, top, targets), n),
    decreases targets.len(),
{
    if targets.len() > 0 {
        lemma_swap_keeps_permutation(s, n, top, targets[0] as int);
        let rest = targets.drop_first();
        assert forall|k: int| 0 <= k < rest.len() implies #[trigger] rest[k] < n by {
            assert(rest[k] == targets[k + 1]);
        }
        lemma_shuffle_keeps_permutation(swapped(s, top, targets[0] as int), n, top - 1, rest);
    }
}

/// Law: the table `0, 1, ..., n - 1` is a permutation.
pub proof fn lemma_identity_is_permutation(n: nat)
    requires
        n <= usize::MAX,
    ensures
        is_permutation(identity_table(n), n),
{
    let t = identity_table(n);
    assert forall|i: int| 0 <= i < n implies #[trigger] t[i] == i by {}
}


/// The table after the first `k` steps of shuffling `s` downwards from
/// position `top`: step `m` (counting from 0) exchanges the entries at
/// positions `top - m` and `targets[m]`.
pub open spec fn swap_steps(s: Seq<usize>, top: int, targets: Seq<usize>, k: int) -> Seq<usize>
    decreases k,
{
    if k <= 0 {
        s
    } else {
        let r = swap_steps(s, top, targets, k - 1);
        let i = top - (k - 1);
        let t = targets[k - 1] as int;
        r.update(i, r[t]).update(t, r[i])
    }
}

/// The steps keep the length of the table, as long as they stay inside it.
pub proof fn lemma_swap_steps_len(s: Seq<usize>, top: int, targets: Seq<usize>, k: int)
    requires
        0 <= k <= targets.len(),
        top < s.len(),
        k <= top + 1,
        forall|m: int| 0 <= m < targets.len() ==> #[trigger] targets[m] < s.len(),
    ensures
        swap_steps(s, top, targets, k).len() == s.len(),
    decreases k,
{
    if k > 0 {
        lemma_swap_steps_len(s, top, targets, k - 1);
    }
}

/// Doing the first step and then `k` steps from one position lower is doing
/// `k + 1` steps.
proof fn lemma_swap_steps_first(s: Seq<usize>, top: int, targets: Seq<usize>, k: int)
    requires
        0 <= k < targets.len(),
    ensures
        swap_steps(s, top, targets, k + 1)
            == swap_steps(swapped(s, top, targets[0] as int), top - 1, targets.drop_first(), k),
    decreases k,
{
    let s1 = swapped(s, top, targets[0] as int);
    let rest = targets.drop_first();
    if k > 0 {
        lemma_swap_steps_first(s, top, targets, k - 1);
        assert(rest[k - 1] == targets[k]);
        let r = swap_steps(s, top, targets, k);
        assert(swap_steps(s, top, targets, k + 1) == r.update(top - k, r[targets[k] as int]).update(
            targets[k] as int,
            r[top - k],
        ));
        let r1 = swap_steps(s1, top - 1, rest, k - 1);
        assert(swap_steps(s1, top - 1, rest, k) == r1.update(top - 1 - (k - 1), r1[rest[k - 1] as int]).update(
            rest[k - 1] as int,
            r1[top - 1 - (k - 1)],
        ));
    } else {
        assert(swap_steps(s, top, targets, 0) == s);
        assert(swap_steps(s1, top - 1, rest, 0) == s1);
    }
}

/// Law: the shuffle is the sequence of plain exchanges of position `top - m`
/// with position `targets[m]`, one for each target, in order.
pub proof fn lemma_shuffled_is_swap_steps(s: Seq<usize>, top: int, targets: Seq<usize>)
    ensures
        shuffled(s, top, targets) == swap_steps(s, top, targets, targets.len() as int),
    decreases targets.len(),
{
    if targets.len() > 0 {
        let rest = targets.drop_first();
        lemma_shuffled_is_swap_steps(swapped(s, top, targets[0] as int), top - 1, rest);
        lemma_swap_steps_first(s, top, targets, rest.len() as int);
    }
}

/// Once the step at a position is done, the later steps, whose targets lie
/// below it, leave that position alone.
proof fn lemma_swap_steps_keep_done(s: Seq<usize>, top: int, targets: Seq<usize>, m: int, k: int)
    requires
        0 <= m < k <= targets.len(),
        top < s.len(),
        targets.len() <= top + 1,
        forall|q: int| 0 <= q < targets.len() ==> #[trigger] targets[q] <= top - q,
    ensures
        swap_steps(s, top, targets, k)[top - m] == swap_steps(s, top, targets, m + 1)[top - m],
    decreases k,
{
    if k > m + 1 {
        lemma_swap_steps_keep_done(s, top, targets, m, k - 1);
        lemma_swap_steps_len(s, top, targets, k - 1);
        assert(targets[k - 1] <= top - (k - 1));
        assert forall|q: int| 0 <= q < targets.len() implies #[trigger] targets[q] < s.len() by {
            assert(targets[q] <= top - q);
        }
        let r = swap_steps(s, top, targets, k - 1);
        let x = targets[k - 1] as int;
        assert(swap_steps(s, top, targets, k) == r.update(top - (k - 1), r[x]).update(x, r[top - (k - 1)]));
    }
}

/// Law: when every target lies at or below the position of its step, as the
/// renderer draws them, each position `top - m` ends up holding the entry that
/// was at `targets[m]` just before step `m`; in particular the top position
/// ends up with the original entry at `targets[0]`.
pub proof fn lemma_swap_steps_settle(s: Seq<usize>, top: int, targets: Seq<usize>)
    requires
        top < s.len(),
        targets.len() <= top + 1,
        forall|q: int| 0 <= q < targets.len() ==> 0 <= #[trigger] targets[q] <= top - q,
    ensures
        forall|m: int| 0 <= m < targets.len() ==>
            swap_steps(s, top, targets, targets.len() as int)[top - m]
                == #[trigger] swap_steps(s, top, targets, m)[targets[m] as int],
        targets.len() > 0 ==> swap_steps(s, top, targets, targets.len() as int)[top] == s[targets[0] as int],
{
    assert forall|m: int| 0 <= m < targets.len() implies
        swap_steps(s, top, targets, targets.len() as int)[top - m]
            == #[trigger] swap_steps(s, top, targets, m)[targets[m] as int] by {
        assert(targets[m] <= top - m);
        lemma_swap_steps_len(s, top, targets, m);
        lemma_swap_steps_keep_done(s, top, targets, m, targets.len() as int);
    }
    if targets.len() > 0 {
        assert(swap_steps(s, top, targets, 0)[targets[0] as int] == s[targets[0] as int]);
    }
}

/// The shuffle of a permutation table: for `i` from `n - 1` down to `1`, the
/// entry at `i` is exchanged with the one at `targets[n - 1 - i]`, the random
/// position drawn for that step.
pub fn permute(p: &mut Vec<usize>, n: usize, targets: &Vec<usize>)
    requires
        1 <= n <= old(p).len(),
        targets.len() == n - 1,
        forall|k: int| 0 <= k < targets.len() ==> #[trigger] targets[k] < old(p).len(),
    ensures
        final(p)@ == shuffled(old(p)@, n - 1, targets@),
        final(p)@ == swap_steps(old(p)@, n - 1, targets@, n - 1),
        final(p)@.len() == old(p)@.len(),
        (forall|q: int| 0 <= q < targets.len() ==> #[trigger] targets[q] <= n - 1 - q) ==> {
            &&& forall|m: int| 0 <= m < targets.len() ==>
                final(p)@[n - 1 - m] == #[trigger] swap_steps(old(p)@, n - 1, targets@, m)[targets[m] as int]
            &&& n >= 2 ==> final(p)@[n - 1] == old(p)@[targets[0] as int]
        },
{
    let ghost start = p@;
    let mut i: usize = n - 1;
    let mut k: usize = 0;
    while i > 0
        invariant
            k + i == n - 1,
            n <= p.len(),
            p.len() == start.len(),
            targets.len() == n - 1,
            forall|m: int| 0 <= m < targets.len() ==> #[trigger] targets[m] < start.len(),
            p@ == swap_steps(start, n - 1, targets@, k as int),
        decreases i,
    {
        let target = targets[k];
        let a = p[i];
        let b = p[target];
        p.set(i, b);
        p.set(target, a);
        i = i - 1;
        k = k + 1;
    }
    proof {
        lemma_shuffled_is_swap_steps(start, n - 1, targets@);
        if forall|q: int| 0 <= q < targets.len() ==> #[trigger] targets[q] <= n - 1 - q {
            lemma_swap_steps_settle(start, n - 1, targets@);
        }
    }
}

/// Fills `p` with `0, 1, ..., POINT_COUNT - 1` and shuffles it with the given
/// random targets.
pub fn perlin_generate_perm(p: &mut Vec<usize>, targets: &Vec<usize>)
    requires
        old(p).len() == POINT_COUNT,
        targets.len() == POINT_COUNT - 1,
        forall|k: int| 0 <= k < targets.len() ==> #[trigger] targets[k] < POINT_COUNT,
    ensures
        final(p)@ == shuffled(identity_table(POINT_COUNT as nat), POINT_COUNT - 1, targets@),
        final(p)@ == swap_steps(identity_table(POINT_COUNT as nat), POINT_COUNT - 1, targets@, POINT_COUNT - 1),
        is_permutation(final(p)@, POINT_COUNT as nat),
{
    let len = p.len();
    for i in 0..len
        invariant
            len == p.len(),
            len == POINT_COUNT,
            forall|m: int| 0 <= m < i ==> #[trigger] p@[m] == m,
    {
        p.set(i, i);
    }
    assert(p@ == identity_table(POINT_COUNT as nat));
    proof {
        lemma_identity_is_permutation(POINT_COUNT as nat);
        lemma_shuffle_keeps_permutation(p@, POINT_COUNT as nat, POINT_COUNT - 1, targets@);
    }
    permute(p, POINT_COUNT, targets);
}


/// Taking the low eight bits of a coordinate is the same as reducing it
/// modulo the table length.
proof fn lemma_low_bits_are_slot(c: isize)
    ensures
        (c & 255isize) as int == (c as int) % 256,
        0 <= (c as int) % 256 < 256,
        lattice_slot(c) == (c as int) % 256,
{
    assert((c & 255isize) as int == (c as int) % 256) by (bit_vector);
}

/// Exclusive or of three table entries stays inside the table.
proof fn lemma_xor_in_range(a: usize, b: usize, c: usize)
    requires
        a < 256,
        b < 256,
        c < 256,
    ensures
        a ^ b ^ c < 256,
{
    assert(a < 256 && b < 256 && c < 256 ==> a ^ b ^ c < 256) by (bit_vector);
}

/// Perlin noise lattice: one gradient per table position and three
/// permutation tables that scatter lattice points over the gradients.
/// The gradient type is left open: the interpolation between them belongs to
/// whoever evaluates the noise.
#[derive(Debug)]
pub struct Perlin<G> {
    random: Vec<G>,
    perm_x: Vec<usize>,
    perm_y: Vec<usize>,
    perm_z: Vec<usize>,
}

impl<G> Perlin<G> {
    #[verifier::type_invariant]
    spec fn well_formed(self) -> bool {
        &&& self.random@.len() == POINT_COUNT
        &&& is_permutation(self.perm_x@, POINT_COUNT as nat)
        &&& is_permutation(self.perm_y@, POINT_COUNT as nat)
        &&& is_permutation(self.perm_z@, POINT_COUNT as nat)
    }

    /// The gradients, in table order.
    pub closed spec fn gradients(self) -> Seq<G> {
        self.random@
    }

    /// The permutation table along the x axis.
    pub closed spec fn table_x(self) -> Seq<usize> {
        self.perm_x@
    }

    /// The permutation table along the y axis.
    pub closed spec fn table_y(self) -> Seq<usize> {
        self.perm_y@
    }

    /// The permutation table along the z axis.
    pub closed spec fn table_z(self) -> Seq<usize> {
        self.perm_z@
    }

    /// Builds the lattice from `POINT_COUNT` random gradients and, for each
    /// axis, the `POINT_COUNT - 1` random targets that shuffle its table.
    pub fn new(
        random: Vec<G>,
        targets_x: &Vec<usize>,
        targets_y: &Vec<usize>,
        targets_z: &Vec<usize>,
    ) -> (perlin: Self)
        requires
            random.len() == POINT_COUNT,
            targets_x.len() == POINT_COUNT - 1,
            targets_y.len() == POINT_COUNT - 1,
            targets_z.len() == POINT_COUNT - 1,
            forall|k: int| 0 <= k < targets_x.len() ==> #[trigger] targets_x[k] < POINT_COUNT,
            forall|k: int| 0 <= k < targets_y.len() ==> #[trigger] targets_y[k] < POINT_COUNT,
            forall|k: int| 0 <= k < targets_z.len() ==> #[trigger] targets_z[k] < POINT_COUNT,
        ensures
            perlin.gradients() == random@,
            perlin.table_x() == shuffled(identity_table(POINT_COUNT as nat), POINT_COUNT - 1, targets_x@),
            perlin.table_y() == shuffled(identity_table(POINT_COUNT as nat), POINT_COUNT - 1, targets_y@),
            perlin.table_z() == shuffled(identity_table(POINT_COUNT as nat), POINT_COUNT - 1, targets_z@),
            perlin.table_x() == swap_steps(identity_table(POINT_COUNT as nat), POINT_COUNT - 1, targets_x@, POINT_COUNT - 1),
            perlin.table_y() == swap_steps(identity_table(POINT_COUNT as nat), POINT_COUNT - 1, targets_y@, POINT_COUNT - 1),
            perlin.table_z() == swap_steps(identity_table(POINT_COUNT as nat), POINT_COUNT - 1, targets_z@, POINT_COUNT - 1),
            is_permutation(perlin.table_x(), POINT_COUNT as nat),
            is_permutation(perlin.table_y(), POINT_COUNT as nat),
            is_permutation(perlin.table_z(), POINT_COUNT as nat),
    {
        let mut perm_x: Vec<usize> = vec![0; POINT_COUNT];
        let mut perm_y: Vec<usize> = vec![0; POINT_COUNT];
        let mut perm_z: Vec<usize> = vec![0; POINT_COUNT];
        perlin_generate_perm(&mut perm_x, targets_x);
        perlin_generate_perm(&mut perm_y, targets_y);
        perlin_generate_perm(&mut perm_z, targets_z);
        Perlin { random, perm_x, perm_y, perm_z }
    }

    /// The gradient at integer lattice point `(i, j, k)`.
    pub fn gradient_at(&self, i: isize, j: isize, k: isize) -> (g: &G)
        ensures
            lattice_hash(self.table_x(), self.table_y(), self.table_z(), i, j, k) < POINT_COUNT,
            *g == self.gradients()[lattice_hash(self.table_x(), self.table_y(), self.table_z(), i, j, k) as int],
            *g == self.gradients()[(self.table_x()[(i as int) % 256] ^ self.table_y()[(j as int) % 256]
                ^ self.table_z()[(k as int) % 256]) as int],
            *g == self.gradients()[(self.table_x()[(i & 255isize) as int] ^ self.table_y()[(j & 255isize) as int]
                ^ self.table_z()[(k & 255isize) as int]) as int],
            (self.table_x()[(i as int) % 256] ^ self.table_y()[(j as int) % 256]
                ^ self.table_z()[(k as int) % 256]) < POINT_COUNT,
    {
        proof {
            use_type_invariant(self);
            lemma_low_bits_are_slot(i);
            lemma_low_bits_are_slot(j);
            lemma_low_bits_are_slot(k);
        }
        let a = self.perm_x[(i & 255) as usize];
        let b = self.perm_y[(j & 255) as usize];
        let c = self.perm_z[(k & 255) as usize];
        proof {
            lemma_xor_in_range(a, b, c);
        }
        &self.random[a ^ b ^ c]
    }
}


/// A copy of a table of integers holds the same entries.
fn clone_table(t: &Vec<usize>) -> (c: Vec<usize>)
    ensures
        c@ == t@,
{
    let c = t.clone();
    assert(c@ =~= t@);
    c
}

impl<G: Clone> Clone for Perlin<G> {
    /// A copy with the same permutation tables and a copy of each gradient.
    fn clone(&self) -> (c: Self)
        ensures
            c.table_x() == self.table_x(),
            c.table_y() == self.table_y(),
            c.table_z() == self.table_z(),
            c.gradients().len() == self.gradients().len(),
            forall|i: int| 0 <= i < self.gradients().len() ==> cloned::<G>(self.gradients()[i], #[trigger] c.gradients()[i]),
    {
        proof {
            use_type_invariant(self);
        }
        Perlin {
            random: self.random.clone(),
            perm_x: clone_table(&self.perm_x),
            perm_y: clone_table(&self.perm_y),
            perm_z: clone_table(&self.perm_z),
        }
    }
}


/// A noise source: a lattice of its own, or a handle shared with other users.
#[derive(Debug, Clone)]
pub enum NoiseEnum<G> {
    Shared(Shared<G>),
    Perlin(Perlin<G>),
}

/// A reference-counted handle on a noise source, so that one lattice can
/// serve several textures.
#[derive(Debug, Clone)]
pub struct Shared<G> {
    inner: Arc<NoiseEnum<G>>,
}

impl<G> NoiseEnum<G> {
    /// The lattice that answers for this source: shared handles are followed
    /// to the lattice behind them.
    pub open spec fn resolve(self) -> Perlin<G>
        decreases self,
    {
        match self {
            NoiseEnum::Shared(s) => s.target().resolve(),
            NoiseEnum::Perlin(p) => p,
        }
    }

    /// The lattice that answers for this source.
    pub fn perlin(&self) -> (p: &Perlin<G>)
        ensures
            *p == self.resolve(),
        decreases self,
    {
        match self {
            NoiseEnum::Shared(s) => s.inner.perlin(),
            NoiseEnum::Perlin(p) => p,
        }
    }

    /// Moves this source behind a shared handle.
    pub fn shared(self) -> (s: Shared<G>)
        ensures
            s.target() == self,
            NoiseEnum::Shared(s).resolve() == self.resolve(),
    {
        Shared { inner: Arc::new(self) }
    }
}

impl<G> Shared<G> {
    /// The source that this handle points to.
    pub closed spec fn target(self) -> NoiseEnum<G> {
        *self.inner
    }

    /// Moves this handle behind another shared handle.
    pub fn shared(self) -> (s: Shared<G>)
        ensures
            s.target() == NoiseEnum::Shared(self),
            NoiseEnum::Shared(s).resolve() == NoiseEnum::Shared(self).resolve(),
    {
        NoiseEnum::Shared(self).shared()
    }
}

impl<G> Perlin<G> {
    /// Moves this lattice behind a shared handle.
    pub fn shared(self) -> (s: Shared<G>)
        ensures
            s.target() == NoiseEnum::Perlin(self),
            NoiseEnum::Shared(s).resolve() == self,
    {
        NoiseEnum::Perlin(self).shared()
    }
}


impl<G> From<Perlin<G>> for NoiseEnum<G> {
    /// A source that answers with the given lattice.
    fn from(perlin: Perlin<G>) -> (noise: Self) {
        NoiseEnum::Perlin(perlin)
    }
}

impl<G> vstd::std_specs::convert::FromSpecImpl<Perlin<G>> for NoiseEnum<G> {
    open spec fn obeys_from_spec() -> bool {
        true
    }

    open spec fn from_spec(perlin: Perlin<G>) -> Self {
        NoiseEnum::Perlin(perlin)
    }
}

impl<G> From<Shared<G>> for NoiseEnum<G> {
    /// A source that answers through the given handle.
    fn from(shared: Shared<G>) -> (noise: Self) {
        NoiseEnum::Shared(shared)
    }
}

impl<G> vstd::std_specs::convert::FromSpecImpl<Shared<G>> for NoiseEnum<G> {
    open spec fn obeys_from_spec() -> bool {
        true
    }

    open spec fn from_spec(shared: Shared<G>) -> Self {
        NoiseEnum::Shared(shared)
    }
}

} // verus!
