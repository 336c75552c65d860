use vstd::prelude::*;

use crate::rng::{rng_below, rng_new};

verus! {

/// A bounded-size uniform random sample ("pool") over a stream of string
/// values. `num_seen` counts every value ever offered, which may exceed
/// `capacity`; the pool never grows beyond `capacity`.
pub struct Reservoir {
    pub capacity: usize,
    pub pool: Vec<String>,
    pub num_seen: u64,
    pub rng: fastrand::Rng,
}

impl Reservoir {
    /// The pooled values as mathematical character sequences.
    pub open spec fn values(self) -> Seq<Seq<char>> {
        self.pool.deep_view()
    }

    pub open spec fn wf(self) -> bool {
        &&& self.pool@.len() <= self.capacity
        &&& self.pool@.len() <= self.num_seen
    }

    pub fn new(capacity: usize) -> (r: Reservoir)
        ensures
            r.wf(),
            r.capacity == capacity,
            r.num_seen == 0,
            r.values() =~= Seq::<Seq<char>>::empty(),
    {
        Reservoir { capacity, pool: Vec::new(), num_seen: 0, rng: rng_new() }
    }

    /// Offers one value: `num_seen` always grows by one; below capacity the
    /// value is appended deterministically, at capacity it either replaces
    /// one slot or is discarded.
    pub fn add(&mut self, item: String)
        requires
            old(self).wf(),
            old(self).num_seen < u64::MAX,
        ensures
            final(self).wf(),
            add_step(*old(self), *final(self), item@),
    {
        self.num_seen = self.num_seen + 1;
        if self.pool.len() < self.capacity {
            self.pool.push(item);
            assert(self.values() =~= old(self).values().push(item@));
        } else {
            let j = rng_below(&mut self.rng, self.num_seen);
            if j < self.capacity as u64 {
                self.pool[j as usize] = item;
                assert(self.values() =~= old(self).values().update(j as int, item@));
            }
        }
    }
}

/// How one `add` relates the reservoir before the call to the reservoir
/// after it.
pub open spec fn add_step(pre: Reservoir, post: Reservoir, v: Seq<char>) -> bool {
    &&& post.capacity == pre.capacity
    &&& post.num_seen == pre.num_seen + 1
    &&& if pre.values().len() < pre.capacity {
        post.values() == pre.values().push(v)
    } else {
        post.values() == pre.values() || (exists|j: int|
            0 <= j < pre.values().len() && post.values() == pre.values().update(j, v))
    }
}

/// How a `merge` result relates to its two (unmutated) inputs: the exact
/// capacity and count rules, provenance of every pooled value, and the
/// degenerate cases in which one input has seen nothing.
pub open spec fn merge_post(r1: Reservoir, r2: Reservoir, m: Reservoir) -> bool {
    &&& m.capacity == if r1.capacity >= r2.capacity {
        r1.capacity
    } else {
        r2.capacity
    }
    &&& m.num_seen == r1.num_seen + r2.num_seen
    &&& forall|i: int|
        0 <= i < m.values().len() ==> r1.values().contains(#[trigger] m.values()[i])
            || r2.values().contains(m.values()[i])
    &&& m.values().to_multiset().subset_of(
        r1.values().to_multiset().add(r2.values().to_multiset()),
    )
    &&& r2.num_seen == 0 ==> m.values() == r1.values()
    &&& r1.num_seen == 0 ==> m.values() == r2.values()
}

proof fn lemma_update_to_multiset(s: Seq<Seq<char>>, j: int, v: Seq<char>)
    requires
        0 <= j < s.len(),
    ensures
        s.update(j, v).to_multiset() =~= s.to_multiset().remove(s[j]).insert(v),
{
    broadcast use vstd::seq_lib::group_to_multiset_ensures, vstd::multiset::group_multiset_axioms;

    let t = s.update(j, v);
    assert(t.remove(j) =~= s.remove(j));
    assert(t.remove(j).to_multiset() =~= t.to_multiset().remove(t[j]));
    assert(s.remove(j).to_multiset() =~= s.to_multiset().remove(s[j]));
    assert(t.contains(v)) by {
        assert(t[j] == v);
    }
    assert(t.to_multiset().count(v) > 0);
}

/// Capacity-bounded insertion shared by the two halves of `merge`: an
/// admitted value is appended while room remains, and otherwise either
/// replaces one slot or is discarded, the slot drawn against the running
/// count of admitted values.
fn insert_bounded(pool: &mut Vec<String>, rng: &mut fastrand::Rng, admitted: u64, capacity: usize, item: String)
    requires
        admitted >= 1,
        old(pool)@.len() <= capacity,
    ensures
        final(pool)@.len() <= capacity,
        final(pool)@.len() <= old(pool)@.len() + 1,
        if old(pool)@.len() < capacity {
            final(pool)@.len() == old(pool)@.len() + 1
                && final(pool).deep_view() == old(pool).deep_view().push(item@)
        } else {
            final(pool)@.len() == old(pool)@.len() && (final(pool).deep_view()
                == old(pool).deep_view() || (exists|j: int|
                0 <= j < old(pool).deep_view().len() && final(pool).deep_view()
                    == old(pool).deep_view().update(j, item@)))
        },
{
    if pool.len() < capacity {
        pool.push(item);
        assert(pool.deep_view() =~= old(pool).deep_view().push(item@));
    } else {
        let j = rng_below(rng, admitted);
        if j < capacity as u64 {
            pool[j as usize] = item;
            assert(pool.deep_view() =~= old(pool).deep_view().update(j as int, item@));
        }
    }
}

impl Reservoir {
    /// Weighted combination of two independently built reservoirs: each
    /// pooled value of an input is admitted with probability
    /// `input.num_seen / (r1.num_seen + r2.num_seen)`, so the combined
    /// sample stays consistent with sampling the concatenated streams.
    /// Neither input is mutated.
    pub fn merge(r1: &Reservoir, r2: &Reservoir) -> (m: Reservoir)
        requires
            r1.wf(),
            r2.wf(),
            r1.num_seen + r2.num_seen <= u64::MAX,
        ensures
            m.wf(),
            merge_post(*r1, *r2, m),
    {
        let capacity: usize = if r1.capacity >= r2.capacity {
            r1.capacity
        } else {
            r2.capacity
        };
        let total: u64 = r1.num_seen + r2.num_seen;
        let mut rng = rng_new();
        let mut pool: Vec<String> = Vec::new();
        let mut admitted: u64 = 0;
        proof {
            broadcast use vstd::seq_lib::group_to_multiset_ensures, vstd::multiset::group_multiset_axioms;

            assert(pool.deep_view() =~= r1.values().take(0));
            assert(pool.deep_view().to_multiset().subset_of(
                r1.values().take(0).to_multiset(),
            ));
        }

        let mut i: usize = 0;
        while i < r1.pool.len()
            invariant
                r1.wf(),
                r2.wf(),
                total == r1.num_seen + r2.num_seen,
                r1.capacity <= capacity,
                r2.capacity <= capacity,
                0 <= i <= r1.pool@.len(),
                admitted <= i,
                pool@.len() <= capacity,
                pool@.len() <= admitted,
                forall|k: int|
                    0 <= k < pool.deep_view().len() ==> r1.values().contains(
                        #[trigger] pool.deep_view()[k],
                    ),
                r2.num_seen == 0 ==> pool.deep_view() == r1.values().take(i as int),
                pool.deep_view().to_multiset().subset_of(
                    r1.values().take(i as int).to_multiset(),
                ),
            decreases r1.pool@.len() - i,
        {
            assert(total > 0);
            let ghost pool_pre = pool.deep_view();
            let draw = rng_below(&mut rng, total);
            if draw < r1.num_seen {
                admitted = admitted + 1;
                let item = r1.pool[i].clone();
                assert(r1.values().contains(item@)) by {
                    assert(r1.values()[i as int] == item@);
                }
                insert_bounded(&mut pool, &mut rng, admitted, capacity, item);
                if r2.num_seen == 0 {
                    assert(pool.deep_view() =~= r1.values().take(i as int + 1));
                }
            }
            proof {
                broadcast use vstd::seq_lib::group_to_multiset_ensures, vstd::multiset::group_multiset_axioms;

                assert(r1.values().take(i as int + 1) =~= r1.values().take(i as int).push(
                    r1.values()[i as int],
                ));
                if pool.deep_view() != pool_pre && pool_pre.len() >= capacity {
                    let j = choose|j: int|
                        0 <= j < pool_pre.len() && pool.deep_view() == pool_pre.update(
                            j,
                            r1.values()[i as int],
                        );
                    lemma_update_to_multiset(pool_pre, j, r1.values()[i as int]);
                }
                assert(pool.deep_view().to_multiset().subset_of(
                    r1.values().take(i as int + 1).to_multiset(),
                ));
            }
            i = i + 1;
        }
        proof {
            broadcast use vstd::seq_lib::group_to_multiset_ensures, vstd::multiset::group_multiset_axioms;

            if r2.num_seen == 0 {
                assert(pool.deep_view() =~= r1.values());
            }
            if r1.num_seen == 0 {
                assert(pool.deep_view() =~= r2.values().take(0));
            }
            assert(r1.values().take(r1.values().len() as int) =~= r1.values());
            assert(pool.deep_view().to_multiset().subset_of(
                r1.values().to_multiset().add(r2.values().take(0).to_multiset()),
            ));
        }

        let mut i2: usize = 0;
        while i2 < r2.pool.len()
            invariant
                r1.wf(),
                r2.wf(),
                total == r1.num_seen + r2.num_seen,
                r1.capacity <= capacity,
                r2.capacity <= capacity,
                0 <= i2 <= r2.pool@.len(),
                admitted <= r1.pool@.len() + i2,
                pool@.len() <= capacity,
                pool@.len() <= admitted,
                forall|k: int|
                    0 <= k < pool.deep_view().len() ==> r1.values().contains(
                        #[trigger] pool.deep_view()[k],
                    ) || r2.values().contains(pool.deep_view()[k]),
                r2.num_seen == 0 ==> pool.deep_view() == r1.values(),
                r1.num_seen == 0 ==> pool.deep_view() == r2.values().take(i2 as int),
                pool.deep_view().to_multiset().subset_of(
                    r1.values().to_multiset().add(r2.values().take(i2 as int).to_multiset()),
                ),
            decreases r2.pool@.len() - i2,
        {
            assert(total > 0);
            let ghost pool_pre = pool.deep_view();
            let draw = rng_below(&mut rng, total);
            if draw >= r1.num_seen {
                admitted = admitted + 1;
                let item = r2.pool[i2].clone();
                assert(r2.values().contains(item@)) by {
                    assert(r2.values()[i2 as int] == item@);
                }
                insert_bounded(&mut pool, &mut rng, admitted, capacity, item);
                if r1.num_seen == 0 {
                    assert(pool.deep_view() =~= r2.values().take(i2 as int + 1));
                }
            }
            proof {
                broadcast use vstd::seq_lib::group_to_multiset_ensures, vstd::multiset::group_multiset_axioms;

                assert(r2.values().take(i2 as int + 1) =~= r2.values().take(i2 as int).push(
                    r2.values()[i2 as int],
                ));
                if pool.deep_view() != pool_pre && pool_pre.len() >= capacity {
                    let j = choose|j: int|
                        0 <= j < pool_pre.len() && pool.deep_view() == pool_pre.update(
                            j,
                            r2.values()[i2 as int],
                        );
                    lemma_update_to_multiset(pool_pre, j, r2.values()[i2 as int]);
                }
                assert(pool.deep_view().to_multiset().subset_of(
                    r1.values().to_multiset().add(r2.values().take(i2 as int + 1).to_multiset()),
                ));
            }
            i2 = i2 + 1;
        }
        proof {
            broadcast use vstd::seq_lib::group_to_multiset_ensures, vstd::multiset::group_multiset_axioms;

            if r1.num_seen == 0 {
                assert(pool.deep_view() =~= r2.values());
            }
            assert(r2.values().take(r2.values().len() as int) =~= r2.values());
        }

        Reservoir { capacity, pool, num_seen: total, rng }
    }
}

/// Law: sampling is deterministic below capacity. While the pool is not yet
/// full an offered value is always appended, so `n < capacity` adds into a
/// fresh reservoir leave exactly those `n` values, in insertion order, with
/// no randomness involved.
pub proof fn lemma_add_below_capacity(pre: Reservoir, post: Reservoir, v: Seq<char>)
    requires
        add_step(pre, post, v),
        pre.values().len() < pre.capacity,
    ensures
        post.values() == pre.values().push(v),
        post.num_seen == pre.num_seen + 1,
        post.capacity == pre.capacity,
{
}

/// Law: merging with a reservoir that has seen nothing, of equal capacity,
/// is an identity up to the random state: the result carries the same pool,
/// capacity and observation count, and therefore the same histogram.
pub proof fn lemma_merge_empty_identity(r1: Reservoir, r2: Reservoir, m: Reservoir)
    requires
        merge_post(r1, r2, m),
        r2.num_seen == 0,
        r2.capacity == r1.capacity,
    ensures
        m.values() == r1.values(),
        m.capacity == r1.capacity,
        m.num_seen == r1.num_seen,
{
}

/// The capacity and count rule of one pairwise merge.
pub open spec fn merge_shape(r1: Reservoir, r2: Reservoir, m: Reservoir) -> bool {
    &&& m.capacity == if r1.capacity >= r2.capacity {
        r1.capacity
    } else {
        r2.capacity
    }
    &&& m.num_seen == r1.num_seen + r2.num_seen
}

/// Law: the merge reduction is associative in capacity and observation
/// count: merging (a, b) and then c yields the same capacity (the maximum
/// of the three) and the same num_seen (the sum of the three) as merging a
/// with (b, c).
pub proof fn lemma_merge_shape_associative(
    a: Reservoir,
    b: Reservoir,
    c: Reservoir,
    ab: Reservoir,
    bc: Reservoir,
    ab_c: Reservoir,
    a_bc: Reservoir,
)
    requires
        merge_shape(a, b, ab),
        merge_shape(ab, c, ab_c),
        merge_shape(b, c, bc),
        merge_shape(a, bc, a_bc),
    ensures
        ab_c.capacity == a_bc.capacity,
        ab_c.num_seen == a_bc.num_seen,
{
}

/// Law: the merge reduction is commutative in capacity and observation
/// count.
pub proof fn lemma_merge_shape_commutative(a: Reservoir, b: Reservoir, m1: Reservoir, m2: Reservoir)
    requires
        merge_shape(a, b, m1),
        merge_shape(b, a, m2),
    ensures
        m1.capacity == m2.capacity,
        m1.num_seen == m2.num_seen,
{
}

} // verus!
