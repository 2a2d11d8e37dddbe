//! State of the LinUCB contextual bandit: per arm a 4×4 matrix `A` and a
//! vector `b`, held exactly in fixed point.
//!
//! Features and rewards are integers in millionths, so with `S = 10^6` the
//! stored matrix is `S²·A` and the stored vector `S²·b`: every update is exact.
//! The upper confidence bound itself (an inverse and a square root) is
//! evaluated by the caller on these values.
use vstd::prelude::*;

verus! {

/// Feature dimension.
pub const DIM: usize = 4;

/// One unit of a feature or a reward: features and rewards are millionths.
pub const UNIT: i64 = 1_000_000;

/// `UNIT²`, the stored value of one unit of `A` or `b`.
pub const UNIT_SQ: i128 = 1_000_000_000_000;

/// A feature vector whose entries lie in `[-UNIT, UNIT]`.
pub open spec fn features_in_range(x: [i64; 4]) -> bool {
    forall|i: int| 0 <= i < 4 ==> -UNIT <= #[trigger] x[i] <= UNIT
}

pub open spec fn sum_sq(v: Seq<int>) -> int {
    v[0] * v[0] + v[1] * v[1] + v[2] * v[2] + v[3] * v[3]
}

pub open spec fn dot(x: [i64; 4], v: Seq<int>) -> int {
    x[0] * v[0] + x[1] * v[1] + x[2] * v[2] + x[3] * v[3]
}

pub struct LinUcb {
    num_arms: usize,
    alpha_milli: u32,
    a: Vec<i128>,
    b: Vec<i128>,
    updates: u64,
}

impl LinUcb {
    pub closed spec fn arms(&self) -> nat {
        self.num_arms as nat
    }

    /// Number of updates applied since creation.
    pub closed spec fn update_count(&self) -> u64 {
        self.updates
    }

    /// Entry `(i, j)` of the stored matrix of `arm`.
    pub closed spec fn a_at(&self, arm: int, i: int, j: int) -> int {
        self.a@[arm * 16 + i * 4 + j] as int
    }

    /// Entry `i` of the stored vector of `arm`.
    pub closed spec fn b_at(&self, arm: int, i: int) -> int {
        self.b@[arm * 4 + i] as int
    }

    /// `vᵀ A v` for the matrix of `arm`.
    pub open spec fn quad(&self, arm: int, v: Seq<int>) -> int {
        self.a_at(arm, 0, 0) * (v[0] * v[0]) + self.a_at(arm, 0, 1) * (v[0] * v[1])
            + self.a_at(arm, 0, 2) * (v[0] * v[2]) + self.a_at(arm, 0, 3) * (v[0] * v[3])
            + self.a_at(arm, 1, 0) * (v[1] * v[0]) + self.a_at(arm, 1, 1) * (v[1] * v[1])
            + self.a_at(arm, 1, 2) * (v[1] * v[2]) + self.a_at(arm, 1, 3) * (v[1] * v[3])
            + self.a_at(arm, 2, 0) * (v[2] * v[0]) + self.a_at(arm, 2, 1) * (v[2] * v[1])
            + self.a_at(arm, 2, 2) * (v[2] * v[2]) + self.a_at(arm, 2, 3) * (v[2] * v[3])
            + self.a_at(arm, 3, 0) * (v[3] * v[0]) + self.a_at(arm, 3, 1) * (v[3] * v[1])
            + self.a_at(arm, 3, 2) * (v[3] * v[2]) + self.a_at(arm, 3, 3) * (v[3] * v[3])
    }

    /// Every matrix is symmetric and at least `UNIT²·I` in the quadratic
    /// order, and the entries stay within what `i128` holds.
    pub closed spec fn wf(&self) -> bool {
        &&& 1 <= self.num_arms <= 1024
        &&& self.a@.len() == self.num_arms * 16
        &&& self.b@.len() == self.num_arms * 4
        &&& forall|arm: int, i: int, j: int|
            0 <= arm < self.num_arms && 0 <= i < 4 && 0 <= j < 4 ==> #[trigger] self.a_at(arm, i, j)
                == self.a_at(arm, j, i)
        &&& forall|k: int|
            0 <= k < self.a@.len() ==> -UNIT_SQ * (self.updates + 1) <= #[trigger] self.a@[k]
                <= UNIT_SQ * (self.updates + 1)
        &&& forall|k: int|
            0 <= k < self.b@.len() ==> -UNIT_SQ * self.updates <= #[trigger] self.b@[k]
                <= UNIT_SQ * self.updates
        &&& forall|arm: int, v: Seq<int>|
            0 <= arm < self.num_arms && v.len() == 4 ==> #[trigger] self.quad(arm, v) >= UNIT_SQ
                * sum_sq(v)
    }

    /// A bandit over `num_arms` arms with exploration coefficient
    /// `alpha_milli / 1000`; every `A` starts as the identity, every `b` at zero.
    pub fn new(num_arms: usize, alpha_milli: u32) -> (r: LinUcb)
        requires
            1 <= num_arms <= 1024,
        ensures
            r.wf(),
            r.arms() == num_arms,
            r.update_count() == 0,
            r.alpha_milli() == alpha_milli,
            forall|arm: int, i: int, j: int|
                0 <= arm < num_arms && 0 <= i < 4 && 0 <= j < 4 ==> #[trigger] r.a_at(arm, i, j)
                    == if i == j {
                    UNIT_SQ as int
                } else {
                    0
                },
            forall|arm: int, i: int| 0 <= arm < num_arms && 0 <= i < 4 ==> #[trigger] r.b_at(arm, i) == 0,
    {
        let mut a: Vec<i128> = Vec::new();
        let mut b: Vec<i128> = Vec::new();
        let mut c: usize = 0;
        while c < num_arms
            invariant
                c <= num_arms <= 1024,
                a@.len() == c * 16,
                b@.len() == c * 4,
                forall|arm: int, i: int, j: int|
                    0 <= arm < c && 0 <= i < 4 && 0 <= j < 4 ==> #[trigger] a@[arm * 16 + i * 4 + j]
                        == if i == j {
                        UNIT_SQ
                    } else {
                        0
                    },
                forall|k: int| 0 <= k < b@.len() ==> #[trigger] b@[k] == 0,
                forall|k: int| 0 <= k < a@.len() ==> #[trigger] a@[k] == 0 || a@[k] == UNIT_SQ,
            decreases num_arms - c,
        {
            let mut i: usize = 0;
            while i < 4
                invariant
                    c < num_arms <= 1024,
                    i <= 4,
                    a@.len() == c * 16 + i * 4,
                    b@.len() == c * 4 + i,
                    forall|arm: int, ii: int, jj: int|
                        0 <= arm < c && 0 <= ii < 4 && 0 <= jj < 4 ==> #[trigger] a@[arm * 16 + ii * 4
                            + jj] == if ii == jj {
                            UNIT_SQ
                        } else {
                            0
                        },
                    forall|ii: int, jj: int|
                        0 <= ii < i && 0 <= jj < 4 ==> #[trigger] a@[c * 16 + ii * 4 + jj] == if ii
                            == jj {
                            UNIT_SQ
                        } else {
                            0
                        },
                    forall|k: int| 0 <= k < b@.len() ==> #[trigger] b@[k] == 0,
                    forall|k: int| 0 <= k < a@.len() ==> #[trigger] a@[k] == 0 || a@[k] == UNIT_SQ,
                decreases 4 - i,
            {
                let mut j: usize = 0;
                while j < 4
                    invariant
                        c < num_arms <= 1024,
                        i < 4,
                        j <= 4,
                        a@.len() == c * 16 + i * 4 + j,
                        b@.len() == c * 4 + i,
                        forall|arm: int, ii: int, jj: int|
                            0 <= arm < c && 0 <= ii < 4 && 0 <= jj < 4 ==> #[trigger] a@[arm * 16 + ii
                                * 4 + jj] == if ii == jj {
                                UNIT_SQ
                            } else {
                                0
                            },
                        forall|ii: int, jj: int|
                            (0 <= ii < i && 0 <= jj < 4) || (ii == i && 0 <= jj < j) ==> #[trigger] a@[c
                                * 16 + ii * 4 + jj] == if ii == jj {
                                UNIT_SQ
                            } else {
                                0
                            },
                        forall|k: int| 0 <= k < b@.len() ==> #[trigger] b@[k] == 0,
                        forall|k: int| 0 <= k < a@.len() ==> #[trigger] a@[k] == 0 || a@[k] == UNIT_SQ,
                    decreases 4 - j,
                {
                    if i == j {
                        a.push(UNIT_SQ);
                    } else {
                        a.push(0);
                    }
                    j += 1;
                }
                b.push(0);
                i += 1;
            }
            c += 1;
        }
        let r = LinUcb { num_arms, alpha_milli, a, b, updates: 0 };
        assert forall|arm: int, v: Seq<int>| 0 <= arm < r.num_arms && v.len() == 4 implies #[trigger] r.quad(
            arm,
            v,
        ) >= UNIT_SQ * sum_sq(v) by {
            assert(r.a_at(arm, 0, 0) == UNIT_SQ);
            assert(r.a_at(arm, 0, 1) == 0);
            assert(r.a_at(arm, 0, 2) == 0);
            assert(r.a_at(arm, 0, 3) == 0);
            assert(r.a_at(arm, 1, 0) == 0);
            assert(r.a_at(arm, 1, 1) == UNIT_SQ);
            assert(r.a_at(arm, 1, 2) == 0);
            assert(r.a_at(arm, 1, 3) == 0);
            assert(r.a_at(arm, 2, 0) == 0);
            assert(r.a_at(arm, 2, 1) == 0);
            assert(r.a_at(arm, 2, 2) == UNIT_SQ);
            assert(r.a_at(arm, 2, 3) == 0);
            assert(r.a_at(arm, 3, 0) == 0);
            assert(r.a_at(arm, 3, 1) == 0);
            assert(r.a_at(arm, 3, 2) == 0);
            assert(r.a_at(arm, 3, 3) == UNIT_SQ);
        }
        r
    }


    /// `self` is `prev` after adding observation `x` with `reward` to `arm`:
    /// `A ← A + x xᵀ`, `b ← b + reward·x`, the other arms unchanged.
    pub open spec fn updated_from(&self, prev: LinUcb, arm: int, x: [i64; 4], reward: i64) -> bool {
        &&& self.arms() == prev.arms()
        &&& self.alpha_milli() == prev.alpha_milli()
        &&& self.update_count() == prev.update_count() + 1
        &&& forall|arm2: int, i: int, j: int|
            0 <= arm2 < prev.arms() && 0 <= i < 4 && 0 <= j < 4 ==> #[trigger] self.a_at(arm2, i, j)
                == prev.a_at(arm2, i, j) + if arm2 == arm {
                x[i] * x[j]
            } else {
                0
            }
        &&& forall|arm2: int, i: int|
            0 <= arm2 < prev.arms() && 0 <= i < 4 ==> #[trigger] self.b_at(arm2, i) == prev.b_at(
                arm2,
                i,
            ) + if arm2 == arm {
                reward * x[i]
            } else {
                0
            }
    }

    /// `self` holds the same arms, matrices, vectors and count as `prev`.
    pub open spec fn same_as(&self, prev: LinUcb) -> bool {
        &&& self.arms() == prev.arms()
        &&& self.alpha_milli() == prev.alpha_milli()
        &&& self.update_count() == prev.update_count()
        &&& forall|arm2: int, i: int, j: int| #[trigger] self.a_at(arm2, i, j) == prev.a_at(arm2, i, j)
        &&& forall|arm2: int, i: int| #[trigger] self.b_at(arm2, i) == prev.b_at(arm2, i)
    }

    /// Adds the observation `x` with `reward` to `arm`: `A ← A + x xᵀ`,
    /// `b ← b + reward·x`. The other arms are unchanged. Once `u64::MAX`
    /// updates have been taken, further observations are dropped.
    pub fn update(&mut self, arm: usize, x: &[i64; 4], reward: i64)
        requires
            old(self).wf(),
            arm < old(self).arms(),
            features_in_range(*x),
            -UNIT <= reward <= UNIT,
        ensures
            final(self).wf(),
            old(self).update_count() < u64::MAX ==> final(self).updated_from(
                *old(self),
                arm as int,
                *x,
                reward,
            ),
            old(self).update_count() == u64::MAX ==> final(self).same_as(*old(self)),
    {
        if self.updates == u64::MAX {
            return;
        }
        self.add_observation(arm, x, reward);
    }

    fn add_observation(&mut self, arm: usize, x: &[i64; 4], reward: i64)
        requires
            old(self).wf(),
            arm < old(self).arms(),
            features_in_range(*x),
            -UNIT <= reward <= UNIT,
            old(self).update_count() < u64::MAX,
        ensures
            final(self).wf(),
            final(self).arms() == old(self).arms(),
            final(self).alpha_milli() == old(self).alpha_milli(),
            final(self).update_count() == old(self).update_count() + 1,
            forall|arm2: int, i: int, j: int|
                0 <= arm2 < old(self).arms() && 0 <= i < 4 && 0 <= j < 4 ==> #[trigger] final(self).a_at(
                    arm2,
                    i,
                    j,
                ) == old(self).a_at(arm2, i, j) + if arm2 == arm {
                    x[i] * x[j]
                } else {
                    0
                },
            forall|arm2: int, i: int|
                0 <= arm2 < old(self).arms() && 0 <= i < 4 ==> #[trigger] final(self).b_at(arm2, i)
                    == old(self).b_at(arm2, i) + if arm2 == arm {
                    reward * x[i]
                } else {
                    0
                },
    {
        let ghost prev = *self;
        let ghost a0 = self.a@;
        let ghost b0 = self.b@;
        let ghost u = self.updates as int;
        let base: usize = arm * 16;
        let mut i: usize = 0;
        while i < 4
            invariant
                prev.wf(),
                a0 == prev.a@,
                b0 == prev.b@,
                u == prev.updates,
                u < u64::MAX,
                arm < prev.num_arms,
                base == arm * 16,
                features_in_range(*x),
                self.num_arms == prev.num_arms,
                self.b@ == b0,
                self.updates == prev.updates,
                self.alpha_milli == prev.alpha_milli,
                i <= 4,
                self.a@.len() == a0.len(),
                forall|k: int|
                    0 <= k < a0.len() && (k < base || k >= base + 16) ==> #[trigger] self.a@[k]
                        == a0[k],
                forall|ii: int, jj: int|
                    0 <= ii < 4 && 0 <= jj < 4 ==> #[trigger] self.a@[base + ii * 4 + jj] == a0[base
                        + ii * 4 + jj] + if ii < i {
                        x[ii] * x[jj]
                    } else {
                        0
                    },
            decreases 4 - i,
        {
            let mut j: usize = 0;
            while j < 4
                invariant
                    prev.wf(),
                    a0 == prev.a@,
                    u == prev.updates,
                    u < u64::MAX,
                    arm < prev.num_arms,
                    base == arm * 16,
                    features_in_range(*x),
                    self.num_arms == prev.num_arms,
                    self.b@ == b0,
                    self.updates == prev.updates,
                    self.alpha_milli == prev.alpha_milli,
                    i < 4,
                    j <= 4,
                    self.a@.len() == a0.len(),
                    forall|k: int|
                        0 <= k < a0.len() && (k < base || k >= base + 16) ==> #[trigger] self.a@[k]
                            == a0[k],
                    forall|ii: int, jj: int|
                        0 <= ii < 4 && 0 <= jj < 4 ==> #[trigger] self.a@[base + ii * 4 + jj]
                            == a0[base + ii * 4 + jj] + if ii < i || (ii == i && jj < j) {
                            x[ii] * x[jj]
                        } else {
                            0
                        },
                decreases 4 - j,
            {
                let idx = base + i * 4 + j;
                proof {
                    lemma_mul_bound(x[i as int] as int, x[j as int] as int);
                    assert(-UNIT_SQ * (u + 1) <= a0[idx as int] <= UNIT_SQ * (u + 1));
                    assert(UNIT_SQ * (u + 1) <= UNIT_SQ * 18446744073709551616int) by (nonlinear_arith)
                        requires u + 1 <= 18446744073709551616int;
                }
                let v = self.a[idx] + (x[i] as i128) * (x[j] as i128);
                self.a.set(idx, v);
                j += 1;
            }
            i += 1;
        }
        let ghost a1 = self.a@;
        let bbase: usize = arm * 4;
        let mut i: usize = 0;
        while i < 4
            invariant
                self.a@ == a1,
                self.alpha_milli == prev.alpha_milli,
                prev.wf(),
                b0 == prev.b@,
                u == prev.updates,
                u < u64::MAX,
                arm < prev.num_arms,
                bbase == arm * 4,
                features_in_range(*x),
                -UNIT <= reward <= UNIT,
                self.num_arms == prev.num_arms,
                self.updates == prev.updates,
                i <= 4,
                self.b@.len() == b0.len(),
                forall|k: int|
                    0 <= k < b0.len() && (k < bbase || k >= bbase + 4) ==> #[trigger] self.b@[k]
                        == b0[k],
                forall|ii: int|
                    0 <= ii < 4 ==> #[trigger] self.b@[bbase + ii] == b0[bbase + ii] + if ii < i {
                        reward * x[ii]
                    } else {
                        0
                    },
            decreases 4 - i,
        {
            proof {
                lemma_mul_bound(reward as int, x[i as int] as int);
                assert(-UNIT_SQ * u <= b0[bbase + i] <= UNIT_SQ * u);
                assert(UNIT_SQ * u <= UNIT_SQ * 18446744073709551616int) by (nonlinear_arith)
                    requires u <= 18446744073709551616int;
            }
            let v = self.b[bbase + i] + (reward as i128) * (x[i] as i128);
            self.b.set(bbase + i, v);
            i += 1;
        }
        self.updates = self.updates + 1;
        proof {
            let new = *self;
            assert forall|arm2: int, ii: int, jj: int|
                0 <= arm2 < prev.num_arms && 0 <= ii < 4 && 0 <= jj < 4 implies #[trigger] new.a_at(
                arm2,
                ii,
                jj,
            ) == prev.a_at(arm2, ii, jj) + if arm2 == arm {
                x[ii] * x[jj]
            } else {
                0
            } by {
                if arm2 != arm {
                    assert(arm2 * 16 + ii * 4 + jj < base || arm2 * 16 + ii * 4 + jj >= base + 16);
                } else {
                    assert(arm2 * 16 + ii * 4 + jj == base + ii * 4 + jj);
                    assert(new.a@[base + ii * 4 + jj] == a0[base + ii * 4 + jj] + x[ii] * x[jj]);
                }
            }
            assert forall|arm2: int, ii: int|
                0 <= arm2 < prev.num_arms && 0 <= ii < 4 implies #[trigger] new.b_at(arm2, ii)
                == prev.b_at(arm2, ii) + if arm2 == arm {
                reward * x[ii]
            } else {
                0
            } by {
                if arm2 != arm {
                    assert(arm2 * 4 + ii < bbase || arm2 * 4 + ii >= bbase + 4);
                }
            }
            assert forall|k: int| 0 <= k < new.a@.len() implies -UNIT_SQ * (new.updates + 1)
                <= #[trigger] new.a@[k] <= UNIT_SQ * (new.updates + 1) by {
                if base <= k < base + 16 {
                    let ii = (k - base) / 4;
                    let jj = (k - base) % 4;
                    assert(k == base + ii * 4 + jj);
                    assert(new.a@[base + ii * 4 + jj] == a0[base + ii * 4 + jj] + x[ii] * x[jj]);
                    lemma_mul_bound(x[ii] as int, x[jj] as int);
                }
            }
            assert forall|k: int| 0 <= k < new.b@.len() implies -UNIT_SQ * new.updates
                <= #[trigger] new.b@[k] <= UNIT_SQ * new.updates by {
                if bbase <= k < bbase + 4 {
                    lemma_mul_bound(reward as int, x[k - bbase] as int);
                    assert(k == bbase + (k - bbase));
                }
            }
            assert forall|arm2: int, v: Seq<int>| 0 <= arm2 < new.num_arms && v.len() == 4 implies #[trigger] new.quad(
                arm2,
                v,
            ) >= UNIT_SQ * sum_sq(v) by {
                assert(prev.quad(arm2, v) >= UNIT_SQ * sum_sq(v));
                if arm2 == arm {
                    lemma_rank_one(prev, new, arm2, *x, v);
                    lemma_square_nonneg(dot(*x, v));
                }
            }
        }
    }

    pub closed spec fn alpha_milli(&self) -> u32 {
        self.alpha_milli
    }

    pub fn num_arms(&self) -> (r: usize)
        ensures
            r == self.arms(),
    {
        self.num_arms
    }

    /// The exploration coefficient in thousandths.
    pub fn alpha(&self) -> (r: u32)
        ensures
            r == self.alpha_milli(),
    {
        self.alpha_milli
    }

    /// Entry `(i, j)` of the stored matrix `UNIT²·A` of `arm`.
    pub fn matrix_entry(&self, arm: usize, i: usize, j: usize) -> (r: i128)
        requires
            self.wf(),
            arm < self.arms(),
            i < 4,
            j < 4,
        ensures
            r == self.a_at(arm as int, i as int, j as int),
    {
        self.a[arm * 16 + i * 4 + j]
    }

    /// Entry `i` of the stored vector `UNIT²·b` of `arm`.
    pub fn vector_entry(&self, arm: usize, i: usize) -> (r: i128)
        requires
            self.wf(),
            arm < self.arms(),
            i < 4,
        ensures
            r == self.b_at(arm as int, i as int),
    {
        self.b[arm * 4 + i]
    }
}


proof fn lemma_mul_bound(p: int, q: int)
    requires
        -UNIT <= p <= UNIT,
        -UNIT <= q <= UNIT,
    ensures
        -UNIT_SQ <= p * q <= UNIT_SQ,
{
    assert(-1_000_000_000_000 <= p * q <= 1_000_000_000_000) by (nonlinear_arith)
        requires
            -1_000_000 <= p <= 1_000_000,
            -1_000_000 <= q <= 1_000_000,
    ;
}

proof fn lemma_square_nonneg(p: int)
    ensures
        p * p >= 0,
{
    assert(p * p >= 0) by (nonlinear_arith);
}

/// Adding `x xᵀ` to a matrix adds `(x·v)²` to its quadratic form at `v`.
proof fn lemma_rank_one(prev: LinUcb, new: LinUcb, arm: int, x: [i64; 4], v: Seq<int>)
    requires
        v.len() == 4,
        forall|i: int, j: int|
            0 <= i < 4 && 0 <= j < 4 ==> #[trigger] new.a_at(arm, i, j) == prev.a_at(arm, i, j)
                + x[i] * x[j],
    ensures
        new.quad(arm, v) == prev.quad(arm, v) + dot(x, v) * dot(x, v),
{
    let (x0, x1, x2, x3) = (x[0] as int, x[1] as int, x[2] as int, x[3] as int);
    let (v0, v1, v2, v3) = (v[0], v[1], v[2], v[3]);
    assert(new.a_at(arm, 0, 0) == prev.a_at(arm, 0, 0) + x0 * x0);
    assert(new.a_at(arm, 0, 1) == prev.a_at(arm, 0, 1) + x0 * x1);
    assert(new.a_at(arm, 0, 2) == prev.a_at(arm, 0, 2) + x0 * x2);
    assert(new.a_at(arm, 0, 3) == prev.a_at(arm, 0, 3) + x0 * x3);
    assert(new.a_at(arm, 1, 0) == prev.a_at(arm, 1, 0) + x1 * x0);
    assert(new.a_at(arm, 1, 1) == prev.a_at(arm, 1, 1) + x1 * x1);
    assert(new.a_at(arm, 1, 2) == prev.a_at(arm, 1, 2) + x1 * x2);
    assert(new.a_at(arm, 1, 3) == prev.a_at(arm, 1, 3) + x1 * x3);
    assert(new.a_at(arm, 2, 0) == prev.a_at(arm, 2, 0) + x2 * x0);
    assert(new.a_at(arm, 2, 1) == prev.a_at(arm, 2, 1) + x2 * x1);
    assert(new.a_at(arm, 2, 2) == prev.a_at(arm, 2, 2) + x2 * x2);
    assert(new.a_at(arm, 2, 3) == prev.a_at(arm, 2, 3) + x2 * x3);
    assert(new.a_at(arm, 3, 0) == prev.a_at(arm, 3, 0) + x3 * x0);
    assert(new.a_at(arm, 3, 1) == prev.a_at(arm, 3, 1) + x3 * x1);
    assert(new.a_at(arm, 3, 2) == prev.a_at(arm, 3, 2) + x3 * x2);
    assert(new.a_at(arm, 3, 3) == prev.a_at(arm, 3, 3) + x3 * x3);
    let (t0, t1, t2, t3) = (x0 * v0, x1 * v1, x2 * v2, x3 * v3);
    assert((t0 + t1 + t2 + t3) * (t0 + t1 + t2 + t3) == t0 * t0 + t0 * t1 + t0 * t2 + t0 * t3 + t1
        * t0 + t1 * t1 + t1 * t2 + t1 * t3 + t2 * t0 + t2 * t1 + t2 * t2 + t2 * t3 + t3 * t0 + t3
        * t1 + t3 * t2 + t3 * t3) by (nonlinear_arith);
    lemma_swap(x0, x0, v0, v0);
    lemma_swap(x0, x1, v0, v1);
    lemma_swap(x0, x2, v0, v2);
    lemma_swap(x0, x3, v0, v3);
    lemma_swap(x1, x0, v1, v0);
    lemma_swap(x1, x1, v1, v1);
    lemma_swap(x1, x2, v1, v2);
    lemma_swap(x1, x3, v1, v3);
    lemma_swap(x2, x0, v2, v0);
    lemma_swap(x2, x1, v2, v1);
    lemma_swap(x2, x2, v2, v2);
    lemma_swap(x2, x3, v2, v3);
    lemma_swap(x3, x0, v3, v0);
    lemma_swap(x3, x1, v3, v1);
    lemma_swap(x3, x2, v3, v2);
    lemma_swap(x3, x3, v3, v3);
    lemma_distribute(prev.a_at(arm, 0, 0), x0 * x0, v0 * v0);
    lemma_distribute(prev.a_at(arm, 0, 1), x0 * x1, v0 * v1);
    lemma_distribute(prev.a_at(arm, 0, 2), x0 * x2, v0 * v2);
    lemma_distribute(prev.a_at(arm, 0, 3), x0 * x3, v0 * v3);
    lemma_distribute(prev.a_at(arm, 1, 0), x1 * x0, v1 * v0);
    lemma_distribute(prev.a_at(arm, 1, 1), x1 * x1, v1 * v1);
    lemma_distribute(prev.a_at(arm, 1, 2), x1 * x2, v1 * v2);
    lemma_distribute(prev.a_at(arm, 1, 3), x1 * x3, v1 * v3);
    lemma_distribute(prev.a_at(arm, 2, 0), x2 * x0, v2 * v0);
    lemma_distribute(prev.a_at(arm, 2, 1), x2 * x1, v2 * v1);
    lemma_distribute(prev.a_at(arm, 2, 2), x2 * x2, v2 * v2);
    lemma_distribute(prev.a_at(arm, 2, 3), x2 * x3, v2 * v3);
    lemma_distribute(prev.a_at(arm, 3, 0), x3 * x0, v3 * v0);
    lemma_distribute(prev.a_at(arm, 3, 1), x3 * x1, v3 * v1);
    lemma_distribute(prev.a_at(arm, 3, 2), x3 * x2, v3 * v2);
    lemma_distribute(prev.a_at(arm, 3, 3), x3 * x3, v3 * v3);
}

proof fn lemma_swap(p: int, q: int, w: int, z: int)
    ensures
        (p * q) * (w * z) == (p * w) * (q * z),
{
    assert((p * q) * (w * z) == (p * w) * (q * z)) by (nonlinear_arith);
}

proof fn lemma_distribute(p: int, q: int, w: int)
    ensures
        (p + q) * w == p * w + q * w,
{
    assert((p + q) * w == p * w + q * w) by (nonlinear_arith);
}

/// `new` is `prev` after the observations `obs` (arm, features, reward), in order.
pub open spec fn applied(prev: LinUcb, new: LinUcb, obs: Seq<(usize, [i64; 4], i64)>) -> bool
    decreases obs.len(),
{
    if obs.len() == 0 {
        new.same_as(prev)
    } else {
        exists|mid: LinUcb|
            applied(prev, mid, obs.drop_last()) && #[trigger] new.updated_from(
                mid,
                obs.last().0 as int,
                obs.last().1,
                obs.last().2,
            )
    }
}

/// Every arm's matrix stays symmetric and positive definite, whatever
/// updates it went through: `vᵀ A v ≥ UNIT²·|v|²`, which is positive for
/// every non-zero `v`.
pub proof fn lemma_arm_matrix_positive_definite(bandit: &LinUcb, arm: int, v: Seq<int>)
    requires
        bandit.wf(),
        0 <= arm < bandit.arms(),
        v.len() == 4,
    ensures
        forall|i: int, j: int|
            0 <= i < 4 && 0 <= j < 4 ==> #[trigger] bandit.a_at(arm, i, j) == bandit.a_at(arm, j, i),
        bandit.quad(arm, v) >= UNIT_SQ * sum_sq(v),
        sum_sq(v) > 0 ==> bandit.quad(arm, v) > 0,
{
    assert(bandit.quad(arm, v) >= UNIT_SQ * sum_sq(v));
}

} // verus!
