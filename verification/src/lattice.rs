use vstd::prelude::*;
use vstd::arithmetic::div_mod::lemma_fundamental_div_mod;
use vstd::arithmetic::div_mod::lemma_fundamental_div_mod_converse;
use vstd::arithmetic::div_mod::lemma_mod_multiples_vanish;
use vstd::arithmetic::mul::lemma_mul_inequality;
use crate::unionfind::UnionFind;
use crate::unionfind::coarsens;
use crate::unionfind::lemma_coarsens_trans;
use crate::unionfind::lemma_singleton_store;
use crate::unionfind::lemma_union_result_coarsens;
use crate::unionfind::max_link_size;
use crate::unionfind::root_of;
use crate::unionfind::union_result;

verus! {

/// A bond-activation probability, held exactly as the ratio `num / den`.
#[derive(Clone, Copy, Debug, PartialEq, Eq, Structural)]
pub struct Probability {
    pub num: u64,
    pub den: u64,
}

/// A configuration the sampler cannot be built from.
#[derive(Clone, Copy, Debug, PartialEq, Eq, Structural)]
pub enum ConfigError {
    /// The lattice side was zero, a degenerate lattice without sites.
    ZeroSide,
    /// The number of sites of the lattice does not fit the index width.
    SideTooLarge,
    /// The probability ratio was not a fraction in [0, 1].
    InvalidProbability,
}

impl Probability {
    /// The ratio is a well-formed fraction in [0, 1].
    pub open spec fn valid(&self) -> bool {
        0 < self.den && self.num <= self.den
    }

    /// Build the probability `num / den`, rejecting ratios outside [0, 1].
    pub fn new(num: u64, den: u64) -> (r: Result<Probability, ConfigError>)
        ensures
            match r {
                Ok(p) => p.num == num && p.den == den && p.valid(),
                Err(e) => e == ConfigError::InvalidProbability && (den == 0 || num > den),
            },
    {
        if den == 0 || num > den {
            Err(ConfigError::InvalidProbability)
        } else {
            Ok(Probability { num, den })
        }
    }
}

/// An exact fraction `num / den` reported by the sampler.
#[derive(Clone, Copy, Debug, PartialEq, Eq, Structural)]
pub struct Fraction {
    pub num: usize,
    pub den: usize,
}

/// Relies on rand::Rng::gen_range on rand::thread_rng: it returns a
/// uniformly distributed value from the half-open range [0, den), and it
/// panics only when the range is empty.
#[verifier::external_body]
fn draw_below(den: u64) -> (d: u64)
    requires
        0 < den,
    ensures
        d < den,
{
    rand::Rng::gen_range(&mut rand::thread_rng(), 0..den)
}

/// The linear index of the site with coordinates `x` and `y`, each wrapped
/// into [0, l).
pub open spec fn torus_index(l: int, x: int, y: int) -> int {
    (x % l) + (y % l) * l
}

/// The column of site `k` on a lattice of side `l`.
pub open spec fn site_x(l: int, k: int) -> int {
    k % l
}

/// The row of site `k` on a lattice of side `l`.
pub open spec fn site_y(l: int, k: int) -> int {
    k / l
}

/// Site `k` shares its component with site 0 under the links `s`.
pub open spec fn linked_to_zero(s: Seq<i64>, k: int) -> bool {
    root_of(s, k) == root_of(s, 0)
}

/// In-range coordinates round-trip through the linear site index.
proof fn lemma_xy_index(l: int, x: int, y: int)
    requires
        0 < l,
        0 <= x < l,
        0 <= y < l,
    ensures
        0 <= x + y * l < l * l,
        site_x(l, x + y * l) == x,
        site_y(l, x + y * l) == y,
{
    lemma_fundamental_div_mod_converse(x + y * l, l, y, x);
    assert(y * l <= (l - 1) * l) by (nonlinear_arith)
        requires y <= l - 1 && l > 0;
    assert((l - 1) * l + l == l * l) by (nonlinear_arith);
}

/// A linear site index decomposes into in-range coordinates.
proof fn lemma_index_xy(l: int, k: int)
    requires
        0 < l,
        0 <= k < l * l,
    ensures
        0 <= site_x(l, k) < l,
        0 <= site_y(l, k) < l,
        k == site_x(l, k) + site_y(l, k) * l,
{
    lemma_fundamental_div_mod(k, l);
    assert(l * (k / l) == (k / l) * l) by (nonlinear_arith);
    vstd::arithmetic::div_mod::lemma_mod_bound(k, l);
    vstd::arithmetic::div_mod::lemma_div_pos_is_pos(k, l);
    if k / l >= l {
        lemma_mul_inequality(l, k / l, l);
        assert(l * l <= l * (k / l)) by (nonlinear_arith)
            requires l <= k / l && l > 0;
    }
}

/// The sites already handled after `i` full columns of the sweep: all of
/// the columns before `i`, and column `i` itself except its last row.
spec fn cols_done(l: int, i: int, k: int) -> bool {
    site_x(l, k) < i || (site_x(l, k) == i && site_y(l, k) < l - 1)
}

/// The sites already handled inside column `i` after `j` of its steps.
spec fn col_cover(l: int, i: int, j: int, k: int) -> bool {
    site_x(l, k) < i || (site_x(l, k) == i && site_y(l, k) <= j) || (site_x(l, k) == i + 1
        && site_y(l, k) < j)
}

/// Monte-Carlo sampler for bond percolation on an `l` by `l` torus: each
/// sweep offers every lattice bond once, activating it with the configured
/// probability, and the size of the largest connected component is read off
/// a weighted union-find store over the sites.
pub struct Percolation {
    l: usize,
    n: usize,
    p: Probability,
    uf: UnionFind,
}

impl Percolation {
    /// The lattice side length.
    pub closed spec fn side(&self) -> int {
        self.l as int
    }

    /// The number of sites, the square of the side length.
    pub closed spec fn site_count(&self) -> int {
        self.n as int
    }

    /// The configured bond-activation probability.
    pub closed spec fn prob(&self) -> Probability {
        self.p
    }

    /// The links of the current trial's union-find store.
    pub closed spec fn store(&self) -> Seq<i64> {
        self.uf@
    }

    /// The sampler is well formed: the site count is the squared side and
    /// fits the store's index width, the probability is a fraction in
    /// [0, 1], and the store is a well-formed forest over the sites.
    pub closed spec fn inv(&self) -> bool {
        &&& 1 <= self.l
        &&& self.n == self.l * self.l
        &&& 1 <= self.n
        &&& self.n <= i64::MAX
        &&& self.p.valid()
        &&& self.uf.inv()
        &&& self.uf@.len() == self.n
    }

    /// Build a sampler for an `l` by `l` torus with bond probability `p`.
    /// The side must be positive and the site count must fit the index
    /// width; the store starts with every site its own singleton component.
    pub fn new(l: usize, p: Probability) -> (r: Result<Percolation, ConfigError>)
        ensures
            match r {
                Ok(pc) => {
                    &&& 1 <= l
                    &&& l * l <= usize::MAX
                    &&& l * l <= i64::MAX
                    &&& p.valid()
                    &&& pc.inv()
                    &&& pc.side() == l
                    &&& pc.site_count() == l * l
                    &&& pc.prob() == p
                    &&& pc.store() == Seq::new((l * l) as nat, |x: int| -1i64)
                },
                Err(e) => {
                    &&& (e == ConfigError::ZeroSide <==> l == 0)
                    &&& (e == ConfigError::SideTooLarge <==> (1 <= l && (l * l > usize::MAX || l
                        * l > i64::MAX)))
                    &&& (e == ConfigError::InvalidProbability <==> (1 <= l && l * l <= usize::MAX
                        && l * l <= i64::MAX && !p.valid()))
                },
            },
            r is Ok <==> (1 <= l && l * l <= usize::MAX && l * l <= i64::MAX && p.valid()),
    {
        if l == 0 {
            return Err(ConfigError::ZeroSide);
        }
        let n = match l.checked_mul(l) {
            None => {
                return Err(ConfigError::SideTooLarge);
            },
            Some(n) => n,
        };
        if n as u64 > i64::MAX as u64 {
            return Err(ConfigError::SideTooLarge);
        }
        if p.den == 0 || p.num > p.den {
            return Err(ConfigError::InvalidProbability);
        }
        proof {
            assert(n >= 1) by (nonlinear_arith)
                requires l >= 1 && n == l * l;
        }
        Ok(Percolation { l, n, p, uf: UnionFind::new(n) })
    }

    /// The number of sites of the lattice.
    pub fn num_sites(&self) -> (c: usize)
        ensures
            c as int == self.site_count(),
    {
        self.n
    }

    /// The side length of the lattice.
    pub fn side_len(&self) -> (s: usize)
        ensures
            s as int == self.side(),
    {
        self.l
    }

    /// Wrap the coordinates into [0, l) and return the linear site index.
    fn pos2idx(&self, ix: usize, iy: usize) -> (idx: usize)
        requires
            self.inv(),
            ix <= self.side(),
            iy <= self.side(),
        ensures
            idx < self.site_count(),
            idx as int == torus_index(self.side(), ix as int, iy as int),
            ((ix as int) < self.side() && (iy as int) < self.side()) ==> {
                &&& idx as int == ix + iy * self.side()
                &&& site_x(self.side(), idx as int) == ix as int
                &&& site_y(self.side(), idx as int) == iy as int
            },
    {
        let l = self.l;
        proof {
            assert(2 * l <= l * l || l < 2) by (nonlinear_arith);
            assert(l + l <= usize::MAX);
        }
        let wx = (ix + l) % l;
        let wy = (iy + l) % l;
        proof {
            lemma_mod_multiples_vanish(1, ix as int, l as int);
            lemma_mod_multiples_vanish(1, iy as int, l as int);
            vstd::arithmetic::div_mod::lemma_mod_bound(ix as int, l as int);
            vstd::arithmetic::div_mod::lemma_mod_bound(iy as int, l as int);
            assert(wx as int == ix as int % l as int);
            assert(wy as int == iy as int % l as int);
            assert(wx < l && wy < l);
            assert(wx as int + wy as int * l < l * l) by (nonlinear_arith)
                requires wx < l && wy < l && l >= 1;
            if ix < l && iy < l {
                vstd::arithmetic::div_mod::lemma_small_mod(ix as nat, l as nat);
                vstd::arithmetic::div_mod::lemma_small_mod(iy as nat, l as nat);
                lemma_xy_index(l as int, ix as int, iy as int);
            }
        }
        wx + wy * l
    }

    /// Offer the bond between sites `i` and `j`: one random value is drawn,
    /// and exactly when it falls below the activation probability the two
    /// sites' components are merged.
    pub fn connect(&mut self, i: usize, j: usize)
        requires
            old(self).inv(),
            i < old(self).site_count(),
            j < old(self).site_count(),
        ensures
            final(self).inv(),
            final(self).side() == old(self).side(),
            final(self).site_count() == old(self).site_count(),
            final(self).prob() == old(self).prob(),
            union_result(old(self).store(), final(self).store(), i as int, j as int) || *final(
                self) == *old(self),
            old(self).prob().num == 0 ==> *final(self) == *old(self),
            old(self).prob().num == old(self).prob().den ==> union_result(old(self).store(),
                final(self).store(), i as int, j as int),
    {
        let d = draw_below(self.p.den);
        if d < self.p.num {
            self.uf.union(i, j);
        }
    }

    /// One full sweep over the torus: every site outside the last column
    /// and row offers the bond to its right neighbour and to the neighbour
    /// below, then the bonds along the last column and along the last row
    /// are offered in turn; the two corner-wrapping bonds back to the
    /// origin are never offered. When the probability is 1 and the side is
    /// at least 2 the sweep provably joins all sites into one component;
    /// when it is 0 the sweep changes nothing.
    pub fn one_step(&mut self)
        requires
            old(self).inv(),
        ensures
            final(self).inv(),
            final(self).side() == old(self).side(),
            final(self).site_count() == old(self).site_count(),
            final(self).prob() == old(self).prob(),
            coarsens(old(self).store(), final(self).store()),
            old(self).prob().num == 0 ==> *final(self) == *old(self),
            (old(self).prob().num == old(self).prob().den && old(self).side() >= 2)
                ==> forall|k: int| 0 <= k < final(self).store().len() ==> #[trigger] root_of(
                final(self).store(), k) == root_of(final(self).store(), 0),
    {
        let l = self.l;
        let ghost ll = l as int;
        let ghost nn = self.site_count();
        let ghost pr = self.prob();
        let ghost s_init = self.store();
        let ghost always = (pr.num == pr.den && ll >= 2);
        proof {
            assert(coarsens(s_init, s_init));
        }
        let mut i: usize = 0;
        while i < l - 1
            invariant
                self.inv(),
                self.side() == ll,
                self.site_count() == nn,
                nn == ll * ll,
                ll == l as int,
                1 <= ll,
                self.prob() == pr,
                always == (pr.num == pr.den && ll >= 2),
                i <= l - 1,
                self.store().len() == nn,
                s_init == old(self).store(),
                coarsens(s_init, self.store()),
                pr.num == 0 ==> *self == *old(self),
                (always && i > 0) ==> forall|k: int|
                    0 <= k < nn && cols_done(ll, i as int, k) ==> #[trigger] linked_to_zero(
                        self.store(), k),
            decreases l - 1 - i,
        {
            let mut j: usize = 0;
            proof {
                if always {
                    assert forall|k: int|
                        0 <= k < nn && col_cover(ll, i as int, 0, k) implies #[trigger]
                        linked_to_zero(self.store(), k) by {
                        lemma_index_xy(ll, k);
                        if site_x(ll, k) < i as int {
                            assert(cols_done(ll, i as int, k));
                        } else {
                            assert(site_x(ll, k) == i as int && site_y(ll, k) == 0);
                            if i == 0 {
                                assert(site_y(ll, k) * ll == 0) by (nonlinear_arith)
                                    requires site_y(ll, k) == 0;
                                assert(k == 0);
                            } else {
                                assert(cols_done(ll, i as int, k));
                            }
                        }
                    }
                }
            }
            while j < l - 1
                invariant
                    self.inv(),
                    self.side() == ll,
                    self.site_count() == nn,
                    nn == ll * ll,
                    ll == l as int,
                    (i as int) < ll - 1,
                    self.prob() == pr,
                    always == (pr.num == pr.den && ll >= 2),
                    j <= l - 1,
                    self.store().len() == nn,
                    s_init == old(self).store(),
                    coarsens(s_init, self.store()),
                    pr.num == 0 ==> *self == *old(self),
                    always ==> forall|k: int|
                        0 <= k < nn && col_cover(ll, i as int, j as int, k) ==> #[trigger]
                        linked_to_zero(self.store(), k),
                decreases l - 1 - j,
            {
                let idx = self.pos2idx(i, j);
                let right = self.pos2idx(i + 1, j);
                let below = self.pos2idx(i, j + 1);
                let ghost s_a = self.store();
                self.connect(idx, right);
                let ghost s_b = self.store();
                proof {
                    if union_result(s_a, s_b, idx as int, right as int) {
                        lemma_union_result_coarsens(s_a, s_b, idx as int, right as int);
                    } else {
                        assert(s_b == s_a);
                        assert(coarsens(s_a, s_b));
                    }
                    lemma_coarsens_trans(s_init, s_a, s_b);
                    if always {
                        lemma_union_result_coarsens(s_a, s_b, idx as int, right as int);
                        assert forall|k: int|
                            0 <= k < nn && col_cover(ll, i as int, j as int, k) implies #[trigger]
                            linked_to_zero(s_b, k) by {
                            assert(linked_to_zero(s_a, k));
                        }
                        assert(col_cover(ll, i as int, j as int, idx as int));
                        assert(linked_to_zero(s_b, idx as int));
                        assert(root_of(s_b, idx as int) == root_of(s_b, right as int));
                        assert(linked_to_zero(s_b, right as int));
                    }
                }
                self.connect(idx, below);
                let ghost s_c = self.store();
                proof {
                    if union_result(s_b, s_c, idx as int, below as int) {
                        lemma_union_result_coarsens(s_b, s_c, idx as int, below as int);
                    } else {
                        assert(s_c == s_b);
                        assert(coarsens(s_b, s_c));
                    }
                    lemma_coarsens_trans(s_init, s_b, s_c);
                    if always {
                        lemma_union_result_coarsens(s_b, s_c, idx as int, below as int);
                        assert(linked_to_zero(s_c, idx as int));
                        assert(root_of(s_c, idx as int) == root_of(s_c, below as int));
                        assert forall|k: int|
                            0 <= k < nn && col_cover(ll, i as int, (j + 1) as int, k)
                            implies #[trigger] linked_to_zero(s_c, k) by {
                            lemma_index_xy(ll, k);
                            let x = site_x(ll, k);
                            let y = site_y(ll, k);
                            if col_cover(ll, i as int, j as int, k) {
                                assert(linked_to_zero(s_b, k));
                            } else if x == i as int && y == j + 1 {
                                assert(k == below as int);
                            } else {
                                assert(x == i as int + 1 && y == j as int);
                                assert(k == right as int);
                                assert(linked_to_zero(s_b, k));
                            }
                        }
                    }
                }
                j = j + 1;
            }
            proof {
                if always {
                    assert forall|k: int|
                        0 <= k < nn && cols_done(ll, i as int + 1, k) implies #[trigger]
                        linked_to_zero(self.store(), k) by {
                        lemma_index_xy(ll, k);
                        assert(col_cover(ll, i as int, ll - 1, k));
                    }
                }
            }
            i = i + 1;
        }
        proof {
            if always {
                assert((ll - 1) + (ll - 1) * ll == ll * ll - 1) by (nonlinear_arith);
                assert forall|k: int| 0 <= k < nn - 1 implies #[trigger] linked_to_zero(
                    self.store(), k) by {
                    lemma_index_xy(ll, k);
                    if site_x(ll, k) == ll - 1 && site_y(ll, k) == ll - 1 {
                        assert(k == nn - 1);
                        assert(false);
                    }
                    assert(cols_done(ll, i as int, k));
                }
            }
        }
        let mut c: usize = 0;
        while c < l - 1
            invariant
                self.inv(),
                self.side() == ll,
                self.site_count() == nn,
                nn == ll * ll,
                ll == l as int,
                1 <= ll,
                self.prob() == pr,
                always == (pr.num == pr.den && ll >= 2),
                c <= l - 1,
                self.store().len() == nn,
                s_init == old(self).store(),
                coarsens(s_init, self.store()),
                pr.num == 0 ==> *self == *old(self),
                always ==> forall|k: int|
                    0 <= k < nn - 1 ==> #[trigger] linked_to_zero(self.store(), k),
                (always && c as int >= ll - 1) ==> linked_to_zero(self.store(), nn - 1),
            decreases l - 1 - c,
        {
            let a_idx = self.pos2idx(l - 1, c);
            let b_idx = self.pos2idx(l - 1, c + 1);
            let e_idx = self.pos2idx(c, l - 1);
            let f_idx = self.pos2idx(c + 1, l - 1);
            let ghost s_a = self.store();
            self.connect(a_idx, b_idx);
            let ghost s_b = self.store();
            proof {
                if union_result(s_a, s_b, a_idx as int, b_idx as int) {
                    lemma_union_result_coarsens(s_a, s_b, a_idx as int, b_idx as int);
                } else {
                    assert(s_b == s_a);
                    assert(coarsens(s_a, s_b));
                }
                lemma_coarsens_trans(s_init, s_a, s_b);
                if always {
                    lemma_union_result_coarsens(s_a, s_b, a_idx as int, b_idx as int);
                    assert((ll - 1) + (ll - 1) * ll == ll * ll - 1) by (nonlinear_arith);
                    assert forall|k: int| 0 <= k < nn - 1 implies #[trigger] linked_to_zero(
                        s_b, k) by {
                        assert(linked_to_zero(s_a, k));
                    }
                    assert(site_y(ll, a_idx as int) == c as int);
                    lemma_xy_index(ll, ll - 1, ll - 1);
                    assert(site_y(ll, nn - 1) == ll - 1);
                    assert(a_idx as int != nn - 1);
                    assert(linked_to_zero(s_b, a_idx as int));
                    assert(root_of(s_b, a_idx as int) == root_of(s_b, b_idx as int));
                    assert(linked_to_zero(s_b, b_idx as int));
                    if c == l - 2 {
                        assert(b_idx as int == nn - 1);
                    }
                }
            }
            self.connect(e_idx, f_idx);
            let ghost s_c = self.store();
            proof {
                if union_result(s_b, s_c, e_idx as int, f_idx as int) {
                    lemma_union_result_coarsens(s_b, s_c, e_idx as int, f_idx as int);
                } else {
                    assert(s_c == s_b);
                    assert(coarsens(s_b, s_c));
                }
                lemma_coarsens_trans(s_init, s_b, s_c);
                if always {
                    assert forall|k: int| 0 <= k < nn - 1 implies #[trigger] linked_to_zero(
                        s_c, k) by {
                        assert(linked_to_zero(s_b, k));
                    }
                    if c == l - 2 {
                        assert(linked_to_zero(s_b, nn - 1));
                        assert(linked_to_zero(s_c, nn - 1));
                    }
                }
            }
            c = c + 1;
        }
        proof {
            if always {
                assert forall|k: int|
                    0 <= k < self.store().len() implies #[trigger] root_of(self.store(), k)
                    == root_of(self.store(), 0) by {
                    if k < nn - 1 {
                        assert(linked_to_zero(self.store(), k));
                    } else {
                        assert(k == nn - 1);
                        assert(linked_to_zero(self.store(), k));
                    }
                }
            }
        }
    }

    /// Measure the percolation fraction: the size of the largest component
    /// over the number of sites, as an exact fraction. With `reset` the
    /// store is first rebuilt from singletons and one sweep is run; without
    /// it the existing store is measured and left unchanged.
    pub fn percolation_probability(&mut self, reset: bool) -> (f: Fraction)
        requires
            old(self).inv(),
        ensures
            final(self).inv(),
            final(self).side() == old(self).side(),
            final(self).site_count() == old(self).site_count(),
            final(self).prob() == old(self).prob(),
            f.den == old(self).site_count(),
            f.num == max_link_size(final(self).store(), final(self).store().len() as int),
            1 <= f.num <= f.den,
            !reset ==> *final(self) == *old(self),
            (reset && old(self).prob().num == 0) ==> f.num == 1,
            (reset && old(self).prob().num == old(self).prob().den && old(self).side() >= 2)
                ==> f.num == old(self).site_count(),
    {
        if reset {
            self.uf = UnionFind::new(self.n);
            self.one_step();
            proof {
                if self.p.num == 0 {
                    assert forall|x: int| 0 <= x < self.store().len() implies self.store()[x]
                        == -1i64 by {}
                    lemma_singleton_store(self.store());
                }
            }
        }
        let m = self.uf.max_size();
        Fraction { num: m as usize, den: self.n }
    }

    /// Run `n_step` independent trials, each on a fresh store with one full
    /// sweep, and collect the percolation fractions in call order.
    pub fn monte_carlo(&mut self, n_step: usize) -> (vals: Vec<Fraction>)
        requires
            old(self).inv(),
        ensures
            final(self).inv(),
            final(self).side() == old(self).side(),
            final(self).site_count() == old(self).site_count(),
            final(self).prob() == old(self).prob(),
            vals@.len() == n_step,
            forall|t: int| 0 <= t < n_step ==> (#[trigger] vals@[t]).den == old(self).site_count()
                && 1 <= vals@[t].num <= vals@[t].den,
            old(self).prob().num == 0 ==> forall|t: int| 0 <= t < n_step
                ==> (#[trigger] vals@[t]).num == 1,
            (old(self).prob().num == old(self).prob().den && old(self).side() >= 2) ==> forall|
                t: int,
            | 0 <= t < n_step ==> (#[trigger] vals@[t]).num == old(self).site_count(),
    {
        let mut vals: Vec<Fraction> = Vec::new();
        let mut t: usize = 0;
        while t < n_step
            invariant
                self.inv(),
                self.side() == old(self).side(),
                self.site_count() == old(self).site_count(),
                self.prob() == old(self).prob(),
                t <= n_step,
                vals@.len() == t,
                forall|q: int| 0 <= q < t ==> (#[trigger] vals@[q]).den == old(self).site_count()
                    && 1 <= vals@[q].num <= vals@[q].den,
                old(self).prob().num == 0 ==> forall|q: int| 0 <= q < t
                    ==> (#[trigger] vals@[q]).num == 1,
                (old(self).prob().num == old(self).prob().den && old(self).side() >= 2) ==> forall|
                    q: int,
                | 0 <= q < t ==> (#[trigger] vals@[q]).num == old(self).site_count(),
            decreases n_step - t,
        {
            let f = self.percolation_probability(true);
            vals.push(f);
            t = t + 1;
        }
        vals
    }
}

} // verus!
