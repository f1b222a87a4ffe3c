//! The matrix product state: its gates, its canonical form and its sampler.
use rand::rngs::SmallRng;
use vstd::prelude::*;

use crate::ising::valid_spins;
use crate::matrix::{entry, flipped_over, lemma_inside, transpose};
use crate::mps::svd::{
    factor_keeps_within_its_cap, factored, truncated_svd, JACOBI_MAX_SWEEPS,
};
use crate::mps::tensor::{
    close_channels, closed_over, couple_pair, mix_site, mixed, multiplied, multiply, normalize_vec,
    normalized, open_channels, opened, pair_table, pass_carry, passed, tilt_site, tilted,
};
use crate::rng::{draw_from, draw_of, streams, Draw, Source};
use crate::scalar::{
    is_ordinary, is_zero, nil, one, ordinary, pair_sum, sum_pairs, unit, vanishes, zero, Scalar,
};

verus! {

/// Largest bond dimension that a chain can have.
pub const BOND_LIMIT: usize = 4096;

/// Matrix product state: site tensor `k` has left bond `bond[k]` and right bond
/// `bond[k + 1]`.
pub struct Mps<R> {
    /// Flat tensors, one per site.
    pub site: Vec<Vec<R>>,
    /// Bond dimensions, one more than there are sites; the outer two are 1.
    pub bond: Vec<usize>,
}

/// A chain of tensors.
#[verifier::ext_equal]
pub struct Chain<R> {
    /// Flat tensors, one per site.
    pub site: Seq<Seq<R>>,
    /// Bond dimensions.
    pub bond: Seq<nat>,
}

impl<R> View for Mps<R> {
    type V = Chain<R>;

    open spec fn view(&self) -> Chain<R> {
        Chain {
            site: Seq::new(self.site@.len(), |k: int| self.site@[k]@),
            bond: Seq::new(self.bond@.len(), |k: int| self.bond@[k] as nat),
        }
    }
}

/// The tensors have the shapes that the bonds give, and no bond is out of range.
pub open spec fn chain_wf<R>(c: Chain<R>) -> bool {
    &&& c.bond.len() == c.site.len() + 1
    &&& c.bond[0] == 1
    &&& c.bond[c.site.len() as int] == 1
    &&& forall|k: int| 0 <= k < c.bond.len() ==> 1 <= #[trigger] c.bond[k] <= BOND_LIMIT
    &&& forall|k: int|
        0 <= k < c.site.len() ==> (#[trigger] c.site[k]).len() == (2 * c.bond[k]) * c.bond[k + 1]
}

/// The uniform superposition on `n` sites.
pub open spec fn plus_chain<R: Scalar>(n: nat) -> Chain<R> {
    Chain {
        site: Seq::new(n, |k: int| seq![R::of_milli(500).root(), R::of_milli(500).root()]),
        bond: Seq::new(n + 1, |k: int| 1nat),
    }
}

/// A chain after `1 + tau X` on every site. A factor that is 0 or not ordinary
/// does nothing.
pub open spec fn transversed<R: Scalar>(c: Chain<R>, tau: R) -> Chain<R> {
    if vanishes(tau) || !ordinary(tau) {
        c
    } else {
        Chain {
            site: Seq::new(
                c.site.len(),
                |k: int| normalized(mixed(c.site[k], c.bond[k], c.bond[k + 1], tau)),
            ),
            bond: c.bond,
        }
    }
}

/// A chain after the field factor on site `k`, where there is one.
pub open spec fn fielded<R: Scalar>(c: Chain<R>, k: int, gain: Option<R>) -> Chain<R> {
    match gain {
        None => c,
        Some(g) => Chain {
            site: c.site.update(k, normalized(tilted(c.site[k], c.bond[k], c.bond[k + 1], g))),
            bond: c.bond,
        },
    }
}

/// Site `k` made a right isometry, the rest carried into site `k - 1`.
pub open spec fn canon_step<R: Scalar>(eps: R, c: Chain<R>, k: int, chi: nat) -> Chain<R> {
    let dl = c.bond[k];
    let cols = 2 * c.bond[k + 1];
    let f = factored(
        eps,
        flipped_over(c.site[k], dl, cols),
        cols,
        dl,
        chi,
        JACOBI_MAX_SWEEPS as nat,
    );
    let kk = f.2;
    let next = multiplied(
        c.site[k - 1],
        flipped_over(f.1, kk, dl),
        2 * c.bond[k - 1],
        dl,
        kk,
    );
    Chain {
        site: c.site.update(k, flipped_over(f.0, cols, kk)).update(k - 1, normalized(next)),
        bond: c.bond.update(k, kk),
    }
}

/// Sites `k` down to 1 made right isometries.
pub open spec fn canon_from<R: Scalar>(eps: R, c: Chain<R>, k: int, chi: nat) -> Chain<R>
    decreases k,
{
    if k < 1 {
        c
    } else {
        canon_from(eps, canon_step(eps, c, k, chi), k - 1, chi)
    }
}

/// A chain in right canonical form, normalized.
pub open spec fn canonical<R: Scalar>(eps: R, c: Chain<R>, chi: nat) -> Chain<R> {
    if c.site.len() == 0 {
        c
    } else {
        let d = canon_from(eps, c, c.site.len() - 1, chi);
        Chain { site: d.site.update(0, normalized(d.site[0])), bond: d.bond }
    }
}

/// A coupling on its way through the chain.
#[verifier::ext_equal]
pub struct Zip<R> {
    /// The chain.
    pub c: Chain<R>,
    /// The bond that the carry's right side had before.
    pub mid: nat,
    /// The carry.
    pub carry: Seq<R>,
}

/// The coupling opened on site `u`.
pub open spec fn zip_open<R: Scalar>(eps: R, c: Chain<R>, u: int, t: R, chi: nat) -> Zip<R> {
    let dl = c.bond[u];
    let mid = c.bond[u + 1];
    let f = factored(
        eps,
        opened(c.site[u], dl, mid, t),
        2 * dl,
        mid * 2,
        chi,
        JACOBI_MAX_SWEEPS as nat,
    );
    Zip {
        c: Chain { site: c.site.update(u, f.0), bond: c.bond.update(u + 1, f.2) },
        mid,
        carry: normalized(f.1),
    }
}

/// The coupling moved through site `k`.
pub open spec fn zip_step<R: Scalar>(eps: R, z: Zip<R>, k: int, chi: nat) -> Zip<R> {
    let nb = z.c.bond[k];
    let dr = z.c.bond[k + 1];
    let f = factored(
        eps,
        passed(z.carry, z.c.site[k], nb, z.mid, dr),
        2 * nb,
        dr * 2,
        chi,
        JACOBI_MAX_SWEEPS as nat,
    );
    Zip {
        c: Chain { site: z.c.site.update(k, f.0), bond: z.c.bond.update(k + 1, f.2) },
        mid: dr,
        carry: normalized(f.1),
    }
}

/// The coupling opened on site `u` and moved through the sites before `k`.
pub open spec fn zip_upto<R: Scalar>(eps: R, c: Chain<R>, u: int, k: int, t: R, chi: nat) -> Zip<R>
    decreases k - u,
{
    if k <= u + 1 {
        zip_open(eps, c, u, t, chi)
    } else {
        zip_step(eps, zip_upto(eps, c, u, k - 1, t, chi), k - 1, chi)
    }
}

/// The coupling closed on site `v`.
pub open spec fn zipped<R: Scalar>(eps: R, c: Chain<R>, u: int, v: int, t: R, chi: nat) -> Chain<R> {
    let z = zip_upto(eps, c, u, v, t, chi);
    Chain {
        site: z.c.site.update(
            v,
            normalized(closed_over(z.carry, z.c.site[v], z.c.bond[v], z.mid, z.c.bond[v + 1])),
        ),
        bond: z.c.bond,
    }
}

/// The coupling on two product sites: the best product of the pair.
pub open spec fn zz_product<R: Scalar>(eps: R, c: Chain<R>, u: int, v: int, t: R) -> Chain<R> {
    if c.site[u].len() != 2 || c.site[v].len() != 2 {
        c
    } else {
        let f = factored(
            eps,
            pair_table(c.site[u], c.site[v], t),
            2,
            2,
            1,
            JACOBI_MAX_SWEEPS as nat,
        );
        Chain {
            site: c.site.update(u, normalized(f.0)).update(v, normalized(f.1)),
            bond: c.bond,
        }
    }
}

/// Every bond is 1.
pub open spec fn all_ones<R>(c: Chain<R>) -> bool {
    forall|k: int| 0 <= k < c.bond.len() ==> #[trigger] c.bond[k] == 1
}

/// A chain after the coupling `1 - t Z Z` on sites `u` and `v`, in either order.
/// A pair that is none, or a factor that is 0 or not ordinary, does nothing.
pub open spec fn coupled<R: Scalar>(eps: R, c: Chain<R>, a: int, b: int, t: R, chi: nat) -> Chain<R> {
    let (u, v) = if a <= b {
        (a, b)
    } else {
        (b, a)
    };
    if u == v || v >= c.site.len() || vanishes(t) || !ordinary(t) {
        c
    } else if chi <= 1 && all_ones(c) {
        zz_product(eps, c, u, v, t)
    } else {
        zipped(
            eps,
            c,
            u,
            v,
            t,
            if chi < 1 {
                1
            } else {
                chi
            },
        )
    }
}

proof fn lemma_sizes(a: int, b: int)
    requires
        0 <= a <= BOND_LIMIT,
        0 <= b <= BOND_LIMIT,
    ensures
        0 <= (2 * a) * b <= 2 * BOND_LIMIT * BOND_LIMIT,
        0 <= (2 * a) * (b * 2) <= 4 * BOND_LIMIT * BOND_LIMIT,
        4 * BOND_LIMIT * BOND_LIMIT <= usize::MAX,
        0 <= a * (2 * b),
        a * (2 * b) == (2 * a) * b,
        a * (b * 2) == (2 * a) * b,
        a * (2 * b) == (2 * b) * a,
{
    assert(0 <= (2 * a) * b <= 2 * 4096 * 4096) by (nonlinear_arith)
        requires
            0 <= a <= 4096,
            0 <= b <= 4096,
    ;
    assert((2 * a) * (b * 2) == 2 * ((2 * a) * b)) by (nonlinear_arith);
    assert(a * (2 * b) == (2 * a) * b) by (nonlinear_arith);
    assert(a * (b * 2) == (2 * a) * b) by (nonlinear_arith);
    assert(a * (2 * b) == (2 * b) * a) by (nonlinear_arith);
}

impl<R: Scalar> Mps<R> {
    /// The uniform superposition on `n` sites, every bond 1.
    pub fn plus_state(n: usize) -> (r: Self)
        requires
            n < usize::MAX,
        ensures
            r@ == plus_chain::<R>(n as nat),
            chain_wf(r@),
    {
        let amp: R = R::from_milli(500).square_root();
        let mut site: Vec<Vec<R>> = Vec::with_capacity(n);
        let mut bond: Vec<usize> = Vec::with_capacity(n + 1);
        bond.push(1);
        while site.len() < n
            invariant
                n < usize::MAX,
                amp == R::of_milli(500).root(),
                site@.len() <= n,
                bond@.len() == site@.len() + 1,
                forall|k: int|
                    0 <= k < site@.len() ==> (#[trigger] site@[k])@ == seq![
                        R::of_milli(500).root(),
                        R::of_milli(500).root(),
                    ],
                forall|k: int| 0 <= k < bond@.len() ==> #[trigger] bond@[k] == 1,
            decreases n - site@.len(),
        {
            let mut pair: Vec<R> = Vec::with_capacity(2);
            pair.push(amp);
            pair.push(amp);
            assert(pair@ =~= seq![R::of_milli(500).root(), R::of_milli(500).root()]);
            site.push(pair);
            bond.push(1);
        }
        let r = Mps { site, bond };
        assert(r@ =~= plus_chain::<R>(n as nat)) by {
            assert(r@.site =~= plus_chain::<R>(n as nat).site);
            assert(r@.bond =~= plus_chain::<R>(n as nat).bond);
        }
        r
    }

    /// Chain length.
    pub fn num_sites(&self) -> (n: usize)
        ensures
            n == self@.site.len(),
    {
        self.site.len()
    }

    /// Largest bond dimension of the chain.
    pub fn max_bond(&self) -> (b: usize)
        requires
            chain_wf(self@),
        ensures
            forall|k: int| 0 <= k < self@.bond.len() ==> #[trigger] self@.bond[k] <= b,
            exists|k: int| 0 <= k < self@.bond.len() && #[trigger] self@.bond[k] == b,
            b == 1 <==> all_ones(self@),
    {
        let mut best: usize = self.bond[0];
        assert(self@.bond[0] == best);
        let mut k: usize = 1;
        while k < self.bond.len()
            invariant
                1 <= k <= self.bond@.len(),
                forall|i: int| 0 <= i < k ==> #[trigger] self@.bond[i] <= best,
                exists|i: int| 0 <= i < self@.bond.len() && #[trigger] self@.bond[i] == best,
            decreases self.bond@.len() - k,
        {
            assert(self@.bond[k as int] == self.bond@[k as int]);
            if best < self.bond[k] {
                best = self.bond[k];
            }
            k = k + 1;
        }
        best
    }

    /// `1 + tau X` on every site. No bond grows.
    pub fn apply_transverse(&mut self, tau: R)
        requires
            chain_wf(old(self)@),
        ensures
            final(self)@ == transversed(old(self)@, tau),
            chain_wf(final(self)@),
            final(self)@.site.len() == old(self)@.site.len(),
    {
        if is_zero(tau) || !is_ordinary(tau) {
            return;
        }
        let ghost before = self@;
        let ghost goal = transversed(before, tau);
        let n: usize = self.site.len();
        let mut k: usize = 0;
        while k < n
            invariant
                chain_wf(before),
                goal == transversed(before, tau),
                !vanishes(tau),
                ordinary(tau),
                n == before.site.len(),
                self@.site.len() == n,
                self@.bond == before.bond,
                k <= n,
                forall|i: int| 0 <= i < k ==> #[trigger] self@.site[i] == goal.site[i],
                forall|i: int| k <= i < n ==> #[trigger] self@.site[i] == before.site[i],
                forall|i: int|
                    0 <= i < n ==> (#[trigger] self@.site[i]).len() == before.site[i].len(),
            decreases n - k,
        {
            let dl: usize = self.bond[k];
            let dr: usize = self.bond[k + 1];
            proof {
                assert(before.bond[k as int] == dl);
                assert(before.bond[k + 1] == dr);
                assert(self@.site[k as int] == self.site@[k as int]@);
                assert(before.site[k as int].len() == (2 * dl) * dr);
                lemma_sizes(dl as int, dr as int);
            }
            let ghost mid = self@;
            let mut a = mix_site(&self.site[k], dl, dr, tau);
            normalize_vec(&mut a);
            self.site.set(k, a);
            proof {
                assert(self@.bond =~= before.bond);
                assert(self@.site =~= mid.site.update(k as int, a@));
                assert forall|i: int| 0 <= i < k + 1 implies #[trigger] self@.site[i]
                    == goal.site[i] by {
                    if i < k {
                        assert(mid.site[i] == goal.site[i]);
                    }
                }
                assert forall|i: int| k + 1 <= i < n implies #[trigger] self@.site[i]
                    == before.site[i] by {
                    assert(mid.site[i] == before.site[i]);
                }
                assert forall|i: int| 0 <= i < n implies (#[trigger] self@.site[i]).len()
                    == before.site[i].len() by {
                    assert(mid.site[i].len() == before.site[i].len());
                }
            }
            k = k + 1;
        }
        proof {
            assert(self@.site =~= goal.site);
            assert(self@ =~= goal);
            assert forall|i: int| 0 <= i < self@.site.len() implies (#[trigger] self@.site[i]).len()
                == (2 * self@.bond[i]) * self@.bond[i + 1] by {
                assert(before.site[i].len() == (2 * before.bond[i]) * before.bond[i + 1]);
            }
        }
    }

    /// The field factor on site `k`, where there is one.
    pub fn apply_field(&mut self, k: usize, gain: Option<R>)
        requires
            chain_wf(old(self)@),
        ensures
            chain_wf(final(self)@),
            final(self)@.site.len() == old(self)@.site.len(),
            final(self)@ == if k < old(self)@.site.len() {
                fielded(old(self)@, k as int, gain)
            } else {
                old(self)@
            },
    {
        let g: R = match gain {
            Some(g) => g,
            None => {
                return;
            },
        };
        if k >= self.site.len() {
            return;
        }
        let ghost before = self@;
        let dl: usize = self.bond[k];
        let dr: usize = self.bond[k + 1];
        proof {
            assert(before.bond[k as int] == dl);
            assert(before.bond[k + 1] == dr);
            assert(before.site[k as int] == self.site@[k as int]@);
            lemma_sizes(dl as int, dr as int);
        }
        let mut a = tilt_site(&self.site[k], dl, dr, g);
        normalize_vec(&mut a);
        self.site.set(k, a);
        proof {
            assert(self@.bond =~= before.bond);
            assert(self@.site =~= before.site.update(k as int, a@));
            assert(self@ =~= fielded(before, k as int, gain));
            assert forall|i: int| 0 <= i < self@.site.len() implies (#[trigger] self@.site[i]).len()
                == (2 * self@.bond[i]) * self@.bond[i + 1] by {
                assert(before.site[i].len() == (2 * before.bond[i]) * before.bond[i + 1]);
            }
        }
    }

    /// Make site `k` a right isometry and carry the rest into site `k - 1`.
    fn canonicalize_site(&mut self, eps: R, k: usize, chi: usize)
        requires
            chain_wf(old(self)@),
            0 < k < old(self)@.site.len(),
            1 <= chi <= BOND_LIMIT,
        ensures
            chain_wf(final(self)@),
            final(self)@ == canon_step(eps, old(self)@, k as int, chi as nat),
            final(self)@.bond[k as int] <= chi,
    {
        let ghost before = self@;
        let bonds: usize = self.bond.len();
        let dl: usize = self.bond[k];
        let dr: usize = self.bond[k + 1];
        let dll: usize = self.bond[k - 1];
        proof {
            assert(before.bond[k as int] == dl);
            assert(before.bond[k + 1] == dr);
            assert(before.bond[k - 1] == dll);
            assert(before.site[k as int] == self.site@[k as int]@);
            assert(before.site[k - 1] == self.site@[k - 1]@);
            assert(before.site[k as int].len() == (2 * dl) * dr);
            assert(before.site[k - 1].len() == (2 * dll) * dl);
            lemma_sizes(dl as int, dr as int);
            lemma_sizes(dll as int, dl as int);
        }
        let cols: usize = 2 * dr;
        let bt = transpose(&self.site[k], dl, cols);
        let f = truncated_svd(eps, &bt, cols, dl, chi);
        let kk: usize = f.k;
        proof {
            factor_keeps_within_its_cap(
                eps,
                bt@,
                cols as nat,
                dl as nat,
                chi as nat,
                JACOBI_MAX_SWEEPS as nat,
            );
            lemma_sizes(dll as int, kk as int);
            lemma_sizes(kk as int, dr as int);
        }
        let here = transpose(&f.q, cols, kk);
        let carry = transpose(&f.carry, kk, dl);
        let mut next = multiply(&self.site[k - 1], &carry, 2 * dll, dl, kk);
        normalize_vec(&mut next);
        self.site.set(k, here);
        self.bond.set(k, kk);
        self.site.set(k - 1, next);
        proof {
            let goal = canon_step(eps, before, k as int, chi as nat);
            assert(self@.bond =~= before.bond.update(k as int, kk as nat));
            assert(self@.site =~= before.site.update(k as int, here@).update(k - 1, next@));
            assert(self@ =~= goal);
            assert forall|i: int| 0 <= i < self@.site.len() implies (#[trigger] self@.site[i]).len()
                == (2 * self@.bond[i]) * self@.bond[i + 1] by {
                assert(before.site[i].len() == (2 * before.bond[i]) * before.bond[i + 1]);
            }
        }
    }

    /// Make every site but the first a right isometry, from the right, and
    /// normalize the first. `chi` caps the bonds on the way through.
    pub fn right_canonicalize(&mut self, eps: R, chi: usize)
        requires
            chain_wf(old(self)@),
            1 <= chi <= BOND_LIMIT,
        ensures
            chain_wf(final(self)@),
            final(self)@.site.len() == old(self)@.site.len(),
            final(self)@ == canonical(eps, old(self)@, chi as nat),
            forall|k: int|
                0 < k < final(self)@.site.len() ==> #[trigger] final(self)@.bond[k] <= chi,
    {
        let n: usize = self.site.len();
        if n == 0 {
            return;
        }
        let ghost start = self@;
        let ghost goal = canon_from(eps, start, n - 1, chi as nat);
        let mut k: usize = n - 1;
        while k > 0
            invariant
                n == start.site.len(),
                1 <= chi <= BOND_LIMIT,
                chain_wf(self@),
                self@.site.len() == n,
                k < n,
                goal == canon_from(eps, start, n - 1, chi as nat),
                goal == canon_from(eps, self@, k as int, chi as nat),
                forall|i: int| k < i < n ==> #[trigger] self@.bond[i] <= chi,
            decreases k,
        {
            let ghost mid = self@;
            self.canonicalize_site(eps, k, chi);
            proof {
                assert forall|i: int| k - 1 < i < n implies #[trigger] self@.bond[i] <= chi by {
                    if i > k {
                        assert(mid.bond[i] <= chi);
                    }
                }
            }
            k = k - 1;
        }
        let ghost last = self@;
        let mut head: Vec<R> = Vec::new();
        std::mem::swap(&mut head, &mut self.site[0]);
        assert(head@ == last.site[0]);
        normalize_vec(&mut head);
        self.site.set(0, head);
        proof {
            assert(self@.bond =~= last.bond);
            assert(self@.site =~= last.site.update(0, head@));
            assert(self@ =~= canonical(eps, start, chi as nat));
            assert forall|i: int| 0 <= i < self@.site.len() implies (#[trigger] self@.site[i]).len()
                == (2 * self@.bond[i]) * self@.bond[i + 1] by {
                assert(last.site[i].len() == (2 * last.bond[i]) * last.bond[i + 1]);
            }
            assert forall|i: int| 0 < i < n implies #[trigger] self@.bond[i] <= chi by {
                assert(last.bond[i] <= chi);
            }
        }
    }
}

impl<R: Scalar> Mps<R> {
    /// Open the coupling on site `u`. Gives the carry.
    fn open_zip(&mut self, eps: R, u: usize, t: R, chi: usize) -> (carry: Vec<R>)
        requires
            chain_wf(old(self)@),
            u + 1 < old(self)@.site.len(),
            1 <= chi <= BOND_LIMIT,
        ensures
            ({
                let z = zip_open(eps, old(self)@, u as int, t, chi as nat);
                &&& final(self)@ == z.c
                &&& carry@ == z.carry
            }),
            1 <= final(self)@.bond[u + 1] <= chi,
            carry@.len() == final(self)@.bond[u + 1] * (old(self)@.bond[u + 1] * 2),
            final(self)@.site[u as int].len() == (2 * old(self)@.bond[u as int])
                * final(self)@.bond[u + 1],
    {
        let ghost before = self@;
        let n: usize = self.site.len();
        let dl: usize = self.bond[u];
        let mid: usize = self.bond[u + 1];
        proof {
            assert(before.bond[u as int] == dl);
            assert(before.bond[u + 1] == mid);
            assert(before.site[u as int] == self.site@[u as int]@);
            lemma_sizes(dl as int, mid as int);
        }
        let mat = open_channels(&self.site[u], dl, mid, t);
        let f = truncated_svd(eps, &mat, 2 * dl, mid * 2, chi);
        proof {
            factor_keeps_within_its_cap(
                eps,
                mat@,
                2 * dl as nat,
                mid as nat * 2,
                chi as nat,
                JACOBI_MAX_SWEEPS as nat,
            );
        }
        let mut carry = f.carry;
        normalize_vec(&mut carry);
        self.site.set(u, f.q);
        self.bond.set(u + 1, f.k);
        proof {
            let z = zip_open(eps, before, u as int, t, chi as nat);
            assert(self@.bond =~= before.bond.update(u + 1, f.k as nat));
            assert(self@.site =~= before.site.update(u as int, f.q@));
            assert(self@ =~= z.c);
        }
        carry
    }

    /// Move the coupling through site `k`. Gives the new carry.
    fn step_zip(
        &mut self,
        eps: R,
        k: usize,
        mid: usize,
        carry: &Vec<R>,
        chi: usize,
    ) -> (next: Vec<R>)
        requires
            old(self)@.bond.len() == old(self)@.site.len() + 1,
            k + 1 < old(self)@.site.len(),
            1 <= mid <= BOND_LIMIT,
            1 <= chi <= BOND_LIMIT,
            1 <= old(self)@.bond[k as int] <= BOND_LIMIT,
            1 <= old(self)@.bond[k + 1] <= BOND_LIMIT,
            old(self)@.site[k as int].len() == (2 * mid) * old(self)@.bond[k + 1],
            carry@.len() == old(self)@.bond[k as int] * (mid * 2),
        ensures
            ({
                let z = zip_step(
                    eps,
                    (Zip { c: old(self)@, mid: mid as nat, carry: carry@ }),
                    k as int,
                    chi as nat,
                );
                &&& final(self)@ == z.c
                &&& next@ == z.carry
            }),
            1 <= final(self)@.bond[k + 1] <= chi,
            next@.len() == final(self)@.bond[k + 1] * (old(self)@.bond[k + 1] * 2),
            final(self)@.site[k as int].len() == (2 * old(self)@.bond[k as int])
                * final(self)@.bond[k + 1],
    {
        let ghost before = self@;
        let n: usize = self.site.len();
        let nb: usize = self.bond[k];
        let dr: usize = self.bond[k + 1];
        proof {
            assert(before.bond[k as int] == nb);
            assert(before.bond[k + 1] == dr);
            assert(before.site[k as int] == self.site@[k as int]@);
            lemma_sizes(nb as int, dr as int);
        }
        let tmp = pass_carry(carry, &self.site[k], nb, mid, dr);
        let f = truncated_svd(eps, &tmp, 2 * nb, dr * 2, chi);
        proof {
            factor_keeps_within_its_cap(
                eps,
                tmp@,
                2 * nb as nat,
                dr as nat * 2,
                chi as nat,
                JACOBI_MAX_SWEEPS as nat,
            );
        }
        let mut next = f.carry;
        normalize_vec(&mut next);
        self.site.set(k, f.q);
        self.bond.set(k + 1, f.k);
        proof {
            assert(self@.bond =~= before.bond.update(k + 1, f.k as nat));
            assert(self@.site =~= before.site.update(k as int, f.q@));
        }
        next
    }

    /// The coupling on sites `u < v`, zipped through the chain between them.
    fn zip_through(&mut self, eps: R, u: usize, v: usize, t: R, chi: usize)
        requires
            chain_wf(old(self)@),
            u < v < old(self)@.site.len(),
            1 <= chi <= BOND_LIMIT,
        ensures
            chain_wf(final(self)@),
            final(self)@.site.len() == old(self)@.site.len(),
            final(self)@ == zipped(eps, old(self)@, u as int, v as int, t, chi as nat),
    {
        let ghost before = self@;
        let n: usize = self.site.len();
        let mut mid: usize = self.bond[u + 1];
        assert(before.bond[u + 1] == mid);
        let mut carry = self.open_zip(eps, u, t, chi);
        let mut k: usize = u + 1;
        while k < v
            invariant
                chain_wf(before),
                1 <= chi <= BOND_LIMIT,
                u < k <= v < n,
                n == before.site.len(),
                ({
                    let z = zip_upto(eps, before, u as int, k as int, t, chi as nat);
                    &&& self@ == z.c
                    &&& carry@ == z.carry
                    &&& mid == z.mid
                }),
                mid == before.bond[k as int],
                self@.site.len() == n,
                self@.bond.len() == n + 1,
                forall|i: int| k <= i < n ==> #[trigger] self@.site[i] == before.site[i],
                forall|i: int| k < i <= n ==> #[trigger] self@.bond[i] == before.bond[i],
                self@.bond[0] == 1,
                forall|i: int| 0 <= i <= n ==> 1 <= #[trigger] self@.bond[i] <= BOND_LIMIT,
                forall|i: int|
                    0 <= i < k ==> (#[trigger] self@.site[i]).len() == (2 * self@.bond[i])
                        * self@.bond[i + 1],
                carry@.len() == self@.bond[k as int] * (mid * 2),
            decreases v - k,
        {
            let ghost now = self@;
            let wide: usize = self.bond[k + 1];
            proof {
                assert(now.bond[k + 1] == wide);
                assert(now.site[k as int] == before.site[k as int]);
                assert(before.site[k as int].len() == (2 * before.bond[k as int])
                    * before.bond[k + 1]);
            }
            let next = self.step_zip(eps, k, mid, &carry, chi);
            proof {
                assert forall|i: int| k + 1 <= i < n implies #[trigger] self@.site[i]
                    == before.site[i] by {
                    assert(now.site[i] == before.site[i]);
                }
                assert forall|i: int| k + 1 < i <= n implies #[trigger] self@.bond[i]
                    == before.bond[i] by {
                    assert(now.bond[i] == before.bond[i]);
                }
                assert forall|i: int| 0 <= i <= n implies 1 <= #[trigger] self@.bond[i]
                    <= BOND_LIMIT by {
                    assert(1 <= now.bond[i] <= BOND_LIMIT);
                }
                assert forall|i: int| 0 <= i < k + 1 implies (#[trigger] self@.site[i]).len() == (2
                    * self@.bond[i]) * self@.bond[i + 1] by {
                    if i < k {
                        assert(now.site[i].len() == (2 * now.bond[i]) * now.bond[i + 1]);
                    }
                }
            }
            carry = next;
            mid = wide;
            k = k + 1;
        }
        let ghost now = self@;
        let nb: usize = self.bond[v];
        let dr: usize = self.bond[v + 1];
        proof {
            assert(now.bond[v as int] == nb);
            assert(now.bond[v + 1] == dr);
            assert(now.site[v as int] == self.site@[v as int]@);
            assert(now.site[v as int] == before.site[v as int]);
            assert(before.site[v as int].len() == (2 * before.bond[v as int])
                * before.bond[v + 1]);
            lemma_sizes(nb as int, dr as int);
        }
        let mut closed = close_channels(&carry, &self.site[v], nb, mid, dr);
        normalize_vec(&mut closed);
        self.site.set(v, closed);
        proof {
            assert(self@.bond =~= now.bond);
            assert(self@.site =~= now.site.update(v as int, closed@));
            assert(self@ =~= zipped(eps, before, u as int, v as int, t, chi as nat));
            assert(self@.bond[n as int] == before.bond[n as int]);
            assert forall|i: int| 0 <= i < n implies (#[trigger] self@.site[i]).len() == (2
                * self@.bond[i]) * self@.bond[i + 1] by {
                if i < v {
                    assert(now.site[i].len() == (2 * now.bond[i]) * now.bond[i + 1]);
                } else if i > v {
                    assert(now.site[i] == before.site[i]);
                    assert(now.bond[i] == before.bond[i]);
                    assert(now.bond[i + 1] == before.bond[i + 1]);
                    assert(before.site[i].len() == (2 * before.bond[i]) * before.bond[i + 1]);
                }
            }
        }
    }

    /// The coupling `1 - t Z Z` on two product sites: the pair becomes its best
    /// product. The span drops out.
    pub fn apply_zz_product(&mut self, eps: R, a: usize, b: usize, t: R)
        requires
            chain_wf(old(self)@),
        ensures
            chain_wf(final(self)@),
            final(self)@.site.len() == old(self)@.site.len(),
            final(self)@ == ({
                let (u, v) = if a <= b {
                    (a as int, b as int)
                } else {
                    (b as int, a as int)
                };
                if u == v || v >= old(self)@.site.len() || vanishes(t) || !ordinary(t) {
                    old(self)@
                } else {
                    zz_product(eps, old(self)@, u, v, t)
                }
            }),
    {
        let (u, v) = if a <= b {
            (a, b)
        } else {
            (b, a)
        };
        if u == v || v >= self.site.len() || is_zero(t) || !is_ordinary(t) {
            return;
        }
        let ghost before = self@;
        proof {
            assert(before.site[u as int] == self.site@[u as int]@);
            assert(before.site[v as int] == self.site@[v as int]@);
        }
        if self.site[u].len() != 2 || self.site[v].len() != 2 {
            return;
        }
        let m = couple_pair(&self.site[u], &self.site[v], t);
        let f = truncated_svd(eps, &m, 2, 2, 1);
        proof {
            factor_keeps_within_its_cap(eps, m@, 2, 2, 1, JACOBI_MAX_SWEEPS as nat);
        }
        let mut left = f.q;
        let mut right = f.carry;
        normalize_vec(&mut left);
        normalize_vec(&mut right);
        self.site.set(u, left);
        self.site.set(v, right);
        proof {
            assert(self@.bond =~= before.bond);
            assert(self@.site =~= before.site.update(u as int, left@).update(v as int, right@));
            assert(self@ =~= zz_product(eps, before, u as int, v as int, t));
            assert forall|i: int| 0 <= i < self@.site.len() implies (#[trigger] self@.site[i]).len()
                == (2 * self@.bond[i]) * self@.bond[i + 1] by {
                assert(before.site[i].len() == (2 * before.bond[i]) * before.bond[i + 1]);
            }
        }
    }

    /// The coupling `1 - t Z Z` on sites `a` and `b`, in either order. The cost
    /// follows the span, and sites outside it are untouched.
    pub fn apply_zz(&mut self, eps: R, a: usize, b: usize, t: R, chi: usize)
        requires
            chain_wf(old(self)@),
            chi <= BOND_LIMIT,
        ensures
            chain_wf(final(self)@),
            final(self)@.site.len() == old(self)@.site.len(),
            final(self)@ == coupled(eps, old(self)@, a as int, b as int, t, chi as nat),
    {
        let (u, v) = if a <= b {
            (a, b)
        } else {
            (b, a)
        };
        if u == v || v >= self.site.len() || is_zero(t) || !is_ordinary(t) {
            return;
        }
        if chi <= 1 && self.max_bond() == 1 {
            self.apply_zz_product(eps, u, v, t);
        } else {
            let cap: usize = if chi < 1 {
                1
            } else {
                chi
            };
            self.zip_through(eps, u, v, t, cap);
        }
    }
}

proof fn lemma_zip_outside<R: Scalar>(
    eps: R,
    c: Chain<R>,
    u: int,
    k: int,
    t: R,
    chi: nat,
    i: int,
)
    requires
        0 <= u < k < c.site.len(),
        c.bond.len() == c.site.len() + 1,
    ensures
        zip_upto(eps, c, u, k, t, chi).c.site.len() == c.site.len(),
        zip_upto(eps, c, u, k, t, chi).c.bond.len() == c.bond.len(),
        0 <= i < c.site.len() && (i < u || i >= k) ==> zip_upto(eps, c, u, k, t, chi).c.site[i]
            == c.site[i],
        0 <= i < c.bond.len() && (i <= u || i > k) ==> zip_upto(eps, c, u, k, t, chi).c.bond[i]
            == c.bond[i],
    decreases k - u,
{
    if k > u + 1 {
        lemma_zip_outside(eps, c, u, k - 1, t, chi, i);
    }
}

/// A coupling leaves the sites outside its span and the bonds outside it alone.
pub proof fn coupling_touches_its_span_only<R: Scalar>(
    eps: R,
    c: Chain<R>,
    u: int,
    v: int,
    t: R,
    chi: nat,
    i: int,
)
    requires
        0 <= u < v < c.site.len(),
        c.bond.len() == c.site.len() + 1,
    ensures
        0 <= i < c.site.len() && (i < u || i > v) ==> coupled(eps, c, u, v, t, chi).site[i]
            == c.site[i],
        0 <= i < c.bond.len() && (i <= u || i > v) ==> coupled(eps, c, u, v, t, chi).bond[i]
            == c.bond[i],
{
    lemma_zip_outside(
        eps,
        c,
        u,
        v,
        t,
        if chi < 1 {
            1
        } else {
            chi
        },
        i,
    );
}

/// The two ends of a coupling can be named in either order.
pub proof fn coupling_is_symmetric<R: Scalar>(
    eps: R,
    c: Chain<R>,
    u: int,
    v: int,
    t: R,
    chi: nat,
)
    ensures
        coupled(eps, c, u, v, t, chi) == coupled(eps, c, v, u, t, chi),
{
}

/// Sum over the first `k` left indices of a message into column `r` of branch
/// `p`; an entry of 0 adds nothing.
pub open spec fn branch_sum<R: Scalar>(
    site: Seq<R>,
    dr: int,
    msg: Seq<R>,
    p: int,
    r: int,
    k: int,
) -> R
    decreases k,
{
    if k <= 0 {
        nil()
    } else {
        let before = branch_sum(site, dr, msg, p, r, k - 1);
        if vanishes(msg[k - 1]) {
            before
        } else {
            before.plus(msg[k - 1].times(entry(site, dr, (k - 1) * 2 + p, r)))
        }
    }
}

/// The message after site `k` when physical index `p` is taken.
pub open spec fn branch<R: Scalar>(c: Chain<R>, k: int, msg: Seq<R>, p: int) -> Seq<R> {
    Seq::new(
        c.bond[k + 1],
        |r: int| branch_sum(c.site[k], c.bond[k + 1] as int, msg, p, r, c.bond[k] as int),
    )
}

/// The message into site `k` after the picks before it; a pick takes spin up.
pub open spec fn message_at<R: Scalar>(c: Chain<R>, picks: Seq<bool>, k: int) -> Seq<R>
    decreases k,
{
    if k <= 0 {
        seq![unit::<R>()]
    } else {
        normalized(
            branch(
                c,
                k - 1,
                message_at(c, picks, k - 1),
                if picks[k - 1] {
                    0
                } else {
                    1
                },
            ),
        )
    }
}

/// The weights of the two branches at a site.
pub open spec fn weights_at<R: Scalar>(c: Chain<R>, k: int, msg: Seq<R>) -> (R, R) {
    let w0 = branch(c, k, msg, 0);
    let w1 = branch(c, k, msg, 1);
    (pair_sum(w0, w0, w0.len() as int), pair_sum(w1, w1, w1.len() as int))
}

/// Pick `k` follows the weights: `below` says of the drawn word whether it falls
/// below the share of spin up. Where the weights sum to nothing ordinary the pick
/// is the drawn coin.
pub open spec fn follows_weights<R: Scalar, B: Fn(u64, R) -> bool>(
    below: B,
    c: Chain<R>,
    picks: Seq<bool>,
    k: int,
    d: Draw,
) -> bool {
    let (p0, p1) = weights_at(c, k, message_at(c, picks, k));
    let total = p0.plus(p1);
    if nil::<R>().under(total) && ordinary(total) {
        d matches Draw::Word(word) && call_ensures(
            below,
            (draw_of(word), p0.over(total)),
            picks[k],
        )
    } else {
        d == Draw::Coin(picks[k])
    }
}

/// The spins that picks stand for.
pub open spec fn picked_spins(picks: Seq<bool>) -> Seq<i8> {
    Seq::new(
        picks.len(),
        |k: int|
            if picks[k] {
                1i8
            } else {
                -1i8
            },
    )
}

/// `spins` is what `log` draws from the chain, site by site.
pub open spec fn chain_draw<R: Scalar, B: Fn(u64, R) -> bool>(
    below: B,
    c: Chain<R>,
    log: Seq<Draw>,
    spins: Seq<i8>,
) -> bool {
    exists|picks: Seq<bool>| #[trigger]
        picked_spins(picks) == spins && picks.len() == c.site.len() && log.len() == picks.len()
            && forall|k: int|
            0 <= k < picks.len() ==> follows_weights(below, c, picks, k, #[trigger] log[k])
}

proof fn lemma_message_prefix<R: Scalar>(c: Chain<R>, a: Seq<bool>, b: Seq<bool>, k: int)
    requires
        0 <= k <= a.len(),
        k <= b.len(),
        forall|i: int| 0 <= i < k ==> a[i] == b[i],
    ensures
        message_at(c, a, k) == message_at(c, b, k),
    decreases k,
{
    if k > 0 {
        lemma_message_prefix(c, a, b, k - 1);
    }
}

impl<R: Scalar> Mps<R> {
    /// The message after site `k` when physical index `p` is taken.
    fn take_branch(&self, k: usize, msg: &Vec<R>, p: usize) -> (w: Vec<R>)
        requires
            chain_wf(self@),
            k < self@.site.len(),
            msg@.len() == self@.bond[k as int],
            p < 2,
        ensures
            w@ == branch(self@, k as int, msg@, p as int),
    {
        let n: usize = self.site.len();
        let dl: usize = self.bond[k];
        let dr: usize = self.bond[k + 1];
        let ghost c = self@;
        proof {
            assert(c.bond[k as int] == dl);
            assert(c.bond[k + 1] == dr);
            assert(c.site[k as int] == self.site@[k as int]@);
            assert(c.site[k as int].len() == (2 * dl) * dr);
            lemma_sizes(dl as int, dr as int);
        }
        let mut w: Vec<R> = Vec::with_capacity(dr);
        let mut r: usize = 0;
        while r < dr
            invariant
                chain_wf(self@),
                c == self@,
                k < c.site.len(),
                dl == c.bond[k as int],
                dr == c.bond[k + 1],
                c.site[k as int] == self.site@[k as int]@,
                c.site[k as int].len() == (2 * dl) * dr,
                (2 * dl) * dr <= usize::MAX,
                dl <= BOND_LIMIT,
                msg@.len() == dl,
                p < 2,
                r <= dr,
                w@.len() == r,
                forall|i: int|
                    0 <= i < r ==> #[trigger] w@[i] == branch_sum(
                        c.site[k as int],
                        dr as int,
                        msg@,
                        p as int,
                        i,
                        dl as int,
                    ),
            decreases dr - r,
        {
            let mut sum: R = zero();
            let mut l: usize = 0;
            while l < dl
                invariant
                    c == self@,
                    k < self.site@.len(),
                    c.site[k as int] == self.site@[k as int]@,
                    c.site[k as int].len() == (2 * dl) * dr,
                    (2 * dl) * dr <= usize::MAX,
                    dl <= BOND_LIMIT,
                    msg@.len() == dl,
                    p < 2,
                    r < dr,
                    l <= dl,
                    sum == branch_sum(
                        c.site[k as int],
                        dr as int,
                        msg@,
                        p as int,
                        r as int,
                        l as int,
                    ),
                decreases dl - l,
            {
                if !is_zero(msg[l]) {
                    proof {
                        lemma_inside(2 * dl as int, dr as int, l * 2 + p, r as int);
                    }
                    sum = sum.sum(msg[l].product(self.site[k][(l * 2 + p) * dr + r]));
                }
                l = l + 1;
            }
            w.push(sum);
            r = r + 1;
        }
        assert(w@ =~= branch(c, k as int, msg@, p as int));
        w
    }

    /// One sample by the chain rule, in chain order. In right canonical form
    /// the weights at a site are the marginals, so one pass from the left is
    /// exact. Weights that sum to nothing ordinary fall back to a fair coin.
    pub fn sample_one<B: Fn(u64, R) -> bool>(&self, below: &B, rng: &mut SmallRng) -> (spins: Vec<i8>)
        requires
            chain_wf(self@),
            forall|word: u64, x: R| #[trigger] call_requires(*below, (word, x)),
        ensures
            spins@.len() == self@.site.len(),
            valid_spins(spins@),
            exists|log: Seq<Draw>| #[trigger]
                streams(*old(rng), log, *final(rng)) && chain_draw(*below, self@, log, spins@),
    {
        let mut src = Source::taken(rng);
        let spins = self.draw_sites(below, &mut src);
        src.give_back(rng);
        spins
    }

    /// One sample by the chain rule, from a fresh source.
    pub(crate) fn draw_sites<B: Fn(u64, R) -> bool>(&self, below: &B, src: &mut Source) -> (spins:
        Vec<i8>)
        requires
            chain_wf(self@),
            forall|word: u64, x: R| #[trigger] call_requires(*below, (word, x)),
            old(src).wf(),
            old(src).log().len() == 0,
        ensures
            spins@.len() == self@.site.len(),
            valid_spins(spins@),
            final(src).wf(),
            final(src).start() == old(src).start(),
            chain_draw(*below, self@, final(src).log(), spins@),
    {
        let n: usize = self.site.len();
        let ghost c = self@;
        let ghost mut picks: Seq<bool> = Seq::empty();
        let mut spins: Vec<i8> = Vec::with_capacity(n);
        let mut msg: Vec<R> = Vec::with_capacity(1);
        msg.push(one());
        assert(msg@ =~= seq![unit::<R>()]);
        let mut k: usize = 0;
        while k < n
            invariant
                chain_wf(self@),
                c == self@,
                n == c.site.len(),
                forall|word: u64, x: R| #[trigger] call_requires(*below, (word, x)),
                k <= n,
                picks.len() == k,
                spins@ == picked_spins(picks),
                msg@ == message_at(c, picks, k as int),
                msg@.len() == c.bond[k as int],
                src.wf(),
                src.start() == old(src).start(),
                src.log().len() == k,
                forall|i: int|
                    0 <= i < k ==> follows_weights(
                        *below,
                        c,
                        picks,
                        i,
                        #[trigger] src.log()[i],
                    ),
            decreases n - k,
        {
            let w0 = self.take_branch(k, &msg, 0);
            let w1 = self.take_branch(k, &msg, 1);
            let p0: R = sum_pairs(&w0, &w0);
            let total: R = p0.sum(sum_pairs(&w1, &w1));
            let known: bool = zero::<R>().less(total) && is_ordinary(total);
            let ghost held = src.log();
            let up: bool = if known {
                let word: u64 = src.word();
                below(draw_from(word), p0.quotient(total))
            } else {
                src.coin()
            };
            let ghost before = picks;
            proof {
                picks = picks.push(up);
                lemma_message_prefix(c, before, picks, k as int);
                assert(follows_weights(*below, c, picks, k as int, src.log()[k as int]));
                assert forall|i: int| 0 <= i < k + 1 implies follows_weights(
                    *below,
                    c,
                    picks,
                    i,
                    #[trigger] src.log()[i],
                ) by {
                    if i < k {
                        assert(follows_weights(*below, c, before, i, held[i]));
                        lemma_message_prefix(c, before, picks, i);
                        assert(picks[i] == before[i]);
                    }
                }
            }
            spins.push(
                if up {
                    1i8
                } else {
                    -1i8
                },
            );
            assert(spins@ =~= picked_spins(picks));
            msg = if up {
                w0
            } else {
                w1
            };
            normalize_vec(&mut msg);
            k = k + 1;
        }
        spins
    }
}

} // verus!
