//! Output-port choice of a dragonfly router.
//!
//! A router `(x, y)` of a network of `y_dim` groups of `x_dim` routers has `x_dim - 1` intra-group
//! ports, then `y_dim - 1` inter-group ports, then one local port. Intra port `k` leads to router
//! `(x + k + 1) % x_dim` of the same group; inter port `x_dim - 1 + m` carries the `m`-th global link
//! of the router. A packet holds its destination `dst_x * y_dim + dst_y`.
use vstd::prelude::*;

verus! {

/// The intra port that leads from router `x` to router `target` of the same group: the
/// smallest `k` with `(x + k + 1) % x_dim == target`.
pub open spec fn spec_intra_hop(x: usize, target: usize, x_dim: usize) -> int {
    ((target as int) - (x as int) - 1) % (x_dim as int)
}

/// Intra port from router `x` towards router `target` of the same group: `None` when no port
/// leads there (`target >= x_dim`), or when `x + k + 1` does not fit a `usize`.
pub fn intra_hop(x: usize, target: usize, x_dim: usize) -> (r: Option<usize>)
    requires
        x_dim > 0,
    ensures
        match r {
            Some(k) => {
                &&& target < x_dim
                &&& k == spec_intra_hop(x, target, x_dim)
                &&& k < x_dim
                &&& x + k + 1 <= usize::MAX
                &&& ((x + k + 1) as int) % (x_dim as int) == target
                &&& forall|j: int| 0 <= j < k ==> #[trigger] ((x + j + 1) % (x_dim as int)) != target
            },
            None => target >= x_dim || x + spec_intra_hop(x, target, x_dim) + 1 > usize::MAX,
        },
{
    if target >= x_dim {
        return None;
    }
    let xm = x % x_dim;
    let k = if target > xm {
        target - xm - 1
    } else {
        (x_dim - 1 - xm) + target
    };
    proof {
        lemma_intra_hop(x, target, x_dim, xm, k);
    }
    if x > usize::MAX - 1 - k {
        None
    } else {
        Some(k)
    }
}

proof fn lemma_intra_hop(x: usize, target: usize, x_dim: usize, xm: usize, k: usize)
    requires
        x_dim > 0,
        target < x_dim,
        xm == x % x_dim,
        k == if target > xm { target - xm - 1 } else { (x_dim - 1 - xm) + target },
    ensures
        k == spec_intra_hop(x, target, x_dim),
        k < x_dim,
        ((x + k + 1) as int) % (x_dim as int) == target,
        forall|j: int| 0 <= j < k ==> #[trigger] ((x + j + 1) % (x_dim as int)) != target,
{
    let xd = x_dim as int;
    let q = (x as int) / xd;
    vstd::arithmetic::div_mod::lemma_fundamental_div_mod(x as int, xd);
    assert(0 <= xm < xd) by {
        vstd::arithmetic::div_mod::lemma_mod_bound(x as int, xd);
    }
    if target > xm {
        assert((target as int) - (x as int) - 1 == (-q) * xd + k) by (nonlinear_arith)
            requires
                x == xd * q + xm,
                k == target - xm - 1;
        vstd::arithmetic::div_mod::lemma_fundamental_div_mod_converse(
            (target as int) - (x as int) - 1, xd, -q, k as int);
        assert(x + k + 1 == q * xd + target) by (nonlinear_arith)
            requires
                x == xd * q + xm,
                k == target - xm - 1;
        vstd::arithmetic::div_mod::lemma_fundamental_div_mod_converse(x + k + 1, xd, q, target as int);
        assert forall|j: int| 0 <= j < k implies #[trigger] ((x + j + 1) % xd) != target by {
            assert(x + j + 1 == q * xd + (xm + j + 1)) by (nonlinear_arith)
                requires
                    x == xd * q + xm;
            vstd::arithmetic::div_mod::lemma_fundamental_div_mod_converse(x + j + 1, xd, q, xm + j + 1);
        }
    } else {
        assert((target as int) - (x as int) - 1 == (-q - 1) * xd + k) by (nonlinear_arith)
            requires
                x == xd * q + xm,
                k == (xd - 1 - xm) + target;
        vstd::arithmetic::div_mod::lemma_fundamental_div_mod_converse(
            (target as int) - (x as int) - 1, xd, -q - 1, k as int);
        assert(x + k + 1 == (q + 1) * xd + target) by (nonlinear_arith)
            requires
                x == xd * q + xm,
                k == (xd - 1 - xm) + target;
        vstd::arithmetic::div_mod::lemma_fundamental_div_mod_converse(x + k + 1, xd, q + 1, target as int);
        assert forall|j: int| 0 <= j < k implies #[trigger] ((x + j + 1) % xd) != target by {
            if xm + j + 1 < xd {
                assert(x + j + 1 == q * xd + (xm + j + 1)) by (nonlinear_arith)
                    requires
                        x == xd * q + xm;
                vstd::arithmetic::div_mod::lemma_fundamental_div_mod_converse(x + j + 1, xd, q, xm + j + 1);
            } else {
                assert(x + j + 1 == (q + 1) * xd + (xm + j + 1 - xd)) by (nonlinear_arith)
                    requires
                        x == xd * q + xm;
                vstd::arithmetic::div_mod::lemma_fundamental_div_mod_converse(
                    x + j + 1, xd, q + 1, xm + j + 1 - xd);
            }
        }
    }
}

/// Index of the first link in `l` that leads into group `g`.
pub open spec fn first_link_to(l: Seq<(usize, usize)>, g: usize) -> Option<nat>
    decreases l.len(),
{
    if l.len() == 0 {
        None
    } else {
        match first_link_to(l.drop_last(), g) {
            Some(i) => Some(i),
            None => if l.last().1 == g { Some((l.len() - 1) as nat) } else { None },
        }
    }
}

/// Among routers `0..k` of group `y`, the last one that has a link into group `g`, with the
/// index of its first such link.
pub open spec fn gateway_upto(t: Seq<Seq<Seq<(usize, usize)>>>, y: usize, g: usize, k: nat) -> Option<(nat, nat)>
    decreases k,
{
    if k == 0 {
        None
    } else {
        match first_link_to(t[k - 1][y as int], g) {
            Some(m) => Some(((k - 1) as nat, m)),
            None => gateway_upto(t, y, g, (k - 1) as nat),
        }
    }
}

/// The router of group `y` through which packets leave for group `g`, with the index of its
/// link into `g` (`None` when no router of group `y` links into `g`, or `y` is no group).
///
/// When several routers of group `y` link into `g`, the simulator may leave by any of them; this
/// library always takes the highest-numbered one, and its first link into `g`. A choice that
/// walked the routers in the order of a hash map would differ from run to run, as the hasher is
/// seeded anew in each process; fixing the order makes routing a function of the link table.
/// Where only one router of group `y` links into `g`, every order gives the same answer.
pub open spec fn spec_gateway(t: Seq<Seq<Seq<(usize, usize)>>>, x_dim: usize, y_dim: usize, y: usize, g: usize) -> Option<(nat, nat)> {
    if y < y_dim {
        gateway_upto(t, y, g, x_dim as nat)
    } else {
        None
    }
}

proof fn lemma_first_link_to(l: Seq<(usize, usize)>, g: usize)
    ensures
        match first_link_to(l, g) {
            Some(i) => i < l.len() && l[i as int].1 == g && forall|j: int| 0 <= j < i ==> #[trigger] l[j].1 != g,
            None => forall|j: int| 0 <= j < l.len() ==> #[trigger] l[j].1 != g,
        },
    decreases l.len(),
{
    if l.len() > 0 {
        lemma_first_link_to(l.drop_last(), g);
        assert forall|j: int| 0 <= j < l.len() - 1 implies #[trigger] l[j] == l.drop_last()[j] by {}
    }
}

fn first_link_index(l: &Vec<(usize, usize)>, g: usize) -> (r: Option<usize>)
    ensures
        match r {
            Some(i) => first_link_to(l@, g) == Some(i as nat),
            None => first_link_to(l@, g) is None,
        },
{
    let mut i: usize = 0;
    while i < l.len()
        invariant
            i <= l@.len(),
            first_link_to(l@.take(i as int), g) is None,
        decreases l@.len() - i,
    {
        proof {
            assert(l@.take(i + 1).drop_last() =~= l@.take(i as int));
        }
        if l[i].1 == g {
            proof {
                lemma_first_link_prefix(l@, g, (i + 1) as nat);
            }
            return Some(i);
        }
        i += 1;
    }
    proof {
        assert(l@.take(i as int) =~= l@);
    }
    None
}

proof fn lemma_first_link_prefix(l: Seq<(usize, usize)>, g: usize, k: nat)
    requires
        k <= l.len(),
        first_link_to(l.take(k as int), g) is Some,
    ensures
        first_link_to(l, g) == first_link_to(l.take(k as int), g),
    decreases l.len() - k,
{
    if k < l.len() {
        assert(l.take((k + 1) as int).drop_last() =~= l.take(k as int));
        lemma_first_link_prefix(l, g, k + 1);
    } else {
        assert(l.take(k as int) =~= l);
    }
}

/// Finds the router of group `y` through which packets leave for group `g` (see
/// [`spec_gateway`]); `t` is the link table of the network.
pub fn gateway(t: &Vec<Vec<Vec<(usize, usize)>>>, x_dim: usize, y_dim: usize, y: usize, g: usize) -> (r: Option<(usize, usize)>)
    requires
        t.deep_view().len() == x_dim,
        forall|i: int| 0 <= i < x_dim ==> #[trigger] t.deep_view()[i].len() == y_dim,
    ensures
        match r {
            Some((gx, m)) => spec_gateway(t.deep_view(), x_dim, y_dim, y, g) == Some((gx as nat, m as nat)),
            None => spec_gateway(t.deep_view(), x_dim, y_dim, y, g) is None,
        },
{
    if y >= y_dim {
        return None;
    }
    let ghost dv = t.deep_view();
    let mut found: Option<(usize, usize)> = None;
    let mut k: usize = 0;
    while k < x_dim
        invariant
            k <= x_dim,
            y < y_dim,
            dv == t.deep_view(),
            dv.len() == x_dim,
            forall|i: int| 0 <= i < x_dim ==> #[trigger] dv[i].len() == y_dim,
            match found {
                Some((gx, m)) => gateway_upto(dv, y, g, k as nat) == Some((gx as nat, m as nat)),
                None => gateway_upto(dv, y, g, k as nat) is None,
            },
        decreases x_dim - k,
    {
        assert(dv[k as int] == t@[k as int].deep_view());
        assert(dv[k as int].len() == y_dim);
        assert(t@[k as int]@.len() == y_dim);
        assert(dv[k as int][y as int] == t@[k as int]@[y as int].deep_view());
        assert(t@[k as int]@[y as int].deep_view() =~= t@[k as int]@[y as int]@);
        match first_link_index(&t[k][y], g) {
            Some(m) => {
                found = Some((k, m));
            },
            None => {},
        }
        k += 1;
    }
    found
}

/// The digits of `n` in base ten, most significant first, as `to_string` writes them.
pub open spec fn decimal(n: nat) -> Seq<char>
    decreases n,
{
    if n < 10 {
        seq![digit_char(n)]
    } else {
        decimal(n / 10).push(digit_char(n % 10))
    }
}

/// The character of a decimal digit.
pub open spec fn digit_char(d: nat) -> char {
    ((d + 48) as u8) as char
}

pub fn push_decimal(out: &mut Vec<char>, n: usize)
    ensures
        final(out)@ == old(out)@ + decimal(n as nat),
    decreases n,
{
    if n >= 10 {
        push_decimal(out, n / 10);
    }
    let d = (n % 10) as u8;
    out.push((d + 48) as char);
    proof {
        if n >= 10 {
            assert(decimal(n as nat) == decimal((n / 10) as nat).push(digit_char((n % 10) as nat)));
        }
        assert(final(out)@ =~= old(out)@ + decimal(n as nat));
    }
}


/// A gateway names a router of the network and one of its links.
pub proof fn lemma_gateway_bounds(t: Seq<Seq<Seq<(usize, usize)>>>, x_dim: usize, y_dim: usize, y: usize, g: usize)
    ensures
        spec_gateway(t, x_dim, y_dim, y, g) matches Some((gx, m)) ==> {
            &&& gx < x_dim
            &&& y < y_dim
            &&& m < t[gx as int][y as int].len()
            &&& t[gx as int][y as int][m as int].1 == g
        },
{
    if y < y_dim {
        lemma_gateway_upto_bounds(t, y, g, x_dim as nat);
    }
}

proof fn lemma_gateway_upto_bounds(t: Seq<Seq<Seq<(usize, usize)>>>, y: usize, g: usize, k: nat)
    ensures
        gateway_upto(t, y, g, k) matches Some((gx, m)) ==> {
            &&& gx < k
            &&& m < t[gx as int][y as int].len()
            &&& t[gx as int][y as int][m as int].1 == g
        },
    decreases k,
{
    if k > 0 {
        lemma_first_link_to(t[k - 1][y as int], g);
        lemma_gateway_upto_bounds(t, y, g, (k - 1) as nat);
    }
}

proof fn lemma_gateway_upto_choice(t: Seq<Seq<Seq<(usize, usize)>>>, y: usize, g: usize, k: nat)
    ensures
        match gateway_upto(t, y, g, k) {
            Some((gx, m)) => {
                &&& gx < k
                &&& m < t[gx as int][y as int].len()
                &&& t[gx as int][y as int][m as int].1 == g
                &&& forall|j: int| 0 <= j < m ==> #[trigger] t[gx as int][y as int][j].1 != g
                &&& forall|x: int, j: int| gx < x < k && 0 <= j < t[x][y as int].len() ==> #[trigger] t[x][y as int][j].1 != g
            },
            None => forall|x: int, j: int| 0 <= x < k && 0 <= j < t[x][y as int].len() ==> #[trigger] t[x][y as int][j].1 != g,
        },
    decreases k,
{
    if k > 0 {
        lemma_first_link_to(t[k - 1][y as int], g);
        lemma_gateway_upto_choice(t, y, g, (k - 1) as nat);
    }
}

/// Packets leave group `y` for group `g` through the highest-numbered router of group `y` that has
/// a link into `g`, by its first such link; there is no gateway exactly when no router of group
/// `y` links into `g` (or `y` is no group).
pub proof fn law_gateway_choice(t: Seq<Seq<Seq<(usize, usize)>>>, x_dim: usize, y_dim: usize, y: usize, g: usize)
    ensures
        match spec_gateway(t, x_dim, y_dim, y, g) {
            Some((gx, m)) => {
                &&& y < y_dim
                &&& gx < x_dim
                &&& m < t[gx as int][y as int].len()
                &&& t[gx as int][y as int][m as int].1 == g
                &&& forall|j: int| 0 <= j < m ==> #[trigger] t[gx as int][y as int][j].1 != g
                &&& forall|x: int, j: int| gx < x < x_dim && 0 <= j < t[x][y as int].len() ==> #[trigger] t[x][y as int][j].1 != g
            },
            None => y < y_dim ==> forall|x: int, j: int| 0 <= x < x_dim && 0 <= j < t[x][y as int].len() ==> #[trigger] t[x][y as int][j].1 != g,
        },
{
    if y < y_dim {
        lemma_gateway_upto_choice(t, y, g, x_dim as nat);
    }
}

} // verus!
