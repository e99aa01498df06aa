//! Inter-group wiring of a dragonfly network.
//!
//! A dragonfly network has `y_dim` groups of `x_dim` routers each; a router is named by its
//! position `(x, y)`: `x` within its group, `y` the group. Every group spreads its
//! `y_dim - 1` global links as evenly as it can over its routers, and the links are laid
//! greedily, group by group, router by router.
//!
//! The link table maps each router `(x, y)` to the list of routers it links to. Every router of
//! the network has an entry, so the table is dense: a nested `Vec` indexed by `x`, then `y`, of
//! shape `x_dim` by `y_dim` ([`table_shaped`]).
use vstd::prelude::*;

verus! {

/// The link table as a mathematical value: `t[x][y]` lists, in the order they were laid,
/// the routers that router `(x, y)` has a global link to.
pub type LinkTableModel = Seq<Seq<Seq<(usize, usize)>>>;

/// How many global links each router of a group carries: the `y_dim - 1` links of a group are
/// spread evenly, the first `(y_dim - 1) % x_dim` routers carrying one more.
pub open spec fn spec_num_connection(x_dim: usize, y_dim: usize) -> Seq<usize> {
    let q = (y_dim - 1) / (x_dim as int);
    let r = (y_dim - 1) % (x_dim as int);
    Seq::new(x_dim as nat, |i: int| if i < r { (q + 1) as usize } else { q as usize })
}

/// The table before any link is laid: an empty list for each of the `x_dim * y_dim` routers.
pub open spec fn empty_table(x_dim: usize, y_dim: usize) -> LinkTableModel {
    Seq::new(x_dim as nat, |i: int| Seq::new(y_dim as nat, |j: int| Seq::<(usize, usize)>::empty()))
}

/// Appends `(c, d)` to the list of router `(a, b)`.
pub open spec fn add_link(t: LinkTableModel, a: int, b: int, c: int, d: int) -> LinkTableModel {
    t.update(a, t[a].update(b, t[a][b].push((c as usize, d as usize))))
}

/// One attempt of router `(n, m)` to lay a link towards group `cnt % y_dim`, to router
/// `m % x_dim` of that group. The link is laid, both ways, when neither end has used up its
/// share of links; `cnt` then moves on to the next group.
pub open spec fn link_attempt(
    t: LinkTableModel,
    nc: Seq<usize>,
    x_dim: usize,
    y_dim: usize,
    n: int,
    m: int,
    cnt: nat,
) -> (LinkTableModel, nat) {
    let dx = m % (x_dim as int);
    let dy = (cnt as int) % (y_dim as int);
    if t[n][m].len() < nc[n] && t[dx][dy].len() < nc[dx] {
        (add_link(add_link(t, n, m, dx, dy), dx, dy, n, m), cnt + 1)
    } else {
        (t, cnt)
    }
}

/// The first `k` attempts of router `(n, m)`, starting at group counter `cnt`.
pub open spec fn router_attempts(
    t: LinkTableModel,
    nc: Seq<usize>,
    x_dim: usize,
    y_dim: usize,
    n: int,
    m: int,
    k: nat,
    cnt: nat,
) -> (LinkTableModel, nat)
    decreases k,
{
    if k == 0 {
        (t, cnt)
    } else {
        let prev = router_attempts(t, nc, x_dim, y_dim, n, m, (k - 1) as nat, cnt);
        link_attempt(prev.0, nc, x_dim, y_dim, n, m, prev.1)
    }
}

/// The attempts of routers `0..n` of group `m`, each router making `nc[router]` of them;
/// the group counter starts at `m + 1`.
pub open spec fn group_pass(
    t: LinkTableModel,
    nc: Seq<usize>,
    x_dim: usize,
    y_dim: usize,
    m: int,
    n: nat,
) -> (LinkTableModel, nat)
    decreases n,
{
    if n == 0 {
        (t, (m + 1) as nat)
    } else {
        let prev = group_pass(t, nc, x_dim, y_dim, m, (n - 1) as nat);
        router_attempts(prev.0, nc, x_dim, y_dim, n - 1, m, nc[n - 1] as nat, prev.1)
    }
}

/// The table once groups `0..m` have laid their links.
pub open spec fn groups_laid(nc: Seq<usize>, x_dim: usize, y_dim: usize, m: nat) -> LinkTableModel
    decreases m,
{
    if m == 0 {
        empty_table(x_dim, y_dim)
    } else {
        group_pass(groups_laid(nc, x_dim, y_dim, (m - 1) as nat), nc, x_dim, y_dim, m - 1, x_dim as nat).0
    }
}

/// The complete link table of a dragonfly network of `y_dim` groups of `x_dim` routers.
pub open spec fn spec_inter_links(x_dim: usize, y_dim: usize) -> LinkTableModel {
    groups_laid(spec_num_connection(x_dim, y_dim), x_dim, y_dim, y_dim as nat)
}

/// Number of times `e` occurs in `s`.
pub open spec fn occurrences(s: Seq<(usize, usize)>, e: (usize, usize)) -> nat
    decreases s.len(),
{
    if s.len() == 0 {
        0
    } else {
        occurrences(s.drop_last(), e) + if s.last() == e { 1nat } else { 0nat }
    }
}

/// Sum of a sequence of counts.
pub open spec fn sum_usize(s: Seq<usize>) -> nat
    decreases s.len(),
{
    if s.len() == 0 {
        0
    } else {
        sum_usize(s.drop_last()) + (s.last() as nat)
    }
}

/// `t` has one list per router of an `x_dim` by `y_dim` network.
pub open spec fn table_shaped(t: LinkTableModel, x_dim: usize, y_dim: usize) -> bool {
    &&& t.len() == x_dim
    &&& forall|i: int| 0 <= i < x_dim ==> #[trigger] t[i].len() == y_dim
}

/// Every listed link ends at a router of the network, in another group than the router
/// that lists it.
pub open spec fn links_leave_group(t: LinkTableModel, x_dim: usize, y_dim: usize) -> bool {
    forall|a: int, b: int, k: int|
        0 <= a < x_dim && 0 <= b < y_dim && 0 <= k < t[a][b].len() ==> {
            let e = #[trigger] t[a][b][k];
            &&& e.0 < x_dim
            &&& e.1 < y_dim
            &&& e.1 != b
        }
}

/// No router lists more links than its share.
pub open spec fn links_within_share(t: LinkTableModel, nc: Seq<usize>, x_dim: usize, y_dim: usize) -> bool {
    forall|a: int, b: int| 0 <= a < x_dim && 0 <= b < y_dim ==> #[trigger] t[a][b].len() <= nc[a]
}

/// Every link is listed at both of its ends, as often at one end as at the other.
pub open spec fn links_symmetric(t: LinkTableModel, x_dim: usize, y_dim: usize) -> bool {
    forall|a: int, b: int, c: int, d: int|
        0 <= a < x_dim && 0 <= b < y_dim && 0 <= c < x_dim && 0 <= d < y_dim ==>
            occurrences(#[trigger] t[a][b], (c as usize, d as usize))
                == occurrences(#[trigger] t[c][d], (a as usize, b as usize))
}

proof fn lemma_occurrences_push(s: Seq<(usize, usize)>, x: (usize, usize), e: (usize, usize))
    ensures
        occurrences(s.push(x), e) == occurrences(s, e) + if x == e { 1nat } else { 0nat },
{
    assert(s.push(x).drop_last() =~= s);
}

/// The shares add up to the `y_dim - 1` links of a group, no two differ by more than one, and the
/// routers that carry one more come first.
pub proof fn law_num_connection_balanced(x_dim: usize, y_dim: usize)
    requires
        x_dim > 0,
        y_dim > 0,
    ensures
        spec_num_connection(x_dim, y_dim).len() == x_dim,
        sum_usize(spec_num_connection(x_dim, y_dim)) == y_dim - 1,
        forall|i: int, j: int| 0 <= i < x_dim && 0 <= j < x_dim ==>
            #[trigger] spec_num_connection(x_dim, y_dim)[i] <= #[trigger] spec_num_connection(x_dim, y_dim)[j] + 1,
        forall|i: int, j: int| 0 <= i <= j < x_dim ==>
            #[trigger] spec_num_connection(x_dim, y_dim)[i] >= #[trigger] spec_num_connection(x_dim, y_dim)[j],
{
    let nc = spec_num_connection(x_dim, y_dim);
    let q = (y_dim - 1) / (x_dim as int);
    let r = (y_dim - 1) % (x_dim as int);
    vstd::arithmetic::div_mod::lemma_fundamental_div_mod((y_dim - 1) as int, x_dim as int);
    lemma_sum_prefix_shares(x_dim, y_dim, x_dim as nat);
    assert(nc.take(x_dim as int) =~= nc);
    assert(q * x_dim + r == y_dim - 1) by (nonlinear_arith)
        requires
            (y_dim - 1) == (x_dim as int) * q + r;
}

/// The first `k` shares add up to `k * q + min(k, r)`.
proof fn lemma_sum_prefix_shares(x_dim: usize, y_dim: usize, k: nat)
    requires
        x_dim > 0,
        y_dim > 0,
        k <= x_dim,
    ensures
        ({
            let q = (y_dim - 1) / (x_dim as int);
            let r = (y_dim - 1) % (x_dim as int);
            sum_usize(spec_num_connection(x_dim, y_dim).take(k as int)) == k * q + if (k as int) < r {
                k as int
            } else {
                r
            }
        }),
    decreases k,
{
    let nc = spec_num_connection(x_dim, y_dim);
    let q = (y_dim - 1) / (x_dim as int);
    let r = (y_dim - 1) % (x_dim as int);
    vstd::arithmetic::div_mod::lemma_fundamental_div_mod((y_dim - 1) as int, x_dim as int);
    assert(0 <= q) by {
        vstd::arithmetic::div_mod::lemma_div_pos_is_pos((y_dim - 1) as int, x_dim as int);
    }
    assert(q <= y_dim - 1) by {
        vstd::arithmetic::div_mod::lemma_div_is_ordered_by_denominator((y_dim - 1) as int, 1, x_dim as int);
    }
    if k == 0 {
        assert(nc.take(0) =~= Seq::<usize>::empty());
    } else {
        lemma_sum_prefix_shares(x_dim, y_dim, (k - 1) as nat);
        assert(nc.take(k as int).drop_last() =~= nc.take(k - 1));
        assert(nc.take(k as int).last() == nc[k - 1]);
        assert(k * q == (k - 1) * q + q) by (nonlinear_arith);
    }
}


/// Every link of group `g` is laid towards router `g % x_dim` of the other group: a link listed
/// by router `(a, b)` towards `(c, d)` either was laid by group `b` and ends at router
/// `b % x_dim`, or was laid by group `d` and starts at router `d % x_dim`.
pub open spec fn links_aim_by_group(t: LinkTableModel, x_dim: usize, y_dim: usize) -> bool {
    forall|a: int, b: int, k: int|
        0 <= a < x_dim && 0 <= b < y_dim && 0 <= k < t[a][b].len() ==> {
            let e = #[trigger] t[a][b][k];
            e.0 == b % (x_dim as int) || a == (e.1 as int) % (x_dim as int)
        }
}

/// The laws every partly laid table keeps.
pub open spec fn table_sound(t: LinkTableModel, nc: Seq<usize>, x_dim: usize, y_dim: usize) -> bool {
    &&& table_shaped(t, x_dim, y_dim)
    &&& links_within_share(t, nc, x_dim, y_dim)
    &&& links_symmetric(t, x_dim, y_dim)
    &&& links_leave_group(t, x_dim, y_dim)
    &&& links_aim_by_group(t, x_dim, y_dim)
}

proof fn lemma_add_pair(t: LinkTableModel, x_dim: usize, y_dim: usize, a0: int, b0: int, c0: int, d0: int)
    requires
        table_shaped(t, x_dim, y_dim),
        0 <= a0 < x_dim,
        0 <= b0 < y_dim,
        0 <= c0 < x_dim,
        0 <= d0 < y_dim,
        b0 != d0,
    ensures
        ({
            let t2 = add_link(add_link(t, a0, b0, c0, d0), c0, d0, a0, b0);
            &&& table_shaped(t2, x_dim, y_dim)
            &&& forall|a: int, b: int| 0 <= a < x_dim && 0 <= b < y_dim ==> #[trigger] t2[a][b] == if a == a0 && b == b0 {
                t[a][b].push((c0 as usize, d0 as usize))
            } else if a == c0 && b == d0 {
                t[a][b].push((a0 as usize, b0 as usize))
            } else {
                t[a][b]
            }
        }),
{
}

proof fn lemma_attempt_sound(
    t: LinkTableModel,
    nc: Seq<usize>,
    x_dim: usize,
    y_dim: usize,
    n: int,
    m: int,
    cnt: nat,
)
    requires
        table_sound(t, nc, x_dim, y_dim),
        nc.len() == x_dim,
        0 <= n < x_dim,
        0 <= m < y_dim,
        (cnt as int) % (y_dim as int) != m,
    ensures
        table_sound(link_attempt(t, nc, x_dim, y_dim, n, m, cnt).0, nc, x_dim, y_dim),
        cnt <= link_attempt(t, nc, x_dim, y_dim, n, m, cnt).1 <= cnt + 1,
{
    let dx = m % (x_dim as int);
    let dy = (cnt as int) % (y_dim as int);
    if t[n][m].len() < nc[n] && t[dx][dy].len() < nc[dx] {
        lemma_add_pair(t, x_dim, y_dim, n, m, dx, dy);
        let t2 = add_link(add_link(t, n, m, dx, dy), dx, dy, n, m);
        assert forall|a: int, b: int, c: int, d: int|
            0 <= a < x_dim && 0 <= b < y_dim && 0 <= c < x_dim && 0 <= d < y_dim implies
            occurrences(#[trigger] t2[a][b], (c as usize, d as usize))
                == occurrences(#[trigger] t2[c][d], (a as usize, b as usize)) by {
            lemma_occurrences_push(t[a][b], (dx as usize, dy as usize), (c as usize, d as usize));
            lemma_occurrences_push(t[a][b], (n as usize, m as usize), (c as usize, d as usize));
            lemma_occurrences_push(t[c][d], (dx as usize, dy as usize), (a as usize, b as usize));
            lemma_occurrences_push(t[c][d], (n as usize, m as usize), (a as usize, b as usize));
            assert(occurrences(t[a][b], (c as usize, d as usize)) == occurrences(t[c][d], (a as usize, b as usize)));
        }
        assert forall|a: int, b: int, k: int|
            0 <= a < x_dim && 0 <= b < y_dim && 0 <= k < t2[a][b].len() implies {
                let e = #[trigger] t2[a][b][k];
                &&& e.0 < x_dim
                &&& e.1 < y_dim
                &&& e.1 != b
                &&& e.0 == b % (x_dim as int) || a == (e.1 as int) % (x_dim as int)
            } by {
            if a == n && b == m {
                if k < t[a][b].len() {
                    assert(t2[a][b][k] == t[a][b][k]);
                }
            } else if a == dx && b == dy {
                if k < t[a][b].len() {
                    assert(t2[a][b][k] == t[a][b][k]);
                }
            }
        }
    }
}

/// A group counter in `m + 1 .. m + y_dim` never names group `m` itself.
proof fn lemma_counter_leaves_group(cnt: nat, m: int, y_dim: usize)
    requires
        0 <= m < y_dim,
        m + 1 <= cnt,
        cnt < m + y_dim,
    ensures
        (cnt as int) % (y_dim as int) != m,
{
    if cnt < y_dim {
        vstd::arithmetic::div_mod::lemma_small_mod(cnt, y_dim as nat);
    } else {
        vstd::arithmetic::div_mod::lemma_mod_sub_multiples_vanish(cnt as int, y_dim as int);
        vstd::arithmetic::div_mod::lemma_small_mod((cnt - y_dim) as nat, y_dim as nat);
    }
}

proof fn lemma_router_attempts_sound(
    t: LinkTableModel,
    nc: Seq<usize>,
    x_dim: usize,
    y_dim: usize,
    n: int,
    m: int,
    k: nat,
    cnt: nat,
)
    requires
        table_sound(t, nc, x_dim, y_dim),
        nc.len() == x_dim,
        0 <= n < x_dim,
        0 <= m < y_dim,
        m + 1 <= cnt,
        cnt + k <= m + y_dim,
    ensures
        table_sound(router_attempts(t, nc, x_dim, y_dim, n, m, k, cnt).0, nc, x_dim, y_dim),
        cnt <= router_attempts(t, nc, x_dim, y_dim, n, m, k, cnt).1 <= cnt + k,
    decreases k,
{
    if k > 0 {
        lemma_router_attempts_sound(t, nc, x_dim, y_dim, n, m, (k - 1) as nat, cnt);
        let prev = router_attempts(t, nc, x_dim, y_dim, n, m, (k - 1) as nat, cnt);
        lemma_counter_leaves_group(prev.1, m, y_dim);
        lemma_attempt_sound(prev.0, nc, x_dim, y_dim, n, m, prev.1);
    }
}

proof fn lemma_prefix_sum_bounded(s: Seq<usize>, k: int)
    requires
        0 <= k <= s.len(),
    ensures
        sum_usize(s.take(k)) <= sum_usize(s),
    decreases s.len(),
{
    if k < s.len() {
        assert(s.drop_last().take(k) =~= s.take(k));
        lemma_prefix_sum_bounded(s.drop_last(), k);
    } else {
        assert(s.take(k) =~= s);
    }
}

proof fn lemma_group_pass_sound(t: LinkTableModel, x_dim: usize, y_dim: usize, m: int, n: nat)
    requires
        x_dim > 0,
        y_dim > 0,
        table_sound(t, spec_num_connection(x_dim, y_dim), x_dim, y_dim),
        0 <= m < y_dim,
        n <= x_dim,
    ensures
        ({
            let nc = spec_num_connection(x_dim, y_dim);
            let r = group_pass(t, nc, x_dim, y_dim, m, n);
            &&& table_sound(r.0, nc, x_dim, y_dim)
            &&& m + 1 <= r.1 <= m + 1 + sum_usize(nc.take(n as int))
        }),
    decreases n,
{
    let nc = spec_num_connection(x_dim, y_dim);
    if n > 0 {
        lemma_group_pass_sound(t, x_dim, y_dim, m, (n - 1) as nat);
        let prev = group_pass(t, nc, x_dim, y_dim, m, (n - 1) as nat);
        assert(nc.take(n as int).drop_last() =~= nc.take(n - 1));
        law_num_connection_balanced(x_dim, y_dim);
        lemma_prefix_sum_bounded(nc, n as int);
        lemma_router_attempts_sound(prev.0, nc, x_dim, y_dim, n - 1, m, nc[n - 1] as nat, prev.1);
    } else {
        assert(nc.take(0) =~= Seq::<usize>::empty());
    }
}

proof fn lemma_groups_laid_sound(x_dim: usize, y_dim: usize, m: nat)
    requires
        x_dim > 0,
        y_dim > 0,
        m <= y_dim,
    ensures
        table_sound(groups_laid(spec_num_connection(x_dim, y_dim), x_dim, y_dim, m), spec_num_connection(x_dim, y_dim), x_dim, y_dim),
    decreases m,
{
    let nc = spec_num_connection(x_dim, y_dim);
    if m > 0 {
        lemma_groups_laid_sound(x_dim, y_dim, (m - 1) as nat);
        lemma_group_pass_sound(groups_laid(nc, x_dim, y_dim, (m - 1) as nat), x_dim, y_dim, m - 1, x_dim as nat);
    } else {
        let t = empty_table(x_dim, y_dim);
        assert forall|a: int, b: int, c: int, d: int|
            0 <= a < x_dim && 0 <= b < y_dim && 0 <= c < x_dim && 0 <= d < y_dim implies
            occurrences(#[trigger] t[a][b], (c as usize, d as usize))
                == occurrences(#[trigger] t[c][d], (a as usize, b as usize)) by {
        }
    }
}

/// The complete link table has one list per router; every link ends at a router of another
/// group; no router carries more links than its share; every link is listed at both ends,
/// as often at one end as at the other; and every link of a group ends at router
/// `group % x_dim` of the group it reaches.
pub proof fn law_inter_links_sound(x_dim: usize, y_dim: usize)
    requires
        x_dim > 0,
        y_dim > 0,
    ensures
        table_sound(spec_inter_links(x_dim, y_dim), spec_num_connection(x_dim, y_dim), x_dim, y_dim),
{
    lemma_groups_laid_sound(x_dim, y_dim, y_dim as nat);
}

/// Group `g` lays its links towards router `g % x_dim` of the groups it reaches, so a router can
/// only be linked to a router whose position in its group matches the other's group: for every
/// link from `(a, b)` to `(c, d)` in the complete table, `c == b % x_dim` (group `b` laid it) or
/// `a == d % x_dim` (group `d` laid it).
pub proof fn law_links_reach_router_of_group(x_dim: usize, y_dim: usize, a: int, b: int, k: int)
    requires
        x_dim > 0,
        y_dim > 0,
        0 <= a < x_dim,
        0 <= b < y_dim,
        0 <= k < spec_inter_links(x_dim, y_dim)[a][b].len(),
    ensures
        ({
            let e = spec_inter_links(x_dim, y_dim)[a][b][k];
            e.0 == b % (x_dim as int) || a == (e.1 as int) % (x_dim as int)
        }),
{
    law_inter_links_sound(x_dim, y_dim);
    let t = spec_inter_links(x_dim, y_dim);
    assert(links_aim_by_group(t, x_dim, y_dim));
    let e = t[a][b][k];
}


/// The share of global links of each router of a group (see [`spec_num_connection`]).
pub fn connections_per_router(x_dim: usize, y_dim: usize) -> (nc: Vec<usize>)
    requires
        x_dim > 0,
        y_dim > 0,
    ensures
        nc@ == spec_num_connection(x_dim, y_dim),
{
    let quotient = (y_dim - 1) / x_dim;
    let remainder = (y_dim - 1) % x_dim;
    proof {
        vstd::arithmetic::div_mod::lemma_div_is_ordered_by_denominator((y_dim - 1) as int, 1, x_dim as int);
    }
    let mut nc: Vec<usize> = Vec::new();
    let mut i: usize = 0;
    while i < x_dim
        invariant
            i <= x_dim,
            nc@.len() == i,
            forall|j: int| 0 <= j < i ==> nc@[j] == quotient,
        decreases x_dim - i,
    {
        nc.push(quotient);
        i += 1;
    }
    let mut m: usize = 0;
    while m < remainder
        invariant
            remainder == (y_dim - 1) % (x_dim as int),
            quotient == (y_dim - 1) / (x_dim as int),
            quotient <= y_dim - 1,
            remainder < x_dim,
            m <= remainder,
            nc@.len() == x_dim,
            forall|j: int| 0 <= j < x_dim ==> nc@[j] == if j < m { (quotient + 1) as usize } else { quotient },
        decreases remainder - m,
    {
        let v = nc[m];
        nc.set(m, v + 1);
        m += 1;
    }
    assert(nc@ =~= spec_num_connection(x_dim, y_dim));
    nc
}

fn empty_link_table(x_dim: usize, y_dim: usize) -> (t: Vec<Vec<Vec<(usize, usize)>>>)
    ensures
        t.deep_view() == empty_table(x_dim, y_dim),
{
    let mut t: Vec<Vec<Vec<(usize, usize)>>> = Vec::new();
    let mut i: usize = 0;
    while i < x_dim
        invariant
            i <= x_dim,
            t@.len() == i,
            forall|a: int| 0 <= a < i ==> #[trigger] t@[a].deep_view() == Seq::new(y_dim as nat, |j: int| Seq::<(usize, usize)>::empty()),
        decreases x_dim - i,
    {
        let mut row: Vec<Vec<(usize, usize)>> = Vec::new();
        let mut j: usize = 0;
        while j < y_dim
            invariant
                j <= y_dim,
                row@.len() == j,
                forall|b: int| 0 <= b < j ==> (#[trigger] row@[b])@.len() == 0,
            decreases y_dim - j,
        {
            row.push(Vec::new());
            j += 1;
        }
        assert forall|b: int| 0 <= b < y_dim implies #[trigger] row.deep_view()[b] =~= Seq::<(usize, usize)>::empty() by {
            assert(row@[b]@.len() == 0);
        }
        assert(row.deep_view() =~= Seq::new(y_dim as nat, |j: int| Seq::<(usize, usize)>::empty()));
        t.push(row);
        i += 1;
    }
    assert(t.deep_view() =~= empty_table(x_dim, y_dim));
    t
}

fn push_link(t: &mut Vec<Vec<Vec<(usize, usize)>>>, a: usize, b: usize, c: usize, d: usize)
    requires
        a < old(t)@.len(),
        b < old(t)@[a as int]@.len(),
    ensures
        final(t).deep_view() == add_link(old(t).deep_view(), a as int, b as int, c as int, d as int),
        final(t)@.len() == old(t)@.len(),
        forall|i: int| 0 <= i < old(t)@.len() ==> (#[trigger] final(t)@[i])@.len() == old(t)@[i]@.len(),
{
    t[a][b].push((c, d));
    proof {
        let ghost expected = add_link(old(t).deep_view(), a as int, b as int, c as int, d as int);
        assert(t@[a as int]@[b as int].deep_view() =~= expected[a as int][b as int]);
        assert(t@[a as int].deep_view() =~= expected[a as int]);
        assert(t.deep_view() =~= expected);
    }
}

/// Lays the global links of a dragonfly network of `y_dim` groups of `x_dim` routers: for each
/// group `m` in turn, each router `n` makes as many attempts as its share, each towards the
/// next group after the ones already reached, to router `m % x_dim` of that group.
pub fn build_inter_links(x_dim: usize, y_dim: usize) -> (t: Vec<Vec<Vec<(usize, usize)>>>)
    requires
        x_dim > 0,
        y_dim > 0,
        y_dim <= usize::MAX / 2,
    ensures
        t.deep_view() == spec_inter_links(x_dim, y_dim),
{
    let nc = connections_per_router(x_dim, y_dim);
    let ghost snc = spec_num_connection(x_dim, y_dim);
    let mut t = empty_link_table(x_dim, y_dim);
    proof {
        law_num_connection_balanced(x_dim, y_dim);
    }
    let mut m: usize = 0;
    while m < y_dim
        invariant
            m <= y_dim,
            y_dim <= usize::MAX / 2,
            x_dim > 0,
            nc@ == snc,
            snc == spec_num_connection(x_dim, y_dim),
            sum_usize(snc) == y_dim - 1,
            t.deep_view() == groups_laid(snc, x_dim, y_dim, m as nat),
        decreases y_dim - m,
    {
        let ghost base = t.deep_view();
        proof {
            lemma_groups_laid_sound(x_dim, y_dim, m as nat);
        }
        let dst_x = m % x_dim;
        let mut cnt: usize = m + 1;
        let mut n: usize = 0;
        while n < x_dim
            invariant
                m < y_dim,
                y_dim <= usize::MAX / 2,
                x_dim > 0,
                n <= x_dim,
                dst_x == m % x_dim,
                nc@ == snc,
                snc == spec_num_connection(x_dim, y_dim),
                sum_usize(snc) == y_dim - 1,
                table_sound(base, snc, x_dim, y_dim),
                (t.deep_view(), cnt as nat) == group_pass(base, snc, x_dim, y_dim, m as int, n as nat),
            decreases x_dim - n,
        {
            proof {
                lemma_group_pass_sound(base, x_dim, y_dim, m as int, n as nat);
                lemma_prefix_sum_bounded(snc, n + 1);
                assert(snc.take(n + 1).drop_last() =~= snc.take(n as int));
            }
            let ghost before = (t.deep_view(), cnt as nat);
            let share = nc[n];
            let mut a: usize = 0;
            while a < share
                invariant
                    m < y_dim,
                    y_dim <= usize::MAX / 2,
                    x_dim > 0,
                    n < x_dim,
                    a <= share,
                    share == snc[n as int],
                    dst_x == m % x_dim,
                    nc@ == snc,
                    snc.len() == x_dim,
                    before.1 + share <= m + y_dim,
                    m + 1 <= before.1,
                    table_sound(before.0, snc, x_dim, y_dim),
                    (t.deep_view(), cnt as nat) == router_attempts(before.0, snc, x_dim, y_dim, n as int, m as int, a as nat, before.1),
                decreases share - a,
            {
                proof {
                    lemma_router_attempts_sound(before.0, snc, x_dim, y_dim, n as int, m as int, a as nat, before.1);
                    assert(t.deep_view()[n as int].len() == y_dim);
                    assert(t.deep_view()[dst_x as int].len() == y_dim);
                }
                let dst_y = cnt % y_dim;
                if t[n][m].len() < nc[n] && t[dst_x][dst_y].len() < nc[dst_x] {
                    push_link(&mut t, n, m, dst_x, dst_y);
                    push_link(&mut t, dst_x, dst_y, n, m);
                    cnt += 1;
                }
                a += 1;
            }
            n += 1;
        }
        m += 1;
    }
    t
}


/// No router's share exceeds the `y_dim - 1` links of its group.
pub proof fn lemma_share_at_most(x_dim: usize, y_dim: usize, i: int)
    requires
        x_dim > 0,
        y_dim > 0,
        0 <= i < x_dim,
    ensures
        spec_num_connection(x_dim, y_dim)[i] <= y_dim - 1,
{
    let nc = spec_num_connection(x_dim, y_dim);
    law_num_connection_balanced(x_dim, y_dim);
    lemma_elem_le_sum(nc, i);
}

proof fn lemma_elem_le_sum(s: Seq<usize>, i: int)
    requires
        0 <= i < s.len(),
    ensures
        s[i] <= sum_usize(s),
    decreases s.len(),
{
    if i < s.len() - 1 {
        lemma_elem_le_sum(s.drop_last(), i);
    }
}

} // verus!
