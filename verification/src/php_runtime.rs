//! PHP FastCGI worker allocation.
//!
//! Every PHP version referenced by an enabled vhost receives one worker
//! first; the remaining budget is handed out one worker at a time to the
//! version with the largest `sites / (workers + 1)` (D'Hondt), never above the
//! per-version cap. Ties go to the lowest port.
use std::collections::HashMap;
use vstd::prelude::*;

use crate::config::PhpRuntimeConfig;
use crate::service::{PhpRuntimeOptions, ServiceInstance, ServiceKind};

verus! {

broadcast use vstd::std_specs::hash::group_hash_axioms;

pub const MAX_TOTAL_WORKERS: u16 = 64;
pub const MAX_WORKERS_PER_VERSION: u16 = 16;
pub const MIN_MAX_REQUESTS: u32 = 100;
pub const MAX_MAX_REQUESTS: u32 = 10000;
pub const PHPSTUDY_WORKERS_PER_VERSION: u16 = 16;

/// What the policy reads of a virtual host: whether it is enabled and which
/// FastCGI port (if any) it forwards PHP requests to.
#[derive(Debug, Clone, Copy, PartialEq, Eq, Structural)]
pub struct VhostBinding {
    pub enabled: bool,
    pub php_fastcgi_port: Option<u16>,
}

/// `(port, sites, workers)` while the budget is being distributed.
pub type Entry = (u16, u32, u16);

pub open spec fn clamp_int(v: int, lo: int, hi: int) -> int {
    if v < lo {
        lo
    } else if v > hi {
        hi
    } else {
        v
    }
}

pub open spec fn min_int(a: int, b: int) -> int {
    if a <= b {
        a
    } else {
        b
    }
}

pub open spec fn max_int(a: int, b: int) -> int {
    if a >= b {
        a
    } else {
        b
    }
}

/// The per-version cap: `max_workers_per_version` clamped to `1..=16`.
pub open spec fn spec_cap(max_workers_per_version: u16) -> int {
    clamp_int(max_workers_per_version as int, 1, MAX_WORKERS_PER_VERSION as int)
}

/// How many versions take part: at most 64.
pub open spec fn spec_minimum(n: nat) -> int {
    min_int(n as int, MAX_TOTAL_WORKERS as int)
}

/// The number of workers handed out in total.
pub open spec fn spec_target(n: nat, total_worker_budget: u16, max_workers_per_version: u16) -> int {
    let minimum = spec_minimum(n);
    let capacity = min_int(minimum * spec_cap(max_workers_per_version), MAX_TOTAL_WORKERS as int);
    min_int(
        max_int(clamp_int(total_worker_budget as int, 1, MAX_TOTAL_WORKERS as int), minimum),
        capacity,
    )
}

/// The starting entries: the first 64 active versions, each with at least
/// one site counted and one worker.
pub open spec fn spec_initial(active: Seq<(u16, u32)>) -> Seq<Entry> {
    active.take(spec_minimum(active.len())).map_values(
        |a: (u16, u32)| (a.0, if a.1 == 0 { 1u32 } else { a.1 }, 1u16),
    )
}

/// Index of the first entry whose port is greater than `port` (or the length).
pub open spec fn first_greater(t: Seq<Entry>, port: u16) -> int
    decreases t.len(),
{
    if t.len() == 0 {
        0
    } else if t[0].0 > port {
        0
    } else {
        1 + first_greater(t.drop_first(), port)
    }
}

/// Inserts `x` after every entry whose port is at most `x`'s port.
pub open spec fn insert_by_port(t: Seq<Entry>, x: Entry) -> Seq<Entry> {
    let k = first_greater(t, x.0);
    t.take(k) + seq![x] + t.skip(k)
}

/// Stable sort by port.
pub open spec fn sort_by_port(s: Seq<Entry>) -> Seq<Entry>
    decreases s.len(),
{
    if s.len() == 0 {
        s
    } else {
        insert_by_port(sort_by_port(s.drop_last()), s.last())
    }
}

/// `sites_a / (workers_a + 1) > sites_b / (workers_b + 1)`, without division.
pub open spec fn ratio_greater(a: Entry, b: Entry) -> bool {
    (a.1 as int) * (b.2 as int + 1) > (b.1 as int) * (a.2 as int + 1)
}

/// The first index below `k` whose entry is under the cap and has the
/// largest ratio, scanning left to right.
pub open spec fn best_upto(e: Seq<Entry>, cap: int, k: int) -> Option<int>
    decreases k,
{
    if k <= 0 {
        None
    } else {
        let b = best_upto(e, cap, k - 1);
        let j = k - 1;
        if e[j].2 >= cap {
            b
        } else {
            match b {
                None => Some(j),
                Some(cur) => if ratio_greater(e[j], e[cur]) {
                    Some(j)
                } else {
                    Some(cur)
                },
            }
        }
    }
}

/// One more worker for the best eligible entry, if there is one.
pub open spec fn dhondt_step(e: Seq<Entry>, cap: int) -> Seq<Entry> {
    match best_upto(e, cap, e.len() as int) {
        Some(i) => e.update(i, (e[i].0, e[i].1, (e[i].2 + 1) as u16)),
        None => e,
    }
}

pub open spec fn dhondt(e: Seq<Entry>, cap: int, steps: nat) -> Seq<Entry>
    decreases steps,
{
    if steps == 0 {
        e
    } else {
        dhondt_step(dhondt(e, cap, (steps - 1) as nat), cap)
    }
}

/// The entries once the whole budget has been distributed.
pub open spec fn spec_final_entries(
    active: Seq<(u16, u32)>,
    total_worker_budget: u16,
    max_workers_per_version: u16,
) -> Seq<Entry> {
    let n = active.len();
    dhondt(
        sort_by_port(spec_initial(active)),
        spec_cap(max_workers_per_version),
        (spec_target(n, total_worker_budget, max_workers_per_version) - spec_minimum(n)) as nat,
    )
}

/// `port -> workers`, later entries overriding earlier ones with the same port.
pub open spec fn map_of(e: Seq<Entry>) -> Map<u16, u16>
    decreases e.len(),
{
    if e.len() == 0 {
        Map::empty()
    } else {
        map_of(e.drop_last()).insert(e.last().0, e.last().2)
    }
}

pub open spec fn spec_allocation(
    active: Seq<(u16, u32)>,
    total_worker_budget: u16,
    max_workers_per_version: u16,
) -> Map<u16, u16> {
    if active.len() == 0 {
        Map::empty()
    } else {
        map_of(spec_final_entries(active, total_worker_budget, max_workers_per_version))
    }
}

pub open spec fn sum_workers(e: Seq<Entry>) -> int
    decreases e.len(),
{
    if e.len() == 0 {
        0
    } else {
        sum_workers(e.drop_last()) + e.last().2
    }
}

pub open spec fn all_under_cap(e: Seq<Entry>, cap: int) -> bool {
    forall|i: int| 0 <= i < e.len() ==> 1 <= #[trigger] e[i].2 <= cap
}

// ---------------------------------------------------------------------------
// Lemmas
// ---------------------------------------------------------------------------

proof fn lemma_first_greater_bounds(t: Seq<Entry>, port: u16)
    ensures
        0 <= first_greater(t, port) <= t.len(),
    decreases t.len(),
{
    if t.len() > 0 && t[0].0 <= port {
        lemma_first_greater_bounds(t.drop_first(), port);
    }
}

proof fn lemma_sort_len(s: Seq<Entry>)
    ensures
        sort_by_port(s).len() == s.len(),
    decreases s.len(),
{
    if s.len() > 0 {
        lemma_sort_len(s.drop_last());
        lemma_first_greater_bounds(sort_by_port(s.drop_last()), s.last().0);
    }
}

proof fn lemma_sort_multiset(s: Seq<Entry>)
    ensures
        sort_by_port(s).to_multiset() =~= s.to_multiset(),
    decreases s.len(),
{
    broadcast use vstd::seq_lib::group_to_multiset_ensures;
    if s.len() > 0 {
        let t = sort_by_port(s.drop_last());
        let x = s.last();
        lemma_sort_multiset(s.drop_last());
        lemma_first_greater_bounds(t, x.0);
        let k = first_greater(t, x.0);
        vstd::seq_lib::lemma_multiset_commutative(t.take(k) + seq![x], t.skip(k));
        vstd::seq_lib::lemma_multiset_commutative(t.take(k), seq![x]);
        vstd::seq_lib::lemma_multiset_commutative(t.take(k), t.skip(k));
        assert(t.take(k) + t.skip(k) =~= t);
        assert(s.drop_last().push(x) =~= s);
    }
}

/// Within a sequence, the scan's choice lies below `k` and is under the cap.
proof fn lemma_best_upto_valid(e: Seq<Entry>, cap: int, k: int)
    requires
        k <= e.len(),
    ensures
        best_upto(e, cap, k) matches Some(b) ==> 0 <= b < k && e[b].2 < cap,
        best_upto(e, cap, k) is None <==> (forall|j: int| 0 <= j < k ==> #[trigger] e[j].2 >= cap),
    decreases k,
{
    if k > 0 {
        lemma_best_upto_valid(e, cap, k - 1);
        if best_upto(e, cap, k) is None {
            assert forall|j: int| 0 <= j < k implies #[trigger] e[j].2 >= cap by {
                if j < k - 1 {
                    assert(best_upto(e, cap, k - 1) is None);
                }
            }
        }
    }
}

proof fn lemma_sum_update(e: Seq<Entry>, i: int, x: Entry)
    requires
        0 <= i < e.len(),
    ensures
        sum_workers(e.update(i, x)) == sum_workers(e) - e[i].2 + x.2,
    decreases e.len(),
{
    if i == e.len() - 1 {
        assert(e.update(i, x).drop_last() =~= e.drop_last());
    } else {
        lemma_sum_update(e.drop_last(), i, x);
        assert(e.update(i, x).drop_last() =~= e.drop_last().update(i, x));
    }
}

proof fn lemma_sum_bounds(e: Seq<Entry>, cap: int)
    requires
        all_under_cap(e, cap),
    ensures
        e.len() <= sum_workers(e) <= e.len() * cap,
    decreases e.len(),
{
    if e.len() == 0 {
        assert(e.len() * cap == 0) by (nonlinear_arith)
            requires
                e.len() == 0,
        ;
    } else {
        assert(all_under_cap(e.drop_last(), cap)) by {
            assert forall|i: int| 0 <= i < e.drop_last().len() implies 1 <= #[trigger] e.drop_last()[i].2 <= cap by {
                assert(e.drop_last()[i] == e[i]);
            }
        }
        lemma_sum_bounds(e.drop_last(), cap);
        let l = e.len() - 1;
        assert(e.last() == e[l]);
        assert(1 <= e[l].2 <= cap);
        assert((e.len() - 1) * cap + cap == e.len() * cap) by (nonlinear_arith);
        assert(sum_workers(e) == sum_workers(e.drop_last()) + e[l].2);
    }
}

/// Every entry of the sorted initial sequence starts with one worker.
proof fn lemma_initial_workers(active: Seq<(u16, u32)>)
    ensures
        forall|i: int| 0 <= i < sort_by_port(spec_initial(active)).len()
            ==> #[trigger] sort_by_port(spec_initial(active))[i].2 == 1 && sort_by_port(
            spec_initial(active),
        )[i].1 >= 1,
        sort_by_port(spec_initial(active)).len() == spec_minimum(active.len()),
{
    let s = spec_initial(active);
    lemma_sort_len(s);
    lemma_sort_multiset(s);
    let t = sort_by_port(s);
    assert forall|i: int| 0 <= i < t.len() implies #[trigger] t[i].2 == 1 && t[i].1 >= 1 by {
        broadcast use vstd::seq_lib::group_to_multiset_ensures;
        assert(t.contains(t[i]));
        assert(t.to_multiset().count(t[i]) > 0);
        assert(s.contains(t[i]));
        let j = choose|j: int| 0 <= j < s.len() && s[j] == t[i];
        assert(s[j].2 == 1 && s[j].1 >= 1);
    }
}

/// Distributing keeps every entry between one worker and the cap, and each
/// step that finds an eligible entry adds exactly one worker.
proof fn lemma_dhondt(e: Seq<Entry>, cap: int, steps: nat)
    requires
        all_under_cap(e, cap),
        cap >= 1,
        cap <= 16,
        sum_workers(e) + steps <= e.len() * cap,
    ensures
        all_under_cap(dhondt(e, cap, steps), cap),
        dhondt(e, cap, steps).len() == e.len(),
        sum_workers(dhondt(e, cap, steps)) == sum_workers(e) + steps,
        forall|i: int| 0 <= i < e.len() ==> (#[trigger] dhondt(e, cap, steps)[i]).0 == e[i].0
            && dhondt(e, cap, steps)[i].1 == e[i].1,
    decreases steps,
{
    if steps > 0 {
        let p = dhondt(e, cap, (steps - 1) as nat);
        lemma_dhondt(e, cap, (steps - 1) as nat);
        lemma_best_upto_valid(p, cap, p.len() as int);
        if best_upto(p, cap, p.len() as int) is None {
            assert forall|j: int| 0 <= j < p.len() implies #[trigger] p[j].2 == cap by {
                assert(p[j].2 >= cap);
            }
            lemma_sum_bounds(p, cap);
            lemma_sum_all_cap(p, cap);
            assert(false);
        }
        let b = best_upto(p, cap, p.len() as int)->0;
        let x = (p[b].0, p[b].1, (p[b].2 + 1) as u16);
        lemma_sum_update(p, b, x);
        let q = p.update(b, x);
        assert(dhondt(e, cap, steps) == q);
        assert forall|i: int| 0 <= i < q.len() implies 1 <= #[trigger] q[i].2 <= cap by {
            if i != b {
                assert(q[i] == p[i]);
            }
        }
        assert forall|i: int| 0 <= i < e.len() implies (#[trigger] dhondt(e, cap, steps)[i]).0
            == e[i].0 && dhondt(e, cap, steps)[i].1 == e[i].1 by {
            assert(p[i].0 == e[i].0);
        }
    }
}

proof fn lemma_sum_all_cap(e: Seq<Entry>, cap: int)
    requires
        forall|j: int| 0 <= j < e.len() ==> #[trigger] e[j].2 == cap,
    ensures
        sum_workers(e) == e.len() * cap,
    decreases e.len(),
{
    if e.len() > 0 {
        lemma_sum_all_cap(e.drop_last(), cap);
        assert((e.len() - 1) * cap + cap == e.len() * cap) by (nonlinear_arith);
    }
}

proof fn lemma_map_of_dom(e: Seq<Entry>)
    ensures
        forall|p: u16| #[trigger] map_of(e).contains_key(p) <==> exists|i: int|
            0 <= i < e.len() && e[i].0 == p,
        forall|p: u16| #[trigger] map_of(e).contains_key(p) ==> exists|i: int|
            0 <= i < e.len() && e[i].0 == p && map_of(e)[p] == e[i].2,
    decreases e.len(),
{
    if e.len() > 0 {
        lemma_map_of_dom(e.drop_last());
        let l = e.len() - 1;
        assert forall|p: u16| #[trigger] map_of(e).contains_key(p) <==> exists|i: int|
            0 <= i < e.len() && e[i].0 == p by {
            assert(e.last() == e[l]);
            if map_of(e).contains_key(p) && p != e[l].0 {
                assert(map_of(e.drop_last()).contains_key(p));
                let i = choose|i: int| 0 <= i < e.drop_last().len() && e.drop_last()[i].0 == p;
                assert(e.drop_last()[i] == e[i]);
                assert(e[i].0 == p);
            }
            if exists|i: int| 0 <= i < e.len() && e[i].0 == p {
                let i = choose|i: int| 0 <= i < e.len() && e[i].0 == p;
                if i < l {
                    assert(e.drop_last()[i].0 == p);
                    assert(map_of(e.drop_last()).contains_key(p));
                }
            }
        }
        assert forall|p: u16| #[trigger] map_of(e).contains_key(p) implies exists|i: int|
            0 <= i < e.len() && e[i].0 == p && map_of(e)[p] == e[i].2 by {
            assert(e.last() == e[l]);
            if p == e[l].0 {
                assert(map_of(e)[p] == e[l].2);
            } else {
                let i = choose|i: int|
                    0 <= i < e.drop_last().len() && e.drop_last()[i].0 == p && map_of(
                        e.drop_last(),
                    )[p] == e.drop_last()[i].2;
                assert(e[i] == e.drop_last()[i]);
            }
        }
    }
}

proof fn lemma_mul_fits(c: u32, w: u16)
    ensures
        (c as int) * (w as int + 1) <= u64::MAX,
{
    assert((c as int) * (w as int + 1) <= 0xffff_ffff * 0x1_0000) by (nonlinear_arith)
        requires
            c <= 0xffff_ffff,
            w < 0x1_0000,
    ;
}

proof fn lemma_ratio_chain(ci: int, cb: int, cj: int, a: int, b: int, c: int)
    requires
        ci >= 0,
        cb >= 0,
        cj >= 0,
        a > 0,
        b > 0,
        c > 0,
        ci * b <= cb * a,
        cj * b > cb * c,
    ensures
        cj * a > ci * c,
{
    assert(cj * b * a > cb * c * a) by (nonlinear_arith)
        requires
            cj * b > cb * c,
            a > 0,
    ;
    assert(cb * a * c >= ci * b * c) by (nonlinear_arith)
        requires
            ci * b <= cb * a,
            c > 0,
    ;
    assert(cj * a * b > ci * c * b) by (nonlinear_arith)
        requires
            cj * b * a > cb * c * a,
            cb * a * c >= ci * b * c,
    ;
    assert(cj * a > ci * c) by (nonlinear_arith)
        requires
            cj * a * b > ci * c * b,
            b > 0,
    ;
}

/// Each extra worker goes to an entry under the cap whose
/// `sites / (workers + 1)` is the largest of all entries under the cap, and
/// strictly larger than that of every earlier such entry (ties go to the
/// lowest port, the entries being sorted by port).
pub proof fn best_is_first_largest_ratio(e: Seq<Entry>, cap: int, k: int)
    requires
        0 <= k <= e.len(),
    ensures
        best_upto(e, cap, k) matches Some(b) ==> {
            &&& 0 <= b < k
            &&& e[b].2 < cap
            &&& forall|j: int| 0 <= j < k && e[j].2 < cap ==> !ratio_greater(#[trigger] e[j], e[b])
            &&& forall|j: int| 0 <= j < b && e[j].2 < cap ==> ratio_greater(e[b], #[trigger] e[j])
        },
        best_upto(e, cap, k) is None ==> forall|j: int| 0 <= j < k ==> #[trigger] e[j].2 >= cap,
    decreases k,
{
    lemma_best_upto_valid(e, cap, k);
    if k > 0 {
        best_is_first_largest_ratio(e, cap, k - 1);
        let prev = best_upto(e, cap, k - 1);
        let j = k - 1;
        if e[j].2 < cap {
            match prev {
                None => {},
                Some(cur) => {
                    if ratio_greater(e[j], e[cur]) {
                        assert forall|i: int| 0 <= i < j && e[i].2 < cap implies ratio_greater(
                            e[j],
                            #[trigger] e[i],
                        ) by {
                            lemma_ratio_chain(
                                e[i].1 as int,
                                e[cur].1 as int,
                                e[j].1 as int,
                                e[i].2 + 1,
                                e[cur].2 + 1,
                                e[j].2 + 1,
                            );
                        }
                    }
                },
            }
        }
    }
}

/// Sum of the workers `m` grants to the ports of `active`.
pub open spec fn total_over(m: Map<u16, u16>, active: Seq<(u16, u32)>) -> int
    decreases active.len(),
{
    if active.len() == 0 {
        0
    } else {
        total_over(m, active.drop_last()) + m[active.last().0]
    }
}

pub open spec fn sum_port_vals(m: Map<u16, u16>, e: Seq<Entry>) -> int
    decreases e.len(),
{
    if e.len() == 0 {
        0
    } else {
        sum_port_vals(m, e.drop_last()) + m[e.last().0]
    }
}

pub open spec fn distinct_ports(e: Seq<Entry>) -> bool {
    forall|i: int, j: int| 0 <= i < j < e.len() ==> #[trigger] e[i].0 != #[trigger] e[j].0
}

proof fn lemma_sum_port_vals_remove(m: Map<u16, u16>, b: Seq<Entry>, j: int)
    requires
        0 <= j < b.len(),
    ensures
        sum_port_vals(m, b) == sum_port_vals(m, b.remove(j)) + m[b[j].0],
    decreases b.len(),
{
    if j < b.len() - 1 {
        lemma_sum_port_vals_remove(m, b.drop_last(), j);
        assert(b.remove(j).drop_last() =~= b.drop_last().remove(j));
        assert(b.remove(j).last() == b.last());
    } else {
        assert(b.remove(j) =~= b.drop_last());
    }
}

proof fn lemma_sum_port_vals_perm(m: Map<u16, u16>, a: Seq<Entry>, b: Seq<Entry>)
    requires
        a.to_multiset() =~= b.to_multiset(),
    ensures
        sum_port_vals(m, a) == sum_port_vals(m, b),
    decreases a.len(),
{
    broadcast use vstd::seq_lib::group_to_multiset_ensures;
    if a.len() == 0 {
        assert(a.to_multiset().len() == 0);
        assert(b.to_multiset().len() == b.len());
        assert(b.len() == 0);
    } else {
        let x = a.last();
        assert(a.drop_last().push(x) =~= a);
        assert(a.contains(x));
        assert(b.to_multiset().count(x) > 0);
        assert(b.contains(x));
        let j = choose|j: int| 0 <= j < b.len() && b[j] == x;
        assert(b.remove(j).to_multiset() =~= a.drop_last().to_multiset());
        lemma_sum_port_vals_perm(m, a.drop_last(), b.remove(j));
        lemma_sum_port_vals_remove(m, b, j);
    }
}

proof fn lemma_sum_port_vals_agree(m1: Map<u16, u16>, m2: Map<u16, u16>, e: Seq<Entry>)
    requires
        forall|i: int| 0 <= i < e.len() ==> m1[#[trigger] e[i].0] == m2[e[i].0],
    ensures
        sum_port_vals(m1, e) == sum_port_vals(m2, e),
    decreases e.len(),
{
    if e.len() > 0 {
        assert forall|i: int| 0 <= i < e.drop_last().len() implies m1[#[trigger] e.drop_last()[i].0]
            == m2[e.drop_last()[i].0] by {
            assert(e.drop_last()[i] == e[i]);
        }
        lemma_sum_port_vals_agree(m1, m2, e.drop_last());
        assert(m1[e[e.len() - 1].0] == m2[e[e.len() - 1].0]);
    }
}

proof fn lemma_sum_port_vals_map_of(e: Seq<Entry>)
    requires
        distinct_ports(e),
    ensures
        sum_port_vals(map_of(e), e) == sum_workers(e),
    decreases e.len(),
{
    if e.len() > 0 {
        let d = e.drop_last();
        let x = e.last();
        assert(distinct_ports(d)) by {
            assert forall|i: int, j: int| 0 <= i < j < d.len() implies #[trigger] d[i].0
                != #[trigger] d[j].0 by {
                assert(d[i] == e[i] && d[j] == e[j]);
            }
        }
        lemma_sum_port_vals_map_of(d);
        assert forall|i: int| 0 <= i < d.len() implies map_of(e)[#[trigger] d[i].0] == map_of(
            d,
        )[d[i].0] by {
            assert(d[i] == e[i]);
            assert(e[i].0 != e[e.len() - 1].0);
        }
        lemma_sum_port_vals_agree(map_of(e), map_of(d), d);
    }
}

proof fn lemma_sum_port_vals_same_ports(m: Map<u16, u16>, e: Seq<Entry>, f: Seq<Entry>)
    requires
        e.len() == f.len(),
        forall|i: int| 0 <= i < e.len() ==> (#[trigger] e[i]).0 == f[i].0,
    ensures
        sum_port_vals(m, e) == sum_port_vals(m, f),
    decreases e.len(),
{
    if e.len() > 0 {
        assert forall|i: int| 0 <= i < e.drop_last().len() implies (
        #[trigger] e.drop_last()[i]).0 == f.drop_last()[i].0 by {
            assert(e[i].0 == f[i].0);
        }
        lemma_sum_port_vals_same_ports(m, e.drop_last(), f.drop_last());
        assert(e[e.len() - 1].0 == f[f.len() - 1].0);
    }
}

proof fn lemma_total_initial(m: Map<u16, u16>, active: Seq<(u16, u32)>, k: int)
    requires
        0 <= k <= spec_minimum(active.len()),
    ensures
        total_over(m, active.take(k)) == sum_port_vals(m, spec_initial(active).take(k)),
    decreases k,
{
    if k > 0 {
        lemma_total_initial(m, active, k - 1);
        assert(active.take(k).drop_last() =~= active.take(k - 1));
        assert(spec_initial(active).take(k).drop_last() =~= spec_initial(active).take(k - 1));
    }
}

/// The workers handed out add up to the target: the configured budget
/// (clamped to `1..=64`), raised to one per active version and capped by
/// what the per-version cap allows. Stated for active lists whose ports are
/// distinct; with a repeated port the later entry's count replaces the
/// earlier one in the result.
pub proof fn allocation_spends_target(
    active: Seq<(u16, u32)>,
    total_worker_budget: u16,
    max_workers_per_version: u16,
)
    requires
        active.len() > 0,
        forall|i: int, j: int|
            0 <= i < j < spec_minimum(active.len()) ==> #[trigger] active[i].0 != #[trigger] active[j].0,
    ensures
        total_over(
            spec_allocation(active, total_worker_budget, max_workers_per_version),
            active.take(spec_minimum(active.len())),
        ) == spec_target(active.len(), total_worker_budget, max_workers_per_version),
{
    broadcast use vstd::seq_lib::group_to_multiset_ensures;
    let n = active.len();
    let cap = spec_cap(max_workers_per_version);
    let minimum = spec_minimum(n);
    let target = spec_target(n, total_worker_budget, max_workers_per_version);
    let initial = spec_initial(active);
    let e0 = sort_by_port(initial);
    let steps = (target - minimum) as nat;
    lemma_initial_workers(active);
    lemma_sum_all_cap(e0, 1);
    assert(minimum * cap >= minimum) by (nonlinear_arith)
        requires
            cap >= 1,
            minimum >= 0,
    ;
    assert(all_under_cap(e0, cap));
    lemma_dhondt(e0, cap, steps);
    let f = dhondt(e0, cap, steps);
    lemma_sort_multiset(initial);
    let m = map_of(f);
    assert(spec_allocation(active, total_worker_budget, max_workers_per_version) == m);
    // the sorted entries have distinct ports
    assert(distinct_ports(e0)) by {
        assert forall|i: int, j: int| 0 <= i < j < e0.len() implies #[trigger] e0[i].0
            != #[trigger] e0[j].0 by {
            assert(e0.contains(e0[i]) && e0.contains(e0[j]));
            assert(initial.to_multiset().count(e0[i]) > 0);
            assert(initial.to_multiset().count(e0[j]) > 0);
            let ki = choose|k: int| 0 <= k < initial.len() && initial[k] == e0[i];
            let kj = choose|k: int| 0 <= k < initial.len() && initial[k] == e0[j];
            if e0[i].0 == e0[j].0 {
                if ki != kj {
                    if ki < kj {
                        assert(active[ki].0 != active[kj].0);
                    } else {
                        assert(active[kj].0 != active[ki].0);
                    }
                } else {
                    // the same entry twice in e0, once in `initial`
                    assert(initial.no_duplicates()) by {
                        assert forall|a: int, b: int| 0 <= a < initial.len() && 0 <= b < initial.len()
                            && a != b implies initial[a] != initial[b] by {
                            if a < b {
                                assert(active[a].0 != active[b].0);
                            } else {
                                assert(active[b].0 != active[a].0);
                            }
                        }
                    }
                    initial.lemma_multiset_has_no_duplicates();
                    assert(e0.to_multiset().count(e0[i]) == 1);
                    assert(e0.remove(j).contains(e0[i])) by {
                        assert(e0.remove(j)[i] == e0[i]);
                    }
                    assert(e0.remove(j).to_multiset().count(e0[i]) > 0);
                    assert(e0.remove(j).to_multiset() =~= e0.to_multiset().remove(e0[j]));
                }
            }
        }
    }
    assert(distinct_ports(f)) by {
        assert forall|i: int, j: int| 0 <= i < j < f.len() implies #[trigger] f[i].0
            != #[trigger] f[j].0 by {
            assert(f[i].0 == e0[i].0 && f[j].0 == e0[j].0);
        }
    }
    lemma_sum_port_vals_map_of(f);
    lemma_sum_port_vals_same_ports(m, f, e0);
    lemma_sum_port_vals_perm(m, e0, initial);
    lemma_total_initial(m, active, minimum);
    assert(initial.take(minimum) =~= initial);
}

// ---------------------------------------------------------------------------
// Executable code
// ---------------------------------------------------------------------------

/// Stable insertion sort by port.
fn sort_entries(v: &Vec<Entry>) -> (out: Vec<Entry>)
    ensures
        out@ == sort_by_port(v@),
{
    let mut out: Vec<Entry> = Vec::new();
    let mut i: usize = 0;
    while i < v.len()
        invariant
            i <= v.len(),
            out@ == sort_by_port(v@.take(i as int)),
        decreases v.len() - i,
    {
        let x = v[i];
        let ghost t = out@;
        let mut k: usize = 0;
        assert(t.skip(0) =~= t);
        while k < out.len() && out[k].0 <= x.0
            invariant
                k <= out.len(),
                t == out@,
                first_greater(t, x.0) == k + first_greater(t.skip(k as int), x.0),
            decreases out.len() - k,
        {
            assert(t.skip(k as int).drop_first() =~= t.skip(k + 1));
            k = k + 1;
        }
        proof {
            if k < out.len() {
                assert(t.skip(k as int)[0] == t[k as int]);
            }
            assert(first_greater(t.skip(k as int), x.0) == 0);
            assert(v@.take(i + 1).drop_last() =~= v@.take(i as int));
            assert(v@.take(i + 1).last() == x);
        }
        out.insert(k, x);
        proof {
            assert(out@ =~= t.take(k as int) + seq![x] + t.skip(k as int));
        }
        i = i + 1;
    }
    assert(v@.take(v.len() as int) =~= v@);
    out
}

/// The first eligible entry with the largest `sites / (workers + 1)`.
fn best_entry(entries: &Vec<Entry>, cap: u16) -> (best: Option<usize>)
    ensures
        best matches Some(b) ==> best_upto(entries@, cap as int, entries@.len() as int) == Some(
            b as int,
        ),
        best is None ==> best_upto(entries@, cap as int, entries@.len() as int) is None,
{
    let mut best: Option<usize> = None;
    let mut idx: usize = 0;
    while idx < entries.len()
        invariant
            idx <= entries.len(),
            best matches Some(b) ==> best_upto(entries@, cap as int, idx as int) == Some(b as int),
            best is None ==> best_upto(entries@, cap as int, idx as int) is None,
            best matches Some(b) ==> b < idx,
        decreases entries.len() - idx,
    {
        let (_, count, workers) = entries[idx];
        if workers < cap {
            best = match best {
                None => Some(idx),
                Some(current) => {
                    let (_, best_count, best_workers) = entries[current];
                    proof {
                        lemma_mul_fits(count, best_workers);
                        lemma_mul_fits(best_count, workers);
                    }
                    let left: u64 = (count as u64) * (best_workers as u64 + 1);
                    let right: u64 = (best_count as u64) * (workers as u64 + 1);
                    if left > right {
                        Some(idx)
                    } else {
                        Some(current)
                    }
                },
            };
        }
        idx = idx + 1;
    }
    best
}

/// The per-version cap and the total number of workers to hand out.
fn allocation_limits(n: usize, total_worker_budget: u16, max_workers_per_version: u16) -> (r: (
    u16,
    u16,
    u16,
))
    requires
        n > 0,
    ensures
        r.0 == spec_cap(max_workers_per_version),
        r.1 == spec_minimum(n as nat),
        r.2 == spec_target(n as nat, total_worker_budget, max_workers_per_version),
        r.1 <= r.2,
        r.2 <= r.1 * r.0,
        r.2 <= 64,
{
    let per_version_cap: u16 = if max_workers_per_version < 1 {
        1
    } else if max_workers_per_version > MAX_WORKERS_PER_VERSION {
        MAX_WORKERS_PER_VERSION
    } else {
        max_workers_per_version
    };
    let minimum: u16 = if n < 64 {
        n as u16
    } else {
        MAX_TOTAL_WORKERS
    };
    assert(minimum * per_version_cap <= 64 * 16 && minimum * per_version_cap >= minimum)
        by (nonlinear_arith)
        requires
            minimum <= 64,
            1 <= per_version_cap <= 16,
    ;
    let product: u16 = minimum * per_version_cap;
    let capacity: u16 = if product < MAX_TOTAL_WORKERS {
        product
    } else {
        MAX_TOTAL_WORKERS
    };
    let clamped: u16 = if total_worker_budget < 1 {
        1
    } else if total_worker_budget > MAX_TOTAL_WORKERS {
        MAX_TOTAL_WORKERS
    } else {
        total_worker_budget
    };
    let raised: u16 = if clamped >= minimum {
        clamped
    } else {
        minimum
    };
    let target: u16 = if raised <= capacity {
        raised
    } else {
        capacity
    };
    (per_version_cap, minimum, target)
}

/// The starting entries, sorted by port.
fn initial_entries(active: &[(u16, u32)], minimum: u16) -> (out: Vec<Entry>)
    requires
        minimum == spec_minimum(active@.len()),
    ensures
        out@ == sort_by_port(spec_initial(active@)),
{
    let mut initial: Vec<Entry> = Vec::new();
    let mut i: usize = 0;
    while i < minimum as usize
        invariant
            minimum == spec_minimum(active@.len()),
            i <= minimum,
            initial@ =~= spec_initial(active@).take(i as int),
        decreases minimum - i,
    {
        let (port, count) = active[i];
        let c: u32 = if count == 0 {
            1
        } else {
            count
        };
        initial.push((port, c, 1));
        i = i + 1;
    }
    assert(initial@ =~= spec_initial(active@));
    sort_entries(&initial)
}

/// Hands out workers until `target` is reached.
fn distribute(entries: &mut Vec<Entry>, cap: u16, minimum: u16, target: u16)
    requires
        1 <= cap <= 16,
        minimum <= target,
        target <= minimum * cap,
        old(entries)@.len() == minimum,
        all_under_cap(old(entries)@, cap as int),
        sum_workers(old(entries)@) == minimum,
    ensures
        final(entries)@ == dhondt(old(entries)@, cap as int, (target - minimum) as nat),
{
    let ghost e0 = entries@;
    let mut assigned: u16 = minimum;
    while assigned < target
        invariant
            minimum <= assigned <= target,
            target <= minimum * cap,
            1 <= cap <= 16,
            e0.len() == minimum,
            all_under_cap(e0, cap as int),
            sum_workers(e0) == minimum,
            entries@ == dhondt(e0, cap as int, (assigned - minimum) as nat),
        decreases target - assigned,
    {
        proof {
            lemma_dhondt(e0, cap as int, (assigned - minimum) as nat);
        }
        let best = best_entry(entries, cap);
        proof {
            lemma_best_upto_valid(entries@, cap as int, entries@.len() as int);
        }
        match best {
            Some(idx) => {
                let (p, c, w) = entries[idx];
                entries.set(idx, (p, c, w + 1));
            },
            None => {},
        }
        assigned = assigned + 1;
    }
}

/// `port -> workers` for the final entries.
fn entries_to_map(entries: &Vec<Entry>) -> (result: HashMap<u16, u16>)
    ensures
        result@ == map_of(entries@),
{
    let mut result: HashMap<u16, u16> = HashMap::new();
    let mut j: usize = 0;
    while j < entries.len()
        invariant
            j <= entries.len(),
            result@ == map_of(entries@.take(j as int)),
        decreases entries.len() - j,
    {
        let (port, _, workers) = entries[j];
        result.insert(port, workers);
        assert(entries@.take(j + 1).drop_last() =~= entries@.take(j as int));
        j = j + 1;
    }
    assert(entries@.take(entries.len() as int) =~= entries@);
    result
}

/// What the allocation promises: every active version (among the first 64)
/// gets workers, nothing else does, and each count lies between one and the
/// per-version cap.
pub proof fn lemma_allocation_shape(
    active: Seq<(u16, u32)>,
    total_worker_budget: u16,
    max_workers_per_version: u16,
)
    ensures
        forall|i: int| 0 <= i < spec_minimum(active.len()) ==> spec_allocation(
            active,
            total_worker_budget,
            max_workers_per_version,
        ).contains_key(#[trigger] active[i].0),
        forall|p: u16| #[trigger]
            spec_allocation(active, total_worker_budget, max_workers_per_version).contains_key(p)
                ==> exists|i: int| 0 <= i < spec_minimum(active.len()) && active[i].0 == p,
        forall|p: u16| #[trigger]
            spec_allocation(active, total_worker_budget, max_workers_per_version).contains_key(p)
                ==> 1 <= spec_allocation(active, total_worker_budget, max_workers_per_version)[p]
                <= spec_cap(max_workers_per_version),
{
    if active.len() > 0 {
        let n = active.len();
        let cap = spec_cap(max_workers_per_version);
        let minimum = spec_minimum(n);
        let target = spec_target(n, total_worker_budget, max_workers_per_version);
        let initial = spec_initial(active);
        let e0 = sort_by_port(initial);
        let steps = (target - minimum) as nat;
        lemma_initial_workers(active);
        lemma_sum_all_cap(e0, 1);
        assert(minimum * cap >= minimum) by (nonlinear_arith)
            requires
                cap >= 1,
                minimum >= 0,
        ;
        assert(all_under_cap(e0, cap));
        lemma_dhondt(e0, cap, steps);
        let f = dhondt(e0, cap, steps);
        lemma_map_of_dom(f);
        lemma_sort_multiset(initial);
        let m = spec_allocation(active, total_worker_budget, max_workers_per_version);
        assert(m == map_of(f));
        assert forall|k: int| 0 <= k < minimum implies m.contains_key(#[trigger] active[k].0) by {
            broadcast use vstd::seq_lib::group_to_multiset_ensures;
            let x = initial[k];
            assert(initial.contains(x));
            assert(e0.to_multiset().count(x) > 0);
            let j = choose|j: int| 0 <= j < e0.len() && e0[j] == x;
            assert(f[j].0 == e0[j].0);
        }
        assert forall|p: u16| #[trigger] m.contains_key(p) implies exists|k: int|
            0 <= k < minimum && active[k].0 == p by {
            broadcast use vstd::seq_lib::group_to_multiset_ensures;
            let j = choose|j: int| 0 <= j < f.len() && f[j].0 == p;
            let x = e0[j];
            assert(e0.contains(x));
            assert(initial.to_multiset().count(x) > 0);
            let k = choose|k: int| 0 <= k < initial.len() && initial[k] == x;
            assert(active[k].0 == p);
        }
        assert forall|p: u16| #[trigger] m.contains_key(p) implies 1 <= m[p] <= cap by {
            let j = choose|j: int| 0 <= j < f.len() && f[j].0 == p && m[p] == f[j].2;
            assert(1 <= f[j].2 <= cap);
        }
    }
}

/// Returns `port -> workers` for active `(port, enabled_vhost_count)` entries.
pub fn allocate_worker_counts(
    active: &[(u16, u32)],
    total_worker_budget: u16,
    max_workers_per_version: u16,
) -> (result: HashMap<u16, u16>)
    ensures
        result@ == spec_allocation(active@, total_worker_budget, max_workers_per_version),
        // every active version (among the first 64) gets an entry
        forall|i: int| 0 <= i < spec_minimum(active@.len()) ==> result@.contains_key(
            #[trigger] active@[i].0,
        ),
        // and nothing else does
        forall|p: u16| #[trigger] result@.contains_key(p) ==> exists|i: int|
            0 <= i < spec_minimum(active@.len()) && active@[i].0 == p,
        // one worker at least, never above the per-version cap
        forall|p: u16| #[trigger] result@.contains_key(p) ==> 1 <= result@[p] <= spec_cap(
            max_workers_per_version,
        ),
{
    proof {
        lemma_allocation_shape(active@, total_worker_budget, max_workers_per_version);
    }
    if active.len() == 0 {
        return HashMap::new();
    }
    let (cap, minimum, target) = allocation_limits(
        active.len(),
        total_worker_budget,
        max_workers_per_version,
    );
    let mut entries = initial_entries(active, minimum);
    proof {
        lemma_initial_workers(active@);
        lemma_sum_all_cap(entries@, 1);
    }
    distribute(&mut entries, cap, minimum, target);
    entries_to_map(&entries)
}

/// In PHPStudy-compatible mode every active version gets 16 workers.
pub open spec fn spec_phpstudy_allocation(active: Seq<(u16, u32)>) -> Map<u16, u16> {
    Map::new(
        |p: u16| exists|i: int| 0 <= i < active.len() && active[i].0 == p,
        |p: u16| PHPSTUDY_WORKERS_PER_VERSION,
    )
}

pub open spec fn spec_allocation_for_config(active: Seq<(u16, u32)>, config: PhpRuntimeConfig) -> Map<
    u16,
    u16,
> {
    if config.phpstudy_compatible_workers {
        spec_phpstudy_allocation(active)
    } else {
        spec_allocation(active, config.total_worker_budget, config.max_workers_per_version)
    }
}

pub fn allocate_worker_counts_for_config(active: &[(u16, u32)], config: &PhpRuntimeConfig) -> (result:
    HashMap<u16, u16>)
    ensures
        result@ == spec_allocation_for_config(active@, *config),
{
    if config.phpstudy_compatible_workers {
        let mut result: HashMap<u16, u16> = HashMap::new();
        let mut j: usize = 0;
        while j < active.len()
            invariant
                j <= active.len(),
                result@ == spec_phpstudy_allocation(active@.take(j as int)),
            decreases active.len() - j,
        {
            let (port, _) = active[j];
            result.insert(port, PHPSTUDY_WORKERS_PER_VERSION);
            proof {
                let a = active@.take(j + 1);
                let b = active@.take(j as int);
                assert forall|p: u16| #[trigger]
                    spec_phpstudy_allocation(a).contains_key(p) <==> result@.contains_key(p) by {
                    if exists|i: int| 0 <= i < a.len() && a[i].0 == p {
                        let i = choose|i: int| 0 <= i < a.len() && a[i].0 == p;
                        if i < j {
                            assert(b[i].0 == p);
                        }
                    }
                    if exists|i: int| 0 <= i < b.len() && b[i].0 == p {
                        let i = choose|i: int| 0 <= i < b.len() && b[i].0 == p;
                        assert(a[i].0 == p);
                    }
                    assert(a[j as int].0 == port);
                }
                assert forall|p: u16| #[trigger] result@.contains_key(p) implies result@[p]
                    == PHPSTUDY_WORKERS_PER_VERSION by {
                    if p != port {
                        assert(spec_phpstudy_allocation(b).contains_key(p));
                    }
                }
                assert(result@.dom() =~= spec_phpstudy_allocation(a).dom());
                assert(result@ =~= spec_phpstudy_allocation(a));
            }
            j = j + 1;
        }
        assert(active@.take(active.len() as int) =~= active@);
        return result;
    }
    allocate_worker_counts(active, config.total_worker_budget, config.max_workers_per_version)
}

/// `max_requests` clamped to `100..=10_000`.
pub open spec fn spec_max_requests(v: u32) -> u32 {
    if v < MIN_MAX_REQUESTS {
        MIN_MAX_REQUESTS
    } else if v > MAX_MAX_REQUESTS {
        MAX_MAX_REQUESTS
    } else {
        v
    }
}

fn clamp_max_requests(v: u32) -> (r: u32)
    ensures
        r == spec_max_requests(v),
{
    if v < MIN_MAX_REQUESTS {
        MIN_MAX_REQUESTS
    } else if v > MAX_MAX_REQUESTS {
        MAX_MAX_REQUESTS
    } else {
        v
    }
}

/// The number of enabled vhosts that forward PHP to `port`.
pub open spec fn site_count(vhosts: Seq<VhostBinding>, port: u16) -> nat
    decreases vhosts.len(),
{
    if vhosts.len() == 0 {
        0
    } else {
        site_count(vhosts.drop_last(), port) + if vhosts.last().enabled
            && vhosts.last().php_fastcgi_port == Some(port) {
            1nat
        } else {
            0nat
        }
    }
}

/// The `(port, sites)` pairs of the PHP services that at least one enabled
/// vhost uses, in service order.
pub open spec fn spec_active(services: Seq<ServiceInstance>, vhosts: Seq<VhostBinding>) -> Seq<
    (u16, u32),
>
    decreases services.len(),
{
    if services.len() == 0 {
        seq![]
    } else {
        let rest = spec_active(services.drop_last(), vhosts);
        let s = services.last();
        if s.kind == ServiceKind::Php && site_count(vhosts, s.port) > 0 {
            rest.push((s.port, site_count(vhosts, s.port) as u32))
        } else {
            rest
        }
    }
}

/// The runtime options a PHP service on `port` ends up with.
pub open spec fn spec_runtime_for(alloc: Map<u16, u16>, port: u16, max_requests: u32) -> Option<
    PhpRuntimeOptions,
> {
    if alloc.contains_key(port) {
        Some(PhpRuntimeOptions { workers: alloc[port], max_requests: spec_max_requests(max_requests) })
    } else {
        None
    }
}

proof fn lemma_site_count_bound(vhosts: Seq<VhostBinding>, port: u16)
    ensures
        site_count(vhosts, port) <= vhosts.len(),
    decreases vhosts.len(),
{
    if vhosts.len() > 0 {
        lemma_site_count_bound(vhosts.drop_last(), port);
    }
}

/// `site_count` is positive exactly where some enabled vhost forwards to
/// the port.
proof fn lemma_site_count_used(vhosts: Seq<VhostBinding>, port: u16)
    ensures
        site_count(vhosts, port) > 0 <==> exists|j: int|
            0 <= j < vhosts.len() && (#[trigger] vhosts[j]).enabled && vhosts[j].php_fastcgi_port == Some(
                port,
            ),
    decreases vhosts.len(),
{
    if vhosts.len() > 0 {
        let d = vhosts.drop_last();
        lemma_site_count_used(d, port);
        if exists|j: int|
            0 <= j < d.len() && (#[trigger] d[j]).enabled && d[j].php_fastcgi_port == Some(port) {
            let j = choose|j: int|
                0 <= j < d.len() && (#[trigger] d[j]).enabled && d[j].php_fastcgi_port == Some(port);
            assert(vhosts[j] == d[j]);
        }
        if exists|j: int|
            0 <= j < vhosts.len() && (#[trigger] vhosts[j]).enabled && vhosts[j].php_fastcgi_port
                == Some(port) {
            let j = choose|j: int|
                0 <= j < vhosts.len() && (#[trigger] vhosts[j]).enabled && vhosts[j].php_fastcgi_port
                    == Some(port);
            if j < d.len() {
                assert(d[j] == vhosts[j]);
            } else {
                assert(vhosts.last() == vhosts[j]);
            }
        }
    }
}

/// Only PHP versions that enabled vhosts use take part in the worker
/// allocation: each `(port, sites)` pair comes from a PHP service on that
/// port, `sites` is the number of enabled vhosts forwarding to it, and at
/// least one does.
pub proof fn active_versions_are_used(services: Seq<ServiceInstance>, vhosts: Seq<VhostBinding>)
    requires
        vhosts.len() <= u32::MAX,
    ensures
        forall|k: int|
            0 <= k < spec_active(services, vhosts).len() ==> {
                let e = #[trigger] spec_active(services, vhosts)[k];
                &&& e.1 >= 1
                &&& e.1 == site_count(vhosts, e.0)
                &&& exists|j: int|
                    0 <= j < vhosts.len() && (#[trigger] vhosts[j]).enabled
                        && vhosts[j].php_fastcgi_port == Some(e.0)
                &&& exists|i: int|
                    0 <= i < services.len() && (#[trigger] services[i]).kind == ServiceKind::Php
                        && services[i].port == e.0
            },
    decreases services.len(),
{
    if services.len() > 0 {
        let d = services.drop_last();
        active_versions_are_used(d, vhosts);
        let rest = spec_active(d, vhosts);
        let a = spec_active(services, vhosts);
        let last = services.last();
        assert forall|k: int| 0 <= k < a.len() implies {
            let e = #[trigger] a[k];
            &&& e.1 >= 1
            &&& e.1 == site_count(vhosts, e.0)
            &&& exists|j: int|
                0 <= j < vhosts.len() && (#[trigger] vhosts[j]).enabled && vhosts[j].php_fastcgi_port
                    == Some(e.0)
            &&& exists|i: int|
                0 <= i < services.len() && (#[trigger] services[i]).kind == ServiceKind::Php
                    && services[i].port == e.0
        } by {
            let e = a[k];
            if k < rest.len() {
                assert(e == rest[k]);
                let i = choose|i: int|
                    0 <= i < d.len() && (#[trigger] d[i]).kind == ServiceKind::Php && d[i].port == e.0;
                assert(services[i] == d[i]);
            } else {
                assert(last.kind == ServiceKind::Php && site_count(vhosts, last.port) > 0);
                lemma_site_count_bound(vhosts, last.port);
                assert(e == (last.port, site_count(vhosts, last.port) as u32));
                assert(services[services.len() - 1] == last);
            }
            lemma_site_count_used(vhosts, e.0);
        }
    }
}

/// An installed PHP version that no enabled vhost forwards to gets no
/// worker pool: its runtime options stay `None`, under either worker
/// policy.
pub proof fn unused_php_gets_no_pool(
    services: Seq<ServiceInstance>,
    vhosts: Seq<VhostBinding>,
    config: PhpRuntimeConfig,
    port: u16,
)
    requires
        vhosts.len() <= u32::MAX,
        forall|j: int|
            0 <= j < vhosts.len() ==> !((#[trigger] vhosts[j]).enabled && vhosts[j].php_fastcgi_port
                == Some(port)),
    ensures
        spec_runtime_for(
            spec_allocation_for_config(spec_active(services, vhosts), config),
            port,
            config.max_requests,
        ) is None,
{
    let active = spec_active(services, vhosts);
    active_versions_are_used(services, vhosts);
    assert forall|k: int| 0 <= k < active.len() implies (#[trigger] active[k]).0 != port by {
        let e = active[k];
        if e.0 == port {
            let j = choose|j: int|
                0 <= j < vhosts.len() && (#[trigger] vhosts[j]).enabled && vhosts[j].php_fastcgi_port
                    == Some(e.0);
        }
    }
    if config.phpstudy_compatible_workers {
        assert(!spec_phpstudy_allocation(active).contains_key(port));
    } else {
        lemma_allocation_shape(active, config.total_worker_budget, config.max_workers_per_version);
        if spec_allocation(active, config.total_worker_budget, config.max_workers_per_version).contains_key(
            port,
        ) {
            let i = choose|i: int| 0 <= i < spec_minimum(active.len()) && active[i].0 == port;
            assert(i < active.len());
        }
    }
}

fn count_sites(vhosts: &[VhostBinding], port: u16) -> (n: u32)
    requires
        vhosts@.len() <= u32::MAX,
    ensures
        n == site_count(vhosts@, port),
{
    let mut n: u32 = 0;
    let mut i: usize = 0;
    while i < vhosts.len()
        invariant
            i <= vhosts.len(),
            vhosts@.len() <= u32::MAX,
            n == site_count(vhosts@.take(i as int), port),
        decreases vhosts.len() - i,
    {
        proof {
            lemma_site_count_bound(vhosts@.take(i as int), port);
            assert(vhosts@.take(i + 1).drop_last() =~= vhosts@.take(i as int));
        }
        let v = vhosts[i];
        if v.enabled && v.php_fastcgi_port == Some(port) {
            n = n + 1;
        }
        i = i + 1;
    }
    assert(vhosts@.take(vhosts.len() as int) =~= vhosts@);
    n
}

/// Applies the global worker budget to PHP versions referenced by enabled
/// vhosts. Installed but unused PHP versions keep `php_runtime = None`.
pub fn apply_php_runtime_policy(
    services: &mut Vec<ServiceInstance>,
    vhosts: &[VhostBinding],
    config: &PhpRuntimeConfig,
)
    requires
        vhosts@.len() <= u32::MAX,
    ensures
        final(services)@.len() == old(services)@.len(),
        forall|i: int| 0 <= i < old(services)@.len() ==> {
            let before = #[trigger] old(services)@[i];
            let after = final(services)@[i];
            &&& after.kind == before.kind
            &&& after.version == before.version
            &&& after.variant == before.variant
            &&& after.install_path == before.install_path
            &&& after.config_path == before.config_path
            &&& after.port == before.port
            &&& after.status == before.status
            &&& after.auto_start == before.auto_start
            &&& after.origin == before.origin
            &&& after.php_runtime == if before.kind == ServiceKind::Php {
                spec_runtime_for(
                    spec_allocation_for_config(spec_active(old(services)@, vhosts@), *config),
                    before.port,
                    config.max_requests,
                )
            } else {
                before.php_runtime
            }
        },
        forall|i: int|
            0 <= i < old(services)@.len() && (#[trigger] old(services)@[i]).kind == ServiceKind::Php
                && (forall|j: int|
                0 <= j < vhosts@.len() ==> !((#[trigger] vhosts@[j]).enabled
                    && vhosts@[j].php_fastcgi_port == Some(old(services)@[i].port)))
                ==> final(services)@[i].php_runtime is None,
{
    let ghost before = services@;
    let mut active: Vec<(u16, u32)> = Vec::new();
    let mut i: usize = 0;
    while i < services.len()
        invariant
            i <= services.len(),
            services@ == before,
            vhosts@.len() <= u32::MAX,
            active@ == spec_active(before.take(i as int), vhosts@),
        decreases services.len() - i,
    {
        proof {
            assert(before.take(i + 1).drop_last() =~= before.take(i as int));
        }
        if services[i].kind == ServiceKind::Php {
            let count = count_sites(vhosts, services[i].port);
            if count > 0 {
                active.push((services[i].port, count));
            }
        }
        i = i + 1;
    }
    assert(before.take(before.len() as int) =~= before);
    let allocation = allocate_worker_counts_for_config(active.as_slice(), config);
    let max_requests = clamp_max_requests(config.max_requests);
    let mut k: usize = 0;
    while k < services.len()
        invariant
            k <= services.len(),
            services@.len() == before.len(),
            allocation@ == spec_allocation_for_config(spec_active(before, vhosts@), *config),
            max_requests == spec_max_requests(config.max_requests),
            forall|j: int| k <= j < before.len() ==> #[trigger] services@[j] == before[j],
            forall|j: int| 0 <= j < k ==> {
                let b = #[trigger] before[j];
                let a = services@[j];
                &&& a.kind == b.kind
                &&& a.version == b.version
                &&& a.variant == b.variant
                &&& a.install_path == b.install_path
                &&& a.config_path == b.config_path
                &&& a.port == b.port
                &&& a.status == b.status
                &&& a.auto_start == b.auto_start
                &&& a.origin == b.origin
                &&& a.php_runtime == if b.kind == ServiceKind::Php {
                    spec_runtime_for(allocation@, b.port, config.max_requests)
                } else {
                    b.php_runtime
                }
            },
        decreases services.len() - k,
    {
        if services[k].kind == ServiceKind::Php {
            let runtime = match allocation.get(&services[k].port) {
                Some(w) => Some(PhpRuntimeOptions { workers: *w, max_requests }),
                None => None,
            };
            let mut s = services[k].duplicate();
            s.php_runtime = runtime;
            services.set(k, s);
        }
        k = k + 1;
    }
    proof {
        assert forall|i: int|
            0 <= i < before.len() && (#[trigger] before[i]).kind == ServiceKind::Php && (forall|j: int|
                0 <= j < vhosts@.len() ==> !((#[trigger] vhosts@[j]).enabled
                    && vhosts@[j].php_fastcgi_port == Some(before[i].port)))
                implies services@[i].php_runtime is None by {
            unused_php_gets_no_pool(before, vhosts@, *config, before[i].port);
        }
    }
}

/// Gives a PHP service started by hand (not picked by the vhost policy) a
/// worker pool from the configuration.
pub open spec fn spec_manual_workers(config: PhpRuntimeConfig) -> u16 {
    if config.phpstudy_compatible_workers {
        16
    } else {
        let m = min_int(config.total_worker_budget as int, config.max_workers_per_version as int);
        clamp_int(m, 1, 16) as u16
    }
}

pub fn ensure_manual_php_runtime(target: &mut ServiceInstance, config: &PhpRuntimeConfig)
    ensures
        final(target).kind == old(target).kind,
        final(target).version == old(target).version,
        final(target).variant == old(target).variant,
        final(target).install_path == old(target).install_path,
        final(target).config_path == old(target).config_path,
        final(target).port == old(target).port,
        final(target).status == old(target).status,
        final(target).auto_start == old(target).auto_start,
        final(target).origin == old(target).origin,
        final(target).php_runtime == if old(target).kind != ServiceKind::Php
            || old(target).php_runtime is Some {
            old(target).php_runtime
        } else {
            Some(
                PhpRuntimeOptions {
                    workers: spec_manual_workers(*config),
                    max_requests: spec_max_requests(config.max_requests),
                },
            )
        },
{
    if target.kind != ServiceKind::Php || target.php_runtime.is_some() {
        return;
    }
    let workers: u16 = if config.phpstudy_compatible_workers {
        16
    } else {
        let m = if config.total_worker_budget <= config.max_workers_per_version {
            config.total_worker_budget
        } else {
            config.max_workers_per_version
        };
        if m < 1 {
            1
        } else if m > 16 {
            16
        } else {
            m
        }
    };
    target.php_runtime = Some(
        PhpRuntimeOptions { workers, max_requests: clamp_max_requests(config.max_requests) },
    );
}

} // verus!
