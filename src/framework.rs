//! Abstract argumentation frameworks: arguments as nodes `0..n`, defeats as
//! directed edges, and the extensions of Dung's semantics.
use vstd::prelude::*;

use crate::defeats::Defeat;

verus! {

/// Nodes `0..n` and the edges `(attacker, target)` between them.
#[derive(Clone, Debug)]
pub struct AbstractFramework {
    pub n: usize,
    pub edges: Vec<(usize, usize)>,
}

/// The framework is malformed: an edge names a node outside `0..n`.
#[derive(Clone, Copy, Debug, PartialEq, Eq, Structural)]
pub struct UnsatisfiableFramework;

pub open spec fn edges_in_range(af: AbstractFramework) -> bool {
    forall|i: int| 0 <= i < af.edges@.len() ==> (#[trigger] af.edges@[i]).0 < af.n && af.edges@[i].1 < af.n
}

pub open spec fn defeats(af: AbstractFramework, x: int, y: int) -> bool {
    exists|i: int| 0 <= i < af.edges@.len() && af.edges@[i].0 as int == x && af.edges@[i].1 as int == y
}

/// A set of nodes, one flag per node.
pub open spec fn is_set(af: AbstractFramework, e: Seq<bool>) -> bool {
    e.len() == af.n
}

pub open spec fn conflict_free(af: AbstractFramework, e: Seq<bool>) -> bool {
    forall|x: int, y: int| 0 <= x < e.len() && 0 <= y < e.len() && e[x] && e[y] ==> !#[trigger] defeats(af, x, y)
}

/// Some member of `e` defeats `b`.
pub open spec fn counters(af: AbstractFramework, e: Seq<bool>, b: int) -> bool {
    exists|c: int| 0 <= c < e.len() && e[c] && #[trigger] defeats(af, c, b)
}

/// `e` defeats every defeater of `a`.
pub open spec fn defends(af: AbstractFramework, e: Seq<bool>, a: int) -> bool {
    forall|b: int| #[trigger] defeats(af, b, a) ==> counters(af, e, b)
}

pub open spec fn admissible(af: AbstractFramework, e: Seq<bool>) -> bool {
    &&& is_set(af, e)
    &&& conflict_free(af, e)
    &&& forall|a: int| 0 <= a < e.len() && e[a] ==> #[trigger] defends(af, e, a)
}

pub open spec fn complete(af: AbstractFramework, e: Seq<bool>) -> bool {
    &&& admissible(af, e)
    &&& forall|a: int| 0 <= a < e.len() && #[trigger] defends(af, e, a) ==> e[a]
}

pub open spec fn subset(e1: Seq<bool>, e2: Seq<bool>) -> bool {
    e1.len() == e2.len() && forall|i: int| 0 <= i < e1.len() && #[trigger] e1[i] ==> e2[i]
}

/// The least complete extension.
pub open spec fn grounded(af: AbstractFramework, e: Seq<bool>) -> bool {
    &&& complete(af, e)
    &&& forall|c: Seq<bool>| #[trigger] complete(af, c) ==> subset(e, c)
}

/// A maximal admissible set.
pub open spec fn preferred(af: AbstractFramework, e: Seq<bool>) -> bool {
    &&& admissible(af, e)
    &&& forall|f: Seq<bool>| #[trigger] admissible(af, f) && subset(e, f) ==> f == e
}

pub open spec fn members(e: Seq<bool>) -> nat
    decreases e.len(),
{
    if e.len() == 0 {
        0
    } else {
        members(e.drop_last()) + if e.last() { 1nat } else { 0nat }
    }
}

proof fn lemma_members_add(e: Seq<bool>, a: int)
    requires
        0 <= a < e.len(),
        !e[a],
    ensures
        members(e.update(a, true)) == members(e) + 1,
    decreases e.len(),
{
    let u = e.update(a, true);
    if a == e.len() - 1 {
        assert(u.drop_last() =~= e.drop_last());
    } else {
        assert(u.drop_last() =~= e.drop_last().update(a, true));
        lemma_members_add(e.drop_last(), a);
    }
}

proof fn lemma_members_bound(e: Seq<bool>)
    ensures
        members(e) <= e.len(),
    decreases e.len(),
{
    if e.len() > 0 {
        lemma_members_bound(e.drop_last());
    }
}

/// Whether `af.edges` holds `(x, y)`.
fn has_edge(af: &AbstractFramework, x: usize, y: usize) -> (r: bool)
    ensures
        r == defeats(*af, x as int, y as int),
{
    let mut i: usize = 0;
    while i < af.edges.len()
        invariant
            i <= af.edges@.len(),
            forall|k: int| 0 <= k < i ==> !((#[trigger] af.edges@[k]).0 == x && af.edges@[k].1 == y),
        decreases af.edges@.len() - i,
    {
        if af.edges[i].0 == x && af.edges[i].1 == y {
            assert(af.edges@[i as int].0 == x && af.edges@[i as int].1 == y);
            return true;
        }
        i += 1;
    }
    false
}

/// Whether some member of `e` defeats `b`.
fn counters_exec(af: &AbstractFramework, e: &Vec<bool>, b: usize) -> (r: bool)
    requires
        edges_in_range(*af),
        e@.len() == af.n,
    ensures
        r == counters(*af, e@, b as int),
{
    let mut i: usize = 0;
    while i < af.edges.len()
        invariant
            edges_in_range(*af),
            e@.len() == af.n,
            i <= af.edges@.len(),
            forall|k: int| 0 <= k < i ==> !((#[trigger] af.edges@[k]).1 == b && e@[af.edges@[k].0 as int]),
        decreases af.edges@.len() - i,
    {
        let (c, t) = af.edges[i];
        if t == b && e[c] {
            assert(defeats(*af, c as int, b as int));
            return true;
        }
        i += 1;
    }
    assert forall|c: int| 0 <= c < e@.len() && e@[c] implies !#[trigger] defeats(*af, c, b as int) by {
        if defeats(*af, c, b as int) {
            let k = choose|k: int| 0 <= k < af.edges@.len() && af.edges@[k].0 as int == c && af.edges@[k].1 as int == b as int;
            assert(af.edges@[k].1 == b);
        }
    }
    false
}

/// Whether `e` defends `a`.
fn defends_exec(af: &AbstractFramework, e: &Vec<bool>, a: usize) -> (r: bool)
    requires
        edges_in_range(*af),
        e@.len() == af.n,
    ensures
        r == defends(*af, e@, a as int),
{
    let mut i: usize = 0;
    while i < af.edges.len()
        invariant
            edges_in_range(*af),
            e@.len() == af.n,
            i <= af.edges@.len(),
            forall|k: int| 0 <= k < i && (#[trigger] af.edges@[k]).1 == a ==> counters(*af, e@, af.edges@[k].0 as int),
        decreases af.edges@.len() - i,
    {
        let (b, t) = af.edges[i];
        if t == a && !counters_exec(af, e, b) {
            assert(defeats(*af, b as int, a as int));
            return false;
        }
        i += 1;
    }
    assert forall|b: int| #[trigger] defeats(*af, b, a as int) implies counters(*af, e@, b) by {
        let k = choose|k: int| 0 <= k < af.edges@.len() && af.edges@[k].0 as int == b && af.edges@[k].1 as int == a as int;
        assert(af.edges@[k].1 == a);
    }
    true
}

/// Whether the framework is well formed.
pub fn check_framework(af: &AbstractFramework) -> (r: Result<(), UnsatisfiableFramework>)
    ensures
        r is Ok <==> edges_in_range(*af),
{
    let mut i: usize = 0;
    while i < af.edges.len()
        invariant
            i <= af.edges@.len(),
            forall|k: int| 0 <= k < i ==> (#[trigger] af.edges@[k]).0 < af.n && af.edges@[k].1 < af.n,
        decreases af.edges@.len() - i,
    {
        if af.edges[i].0 >= af.n || af.edges[i].1 >= af.n {
            assert(!((af.edges@[i as int]).0 < af.n && af.edges@[i as int].1 < af.n));
            return Err(UnsatisfiableFramework);
        }
        i += 1;
    }
    Ok(())
}

proof fn lemma_defends_mono(af: AbstractFramework, e1: Seq<bool>, e2: Seq<bool>, a: int)
    requires
        subset(e1, e2),
        defends(af, e1, a),
    ensures
        defends(af, e2, a),
{
    assert forall|b: int| #[trigger] defeats(af, b, a) implies counters(af, e2, b) by {
        assert(counters(af, e1, b));
        let c = choose|c: int| 0 <= c < e1.len() && e1[c] && #[trigger] defeats(af, c, b);
        assert(e2[c]);
    }
}

/// Adding an argument that an admissible set defends keeps it admissible.
proof fn lemma_add_defended(af: AbstractFramework, e: Seq<bool>, a: int)
    requires
        admissible(af, e),
        0 <= a < e.len(),
        defends(af, e, a),
    ensures
        admissible(af, e.update(a, true)),
        subset(e, e.update(a, true)),
{
    let u = e.update(a, true);
    assert(subset(e, u));
    assert forall|x: int, y: int| 0 <= x < u.len() && 0 <= y < u.len() && u[x] && u[y] implies !#[trigger] defeats(af, x, y) by {
        if defeats(af, x, y) {
            if e[x] && e[y] {
                assert(!defeats(af, x, y));
            } else if y == a {
                assert(counters(af, e, x));
                let c = choose|c: int| 0 <= c < e.len() && e[c] && #[trigger] defeats(af, c, x);
                if e[x] {
                    assert(!defeats(af, c, x));
                } else {
                    assert(x == a);
                    assert(counters(af, e, c));
                    let d = choose|d: int| 0 <= d < e.len() && e[d] && #[trigger] defeats(af, d, c);
                    assert(!defeats(af, d, c));
                }
            } else {
                assert(x == a && e[y]);
                assert(defends(af, e, y));
                assert(counters(af, e, a));
                let c = choose|c: int| 0 <= c < e.len() && e[c] && #[trigger] defeats(af, c, a);
                assert(counters(af, e, c));
                let d = choose|d: int| 0 <= d < e.len() && e[d] && #[trigger] defeats(af, d, c);
                assert(!defeats(af, d, c));
            }
        }
    }
    assert forall|x: int| 0 <= x < u.len() && u[x] implies #[trigger] defends(af, u, x) by {
        if x == a {
            lemma_defends_mono(af, e, u, a);
        } else {
            assert(defends(af, e, x));
            lemma_defends_mono(af, e, u, x);
        }
    }
}

/// The grounded extension: starting from the empty set, adds defended
/// arguments until none is left.
pub fn grounded_extension(af: &AbstractFramework) -> (r: Vec<bool>)
    requires
        edges_in_range(*af),
    ensures
        grounded(*af, r@),
{
    let n = af.n;
    let mut e: Vec<bool> = Vec::new();
    let mut i: usize = 0;
    while i < n
        invariant
            i <= n,
            e@.len() == i,
            forall|k: int| 0 <= k < i ==> !#[trigger] e@[k],
        decreases n - i,
    {
        e.push(false);
        i += 1;
    }
    assert forall|c: Seq<bool>| #[trigger] complete(*af, c) implies subset(e@, c) by {}
    proof {
        lemma_members_bound(e@);
    }
    loop
        invariant
            n == af.n,
            edges_in_range(*af),
            admissible(*af, e@),
            forall|c: Seq<bool>| #[trigger] complete(*af, c) ==> subset(e@, c),
            members(e@) <= n,
        decreases n - members(e@),
    {
        let mut a: usize = 0;
        let mut found = false;
        while a < n && !found
            invariant
                n == af.n,
                edges_in_range(*af),
                admissible(*af, e@),
                a <= n,
                found ==> 0 < a && !e@[a - 1] && defends(*af, e@, a - 1),
                !found ==> forall|x: int| 0 <= x < a && #[trigger] defends(*af, e@, x) ==> e@[x],
            decreases n - a,
        {
            if !e[a] && defends_exec(af, &e, a) {
                found = true;
            }
            a += 1;
        }
        if !found {
            return e;
        }
        let x = a - 1;
        let ghost old_e = e@;
        proof {
            lemma_add_defended(*af, old_e, x as int);
            lemma_members_add(old_e, x as int);
            lemma_members_bound(old_e.update(x as int, true));
            assert forall|c: Seq<bool>| #[trigger] complete(*af, c) implies subset(old_e.update(x as int, true), c) by {
                lemma_defends_mono(*af, old_e, c, x as int);
            }
        }
        e.set(x, true);
    }
}

/// There is exactly one grounded extension, and it lies within every complete
/// extension.
pub proof fn lemma_grounded_unique(af: AbstractFramework, g1: Seq<bool>, g2: Seq<bool>, c: Seq<bool>)
    requires
        grounded(af, g1),
        grounded(af, g2),
        complete(af, c),
    ensures
        g1 == g2,
        subset(g1, c),
{
    assert(subset(g1, g2));
    assert(subset(g2, g1));
    assert(g1 =~= g2);
}

/// Whether `e` is admissible.
fn admissible_exec(af: &AbstractFramework, e: &Vec<bool>) -> (r: bool)
    requires
        edges_in_range(*af),
        e@.len() == af.n,
    ensures
        r == admissible(*af, e@),
{
    let mut i: usize = 0;
    while i < af.edges.len()
        invariant
            edges_in_range(*af),
            e@.len() == af.n,
            i <= af.edges@.len(),
            forall|k: int| 0 <= k < i ==> !(e@[(#[trigger] af.edges@[k]).0 as int] && e@[af.edges@[k].1 as int]),
        decreases af.edges@.len() - i,
    {
        let (x, y) = af.edges[i];
        if e[x] && e[y] {
            assert(defeats(*af, x as int, y as int));
            return false;
        }
        i += 1;
    }
    assert(conflict_free(*af, e@)) by {
        assert forall|x: int, y: int| 0 <= x < e@.len() && 0 <= y < e@.len() && e@[x] && e@[y] implies !#[trigger] defeats(*af, x, y) by {
            if defeats(*af, x, y) {
                let k = choose|k: int| 0 <= k < af.edges@.len() && af.edges@[k].0 as int == x && af.edges@[k].1 as int == y;
                assert(!(e@[(af.edges@[k]).0 as int] && e@[af.edges@[k].1 as int]));
            }
        }
    }
    let mut a: usize = 0;
    while a < af.n
        invariant
            edges_in_range(*af),
            e@.len() == af.n,
            a <= af.n,
            forall|x: int| 0 <= x < a && e@[x] ==> #[trigger] defends(*af, e@, x),
        decreases af.n - a,
    {
        if e[a] && !defends_exec(af, e, a) {
            return false;
        }
        a += 1;
    }
    true
}

fn copy_flags(v: &Vec<bool>) -> (r: Vec<bool>)
    ensures
        r@ == v@,
{
    let mut r: Vec<bool> = Vec::new();
    let mut i: usize = 0;
    while i < v.len()
        invariant
            i <= v@.len(),
            r@ == v@.subrange(0, i as int),
        decreases v@.len() - i,
    {
        r.push(v[i]);
        i += 1;
    }
    assert(r@ =~= v@);
    r
}

pub open spec fn listed(sets: Seq<Vec<bool>>, e: Seq<bool>) -> bool {
    exists|i: int| 0 <= i < sets.len() && sets[i]@ == e
}

proof fn lemma_listed_push(sets: Seq<Vec<bool>>, x: Vec<bool>, e: Seq<bool>)
    requires
        listed(sets, e),
    ensures
        listed(sets.push(x), e),
{
    let i = choose|i: int| 0 <= i < sets.len() && sets[i]@ == e;
    assert(sets.push(x)[i] == sets[i]);
}

/// Adds to `out` every admissible set whose first flags are `cur`.
fn collect_admissible(af: &AbstractFramework, cur: &mut Vec<bool>, depth: usize, out: &mut Vec<Vec<bool>>)
    requires
        edges_in_range(*af),
        depth == old(cur)@.len() <= af.n,
        forall|i: int| 0 <= i < old(out)@.len() ==> admissible(*af, #[trigger] old(out)@[i]@),
    ensures
        final(cur)@ == old(cur)@,
        forall|i: int| 0 <= i < final(out)@.len() ==> admissible(*af, #[trigger] final(out)@[i]@),
        forall|e: Seq<bool>| #[trigger] listed(old(out)@, e) ==> listed(final(out)@, e),
        forall|e: Seq<bool>|
            admissible(*af, e) && e.subrange(0, depth as int) == old(cur)@ ==> #[trigger] listed(final(out)@, e),
    decreases af.n - depth,
{
    let ghost c0 = cur@;
    let ghost o0 = out@;
    if depth == af.n {
        if admissible_exec(af, cur) {
            let copy = copy_flags(cur);
            out.push(copy);
            assert(out@[out@.len() - 1]@ == c0);
            assert forall|e: Seq<bool>| #[trigger] listed(o0, e) implies listed(out@, e) by {
                lemma_listed_push(o0, copy, e);
            }
        }
        assert forall|e: Seq<bool>| admissible(*af, e) && e.subrange(0, depth as int) == c0 implies #[trigger] listed(out@, e) by {
            assert(e =~= e.subrange(0, depth as int));
        }
        return;
    }
    cur.push(false);
    collect_admissible(af, cur, depth + 1, out);
    let ghost mid = cur@;
    cur.pop();
    assert(cur@ =~= mid.drop_last());
    let ghost o1 = out@;
    cur.push(true);
    collect_admissible(af, cur, depth + 1, out);
    let ghost mid2 = cur@;
    cur.pop();
    assert(cur@ =~= mid2.drop_last());
    assert(cur@ =~= c0);
    assert forall|e: Seq<bool>| admissible(*af, e) && e.subrange(0, depth as int) == c0 implies #[trigger] listed(out@, e) by {
        if e[depth as int] {
            assert(e.subrange(0, depth as int + 1) =~= c0.push(true));
            assert(e.subrange(0, (depth + 1) as int) == mid2);
            assert(listed(out@, e));
        } else {
            assert(e.subrange(0, depth as int + 1) =~= c0.push(false));
            assert(e.subrange(0, (depth + 1) as int) == mid);
            assert(listed(o1, e));
            assert(listed(out@, e));
        }
    }
}

/// Whether `sets` lists `e`.
fn contains_flags(sets: &Vec<Vec<bool>>, e: &Vec<bool>) -> (r: bool)
    ensures
        r == listed(sets@, e@),
{
    let mut i: usize = 0;
    while i < sets.len()
        invariant
            i <= sets@.len(),
            forall|k: int| 0 <= k < i ==> (#[trigger] sets@[k])@ != e@,
        decreases sets@.len() - i,
    {
        if same_flags(&sets[i], e) {
            return true;
        }
        i += 1;
    }
    false
}

fn subset_exec(a: &Vec<bool>, b: &Vec<bool>) -> (r: bool)
    requires
        a@.len() == b@.len(),
    ensures
        r == subset(a@, b@),
{
    let mut i: usize = 0;
    while i < a.len()
        invariant
            a@.len() == b@.len(),
            i <= a@.len(),
            forall|k: int| 0 <= k < i && #[trigger] a@[k] ==> b@[k],
        decreases a@.len() - i,
    {
        if a[i] && !b[i] {
            return false;
        }
        i += 1;
    }
    true
}

fn same_flags(a: &Vec<bool>, b: &Vec<bool>) -> (r: bool)
    ensures
        r == (a@ == b@),
{
    if a.len() != b.len() {
        return false;
    }
    let mut i: usize = 0;
    while i < a.len()
        invariant
            a@.len() == b@.len(),
            i <= a@.len(),
            forall|k: int| 0 <= k < i ==> a@[k] == b@[k],
        decreases a@.len() - i,
    {
        if a[i] != b[i] {
            return false;
        }
        i += 1;
    }
    assert(a@ =~= b@);
    true
}

/// All preferred extensions (maximal admissible sets), found by enumerating
/// every admissible set. Fails only on a malformed framework.
pub fn preferred_extensions(af: &AbstractFramework) -> (r: Result<Vec<Vec<bool>>, UnsatisfiableFramework>)
    ensures
        r is Ok <==> edges_in_range(*af),
        r matches Ok(sets) ==> {
            &&& forall|i: int| 0 <= i < sets@.len() ==> #[trigger] preferred(*af, sets@[i]@)
            &&& forall|i: int| 0 <= i < sets@.len() ==> conflict_free(*af, #[trigger] sets@[i]@)
                && forall|a: int| 0 <= a < af.n && sets@[i]@[a] ==> defends(*af, sets@[i]@, a)
            &&& forall|e: Seq<bool>| #[trigger] preferred(*af, e) ==> listed(sets@, e)
            &&& forall|i: int, j: int| 0 <= i < j < sets@.len() ==> #[trigger] sets@[i]@ != #[trigger] sets@[j]@
        },
{
    if check_framework(af).is_err() {
        return Err(UnsatisfiableFramework);
    }
    let mut all: Vec<Vec<bool>> = Vec::new();
    let mut cur: Vec<bool> = Vec::new();
    collect_admissible(af, &mut cur, 0, &mut all);
    assert forall|e: Seq<bool>| #[trigger] admissible(*af, e) implies listed(all@, e) by {
        assert(e.subrange(0, 0) =~= Seq::<bool>::empty());
    }
    let mut out: Vec<Vec<bool>> = Vec::new();
    let mut i: usize = 0;
    while i < all.len()
        invariant
            edges_in_range(*af),
            forall|k: int| 0 <= k < all@.len() ==> admissible(*af, #[trigger] all@[k]@),
            forall|e: Seq<bool>| #[trigger] admissible(*af, e) ==> listed(all@, e),
            i <= all@.len(),
            forall|k: int| 0 <= k < out@.len() ==> #[trigger] preferred(*af, out@[k]@),
            forall|k: int| 0 <= k < i && #[trigger] preferred(*af, all@[k]@) ==> listed(out@, all@[k]@),
            forall|a: int, b: int| 0 <= a < b < out@.len() ==> #[trigger] out@[a]@ != #[trigger] out@[b]@,
        decreases all@.len() - i,
    {
        let mut maximal = true;
        let mut j: usize = 0;
        assert(admissible(*af, all@[i as int]@));
        while j < all.len() && maximal
            invariant
                edges_in_range(*af),
                forall|k: int| 0 <= k < all@.len() ==> admissible(*af, #[trigger] all@[k]@),
                i < all@.len(),
                j <= all@.len(),
                maximal ==> forall|k: int| 0 <= k < j && subset(all@[i as int]@, #[trigger] all@[k]@) ==> all@[k]@ == all@[i as int]@,
                !maximal ==> !preferred(*af, all@[i as int]@),
            decreases all@.len() - j,
        {
            assert(admissible(*af, all@[j as int]@));
            if subset_exec(&all[i], &all[j]) && !same_flags(&all[i], &all[j]) {
                maximal = false;
            }
            j += 1;
        }
        let ghost before = out@;
        if maximal && !contains_flags(&out, &all[i]) {
            assert(preferred(*af, all@[i as int]@)) by {
                assert forall|f: Seq<bool>| #[trigger] admissible(*af, f) && subset(all@[i as int]@, f) implies f == all@[i as int]@ by {
                    assert(listed(all@, f));
                    let k = choose|k: int| 0 <= k < all@.len() && all@[k]@ == f;
                    assert(subset(all@[i as int]@, all@[k]@));
                }
            }
            let copy = copy_flags(&all[i]);
            out.push(copy);
            assert(out@[out@.len() - 1]@ == all@[i as int]@);
            assert forall|a: int, b: int| 0 <= a < b < out@.len() implies #[trigger] out@[a]@ != #[trigger] out@[b]@ by {
                if b == out@.len() - 1 {
                    assert(out@[a] == before[a]);
                } else {
                    assert(out@[a] == before[a] && out@[b] == before[b]);
                }
            }
        }
        assert forall|k: int| 0 <= k < i + 1 && #[trigger] preferred(*af, all@[k]@) implies listed(out@, all@[k]@) by {
            if k < i {
                if out@.len() > before.len() {
                    lemma_listed_push(before, out@[out@.len() - 1], all@[k]@);
                    assert(before.push(out@[out@.len() - 1]) == out@);
                }
            } else if out@.len() == before.len() {
                assert(listed(out@, all@[i as int]@));
            }
        }
        i += 1;
    }
    assert forall|e: Seq<bool>| #[trigger] preferred(*af, e) implies listed(out@, e) by {
        assert(listed(all@, e));
        let k = choose|k: int| 0 <= k < all@.len() && all@[k]@ == e;
        assert(preferred(*af, all@[k]@));
    }
    assert forall|i: int| 0 <= i < out@.len() implies conflict_free(*af, #[trigger] out@[i]@)
        && forall|a: int| 0 <= a < af.n && out@[i]@[a] ==> defends(*af, out@[i]@, a) by {
        assert(preferred(*af, out@[i]@));
    }
    Ok(out)
}

/// Some defeat of the list goes from `x` to `y`.
pub open spec fn listed_defeat(ds: Seq<Defeat>, x: int, y: int) -> bool {
    exists|k: int| 0 <= k < ds.len() && ds[k].attacker as int == x && ds[k].target as int == y
}

/// No edge occurs twice.
pub open spec fn edges_distinct(af: AbstractFramework) -> bool {
    forall|i: int, j: int| 0 <= i < j < af.edges@.len() ==> #[trigger] af.edges@[i] != #[trigger] af.edges@[j]
}

/// The framework over `n` arguments whose edges are the attacker/target pairs
/// of `ds`, each once, in order of first occurrence.
pub fn to_abstract_framework(n: usize, ds: &Vec<Defeat>) -> (r: AbstractFramework)
    requires
        forall|k: int| 0 <= k < ds@.len() ==> (#[trigger] ds@[k]).attacker < n && ds@[k].target < n,
    ensures
        r.n == n,
        edges_in_range(r),
        edges_distinct(r),
        forall|x: int, y: int| #[trigger] defeats(r, x, y) <==> listed_defeat(ds@, x, y),
{
    let mut af = AbstractFramework { n, edges: Vec::new() };
    let mut k: usize = 0;
    while k < ds.len()
        invariant
            af.n == n,
            forall|k: int| 0 <= k < ds@.len() ==> (#[trigger] ds@[k]).attacker < n && ds@[k].target < n,
            k <= ds@.len(),
            edges_in_range(af),
            edges_distinct(af),
            forall|x: int, y: int| #[trigger] defeats(af, x, y) <==> listed_defeat(ds@.subrange(0, k as int), x, y),
        decreases ds@.len() - k,
    {
        let x = ds[k].attacker;
        let y = ds[k].target;
        let present = has_edge(&af, x, y);
        let ghost before = af;
        if !present {
            af.edges.push((x, y));
            assert forall|i: int, j: int| 0 <= i < j < af.edges@.len() implies #[trigger] af.edges@[i] != #[trigger] af.edges@[j] by {
                if j == af.edges@.len() - 1 {
                    assert(before.edges@[i] == af.edges@[i]);
                    if af.edges@[i] == af.edges@[j] {
                        assert(defeats(before, x as int, y as int));
                    }
                }
            }
        }
        let ghost pre = ds@.subrange(0, k as int);
        let ghost post = ds@.subrange(0, k as int + 1);
        assert forall|a: int, b: int| #[trigger] defeats(af, a, b) <==> listed_defeat(post, a, b) by {
            if listed_defeat(pre, a, b) {
                let w = choose|w: int| 0 <= w < pre.len() && pre[w].attacker as int == a && pre[w].target as int == b;
                assert(post[w] == pre[w]);
            }
            if listed_defeat(post, a, b) {
                let w = choose|w: int| 0 <= w < post.len() && post[w].attacker as int == a && post[w].target as int == b;
                if w < k {
                    assert(post[w] == pre[w]);
                    assert(listed_defeat(pre, a, b));
                }
            }
            if defeats(af, a, b) && !present {
                let w = choose|w: int| 0 <= w < af.edges@.len() && af.edges@[w].0 as int == a && af.edges@[w].1 as int == b;
                if w < before.edges@.len() {
                    assert(before.edges@[w] == af.edges@[w]);
                    assert(defeats(before, a, b));
                }
            }
            if defeats(before, a, b) && !present {
                let w = choose|w: int| 0 <= w < before.edges@.len() && before.edges@[w].0 as int == a && before.edges@[w].1 as int == b;
                assert(before.edges@[w] == af.edges@[w]);
            }
            if !present && a == x as int && b == y as int {
                assert(af.edges@[af.edges@.len() - 1] == (x, y));
            }
            assert(post[k as int] == ds@[k as int]);
        }
        k += 1;
    }
    assert(ds@.subrange(0, ds@.len() as int) =~= ds@);
    af
}

/// The semantics under which extensions are computed.
#[derive(Clone, Copy, Debug, PartialEq, Eq, Structural)]
pub enum Semantics {
    Grounded,
    Preferred,
}

/// The extensions of `af` under `semantics`: the single grounded extension,
/// or every preferred extension. Fails only on a malformed framework.
pub fn extensions(af: &AbstractFramework, semantics: Semantics) -> (r: Result<Vec<Vec<bool>>, UnsatisfiableFramework>)
    ensures
        r is Ok <==> edges_in_range(*af),
        semantics == Semantics::Grounded ==> (r matches Ok(sets) ==> sets@.len() == 1 && grounded(*af, sets@[0]@)),
        semantics == Semantics::Preferred ==> (r matches Ok(sets) ==> (forall|i: int|
            0 <= i < sets@.len() ==> #[trigger] preferred(*af, sets@[i]@)) && (forall|e: Seq<bool>|
            #[trigger] preferred(*af, e) ==> listed(sets@, e)) && forall|i: int, j: int|
            0 <= i < j < sets@.len() ==> #[trigger] sets@[i]@ != #[trigger] sets@[j]@),
{
    match semantics {
        Semantics::Grounded => {
            if check_framework(af).is_err() {
                return Err(UnsatisfiableFramework);
            }
            let g = grounded_extension(af);
            let mut v: Vec<Vec<bool>> = Vec::new();
            v.push(g);
            Ok(v)
        },
        Semantics::Preferred => preferred_extensions(af),
    }
}

} // verus!
