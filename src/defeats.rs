//! Attacks between arguments (rebutting, undermining, undercutting) and the
//! defeats that remain once argument strength is compared.
use vstd::prelude::*;

use crate::arguments::{Argument, Origin, all_valid, valid_at};
use crate::kb::{KnowledgeBase, contrary, is_contrary};

verus! {

/// How argument strength is composed from the ranks it rests on.
#[derive(Clone, Copy, Debug, PartialEq, Eq, Structural)]
pub enum LinkPolicy {
    /// The weakest rank among all defeasible rules and ordinary premises used.
    WeakestLink,
    /// The weakest rank among the last defeasible rules applied; where no
    /// defeasible rule is applied, the weakest rank among the ordinary
    /// premises used.
    LastLink,
}

/// Who prevails when attacker and attacked sub-argument are equally strong.
#[derive(Clone, Copy, Debug, PartialEq, Eq, Structural)]
pub enum TieBreak {
    /// The attack succeeds unless the target is strictly stronger.
    AttackerWins,
    /// The attack succeeds only if the attacker is strictly stronger.
    TargetWins,
}

#[derive(Clone, Copy, Debug, PartialEq, Eq, Structural)]
pub enum AttackKind {
    Rebut,
    Undermine,
    Undercut,
}

/// A successful attack of `attacker` on `target`, aimed at its sub-argument
/// `sub` (possibly `target` itself).
#[derive(Clone, Copy, Debug, PartialEq, Eq, Structural)]
pub struct Defeat {
    pub attacker: usize,
    pub target: usize,
    pub kind: AttackKind,
    pub sub: usize,
}

/// The strength of an argument that uses no defeasible rule and no ordinary
/// premise.
pub const STRICT_STRENGTH: u64 = 0xffff_ffff_ffff_ffff;

/// The least of `st` over the positions in `subs`.
pub open spec fn min_over(st: Seq<u64>, subs: Seq<usize>) -> u64
    decreases subs.len(),
{
    if subs.len() == 0 {
        STRICT_STRENGTH
    } else {
        let rest = min_over(st, subs.drop_last());
        let last = st[subs.last() as int];
        if last < rest { last } else { rest }
    }
}

/// The least of `st` over the positions in `subs` whose flag in `hd` is set.
pub open spec fn min_over_flagged(st: Seq<u64>, hd: Seq<bool>, subs: Seq<usize>) -> u64
    decreases subs.len(),
{
    if subs.len() == 0 {
        STRICT_STRENGTH
    } else {
        let rest = min_over_flagged(st, hd, subs.drop_last());
        let last = st[subs.last() as int];
        if hd[subs.last() as int] && last < rest { last } else { rest }
    }
}

/// Some position in `subs` has its flag in `hd` set.
pub open spec fn any_flagged(hd: Seq<bool>, subs: Seq<usize>) -> bool
    decreases subs.len(),
{
    subs.len() > 0 && (hd[subs.last() as int] || any_flagged(hd, subs.drop_last()))
}

/// Whether argument `i` applies a defeasible rule, given the flags `hd` of
/// earlier arguments.
pub open spec fn local_flag(args: Seq<Argument>, hd: Seq<bool>, i: int) -> bool {
    args[i].origin is Defeasible || any_flagged(hd, args[i].subs@)
}

/// The strength of argument `i` given the strengths `st` of earlier arguments
/// and the flags `hd` that say which of them apply a defeasible rule.
pub open spec fn local_strength(
    kb: KnowledgeBase,
    args: Seq<Argument>,
    policy: LinkPolicy,
    st: Seq<u64>,
    hd: Seq<bool>,
    i: int,
) -> u64 {
    let below = min_over(st, args[i].subs@);
    match args[i].origin {
        Origin::Axiom(_) => STRICT_STRENGTH,
        Origin::Premise(p) => kb.premises@[p as int].rank,
        Origin::Strict(_) => match policy {
            LinkPolicy::WeakestLink => below,
            LinkPolicy::LastLink => if any_flagged(hd, args[i].subs@) {
                min_over_flagged(st, hd, args[i].subs@)
            } else {
                below
            },
        },
        Origin::Defeasible(r) => {
            let rank = kb.defeasible_rules@[r as int].rank;
            match policy {
                LinkPolicy::LastLink => rank,
                LinkPolicy::WeakestLink => if rank < below { rank } else { below },
            }
        },
    }
}

/// `st` and `hd` hold the strength of every argument of the arena, and
/// whether it applies a defeasible rule.
pub open spec fn strengths_with(
    kb: KnowledgeBase,
    args: Seq<Argument>,
    policy: LinkPolicy,
    st: Seq<u64>,
    hd: Seq<bool>,
) -> bool {
    &&& st.len() == args.len()
    &&& hd.len() == args.len()
    &&& forall|i: int| 0 <= i < args.len() ==> #[trigger] hd[i] == local_flag(args, hd, i)
    &&& forall|i: int| 0 <= i < args.len() ==> #[trigger] st[i] == local_strength(kb, args, policy, st, hd, i)
}

/// `st` holds the strength of every argument of the arena.
pub open spec fn strengths(kb: KnowledgeBase, args: Seq<Argument>, policy: LinkPolicy, st: Seq<u64>) -> bool {
    exists|hd: Seq<bool>| strengths_with(kb, args, policy, st, hd)
}

/// `s` is `b` or one of its sub-arguments, at any depth.
pub open spec fn is_sub(args: Seq<Argument>, b: int, s: int) -> bool
    decreases b, if 0 <= b < args.len() { args[b].subs@.len() + 1 } else { 0 },
{
    s == b || (0 <= b < args.len() && sub_of_list(args, b, s, args[b].subs@))
}

/// `s` lies within one of the arguments (below `b`) listed in `list`.
pub open spec fn sub_of_list(args: Seq<Argument>, b: int, s: int, list: Seq<usize>) -> bool
    decreases b, list.len(),
{
    if list.len() == 0 {
        false
    } else {
        (0 <= list.last() < b && is_sub(args, list.last() as int, s)) || sub_of_list(
            args,
            b,
            s,
            list.drop_last(),
        )
    }
}

/// Argument `a` attacks argument `s` (itself, not a sub-argument) in the way `kind`.
pub open spec fn attacks(kb: KnowledgeBase, args: Seq<Argument>, a: int, s: int, kind: AttackKind) -> bool {
    match kind {
        AttackKind::Undermine => args[s].origin is Premise && is_contrary(
            kb,
            args[a].conclusion,
            args[s].conclusion,
        ),
        AttackKind::Rebut => args[s].origin is Defeasible && is_contrary(
            kb,
            args[a].conclusion,
            args[s].conclusion,
        ),
        AttackKind::Undercut => match args[s].origin {
            Origin::Defeasible(r) => is_contrary(kb, args[a].conclusion, kb.defeasible_rules@[r as int].name),
            _ => false,
        },
    }
}

/// Undercuts always succeed. A rebuttal or undermining succeeds when the
/// attacker is strictly stronger than the attacked sub-argument, and on equal
/// strength as `ties` decides.
pub open spec fn succeeds(st: Seq<u64>, ties: TieBreak, a: int, s: int, kind: AttackKind) -> bool {
    kind == AttackKind::Undercut || st[a] > st[s] || (st[a] == st[s] && ties == TieBreak::AttackerWins)
}

pub open spec fn is_defeat(kb: KnowledgeBase, args: Seq<Argument>, st: Seq<u64>, ties: TieBreak, d: Defeat) -> bool {
    &&& d.attacker < args.len()
    &&& d.target < args.len()
    &&& d.sub < args.len()
    &&& is_sub(args, d.target as int, d.sub as int)
    &&& attacks(kb, args, d.attacker as int, d.sub as int, d.kind)
    &&& succeeds(st, ties, d.attacker as int, d.sub as int, d.kind)
}

fn smaller(x: u64, y: u64) -> (r: u64)
    ensures
        r == if x < y { x } else { y },
{
    if x < y { x } else { y }
}

/// The strength of every argument of a correctly built arena.
pub fn compute_strengths(kb: &KnowledgeBase, args: &Vec<Argument>, policy: LinkPolicy) -> (r: Vec<u64>)
    requires
        all_valid(*kb, args@),
    ensures
        strengths(*kb, args@, policy, r@),
{
    let mut st: Vec<u64> = Vec::new();
    let mut hd: Vec<bool> = Vec::new();
    let mut i: usize = 0;
    while i < args.len()
        invariant
            all_valid(*kb, args@),
            i <= args@.len(),
            st@.len() == i,
            hd@.len() == i,
            forall|j: int| 0 <= j < i ==> #[trigger] hd@[j] == local_flag(args@, hd@, j),
            forall|j: int| 0 <= j < i ==> #[trigger] st@[j] == local_strength(*kb, args@, policy, st@, hd@, j),
        decreases args@.len() - i,
    {
        assert(valid_at(*kb, args@, i as int));
        let subs = &args[i].subs;
        let mut below: u64 = STRICT_STRENGTH;
        let mut below_def: u64 = STRICT_STRENGTH;
        let mut any = false;
        let mut k: usize = 0;
        while k < subs.len()
            invariant
                valid_at(*kb, args@, i as int),
                subs@ == args@[i as int].subs@,
                st@.len() == i,
                hd@.len() == i,
                k <= subs@.len(),
                below == min_over(st@, subs@.subrange(0, k as int)),
                below_def == min_over_flagged(st@, hd@, subs@.subrange(0, k as int)),
                any == any_flagged(hd@, subs@.subrange(0, k as int)),
            decreases subs@.len() - k,
        {
            assert(subs@.subrange(0, k as int + 1).drop_last() =~= subs@.subrange(0, k as int));
            let x = subs[k];
            below = smaller(st[x], below);
            if hd[x] {
                below_def = smaller(st[x], below_def);
                any = true;
            }
            k += 1;
        }
        assert(subs@.subrange(0, subs@.len() as int) =~= subs@);
        let (s, f) = match args[i].origin {
            Origin::Axiom(_) => (STRICT_STRENGTH, any),
            Origin::Premise(p) => (kb.premises[p].rank, any),
            Origin::Strict(_) => match policy {
                LinkPolicy::WeakestLink => (below, any),
                LinkPolicy::LastLink => (if any { below_def } else { below }, any),
            },
            Origin::Defeasible(r) => {
                let rank = kb.defeasible_rules[r].rank;
                match policy {
                    LinkPolicy::LastLink => (rank, true),
                    LinkPolicy::WeakestLink => (smaller(rank, below), true),
                }
            },
        };
        let ghost old_st = st@;
        let ghost old_hd = hd@;
        st.push(s);
        hd.push(f);
        assert forall|j: int| 0 <= j <= i implies #[trigger] hd@[j] == local_flag(args@, hd@, j) by {
            assert(valid_at(*kb, args@, j));
            lemma_min_over_frame(old_st, st@, old_hd, hd@, args@[j].subs@, j);
        }
        assert forall|j: int| 0 <= j <= i implies #[trigger] st@[j] == local_strength(*kb, args@, policy, st@, hd@, j) by {
            assert(valid_at(*kb, args@, j));
            lemma_min_over_frame(old_st, st@, old_hd, hd@, args@[j].subs@, j);
        }
        i += 1;
    }
    assert(strengths_with(*kb, args@, policy, st@, hd@));
    st
}

proof fn lemma_min_over_frame(
    st1: Seq<u64>,
    st2: Seq<u64>,
    hd1: Seq<bool>,
    hd2: Seq<bool>,
    subs: Seq<usize>,
    bound: int,
)
    requires
        forall|k: int| 0 <= k < subs.len() ==> #[trigger] subs[k] < bound,
        bound <= st1.len(),
        bound <= st2.len(),
        bound <= hd1.len(),
        bound <= hd2.len(),
        forall|x: int| 0 <= x < bound ==> st1[x] == st2[x] && hd1[x] == hd2[x],
    ensures
        min_over(st1, subs) == min_over(st2, subs),
        min_over_flagged(st1, hd1, subs) == min_over_flagged(st2, hd2, subs),
        any_flagged(hd1, subs) == any_flagged(hd2, subs),
    decreases subs.len(),
{
    if subs.len() > 0 {
        assert(subs.last() == subs[subs.len() - 1]);
        lemma_min_over_frame(st1, st2, hd1, hd2, subs.drop_last(), bound);
    }
}

/// Whether `s` is `b` or one of its sub-arguments.
fn sub_of(kb: &KnowledgeBase, args: &Vec<Argument>, b: usize, s: usize) -> (r: bool)
    requires
        all_valid(*kb, args@),
        b < args@.len(),
    ensures
        r == is_sub(args@, b as int, s as int),
    decreases b,
{
    if b == s {
        return true;
    }
    assert(valid_at(*kb, args@, b as int));
    let subs = &args[b].subs;
    let mut found = false;
    let mut k: usize = 0;
    while k < subs.len()
        invariant
            all_valid(*kb, args@),
            b < args@.len(),
            valid_at(*kb, args@, b as int),
            subs@ == args@[b as int].subs@,
            k <= subs@.len(),
            found == sub_of_list(args@, b as int, s as int, subs@.subrange(0, k as int)),
        decreases subs@.len() - k,
    {
        assert(subs@.subrange(0, k as int + 1).drop_last() =~= subs@.subrange(0, k as int));
        assert(subs@.subrange(0, k as int + 1).last() == subs@[k as int]);
        if !found {
            found = sub_of(kb, args, subs[k], s);
        }
        k += 1;
    }
    assert(subs@.subrange(0, subs@.len() as int) =~= subs@);
    found
}

proof fn lemma_push_contains(v: Seq<Defeat>, x: Defeat, y: Defeat)
    ensures
        v.push(x).contains(y) <==> (v.contains(y) || x == y),
{
    if v.contains(y) {
        let j = choose|j: int| 0 <= j < v.len() && v[j] == y;
        assert(v.push(x)[j] == y);
    }
    if x == y {
        assert(v.push(x)[v.len() as int] == y);
    }
    if v.push(x).contains(y) {
        let j = choose|j: int| 0 <= j < v.len() + 1 && v.push(x)[j] == y;
        if j < v.len() {
            assert(v[j] == y);
        }
    }
}

/// Whether `a` attacks `s` in the way `kind`.
fn attacks_exec(kb: &KnowledgeBase, args: &Vec<Argument>, a: usize, s: usize, kind: AttackKind) -> (r: bool)
    requires
        all_valid(*kb, args@),
        a < args@.len(),
        s < args@.len(),
    ensures
        r == attacks(*kb, args@, a as int, s as int, kind),
{
    assert(valid_at(*kb, args@, s as int));
    let x = args[a].conclusion;
    match kind {
        AttackKind::Undermine => matches!(args[s].origin, Origin::Premise(_)) && contrary(kb, x, args[s].conclusion),
        AttackKind::Rebut => matches!(args[s].origin, Origin::Defeasible(_)) && contrary(kb, x, args[s].conclusion),
        AttackKind::Undercut => match args[s].origin {
            Origin::Defeasible(r) => contrary(kb, x, kb.defeasible_rules[r].name),
            _ => false,
        },
    }
}

pub open spec fn defeat_before(d: Defeat, a: int, b: int, s: int) -> bool {
    d.attacker < a || (d.attacker == a && d.target < b) || (d.attacker == a && d.target == b
        && d.sub < s)
}

/// Every defeat among the arguments of a correctly built arena, given their
/// strengths.
pub fn compute_defeats(kb: &KnowledgeBase, args: &Vec<Argument>, st: &Vec<u64>, ties: TieBreak) -> (r: Vec<Defeat>)
    requires
        all_valid(*kb, args@),
        st@.len() == args@.len(),
    ensures
        forall|d: Defeat| #[trigger] r@.contains(d) <==> is_defeat(*kb, args@, st@, ties, d),
{
    let n = args.len();
    let mut out: Vec<Defeat> = Vec::new();
    let mut a: usize = 0;
    while a < n
        invariant
            n == args@.len() == st@.len(),
            all_valid(*kb, args@),
            a <= n,
            forall|d: Defeat| #[trigger] out@.contains(d) ==> is_defeat(*kb, args@, st@, ties, d),
            forall|d: Defeat| is_defeat(*kb, args@, st@, ties, d) && d.attacker < a ==> #[trigger] out@.contains(d),
        decreases n - a,
    {
        let mut b: usize = 0;
        while b < n
            invariant
                n == args@.len() == st@.len(),
                all_valid(*kb, args@),
                a < n,
                b <= n,
                forall|d: Defeat| #[trigger] out@.contains(d) ==> is_defeat(*kb, args@, st@, ties, d),
                forall|d: Defeat| is_defeat(*kb, args@, st@, ties, d) && defeat_before(d, a as int, b as int, 0) ==> #[trigger] out@.contains(d),
            decreases n - b,
        {
            let mut s: usize = 0;
            while s < n
                invariant
                    n == args@.len() == st@.len(),
                    all_valid(*kb, args@),
                    a < n,
                    b < n,
                    s <= n,
                    forall|d: Defeat| #[trigger] out@.contains(d) ==> is_defeat(*kb, args@, st@, ties, d),
                    forall|d: Defeat| is_defeat(*kb, args@, st@, ties, d) && defeat_before(d, a as int, b as int, s as int) ==> #[trigger] out@.contains(d),
                decreases n - s,
            {
                if sub_of(kb, args, b, s) {
                    let ghost o0 = out@;
                    let sa = st[a];
                    let ss = st[s];
                    let wins = sa > ss || (sa == ss && ties == TieBreak::AttackerWins);
                    let d1 = Defeat { attacker: a, target: b, kind: AttackKind::Undermine, sub: s };
                    let d2 = Defeat { attacker: a, target: b, kind: AttackKind::Rebut, sub: s };
                    let d3 = Defeat { attacker: a, target: b, kind: AttackKind::Undercut, sub: s };
                    let c1 = attacks_exec(kb, args, a, s, AttackKind::Undermine) && wins;
                    if c1 {
                        out.push(d1);
                    }
                    let ghost o1 = out@;
                    let c2 = attacks_exec(kb, args, a, s, AttackKind::Rebut) && wins;
                    if c2 {
                        out.push(d2);
                    }
                    let ghost o2 = out@;
                    let c3 = attacks_exec(kb, args, a, s, AttackKind::Undercut);
                    if c3 {
                        out.push(d3);
                    }
                    assert forall|d: Defeat| true implies (#[trigger] out@.contains(d) <==> (o0.contains(d)
                        || (c1 && d == d1) || (c2 && d == d2) || (c3 && d == d3))) by {
                        lemma_push_contains(o0, d1, d);
                        lemma_push_contains(o1, d2, d);
                        lemma_push_contains(o2, d3, d);
                    }
                    assert forall|d: Defeat| is_defeat(*kb, args@, st@, ties, d) && defeat_before(d, a as int, b as int, s as int + 1) implies #[trigger] out@.contains(d) by {
                        if !defeat_before(d, a as int, b as int, s as int) {
                            assert(d.attacker == a && d.target == b && d.sub == s);
                            assert(d.kind == AttackKind::Undermine || d.kind == AttackKind::Rebut || d.kind == AttackKind::Undercut);
                        }
                    }
                }
                s += 1;
            }
            b += 1;
        }
        a += 1;
    }
    out
}

/// An axiom is never the target of a defeat: every defeat aims at a
/// sub-argument that rests on an ordinary premise or a defeasible rule.
pub proof fn lemma_axioms_never_defeated(kb: KnowledgeBase, args: Seq<Argument>, st: Seq<u64>, ties: TieBreak, d: Defeat)
    requires
        is_defeat(kb, args, st, ties, d),
    ensures
        !(args[d.sub as int].origin is Axiom),
{
}

/// An undercut of a sub-argument is a defeat whatever the strengths of the
/// two arguments: a weaker attacker still defeats.
pub proof fn lemma_undercut_ignores_preference(
    kb: KnowledgeBase,
    args: Seq<Argument>,
    st: Seq<u64>,
    ties: TieBreak,
    a: usize,
    b: usize,
    s: usize,
)
    requires
        a < args.len(),
        b < args.len(),
        s < args.len(),
        is_sub(args, b as int, s as int),
        attacks(kb, args, a as int, s as int, AttackKind::Undercut),
    ensures
        is_defeat(kb, args, st, ties, Defeat { attacker: a, target: b, kind: AttackKind::Undercut, sub: s }),
{
}

/// Argument `i` rests, somewhere within it, on the ordinary premise `p`.
pub open spec fn uses_premise(args: Seq<Argument>, i: int, p: usize) -> bool {
    exists|s: int| 0 <= s < args.len() && #[trigger] is_sub(args, i, s) && args[s].origin == Origin::Premise(p)
}

/// Argument `i` applies, somewhere within it, the defeasible rule `r`.
pub open spec fn uses_rule(args: Seq<Argument>, i: int, r: usize) -> bool {
    exists|s: int| 0 <= s < args.len() && #[trigger] is_sub(args, i, s) && args[s].origin == Origin::Defeasible(r)
}

fn push_new(v: &mut Vec<usize>, x: usize)
    ensures
        forall|y: usize| #[trigger] final(v)@.contains(y) <==> old(v)@.contains(y) || y == x,
{
    let mut k: usize = 0;
    while k < v.len()
        invariant
            k <= v@.len(),
            forall|m: int| 0 <= m < k ==> v@[m] != x,
        decreases v@.len() - k,
    {
        if v[k] == x {
            assert(v@[k as int] == x);
            return;
        }
        k += 1;
    }
    let ghost before = v@;
    v.push(x);
    assert forall|y: usize| #[trigger] v@.contains(y) <==> before.contains(y) || y == x by {
        if before.contains(y) {
            let m = choose|m: int| 0 <= m < before.len() && before[m] == y;
            assert(v@[m] == y);
        }
        if v@.contains(y) {
            let m = choose|m: int| 0 <= m < v@.len() && v@[m] == y;
            if m < before.len() {
                assert(before[m] == y);
            }
        }
        assert(v@[before.len() as int] == x);
    }
}

/// The ordinary premises and the defeasible rules that argument `i` uses,
/// each listed by its position in the knowledge base.
pub fn used_by(kb: &KnowledgeBase, args: &Vec<Argument>, i: usize) -> (r: (Vec<usize>, Vec<usize>))
    requires
        all_valid(*kb, args@),
        i < args@.len(),
    ensures
        forall|p: usize| #[trigger] r.0@.contains(p) <==> uses_premise(args@, i as int, p),
        forall|x: usize| #[trigger] r.1@.contains(x) <==> uses_rule(args@, i as int, x),
{
    let mut prem: Vec<usize> = Vec::new();
    let mut rules: Vec<usize> = Vec::new();
    let mut s: usize = 0;
    while s < args.len()
        invariant
            all_valid(*kb, args@),
            i < args@.len(),
            s <= args@.len(),
            forall|p: usize| #[trigger] prem@.contains(p) <==> exists|t: int|
                0 <= t < s && #[trigger] is_sub(args@, i as int, t) && args@[t].origin == Origin::Premise(p),
            forall|x: usize| #[trigger] rules@.contains(x) <==> exists|t: int|
                0 <= t < s && #[trigger] is_sub(args@, i as int, t) && args@[t].origin == Origin::Defeasible(x),
        decreases args@.len() - s,
    {
        if sub_of(kb, args, i, s) {
            match args[s].origin {
                Origin::Premise(p) => push_new(&mut prem, p),
                Origin::Defeasible(x) => push_new(&mut rules, x),
                _ => {},
            }
        }
        s += 1;
    }
    (prem, rules)
}

} // verus!
