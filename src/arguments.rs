//! Argument construction: the closure of all arguments derivable from a
//! knowledge base, held in an arena where an argument names its immediate
//! sub-arguments by their (smaller) positions.
use vstd::prelude::*;

use vstd::multiset::Multiset;

use crate::kb::{Formula, KnowledgeBase};

verus! {

/// Where an argument comes from: an axiom, an ordinary premise, or the
/// application of a strict or defeasible rule (each by its position in the
/// knowledge base).
#[derive(Clone, Copy, Debug, PartialEq, Eq, Structural)]
pub enum Origin {
    Axiom(usize),
    Premise(usize),
    Strict(usize),
    Defeasible(usize),
}

/// One argument of an arena. `subs[j]` is the position of the sub-argument
/// that supports the `j`-th antecedent of the top rule.
#[derive(Clone, Debug)]
pub struct Argument {
    pub conclusion: Formula,
    pub origin: Origin,
    pub subs: Vec<usize>,
}

/// The closure grew past the given number of arguments.
#[derive(Clone, Copy, Debug, PartialEq, Eq, Structural)]
pub struct ConstructionOverflow;

pub open spec fn origin_ok(kb: KnowledgeBase, o: Origin) -> bool {
    match o {
        Origin::Axiom(k) => k < kb.axioms@.len(),
        Origin::Premise(k) => k < kb.premises@.len(),
        Origin::Strict(k) => k < kb.strict_rules@.len(),
        Origin::Defeasible(k) => k < kb.defeasible_rules@.len(),
    }
}

/// The formulas that the sub-arguments of an argument of origin `o` conclude.
pub open spec fn antecedents(kb: KnowledgeBase, o: Origin) -> Seq<Formula> {
    match o {
        Origin::Strict(k) => kb.strict_rules@[k as int].antecedents@,
        Origin::Defeasible(k) => kb.defeasible_rules@[k as int].antecedents@,
        _ => Seq::empty(),
    }
}

/// The conclusion of an argument of origin `o`.
pub open spec fn conclusion_of(kb: KnowledgeBase, o: Origin) -> Formula {
    match o {
        Origin::Axiom(k) => kb.axioms@[k as int],
        Origin::Premise(k) => kb.premises@[k as int].formula,
        Origin::Strict(k) => kb.strict_rules@[k as int].consequent,
        Origin::Defeasible(k) => kb.defeasible_rules@[k as int].consequent,
    }
}

/// `t` picks, for each antecedent of `o`, an argument among the first `n`
/// that concludes it.
pub open spec fn fits(kb: KnowledgeBase, args: Seq<Argument>, o: Origin, t: Seq<usize>, n: int) -> bool {
    &&& t.len() == antecedents(kb, o).len()
    &&& forall|j: int|
        0 <= j < t.len() ==> #[trigger] t[j] < n && n <= args.len()
            && args[t[j] as int].conclusion == antecedents(kb, o)[j]
}

/// The argument at position `i` is built correctly from earlier ones.
pub open spec fn valid_at(kb: KnowledgeBase, args: Seq<Argument>, i: int) -> bool {
    let a = args[i];
    &&& origin_ok(kb, a.origin)
    &&& a.conclusion == conclusion_of(kb, a.origin)
    &&& fits(kb, args, a.origin, a.subs@, i)
}

pub open spec fn all_valid(kb: KnowledgeBase, args: Seq<Argument>) -> bool {
    forall|i: int| 0 <= i < args.len() ==> #[trigger] valid_at(kb, args, i)
}

/// No two positions hold the same argument: the same origin (top rule,
/// axiom or premise) applied to the same multiset of sub-arguments.
pub open spec fn distinct(args: Seq<Argument>) -> bool {
    forall|i: int, j: int|
        0 <= i < j < args.len() ==> !(#[trigger] args[i].origin == #[trigger] args[j].origin
            && args[i].subs@.to_multiset() == args[j].subs@.to_multiset())
}

/// The arena holds origin `o` applied to the sub-arguments `t`, in any order.
pub open spec fn has_arg(args: Seq<Argument>, o: Origin, t: Seq<usize>) -> bool {
    exists|i: int| 0 <= i < args.len() && args[i].origin == o && args[i].subs@.to_multiset() == t.to_multiset()
}

/// Every way of applying an axiom, premise or rule to arguments of the arena
/// is already in the arena.
pub open spec fn closed(kb: KnowledgeBase, args: Seq<Argument>) -> bool {
    forall|o: Origin, t: Seq<usize>|
        origin_ok(kb, o) && fits(kb, args, o, t, args.len() as int) ==> #[trigger] has_arg(
            args,
            o,
            t,
        )
}

/// A complete, duplicate-free arena of correctly built arguments.
pub open spec fn is_closure(kb: KnowledgeBase, args: Seq<Argument>) -> bool {
    all_valid(kb, args) && distinct(args) && closed(kb, args)
}

/// More than `limit` distinct, correctly built arguments can be derived.
pub open spec fn exceeds(kb: KnowledgeBase, limit: usize) -> bool {
    exists|s: Seq<Argument>| s.len() > limit && all_valid(kb, s) && distinct(s)
}

/// Appending an argument that is built correctly and is not yet present
/// keeps the arena valid and duplicate-free.
proof fn lemma_push_fresh(kb: KnowledgeBase, args: Seq<Argument>, a: Argument)
    requires
        all_valid(kb, args),
        distinct(args),
        valid_at(kb, args.push(a), args.len() as int),
        !has_arg(args, a.origin, a.subs@),
    ensures
        all_valid(kb, args.push(a)),
        distinct(args.push(a)),
{
    let s = args.push(a);
    assert forall|i: int| 0 <= i < s.len() implies #[trigger] valid_at(kb, s, i) by {
        if i < args.len() {
            assert(valid_at(kb, args, i));
            assert(s[i] == args[i]);
            assert forall|j: int| 0 <= j < s[i].subs@.len() implies s[s[i].subs@[j] as int] == args[args[i].subs@[j] as int] by {}
        }
    }
    assert forall|i: int, j: int| 0 <= i < j < s.len() implies !(#[trigger] s[i].origin == #[trigger] s[j].origin
        && s[i].subs@.to_multiset() == s[j].subs@.to_multiset()) by {
        if j == args.len() {
            if s[i].origin == s[j].origin && s[i].subs@.to_multiset() == s[j].subs@.to_multiset() {
                assert(has_arg(args, a.origin, a.subs@));
            }
        } else {
            assert(s[i] == args[i] && s[j] == args[j]);
        }
    }
}

pub open spec fn extends(old: Seq<Argument>, new: Seq<Argument>) -> bool {
    old.len() <= new.len() && forall|i: int| 0 <= i < old.len() ==> new[i] == #[trigger] old[i]
}

fn copy_indices(v: &Vec<usize>) -> (r: Vec<usize>)
    ensures
        r@ == v@,
{
    let mut r: Vec<usize> = Vec::new();
    let mut i: usize = 0;
    while i < v.len()
        invariant
            i <= v@.len(),
            r@ == v@.subrange(0, i as int),
        decreases v@.len() - i,
    {
        r.push(v[i]);
        i += 1;
    }
    assert(r@ =~= v@);
    r
}

/// Whether `a` and `b` hold the same indices with the same multiplicities.
fn same_multiset(a: &Vec<usize>, b: &Vec<usize>) -> (r: bool)
    ensures
        r == (a@.to_multiset() == b@.to_multiset()),
{
    broadcast use vstd::seq_lib::group_to_multiset_ensures, vstd::multiset::group_multiset_axioms;
    let mut rest = copy_indices(b);
    let mut k: usize = 0;
    while k < a.len()
        invariant
            k <= a@.len(),
            a@.subrange(0, k as int).to_multiset().add(rest@.to_multiset()) == b@.to_multiset(),
        decreases a@.len() - k,
    {
        let x = a[k];
        let mut j: usize = 0;
        let mut found = false;
        while j < rest.len() && !found
            invariant
                j <= rest@.len(),
                found ==> 0 < j && rest@[j - 1] == x,
                !found ==> forall|m: int| 0 <= m < j ==> rest@[m] != x,
            decreases rest@.len() - j,
        {
            if rest[j] == x {
                found = true;
            }
            j += 1;
        }
        assert(a@.subrange(0, k as int + 1) =~= a@.subrange(0, k as int).push(x));
        proof {
            vstd::seq_lib::to_multiset_build(a@.subrange(0, k as int), x);
        }
        if !found {
            proof {
                assert(!rest@.contains(x));
                vstd::seq_lib::to_multiset_contains(rest@, x);
                assert(rest@.to_multiset().count(x) == 0);
                assert(a@ =~= a@.subrange(0, k as int + 1) + a@.subrange(k as int + 1, a@.len() as int));
                vstd::seq_lib::lemma_multiset_commutative(a@.subrange(0, k as int + 1), a@.subrange(k as int + 1, a@.len() as int));
                assert(b@.to_multiset().count(x) == a@.subrange(0, k as int).to_multiset().count(x));
                assert(a@.subrange(0, k as int + 1).to_multiset().count(x) == a@.subrange(0, k as int).to_multiset().count(x) + 1);
                assert(a@.to_multiset().count(x) > b@.to_multiset().count(x));
            }
            return false;
        }
        let ghost before = rest@;
        rest.remove(j - 1);
        proof {
            assert(before.to_multiset() == before.remove(j - 1).to_multiset().insert(x)) by {
                vstd::seq_lib::to_multiset_remove(before, j - 1);
                assert(before.remove(j - 1).to_multiset() == before.to_multiset().remove(x));
                assert(before.to_multiset().count(x) > 0) by {
                    assert(before[j - 1] == x);
                    assert(before.contains(x));
                    vstd::seq_lib::to_multiset_contains(before, x);
                }
            }
            assert(a@.subrange(0, k as int + 1).to_multiset().add(rest@.to_multiset()) =~= b@.to_multiset());
        }
        k += 1;
    }
    assert(a@.subrange(0, a@.len() as int) =~= a@);
    if rest.len() == 0 {
        assert(rest@.to_multiset() =~= Multiset::<usize>::empty());
        assert(a@.to_multiset().add(rest@.to_multiset()) =~= a@.to_multiset());
        true
    } else {
        assert(a@.to_multiset().len() < b@.to_multiset().len());
        false
    }
}

/// Position of the argument with origin `o` and sub-arguments `t`, if any.
fn find_arg(args: &Vec<Argument>, o: Origin, t: &Vec<usize>) -> (r: Option<usize>)
    ensures
        r is None <==> !has_arg(args@, o, t@),
        r matches Some(i) ==> i < args@.len() && args@[i as int].origin == o
            && args@[i as int].subs@.to_multiset() == t@.to_multiset(),
{
    let mut i: usize = 0;
    while i < args.len()
        invariant
            i <= args@.len(),
            forall|k: int|
                0 <= k < i ==> !(args@[k].origin == o && #[trigger] args@[k].subs@.to_multiset() == t@.to_multiset()),
        decreases args@.len() - i,
    {
        if args[i].origin == o && same_multiset(&args[i].subs, t) {
            return Some(i);
        }
        i += 1;
    }
    None
}

proof fn lemma_has_arg_extends(old: Seq<Argument>, new: Seq<Argument>, o: Origin, t: Seq<usize>)
    requires
        extends(old, new),
        has_arg(old, o, t),
    ensures
        has_arg(new, o, t),
{
    let i = choose|i: int| 0 <= i < old.len() && old[i].origin == o && old[i].subs@.to_multiset() == t.to_multiset();
    assert(new[i] == old[i]);
}

/// Adds every application of origin `o` whose first `prefix.len()` choices are
/// `prefix` and whose remaining choices are among the first `n` arguments.
fn extend_with(
    kb: &KnowledgeBase,
    o: Origin,
    prefix: &mut Vec<usize>,
    pos: usize,
    n: usize,
    args: &mut Vec<Argument>,
    limit: usize,
) -> (r: Result<(), ConstructionOverflow>)
    requires
        origin_ok(*kb, o),
        pos == old(prefix)@.len() <= antecedents(*kb, o).len(),
        n <= old(args)@.len() <= limit,
        forall|j: int|
            0 <= j < old(prefix)@.len() ==> #[trigger] old(prefix)@[j] < n
                && old(args)@[old(prefix)@[j] as int].conclusion == antecedents(*kb, o)[j],
        all_valid(*kb, old(args)@),
        distinct(old(args)@),
    ensures
        final(prefix)@ == old(prefix)@,
        extends(old(args)@, final(args)@),
        final(args)@.len() <= limit,
        all_valid(*kb, final(args)@),
        distinct(final(args)@),
        r is Err ==> exceeds(*kb, limit),
        r is Ok ==> forall|t: Seq<usize>|
            fits(*kb, final(args)@, o, t, n as int) && t.subrange(0, old(prefix)@.len() as int)
                == old(prefix)@ ==> #[trigger] has_arg(final(args)@, o, t),
    decreases antecedents(*kb, o).len() - pos,
{
    let ghost ants = antecedents(*kb, o);
    let ghost args0 = args@;
    let ghost prefix0 = prefix@;
    let m = match o {
        Origin::Strict(k) => kb.strict_rules[k].antecedents.len(),
        Origin::Defeasible(k) => kb.defeasible_rules[k].antecedents.len(),
        _ => 0,
    };
    if pos == m {
        assert forall|t: Seq<usize>|
            fits(*kb, args0, o, t, n as int) && t.subrange(0, pos as int) == prefix0 implies t == prefix0 by {
            assert(t =~= t.subrange(0, pos as int));
        }
        match find_arg(args, o, prefix) {
            Some(_) => {
                assert forall|t: Seq<usize>|
                    fits(*kb, args@, o, t, n as int) && t.subrange(0, pos as int) == prefix0 implies #[trigger] has_arg(args@, o, t) by {
                    assert(t =~= t.subrange(0, pos as int));
                }
                return Ok(());
            },
            None => {
                let conclusion = match o {
                    Origin::Axiom(k) => kb.axioms[k],
                    Origin::Premise(k) => kb.premises[k].formula,
                    Origin::Strict(k) => kb.strict_rules[k].consequent,
                    Origin::Defeasible(k) => kb.defeasible_rules[k].consequent,
                };
                let subs = copy_indices(prefix);
                let fresh = Argument { conclusion, origin: o, subs };
                proof {
                    let s = args0.push(fresh);
                    assert(valid_at(*kb, s, args0.len() as int)) by {
                        assert forall|j: int| 0 <= j < fresh.subs@.len() implies s[fresh.subs@[j] as int] == args0[fresh.subs@[j] as int] by {}
                    }
                    lemma_push_fresh(*kb, args0, fresh);
                }
                if args.len() >= limit {
                    assert(args0.push(fresh).len() > limit);
                    return Err(ConstructionOverflow);
                }
                args.push(fresh);
                let ghost last = args@.len() - 1;
                assert(args@[last].subs@ == prefix0);
                assert forall|i: int| 0 <= i < args@.len() implies #[trigger] valid_at(*kb, args@, i) by {
                    if i < last {
                        assert(valid_at(*kb, args0, i));
                        assert(args@[i] == args0[i]);
                    }
                }
                assert forall|t: Seq<usize>|
                    fits(*kb, args@, o, t, n as int) && t.subrange(0, pos as int) == prefix0 implies #[trigger] has_arg(args@, o, t) by {
                    assert(t =~= t.subrange(0, pos as int));
                    assert(args@[last].origin == o);
                }
                return Ok(());
            },
        }
    }
    let ghost a = ants[pos as int];
    let want = match o {
        Origin::Strict(k) => kb.strict_rules[k].antecedents[pos],
        Origin::Defeasible(k) => kb.defeasible_rules[k].antecedents[pos],
        _ => {
            return Ok(());
        },
    };
    assert(pos < ants.len());
    let mut c: usize = 0;
    let mut overflow = false;
    while c < n && !overflow
        invariant
            m == ants.len(),
            overflow ==> exceeds(*kb, limit),
            origin_ok(*kb, o),
            ants == antecedents(*kb, o),
            pos < ants.len(),
            want == ants[pos as int],
            prefix@ == prefix0,
            pos == prefix0.len(),
            c <= n,
            n <= args0.len(),
            forall|j: int| 0 <= j < prefix0.len() ==> #[trigger] prefix0[j] < n
                && args0[prefix0[j] as int].conclusion == ants[j],
            extends(args0, args@),
            args@.len() <= limit,
            all_valid(*kb, args@),
            distinct(args@),
            !overflow ==> forall|t: Seq<usize>|
                fits(*kb, args@, o, t, n as int) && t.subrange(0, pos as int) == prefix0 && t[pos as int]
                    < c ==> #[trigger] has_arg(args@, o, t),
        decreases n - c,
    {
        if args[c].conclusion == want {
            let ghost before = args@;
            prefix.push(c);
            assert(prefix@.subrange(0, pos as int) =~= prefix0);
            let res = extend_with(kb, o, prefix, pos + 1, n, args, limit);
            let ghost mid = prefix@;
            assert(mid == prefix0.push(c));
            assert(extends(args0, args@)) by {
                assert forall|i: int| 0 <= i < args0.len() implies args@[i] == #[trigger] args0[i] by {
                    assert(before[i] == args0[i]);
                }
            }
            prefix.pop();
            assert(prefix@ =~= mid.drop_last());
            assert(prefix@ =~= prefix0);
            if res.is_err() {
                assert(exceeds(*kb, limit));
                overflow = true;
            } else {
            assert forall|t: Seq<usize>|
                fits(*kb, args@, o, t, n as int) && t.subrange(0, pos as int) == prefix0 && t[pos as int]
                    < c + 1 implies #[trigger] has_arg(args@, o, t) by {
                if t[pos as int] < c {
                    assert(fits(*kb, before, o, t, n as int)) by {
                        assert forall|j: int| 0 <= j < t.len() implies #[trigger] t[j] < n && n <= before.len()
                            && before[t[j] as int].conclusion == antecedents(*kb, o)[j] by {
                            assert(before[t[j] as int] == args@[t[j] as int]);
                        }
                    }
                    lemma_has_arg_extends(before, args@, o, t);
                } else {
                    assert(t.subrange(0, pos as int + 1) =~= prefix0.push(c));
                }
            }
            }
        }
        else {
            assert forall|t: Seq<usize>|
                fits(*kb, args@, o, t, n as int) && t.subrange(0, pos as int) == prefix0 && t[pos as int]
                    < c + 1 implies #[trigger] has_arg(args@, o, t) by {
                if t[pos as int] == c {
                    assert(args@[c as int].conclusion == ants[pos as int]);
                }
            }
        }
        c += 1;
    }
    if overflow {
        return Err(ConstructionOverflow);
    }
    Ok(())
}

proof fn lemma_fits_extends(
    kb: KnowledgeBase,
    old: Seq<Argument>,
    new: Seq<Argument>,
    o: Origin,
    t: Seq<usize>,
    n: int,
)
    requires
        extends(old, new),
        n <= old.len(),
    ensures
        fits(kb, old, o, t, n) == fits(kb, new, o, t, n),
{
    if fits(kb, old, o, t, n) {
        assert forall|j: int| 0 <= j < t.len() implies #[trigger] t[j] < n && n <= new.len()
            && new[t[j] as int].conclusion == antecedents(kb, o)[j] by {
            assert(new[t[j] as int] == old[t[j] as int]);
        }
    }
    if fits(kb, new, o, t, n) {
        assert forall|j: int| 0 <= j < t.len() implies #[trigger] t[j] < n && n <= old.len()
            && old[t[j] as int].conclusion == antecedents(kb, o)[j] by {
            assert(new[t[j] as int] == old[t[j] as int]);
        }
    }
}

/// The arena opens with one argument per axiom, then one per ordinary
/// premise, each in knowledge-base order; rule applications follow.
pub open spec fn base_first(kb: KnowledgeBase, args: Seq<Argument>) -> bool {
    &&& kb.axioms@.len() + kb.premises@.len() <= args.len()
    &&& forall|k: int| 0 <= k < kb.axioms@.len() ==> (#[trigger] args[k]).origin == Origin::Axiom(k as usize)
    &&& forall|k: int|
        0 <= k < kb.premises@.len() ==> (#[trigger] args[kb.axioms@.len() + k]).origin == Origin::Premise(
            k as usize,
        )
}

/// An arena of base arguments, each with no sub-arguments and the conclusion
/// of its own axiom or premise, is valid and duplicate-free.
pub open spec fn base_arena(kb: KnowledgeBase, args: Seq<Argument>) -> bool {
    forall|i: int| 0 <= i < args.len() ==> {
        &&& (#[trigger] args[i]).subs@.len() == 0
        &&& origin_ok(kb, args[i].origin)
        &&& args[i].conclusion == conclusion_of(kb, args[i].origin)
        &&& (args[i].origin is Axiom || args[i].origin is Premise)
        &&& forall|j: int| 0 <= j < i ==> args[j].origin != args[i].origin
    }
}

proof fn lemma_base_valid(kb: KnowledgeBase, args: Seq<Argument>)
    requires
        base_arena(kb, args),
    ensures
        all_valid(kb, args),
        distinct(args),
{
    assert forall|i: int| 0 <= i < args.len() implies #[trigger] valid_at(kb, args, i) by {
        assert(args[i].subs@ =~= Seq::<usize>::empty());
    }
}

/// Every application of a rule of origin `o` to arguments among the first `n`
/// is in the arena.
pub open spec fn rule_done(kb: KnowledgeBase, args: Seq<Argument>, o: Origin, n: int) -> bool {
    forall|t: Seq<usize>| fits(kb, args, o, t, n) ==> #[trigger] has_arg(args, o, t)
}

proof fn lemma_rule_done_extends(
    kb: KnowledgeBase,
    old: Seq<Argument>,
    new: Seq<Argument>,
    o: Origin,
    n: int,
)
    requires
        extends(old, new),
        n <= old.len(),
        rule_done(kb, old, o, n),
    ensures
        rule_done(kb, new, o, n),
{
    assert forall|t: Seq<usize>| fits(kb, new, o, t, n) implies #[trigger] has_arg(new, o, t) by {
        lemma_fits_extends(kb, old, new, o, t, n);
        lemma_has_arg_extends(old, new, o, t);
    }
}

/// Applies origin `o` in every possible way to the first `n` arguments.
fn apply_all(kb: &KnowledgeBase, o: Origin, n: usize, args: &mut Vec<Argument>, limit: usize) -> (r:
    Result<(), ConstructionOverflow>)
    requires
        origin_ok(*kb, o),
        n <= old(args)@.len() <= limit,
        all_valid(*kb, old(args)@),
        distinct(old(args)@),
    ensures
        extends(old(args)@, final(args)@),
        final(args)@.len() <= limit,
        all_valid(*kb, final(args)@),
        distinct(final(args)@),
        r is Err ==> exceeds(*kb, limit),
        r is Ok ==> rule_done(*kb, final(args)@, o, n as int),
{
    let mut prefix: Vec<usize> = Vec::new();
    let r = extend_with(kb, o, &mut prefix, 0, n, args, limit);
    if r.is_ok() {
        assert forall|t: Seq<usize>| fits(*kb, args@, o, t, n as int) implies #[trigger] has_arg(
            args@,
            o,
            t,
        ) by {
            assert(t.subrange(0, 0) =~= prefix@);
        }
    }
    r
}

/// Builds the closure of all arguments derivable from `kb`: first one argument
/// for each axiom and each ordinary premise, then rule applications until no
/// new argument arises. Fails once more than `limit` arguments would be needed.
pub fn build_arguments(kb: &KnowledgeBase, limit: usize) -> (r: Result<Vec<Argument>, ConstructionOverflow>)
    ensures
        r matches Ok(args) ==> is_closure(*kb, args@) && args@.len() <= limit,
        r matches Ok(args) ==> base_first(*kb, args@),
        r is Err ==> exceeds(*kb, limit),
{
    let mut args: Vec<Argument> = Vec::new();
    let mut k: usize = 0;
    while k < kb.axioms.len()
        invariant
            k <= kb.axioms@.len(),
            args@.len() == k <= limit,
            forall|i: int| 0 <= i < k ==> (#[trigger] args@[i]).origin == Origin::Axiom(i as usize)
                && args@[i].subs@.len() == 0 && args@[i].conclusion == kb.axioms@[i],
            base_arena(*kb, args@),
        decreases kb.axioms@.len() - k,
    {
        let fresh = Argument { conclusion: kb.axioms[k], origin: Origin::Axiom(k), subs: Vec::new() };
        proof {
            lemma_base_valid(*kb, args@);
            assert(fresh.subs@ =~= Seq::<usize>::empty());
            assert(valid_at(*kb, args@.push(fresh), args@.len() as int));
            if has_arg(args@, fresh.origin, fresh.subs@) {
                let i = choose|i: int| 0 <= i < args@.len() && args@[i].origin == fresh.origin && args@[i].subs@.to_multiset() == fresh.subs@.to_multiset();
                assert(args@[i].origin == fresh.origin);
            }
            lemma_push_fresh(*kb, args@, fresh);
        }
        if args.len() >= limit {
            assert(args@.push(fresh).len() > limit);
            return Err(ConstructionOverflow);
        }
        args.push(fresh);
        assert(base_arena(*kb, args@)) by {
            assert(fresh.subs@ =~= Seq::<usize>::empty());
        }
        k += 1;
    }
    let na = kb.axioms.len();
    let mut k: usize = 0;
    while k < kb.premises.len()
        invariant
            na == kb.axioms@.len(),
            k <= kb.premises@.len(),
            args@.len() == na + k <= limit,
            forall|i: int| 0 <= i < na ==> (#[trigger] args@[i]).origin == Origin::Axiom(i as usize)
                && args@[i].subs@.len() == 0 && args@[i].conclusion == kb.axioms@[i],
            forall|i: int| na <= i < na + k ==> (#[trigger] args@[i]).origin == Origin::Premise((i - na) as usize)
                && args@[i].subs@.len() == 0 && args@[i].conclusion == kb.premises@[i - na].formula,
            base_arena(*kb, args@),
        decreases kb.premises@.len() - k,
    {
        let fresh = Argument { conclusion: kb.premises[k].formula, origin: Origin::Premise(k), subs: Vec::new() };
        proof {
            lemma_base_valid(*kb, args@);
            assert(fresh.subs@ =~= Seq::<usize>::empty());
            assert(valid_at(*kb, args@.push(fresh), args@.len() as int));
            if has_arg(args@, fresh.origin, fresh.subs@) {
                let i = choose|i: int| 0 <= i < args@.len() && args@[i].origin == fresh.origin && args@[i].subs@.to_multiset() == fresh.subs@.to_multiset();
                assert(args@[i].origin == fresh.origin);
            }
            lemma_push_fresh(*kb, args@, fresh);
        }
        if args.len() >= limit {
            assert(args@.push(fresh).len() > limit);
            return Err(ConstructionOverflow);
        }
        args.push(fresh);
        assert(base_arena(*kb, args@)) by {
            assert(fresh.subs@ =~= Seq::<usize>::empty());
        }
        k += 1;
    }
    let nb = args.len();
    assert(all_valid(*kb, args@)) by {
        assert forall|i: int| 0 <= i < args@.len() implies #[trigger] valid_at(*kb, args@, i) by {
            assert(args@[i].subs@ =~= Seq::<usize>::empty());
        }
    }
    assert forall|o: Origin| (o is Axiom || o is Premise) && origin_ok(*kb, o) implies #[trigger] rule_done(*kb, args@, o, nb as int) by {
        assert forall|t: Seq<usize>| fits(*kb, args@, o, t, nb as int) implies #[trigger] has_arg(args@, o, t) by {
            let i: int = match o {
                Origin::Axiom(k) => k as int,
                Origin::Premise(k) => na + k,
                _ => 0,
            };
            assert(args@[i].subs@ =~= t);
        }
    }
    assert(base_first(*kb, args@)) by {
        assert forall|k: int| 0 <= k < kb.premises@.len() implies (#[trigger] args@[kb.axioms@.len() + k]).origin == Origin::Premise(k as usize) by {
            assert(args@[na + k].origin == Origin::Premise((na + k - na) as usize));
        }
    }
    let ghost base = args@;
    loop
        invariant
            base_first(*kb, base),
            nb <= args@.len() <= limit,
            extends(base, args@),
            all_valid(*kb, args@),
            distinct(args@),
            forall|o: Origin| (o is Axiom || o is Premise) && origin_ok(*kb, o) ==> #[trigger] rule_done(*kb, base, o, nb as int),
        decreases limit - args@.len(),
    {
        let n = args.len();
        let ghost start = args@;
        let mut k: usize = 0;
        while k < kb.strict_rules.len()
            invariant
                n == start.len(),
                extends(start, args@),
                n <= args@.len() <= limit,
                all_valid(*kb, args@),
                distinct(args@),
                k <= kb.strict_rules@.len(),
                forall|j: int| 0 <= j < k ==> #[trigger] rule_done(*kb, args@, Origin::Strict(j as usize), n as int),
            decreases kb.strict_rules@.len() - k,
        {
            let ghost before = args@;
            if apply_all(kb, Origin::Strict(k), n, &mut args, limit).is_err() {
                assert(exceeds(*kb, limit));
                return Err(ConstructionOverflow);
            }
            assert forall|j: int| 0 <= j < k + 1 implies #[trigger] rule_done(*kb, args@, Origin::Strict(j as usize), n as int) by {
                if j < k {
                    lemma_rule_done_extends(*kb, before, args@, Origin::Strict(j as usize), n as int);
                }
            }
            assert(extends(start, args@)) by {
                assert forall|i: int| 0 <= i < start.len() implies args@[i] == #[trigger] start[i] by {
                    assert(before[i] == start[i]);
                }
            }
            k += 1;
        }
        let ghost mid = args@;
        let mut k: usize = 0;
        while k < kb.defeasible_rules.len()
            invariant
                n == start.len(),
                extends(start, args@),
                extends(mid, args@),
                n <= args@.len() <= limit,
                all_valid(*kb, args@),
                distinct(args@),
                k <= kb.defeasible_rules@.len(),
                forall|j: int| 0 <= j < kb.strict_rules@.len() ==> #[trigger] rule_done(*kb, mid, Origin::Strict(j as usize), n as int),
                forall|j: int| 0 <= j < k ==> #[trigger] rule_done(*kb, args@, Origin::Defeasible(j as usize), n as int),
            decreases kb.defeasible_rules@.len() - k,
        {
            let ghost before = args@;
            if apply_all(kb, Origin::Defeasible(k), n, &mut args, limit).is_err() {
                assert(exceeds(*kb, limit));
                return Err(ConstructionOverflow);
            }
            assert forall|j: int| 0 <= j < k + 1 implies #[trigger] rule_done(*kb, args@, Origin::Defeasible(j as usize), n as int) by {
                if j < k {
                    lemma_rule_done_extends(*kb, before, args@, Origin::Defeasible(j as usize), n as int);
                }
            }
            assert(extends(start, args@) && extends(mid, args@)) by {
                assert forall|i: int| 0 <= i < start.len() implies args@[i] == #[trigger] start[i] by {
                    assert(before[i] == start[i]);
                }
                assert forall|i: int| 0 <= i < mid.len() implies args@[i] == #[trigger] mid[i] by {
                    assert(before[i] == mid[i]);
                }
            }
            k += 1;
        }
        if args.len() == n {
            assert(base_first(*kb, args@)) by {
                assert forall|k: int| 0 <= k < kb.axioms@.len() implies (#[trigger] args@[k]).origin == Origin::Axiom(k as usize) by {
                    assert(args@[k] == base[k]);
                }
                assert forall|k: int| 0 <= k < kb.premises@.len() implies (#[trigger] args@[kb.axioms@.len() + k]).origin == Origin::Premise(k as usize) by {
                    assert(args@[kb.axioms@.len() + k] == base[kb.axioms@.len() + k]);
                }
            }
            assert(args@ =~= start);
            assert(mid =~= start);
            assert forall|o: Origin, t: Seq<usize>|
                origin_ok(*kb, o) && fits(*kb, args@, o, t, args@.len() as int) implies #[trigger] has_arg(args@, o, t) by {
                match o {
                    Origin::Strict(j) => {
                        assert(rule_done(*kb, mid, Origin::Strict((j as int) as usize), n as int));
                    },
                    Origin::Defeasible(j) => {
                        assert(rule_done(*kb, args@, Origin::Defeasible((j as int) as usize), n as int));
                    },
                    _ => {
                        assert(rule_done(*kb, base, o, nb as int));
                        assert(t.len() == 0);
                        assert(fits(*kb, base, o, t, nb as int));
                        lemma_has_arg_extends(base, args@, o, t);
                    },
                }
            }
            return Ok(args);
        }
        assert(extends(base, args@)) by {
            assert forall|i: int| 0 <= i < base.len() implies args@[i] == #[trigger] base[i] by {
                assert(start[i] == base[i]);
            }
        }
    }
}

/// The argument at position `i` of `a` and the one at position `j` of `b` have
/// the same origin and as many sub-arguments, and each sub-argument of the
/// first has, recursively, a structurally equal counterpart among those of the
/// second.
pub open spec fn same_argument(a: Seq<Argument>, i: int, b: Seq<Argument>, j: int) -> bool
    decreases i,
{
    &&& 0 <= i < a.len()
    &&& 0 <= j < b.len()
    &&& a[i].origin == b[j].origin
    &&& a[i].subs@.len() == b[j].subs@.len()
    &&& forall|k: int|
        0 <= k < a[i].subs@.len() ==> 0 <= #[trigger] a[i].subs@[k] < i && exists|m: int|
            0 <= m < b[j].subs@.len() && same_argument(a, a[i].subs@[k] as int, b, b[j].subs@[m] as int)
}

/// Some argument of `b` is structurally equal to the one at position `i` of `a`.
pub open spec fn has_twin(a: Seq<Argument>, i: int, b: Seq<Argument>) -> bool {
    exists|j: int| same_argument(a, i, b, j)
}

proof fn lemma_embed(kb: KnowledgeBase, a: Seq<Argument>, b: Seq<Argument>, i: int)
    requires
        all_valid(kb, a),
        is_closure(kb, b),
        b.len() <= usize::MAX,
        0 <= i < a.len(),
    ensures
        exists|j: int| same_argument(a, i, b, j),
    decreases i,
{
    assert(valid_at(kb, a, i));
    let o = a[i].origin;
    let s = a[i].subs@;
    assert forall|k: int| 0 <= k < s.len() implies exists|j: int| same_argument(a, #[trigger] s[k] as int, b, j) by {
        assert(s[k] < i);
        lemma_embed(kb, a, b, s[k] as int);
    }
    let t = Seq::new(s.len(), |k: int| (choose|j: int| same_argument(a, s[k] as int, b, j)) as usize);
    assert forall|k: int| 0 <= k < s.len() implies #[trigger] same_argument(a, s[k] as int, b, t[k] as int) by {
        let j = choose|j: int| same_argument(a, s[k] as int, b, j);
        assert(same_argument(a, s[k] as int, b, j));
        assert(j as usize as int == j);
    }
    assert(fits(kb, b, o, t, b.len() as int)) by {
        assert forall|k: int| 0 <= k < t.len() implies #[trigger] t[k] < b.len() as int && b.len() <= b.len()
            && b[t[k] as int].conclusion == antecedents(kb, o)[k] by {
            assert(same_argument(a, s[k] as int, b, t[k] as int));
            assert(valid_at(kb, a, s[k] as int));
            assert(valid_at(kb, b, t[k] as int));
        }
    }
    assert(has_arg(b, o, t));
    let j = choose|j: int| 0 <= j < b.len() && b[j].origin == o && b[j].subs@.to_multiset() == t.to_multiset();
    let bs = b[j].subs@;
    vstd::seq_lib::to_multiset_len(bs);
    vstd::seq_lib::to_multiset_len(t);
    assert forall|k: int| 0 <= k < s.len() implies 0 <= #[trigger] s[k] < i && exists|m: int|
        0 <= m < bs.len() && same_argument(a, s[k] as int, b, bs[m] as int) by {
        assert(same_argument(a, s[k] as int, b, t[k] as int));
        assert(t.contains(t[k]));
        vstd::seq_lib::to_multiset_contains(t, t[k]);
        vstd::seq_lib::to_multiset_contains(bs, t[k]);
        let m = choose|m: int| 0 <= m < bs.len() && bs[m] == t[k];
        assert(same_argument(a, s[k] as int, b, bs[m] as int));
    }
    assert(same_argument(a, i, b, j));
}

/// Construction is deterministic up to structure: every argument of one
/// closure of a knowledge base has a structurally equal counterpart in any
/// other closure of it, and the other way round.
pub proof fn lemma_closure_deterministic(kb: KnowledgeBase, a: Seq<Argument>, b: Seq<Argument>)
    requires
        is_closure(kb, a),
        is_closure(kb, b),
        a.len() <= usize::MAX,
        b.len() <= usize::MAX,
    ensures
        forall|i: int| 0 <= i < a.len() ==> #[trigger] has_twin(a, i, b),
        forall|j: int| 0 <= j < b.len() ==> #[trigger] has_twin(b, j, a),
{
    assert forall|i: int| 0 <= i < a.len() implies #[trigger] has_twin(a, i, b) by {
        lemma_embed(kb, a, b, i);
    }
    assert forall|j: int| 0 <= j < b.len() implies #[trigger] has_twin(b, j, a) by {
        lemma_embed(kb, b, a, j);
    }
}

} // verus!
