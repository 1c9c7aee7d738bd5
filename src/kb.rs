//! The knowledge base: axioms, ordinary premises, strict and defeasible rules,
//! contrariness and the preference ranks that later decide attacks.
use vstd::prelude::*;

verus! {

/// A propositional literal: an atom, possibly negated.
#[derive(Clone, Copy, Debug, PartialEq, Eq, Structural)]
pub struct Formula {
    pub atom: u64,
    pub negated: bool,
}

/// An ordinary premise together with its preference rank (higher is stronger).
#[derive(Clone, Copy, Debug, PartialEq, Eq, Structural)]
pub struct Premise {
    pub formula: Formula,
    pub rank: u64,
}

/// A strict rule `antecedents -> consequent`.
#[derive(Clone, Debug)]
pub struct StrictRule {
    pub antecedents: Vec<Formula>,
    pub consequent: Formula,
}

/// A defeasible rule `name: antecedents => consequent`. The name is a formula
/// so that an argument can conclude that the rule does not apply; `rank`
/// orders defeasible rules by preference (higher is stronger).
#[derive(Clone, Debug)]
pub struct DefeasibleRule {
    pub name: Formula,
    pub antecedents: Vec<Formula>,
    pub consequent: Formula,
    pub rank: u64,
}

/// Each pair in `contraries` marks its two formulas as conflicting, in both
/// directions. A literal and its negation always conflict.
#[derive(Clone, Debug)]
pub struct KnowledgeBase {
    pub axioms: Vec<Formula>,
    pub premises: Vec<Premise>,
    pub strict_rules: Vec<StrictRule>,
    pub defeasible_rules: Vec<DefeasibleRule>,
    pub contraries: Vec<(Formula, Formula)>,
}

/// Why a knowledge base was rejected.
#[derive(Clone, Copy, Debug, PartialEq, Eq, Structural)]
pub enum MalformedKnowledgeBase {
    /// Two defeasible rules share a name.
    DuplicateRuleName,
    /// A formula is both an axiom and an ordinary premise.
    AxiomIsPremise,
    /// A rule has an antecedent that no axiom, premise or rule provides.
    UnknownAntecedent,
}

pub open spec fn is_contrary(kb: KnowledgeBase, x: Formula, y: Formula) -> bool {
    (x.atom == y.atom && x.negated != y.negated) || kb.contraries@.contains((x, y))
        || kb.contraries@.contains((y, x))
}

pub open spec fn names_unique(kb: KnowledgeBase) -> bool {
    forall|i: int, j: int|
        0 <= i < j < kb.defeasible_rules@.len() ==> #[trigger] kb.defeasible_rules@[i].name
            != #[trigger] kb.defeasible_rules@[j].name
}

pub open spec fn axioms_premises_disjoint(kb: KnowledgeBase) -> bool {
    forall|i: int, j: int|
        0 <= i < kb.axioms@.len() && 0 <= j < kb.premises@.len() ==> #[trigger] kb.axioms@[i]
            != #[trigger] kb.premises@[j].formula
}

/// Some axiom, premise or rule of `kb` provides `f`.
pub open spec fn producible(kb: KnowledgeBase, f: Formula) -> bool {
    ||| exists|i: int| 0 <= i < kb.axioms@.len() && kb.axioms@[i] == f
    ||| exists|i: int| 0 <= i < kb.premises@.len() && kb.premises@[i].formula == f
    ||| exists|i: int| 0 <= i < kb.strict_rules@.len() && kb.strict_rules@[i].consequent == f
    ||| exists|i: int| 0 <= i < kb.defeasible_rules@.len() && kb.defeasible_rules@[i].consequent == f
}

pub open spec fn antecedents_known(kb: KnowledgeBase) -> bool {
    &&& forall|i: int, j: int|
        0 <= i < kb.strict_rules@.len() && 0 <= j < kb.strict_rules@[i].antecedents@.len()
            ==> producible(kb, #[trigger] kb.strict_rules@[i].antecedents@[j])
    &&& forall|i: int, j: int|
        0 <= i < kb.defeasible_rules@.len() && 0 <= j < kb.defeasible_rules@[i].antecedents@.len()
            ==> producible(kb, #[trigger] kb.defeasible_rules@[i].antecedents@[j])
}

/// A knowledge base that the later stages accept.
pub open spec fn well_formed(kb: KnowledgeBase) -> bool {
    names_unique(kb) && axioms_premises_disjoint(kb) && antecedents_known(kb)
}

/// Whether some axiom, premise or rule of `kb` provides `f`.
fn is_producible(kb: &KnowledgeBase, f: Formula) -> (r: bool)
    ensures
        r == producible(*kb, f),
{
    let mut i: usize = 0;
    while i < kb.axioms.len()
        invariant
            i <= kb.axioms@.len(),
            forall|k: int| 0 <= k < i ==> kb.axioms@[k] != f,
        decreases kb.axioms@.len() - i,
    {
        if kb.axioms[i] == f {
            return true;
        }
        i += 1;
    }
    let mut i: usize = 0;
    while i < kb.premises.len()
        invariant
            i <= kb.premises@.len(),
            forall|k: int| 0 <= k < i ==> kb.premises@[k].formula != f,
        decreases kb.premises@.len() - i,
    {
        if kb.premises[i].formula == f {
            return true;
        }
        i += 1;
    }
    let mut i: usize = 0;
    while i < kb.strict_rules.len()
        invariant
            i <= kb.strict_rules@.len(),
            forall|k: int| 0 <= k < i ==> kb.strict_rules@[k].consequent != f,
        decreases kb.strict_rules@.len() - i,
    {
        if kb.strict_rules[i].consequent == f {
            return true;
        }
        i += 1;
    }
    let mut i: usize = 0;
    while i < kb.defeasible_rules.len()
        invariant
            i <= kb.defeasible_rules@.len(),
            forall|k: int| 0 <= k < i ==> kb.defeasible_rules@[k].consequent != f,
        decreases kb.defeasible_rules@.len() - i,
    {
        if kb.defeasible_rules[i].consequent == f {
            return true;
        }
        i += 1;
    }
    false
}

/// Whether every antecedent of every rule is producible.
fn check_antecedents(kb: &KnowledgeBase) -> (r: bool)
    ensures
        r == antecedents_known(*kb),
{
    let mut i: usize = 0;
    while i < kb.strict_rules.len()
        invariant
            i <= kb.strict_rules@.len(),
            forall|a: int, j: int|
                0 <= a < i && 0 <= j < kb.strict_rules@[a].antecedents@.len()
                    ==> producible(*kb, #[trigger] kb.strict_rules@[a].antecedents@[j]),
        decreases kb.strict_rules@.len() - i,
    {
        let ants = &kb.strict_rules[i].antecedents;
        let mut j: usize = 0;
        while j < ants.len()
            invariant
                i < kb.strict_rules@.len(),
                ants@ == kb.strict_rules@[i as int].antecedents@,
                j <= ants@.len(),
                forall|a: int, j: int|
                    0 <= a < i && 0 <= j < kb.strict_rules@[a].antecedents@.len()
                        ==> producible(*kb, #[trigger] kb.strict_rules@[a].antecedents@[j]),
                forall|k: int| 0 <= k < j ==> producible(*kb, #[trigger] ants@[k]),
            decreases ants@.len() - j,
        {
            if !is_producible(kb, ants[j]) {
                return false;
            }
            j += 1;
        }
        i += 1;
    }
    let mut i: usize = 0;
    while i < kb.defeasible_rules.len()
        invariant
            i <= kb.defeasible_rules@.len(),
            forall|a: int, j: int|
                0 <= a < kb.strict_rules@.len() && 0 <= j < kb.strict_rules@[a].antecedents@.len()
                    ==> producible(*kb, #[trigger] kb.strict_rules@[a].antecedents@[j]),
            forall|a: int, j: int|
                0 <= a < i && 0 <= j < kb.defeasible_rules@[a].antecedents@.len()
                    ==> producible(*kb, #[trigger] kb.defeasible_rules@[a].antecedents@[j]),
        decreases kb.defeasible_rules@.len() - i,
    {
        let ants = &kb.defeasible_rules[i].antecedents;
        let mut j: usize = 0;
        while j < ants.len()
            invariant
                i < kb.defeasible_rules@.len(),
                ants@ == kb.defeasible_rules@[i as int].antecedents@,
                j <= ants@.len(),
                forall|a: int, j: int|
                    0 <= a < kb.strict_rules@.len() && 0 <= j < kb.strict_rules@[a].antecedents@.len()
                        ==> producible(*kb, #[trigger] kb.strict_rules@[a].antecedents@[j]),
                forall|a: int, j: int|
                    0 <= a < i && 0 <= j < kb.defeasible_rules@[a].antecedents@.len()
                        ==> producible(*kb, #[trigger] kb.defeasible_rules@[a].antecedents@[j]),
                forall|k: int| 0 <= k < j ==> producible(*kb, #[trigger] ants@[k]),
            decreases ants@.len() - j,
        {
            if !is_producible(kb, ants[j]) {
                return false;
            }
            j += 1;
        }
        i += 1;
    }
    true
}

/// Whether `x` and `y` conflict in `kb`.
pub fn contrary(kb: &KnowledgeBase, x: Formula, y: Formula) -> (r: bool)
    ensures
        r == is_contrary(*kb, x, y),
{
    if x.atom == y.atom && x.negated != y.negated {
        return true;
    }
    let mut i: usize = 0;
    while i < kb.contraries.len()
        invariant
            i <= kb.contraries@.len(),
            forall|k: int| 0 <= k < i ==> #[trigger] kb.contraries@[k] != (x, y)
                && kb.contraries@[k] != (y, x),
        decreases kb.contraries@.len() - i,
    {
        let (a, b) = kb.contraries[i];
        if (a == x && b == y) || (a == y && b == x) {
            assert(kb.contraries@[i as int] == (a, b));
            return true;
        }
        i += 1;
    }
    false
}

/// Checks the structural conditions on a knowledge base: defeasible rule names
/// are unique and no axiom is also an ordinary premise.
pub fn validate_knowledge_base(kb: &KnowledgeBase) -> (r: Result<(), MalformedKnowledgeBase>)
    ensures
        r is Ok <==> well_formed(*kb),
        r == Err::<(), _>(MalformedKnowledgeBase::DuplicateRuleName) <==> !names_unique(*kb),
        r == Err::<(), _>(MalformedKnowledgeBase::AxiomIsPremise) <==> names_unique(*kb)
            && !axioms_premises_disjoint(*kb),
        r == Err::<(), _>(MalformedKnowledgeBase::UnknownAntecedent) <==> names_unique(*kb)
            && axioms_premises_disjoint(*kb) && !antecedents_known(*kb),
{
    let n = kb.defeasible_rules.len();
    let mut i: usize = 0;
    while i < n
        invariant
            n == kb.defeasible_rules@.len(),
            i <= n,
            forall|a: int, b: int|
                0 <= a < b < n && a < i ==> #[trigger] kb.defeasible_rules@[a].name
                    != #[trigger] kb.defeasible_rules@[b].name,
        decreases n - i,
    {
        let mut j: usize = i + 1;
        while j < n
            invariant
                n == kb.defeasible_rules@.len(),
                i < n,
                i < j <= n,
                forall|a: int, b: int|
                    0 <= a < b < n && a < i ==> #[trigger] kb.defeasible_rules@[a].name
                        != #[trigger] kb.defeasible_rules@[b].name,
                forall|b: int|
                    i < b < j ==> kb.defeasible_rules@[i as int].name
                        != #[trigger] kb.defeasible_rules@[b].name,
            decreases n - j,
        {
            if kb.defeasible_rules[i].name == kb.defeasible_rules[j].name {
                return Err(MalformedKnowledgeBase::DuplicateRuleName);
            }
            j += 1;
        }
        i += 1;
    }
    let mut a: usize = 0;
    while a < kb.axioms.len()
        invariant
            names_unique(*kb),
            a <= kb.axioms@.len(),
            forall|x: int, y: int|
                0 <= x < a && 0 <= y < kb.premises@.len() ==> #[trigger] kb.axioms@[x]
                    != #[trigger] kb.premises@[y].formula,
        decreases kb.axioms@.len() - a,
    {
        let mut p: usize = 0;
        while p < kb.premises.len()
            invariant
                names_unique(*kb),
                a < kb.axioms@.len(),
                p <= kb.premises@.len(),
                forall|x: int, y: int|
                    0 <= x < a && 0 <= y < kb.premises@.len() ==> #[trigger] kb.axioms@[x]
                        != #[trigger] kb.premises@[y].formula,
                forall|y: int|
                    0 <= y < p ==> kb.axioms@[a as int] != #[trigger] kb.premises@[y].formula,
            decreases kb.premises@.len() - p,
        {
            if kb.axioms[a] == kb.premises[p].formula {
                return Err(MalformedKnowledgeBase::AxiomIsPremise);
            }
            p += 1;
        }
        a += 1;
    }
    if !check_antecedents(kb) {
        return Err(MalformedKnowledgeBase::UnknownAntecedent);
    }
    Ok(())
}

} // verus!
