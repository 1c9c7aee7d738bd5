//! The two operations of the service on a knowledge base: building its
//! argumentation framework, and solving it (its grounded and preferred
//! extensions, and its ICCMA text).
use vstd::prelude::*;

use crate::arguments::{Argument, ConstructionOverflow, base_first, build_arguments, exceeds, is_closure};
use crate::arguments::all_valid;
use crate::defeats::{
    Defeat, LinkPolicy, TieBreak, compute_defeats, compute_strengths, is_defeat, strengths, used_by, uses_premise, uses_rule,
};
use crate::framework::{
    AbstractFramework, defeats, edges_distinct, edges_in_range, grounded, grounded_extension, listed,
    listed_defeat, preferred, preferred_extensions, to_abstract_framework,
};
use crate::iccma::{iccma_text, to_iccma};
use crate::kb::{KnowledgeBase, MalformedKnowledgeBase, validate_knowledge_base, well_formed};

verus! {

/// Everything built from a knowledge base: the arguments, the ordinary
/// premises and defeasible rules each one uses, their strengths, the defeats
/// among them, and the abstract framework they induce.
#[derive(Clone, Debug)]
pub struct BuildResponse {
    pub arguments: Vec<Argument>,
    pub premises_used: Vec<Vec<usize>>,
    pub rules_used: Vec<Vec<usize>>,
    pub strengths: Vec<u64>,
    pub defeats: Vec<Defeat>,
    pub framework: AbstractFramework,
}

#[derive(Clone, Copy, Debug, PartialEq, Eq, Structural)]
pub enum BuildError {
    Malformed(MalformedKnowledgeBase),
    Overflow(ConstructionOverflow),
}

/// `resp` is what building `kb` with the given limit and policy yields.
pub open spec fn built(kb: KnowledgeBase, limit: usize, policy: LinkPolicy, ties: TieBreak, resp: BuildResponse) -> bool {
    let args = resp.arguments@;
    &&& is_closure(kb, args)
    &&& base_first(kb, args)
    &&& args.len() <= limit
    &&& resp.premises_used@.len() == args.len()
    &&& resp.rules_used@.len() == args.len()
    &&& forall|i: int, p: usize| 0 <= i < args.len() ==> (#[trigger] resp.premises_used@[i]@.contains(p)
        <==> uses_premise(args, i, p))
    &&& forall|i: int, x: usize| 0 <= i < args.len() ==> (#[trigger] resp.rules_used@[i]@.contains(x)
        <==> uses_rule(args, i, x))
    &&& strengths(kb, args, policy, resp.strengths@)
    &&& forall|d: Defeat| #[trigger] resp.defeats@.contains(d) <==> is_defeat(kb, args, resp.strengths@, ties, d)
    &&& resp.framework.n == args.len()
    &&& edges_in_range(resp.framework)
    &&& edges_distinct(resp.framework)
    &&& forall|x: int, y: int| #[trigger] defeats(resp.framework, x, y) <==> listed_defeat(resp.defeats@, x, y)
}

/// Validates `kb`, builds the closure of its arguments (at most `limit`),
/// computes their defeats under `policy` and `ties` and packages them as a framework.
pub fn build(kb: &KnowledgeBase, limit: usize, policy: LinkPolicy, ties: TieBreak) -> (r: Result<BuildResponse, BuildError>)
    ensures
        r matches Ok(resp) ==> well_formed(*kb) && built(*kb, limit, policy, ties, resp),
        r matches Err(BuildError::Malformed(e)) ==> validate_knowledge_base_spec(*kb) == Err::<(), _>(e),
        !well_formed(*kb) ==> r is Err && r->Err_0 is Malformed,
        r matches Err(BuildError::Overflow(_)) ==> well_formed(*kb) && exceeds(*kb, limit),
        well_formed(*kb) && !exceeds(*kb, limit) ==> r is Ok,
{
    match validate_knowledge_base(kb) {
        Err(e) => {
            return Err(BuildError::Malformed(e));
        },
        Ok(()) => {},
    }
    let arguments = match build_arguments(kb, limit) {
        Ok(a) => a,
        Err(e) => {
            return Err(BuildError::Overflow(e));
        },
    };
    let mut premises_used: Vec<Vec<usize>> = Vec::new();
    let mut rules_used: Vec<Vec<usize>> = Vec::new();
    let mut i: usize = 0;
    while i < arguments.len()
        invariant
            all_valid(*kb, arguments@),
            i <= arguments@.len(),
            premises_used@.len() == i,
            rules_used@.len() == i,
            forall|k: int, p: usize| 0 <= k < i ==> (#[trigger] premises_used@[k]@.contains(p)
                <==> uses_premise(arguments@, k, p)),
            forall|k: int, x: usize| 0 <= k < i ==> (#[trigger] rules_used@[k]@.contains(x)
                <==> uses_rule(arguments@, k, x)),
        decreases arguments@.len() - i,
    {
        let (p, r) = used_by(kb, &arguments, i);
        premises_used.push(p);
        rules_used.push(r);
        i += 1;
    }
    let strengths = compute_strengths(kb, &arguments, policy);
    let defeats = compute_defeats(kb, &arguments, &strengths, ties);
    assert forall|k: int| 0 <= k < defeats@.len() implies (#[trigger] defeats@[k]).attacker < arguments@.len()
        && defeats@[k].target < arguments@.len() by {
        assert(defeats@.contains(defeats@[k]));
    }
    let framework = to_abstract_framework(arguments.len(), &defeats);
    Ok(BuildResponse { arguments, premises_used, rules_used, strengths, defeats, framework })
}

/// The error that validation reports on `kb`, if any.
pub open spec fn validate_knowledge_base_spec(kb: KnowledgeBase) -> Result<(), MalformedKnowledgeBase> {
    if !crate::kb::names_unique(kb) {
        Err(MalformedKnowledgeBase::DuplicateRuleName)
    } else if !crate::kb::axioms_premises_disjoint(kb) {
        Err(MalformedKnowledgeBase::AxiomIsPremise)
    } else if !crate::kb::antecedents_known(kb) {
        Err(MalformedKnowledgeBase::UnknownAntecedent)
    } else {
        Ok(())
    }
}

/// What solving a knowledge base yields: everything built from it, its
/// grounded extension, its preferred extensions and its ICCMA text.
#[derive(Clone, Debug)]
pub struct Solution {
    pub built: BuildResponse,
    pub grounded: Vec<bool>,
    pub preferred: Vec<Vec<bool>>,
    pub iccma: String,
}

/// `sol` is what solving `kb` with the given limit and policy yields.
pub open spec fn solved(kb: KnowledgeBase, limit: usize, policy: LinkPolicy, ties: TieBreak, sol: Solution) -> bool {
    let af = sol.built.framework;
    &&& built(kb, limit, policy, ties, sol.built)
    &&& grounded(af, sol.grounded@)
    &&& forall|i: int| 0 <= i < sol.preferred@.len() ==> #[trigger] preferred(af, sol.preferred@[i]@)
    &&& forall|e: Seq<bool>| #[trigger] preferred(af, e) ==> listed(sol.preferred@, e)
    &&& forall|i: int, j: int|
        0 <= i < j < sol.preferred@.len() ==> #[trigger] sol.preferred@[i]@ != #[trigger] sol.preferred@[j]@
    &&& sol.iccma@ == iccma_text(af)
}

/// Builds the framework of `kb`, then computes its grounded extension, its
/// preferred extensions and its ICCMA text. Fails exactly where `build` does.
pub fn solve(kb: &KnowledgeBase, limit: usize, policy: LinkPolicy, ties: TieBreak) -> (r: Result<Solution, BuildError>)
    ensures
        r matches Ok(sol) ==> well_formed(*kb) && solved(*kb, limit, policy, ties, sol),
        !well_formed(*kb) ==> r is Err && r->Err_0 is Malformed,
        r matches Err(BuildError::Malformed(e)) ==> validate_knowledge_base_spec(*kb) == Err::<(), _>(e),
        r matches Err(BuildError::Overflow(_)) ==> well_formed(*kb) && exceeds(*kb, limit),
        well_formed(*kb) && !exceeds(*kb, limit) ==> r is Ok,
{
    let built = build(kb, limit, policy, ties)?;
    let grounded = grounded_extension(&built.framework);
    let preferred = match preferred_extensions(&built.framework) {
        Ok(p) => p,
        Err(_) => unreached(),
    };
    let iccma = match to_iccma(&built.framework) {
        Ok(s) => s,
        Err(_) => unreached(),
    };
    Ok(Solution { built, grounded, preferred, iccma })
}

} // verus!
