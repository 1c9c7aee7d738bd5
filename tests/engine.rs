use argumentation::arguments::{build_arguments, ConstructionOverflow, Origin};
use argumentation::defeats::{compute_defeats, compute_strengths, AttackKind, LinkPolicy, TieBreak};
use argumentation::framework::{
    extensions, grounded_extension, preferred_extensions, to_abstract_framework,
    AbstractFramework, Semantics, UnsatisfiableFramework,
};
use argumentation::iccma::to_iccma;
use argumentation::kb::{
    contrary, validate_knowledge_base, DefeasibleRule, Formula, KnowledgeBase,
    MalformedKnowledgeBase, Premise, StrictRule,
};
use argumentation::service::{build, solve, BuildError};

fn lit(atom: u64) -> Formula {
    Formula { atom, negated: false }
}

fn empty_kb() -> KnowledgeBase {
    KnowledgeBase {
        axioms: vec![],
        premises: vec![],
        strict_rules: vec![],
        defeasible_rules: vec![],
        contraries: vec![],
    }
}

fn chain_kb() -> KnowledgeBase {
    let mut kb = empty_kb();
    kb.axioms = vec![lit(1)];
    kb.strict_rules = vec![StrictRule { antecedents: vec![lit(1)], consequent: lit(2) }];
    kb
}

fn conflict_kb() -> KnowledgeBase {
    let mut kb = empty_kb();
    kb.premises = vec![Premise { formula: lit(1), rank: 0 }, Premise { formula: lit(2), rank: 0 }];
    kb.contraries = vec![(lit(1), lit(2))];
    kb
}

#[test]
fn strict_chain_scenario() {
    let kb = chain_kb();
    let resp = build(&kb, 100, LinkPolicy::WeakestLink, TieBreak::AttackerWins).unwrap();
    assert_eq!(resp.arguments.len(), 2);
    assert_eq!(resp.arguments[0].conclusion, lit(1));
    assert_eq!(resp.arguments[1].conclusion, lit(2));
    assert_eq!(resp.arguments[1].subs, vec![0]);
    assert!(resp.defeats.is_empty());
    assert!(resp.framework.edges.is_empty());
    let g = grounded_extension(&resp.framework);
    assert_eq!(g, vec![true, true]);
    let p = preferred_extensions(&resp.framework).unwrap();
    assert_eq!(p, vec![vec![true, true]]);
}

#[test]
fn mutual_undermining_scenario() {
    let kb = conflict_kb();
    let resp = build(&kb, 100, LinkPolicy::WeakestLink, TieBreak::AttackerWins).unwrap();
    assert_eq!(resp.arguments.len(), 2);
    assert_eq!(resp.defeats.len(), 2);
    assert!(resp.defeats.iter().all(|d| d.kind == AttackKind::Undermine));
    assert_eq!(resp.framework.edges, vec![(0, 1), (1, 0)]);
    let mut p = preferred_extensions(&resp.framework).unwrap();
    p.sort();
    assert_eq!(p, vec![vec![false, true], vec![true, false]]);
    assert_eq!(grounded_extension(&resp.framework), vec![false, false]);
}

#[test]
fn undercut_ignores_preference() {
    // x (strong) supports y by rule n; u (weak) conflicts with the rule's name n,
    // and w (weak) conflicts with y.
    let mut kb = empty_kb();
    kb.premises = vec![
        Premise { formula: lit(1), rank: 10 },
        Premise { formula: lit(5), rank: 0 },
        Premise { formula: lit(6), rank: 0 },
    ];
    kb.defeasible_rules = vec![DefeasibleRule {
        name: lit(9),
        antecedents: vec![lit(1)],
        consequent: lit(2),
        rank: 10,
    }];
    kb.contraries = vec![(lit(5), lit(9)), (lit(6), lit(2))];
    let resp = build(&kb, 100, LinkPolicy::WeakestLink, TieBreak::AttackerWins).unwrap();
    assert_eq!(resp.arguments.len(), 4);
    let rule_arg = resp.arguments.iter().position(|a| a.origin == Origin::Defeasible(0)).unwrap();
    assert_eq!(resp.strengths[rule_arg], 10);
    let undercuts: Vec<_> = resp.defeats.iter().filter(|d| d.kind == AttackKind::Undercut).collect();
    assert_eq!(undercuts.len(), 1);
    assert_eq!(undercuts[0].attacker, 1);
    assert_eq!(undercuts[0].target, rule_arg);
    assert_eq!(undercuts[0].sub, rule_arg);
    // The weak rebuttal fails: the target is strictly stronger.
    assert!(resp.defeats.iter().all(|d| d.kind != AttackKind::Rebut || d.attacker != 2));
    // The rebuttal of the weak premise by the strong rule argument succeeds.
    assert!(resp.defeats.iter().any(|d| d.kind == AttackKind::Undermine && d.attacker == rule_arg && d.target == 2));
}

#[test]
fn ties_favour_the_attacker() {
    let mut kb = empty_kb();
    kb.premises = vec![Premise { formula: lit(1), rank: 3 }, Premise { formula: lit(2), rank: 3 }];
    kb.contraries = vec![(lit(1), lit(2))];
    let resp = build(&kb, 10, LinkPolicy::WeakestLink, TieBreak::AttackerWins).unwrap();
    assert_eq!(resp.framework.edges, vec![(0, 1), (1, 0)]);
}

#[test]
fn stronger_premise_wins() {
    let mut kb = empty_kb();
    kb.premises = vec![Premise { formula: lit(1), rank: 5 }, Premise { formula: lit(2), rank: 1 }];
    kb.contraries = vec![(lit(1), lit(2))];
    let resp = build(&kb, 10, LinkPolicy::WeakestLink, TieBreak::AttackerWins).unwrap();
    assert_eq!(resp.framework.edges, vec![(0, 1)]);
    assert_eq!(grounded_extension(&resp.framework), vec![true, false]);
}

#[test]
fn axioms_are_never_defeated() {
    let mut kb = empty_kb();
    kb.axioms = vec![lit(1)];
    kb.premises = vec![Premise { formula: lit(2), rank: 100 }];
    kb.contraries = vec![(lit(1), lit(2))];
    let resp = build(&kb, 10, LinkPolicy::WeakestLink, TieBreak::AttackerWins).unwrap();
    assert_eq!(resp.framework.edges, vec![(0, 1)]);
    for d in &resp.defeats {
        assert!(!matches!(resp.arguments[d.sub].origin, Origin::Axiom(_)));
    }
}

#[test]
fn strict_conclusions_are_not_rebutted() {
    let mut kb = chain_kb();
    kb.premises = vec![Premise { formula: Formula { atom: 2, negated: true }, rank: 0 }];
    let resp = build(&kb, 10, LinkPolicy::WeakestLink, TieBreak::AttackerWins).unwrap();
    // The premise ¬q cannot rebut the strict argument for q; q undermines ¬q.
    assert!(resp.defeats.iter().all(|d| d.attacker != 1));
    assert!(resp.defeats.iter().any(|d| d.target == 1 && d.kind == AttackKind::Undermine));
}

#[test]
fn rebut_aims_at_sub_argument() {
    // x => y (rule r), y -> z strict; w conflicts with y.
    let mut kb = empty_kb();
    kb.premises = vec![Premise { formula: lit(1), rank: 5 }, Premise { formula: lit(7), rank: 5 }];
    kb.defeasible_rules = vec![DefeasibleRule { name: lit(20), antecedents: vec![lit(1)], consequent: lit(2), rank: 5 }];
    kb.strict_rules = vec![StrictRule { antecedents: vec![lit(2)], consequent: lit(3) }];
    kb.contraries = vec![(lit(7), lit(2))];
    let resp = build(&kb, 10, LinkPolicy::WeakestLink, TieBreak::AttackerWins).unwrap();
    assert_eq!(resp.arguments.len(), 4);
    let z = resp.arguments.iter().position(|a| a.conclusion == lit(3)).unwrap();
    let y = resp.arguments.iter().position(|a| a.conclusion == lit(2)).unwrap();
    assert!(resp.defeats.iter().any(|d| d.attacker == 1 && d.target == z && d.sub == y && d.kind == AttackKind::Rebut));
}

#[test]
fn construction_is_deterministic() {
    let kb = conflict_kb();
    let a = build_arguments(&kb, 10).unwrap();
    let b = build_arguments(&kb, 10).unwrap();
    assert_eq!(a.len(), b.len());
    for (x, y) in a.iter().zip(b.iter()) {
        assert_eq!(x.conclusion, y.conclusion);
        assert_eq!(x.origin, y.origin);
        assert_eq!(x.subs, y.subs);
    }
}

#[test]
fn shared_subarguments_combine() {
    // Two arguments for p feed a rule p, p -> q: three applications, since the
    // order of the sub-arguments does not make a new argument.
    let mut kb = empty_kb();
    kb.axioms = vec![lit(1)];
    kb.premises = vec![Premise { formula: lit(1), rank: 0 }];
    kb.strict_rules = vec![StrictRule { antecedents: vec![lit(1), lit(1)], consequent: lit(2) }];
    let args = build_arguments(&kb, 100).unwrap();
    assert_eq!(args.len(), 5);
    let mut subs: Vec<Vec<usize>> = args[2..].iter().map(|a| {
        let mut s = a.subs.clone();
        s.sort();
        s
    }).collect();
    subs.sort();
    assert_eq!(subs, vec![vec![0, 0], vec![0, 1], vec![1, 1]]);
}

#[test]
fn cyclic_rules_overflow() {
    let mut kb = empty_kb();
    kb.premises = vec![Premise { formula: lit(1), rank: 0 }];
    kb.strict_rules = vec![StrictRule { antecedents: vec![lit(1)], consequent: lit(1) }];
    assert_eq!(build_arguments(&kb, 50).err(), Some(ConstructionOverflow));
    assert_eq!(build(&kb, 50, LinkPolicy::WeakestLink, TieBreak::AttackerWins).err(), Some(BuildError::Overflow(ConstructionOverflow)));
}

#[test]
fn small_limit_overflows() {
    let kb = conflict_kb();
    assert_eq!(build_arguments(&kb, 1).err(), Some(ConstructionOverflow));
    assert!(build_arguments(&kb, 2).is_ok());
}

#[test]
fn malformed_knowledge_bases() {
    let mut kb = empty_kb();
    kb.defeasible_rules = vec![
        DefeasibleRule { name: lit(9), antecedents: vec![], consequent: lit(1), rank: 0 },
        DefeasibleRule { name: lit(9), antecedents: vec![], consequent: lit(2), rank: 0 },
    ];
    assert_eq!(validate_knowledge_base(&kb), Err(MalformedKnowledgeBase::DuplicateRuleName));
    assert_eq!(
        build(&kb, 10, LinkPolicy::WeakestLink, TieBreak::AttackerWins).err(),
        Some(BuildError::Malformed(MalformedKnowledgeBase::DuplicateRuleName))
    );
    let mut kb = empty_kb();
    kb.axioms = vec![lit(1)];
    kb.premises = vec![Premise { formula: lit(1), rank: 0 }];
    assert_eq!(validate_knowledge_base(&kb), Err(MalformedKnowledgeBase::AxiomIsPremise));
    assert!(solve(&kb, 10, LinkPolicy::WeakestLink, TieBreak::AttackerWins).is_err());
    assert_eq!(validate_knowledge_base(&chain_kb()), Ok(()));
}

#[test]
fn negation_is_contrary() {
    let kb = empty_kb();
    assert!(contrary(&kb, lit(4), Formula { atom: 4, negated: true }));
    assert!(!contrary(&kb, lit(4), lit(4)));
    assert!(!contrary(&kb, lit(4), lit(5)));
    let kb = conflict_kb();
    assert!(contrary(&kb, lit(2), lit(1)));
}

#[test]
fn strengths_by_policy() {
    // x (rank 2) => y by a rule of rank 8.
    let mut kb = empty_kb();
    kb.premises = vec![Premise { formula: lit(1), rank: 2 }];
    kb.defeasible_rules = vec![DefeasibleRule { name: lit(9), antecedents: vec![lit(1)], consequent: lit(2), rank: 8 }];
    let args = build_arguments(&kb, 10).unwrap();
    assert_eq!(compute_strengths(&kb, &args, LinkPolicy::WeakestLink), vec![2, 2]);
    assert_eq!(compute_strengths(&kb, &args, LinkPolicy::LastLink), vec![2, 8]);
    let ax = chain_kb();
    let args = build_arguments(&ax, 10).unwrap();
    assert_eq!(compute_strengths(&ax, &args, LinkPolicy::WeakestLink), vec![u64::MAX, u64::MAX]);
}

#[test]
fn defeats_are_listed_once_per_kind() {
    let kb = conflict_kb();
    let args = build_arguments(&kb, 10).unwrap();
    let st = compute_strengths(&kb, &args, LinkPolicy::WeakestLink);
    let ds = compute_defeats(&kb, &args, &st, TieBreak::AttackerWins);
    assert_eq!(ds.len(), 2);
    let af = to_abstract_framework(args.len(), &ds);
    assert_eq!(af.n, 2);
}

#[test]
fn framework_dedups_edges() {
    let kb = conflict_kb();
    let args = build_arguments(&kb, 10).unwrap();
    let st = compute_strengths(&kb, &args, LinkPolicy::WeakestLink);
    let mut ds = compute_defeats(&kb, &args, &st, TieBreak::AttackerWins);
    let again = ds.clone();
    ds.extend(again);
    let af = to_abstract_framework(2, &ds);
    assert_eq!(af.edges, vec![(0, 1), (1, 0)]);
}

#[test]
fn iccma_text_of_conflict() {
    let s = solve(&conflict_kb(), 10, LinkPolicy::WeakestLink, TieBreak::AttackerWins).unwrap();
    assert_eq!(s.iccma, "p af 2\n1 2\n2 1\n");
    let s = solve(&chain_kb(), 10, LinkPolicy::WeakestLink, TieBreak::AttackerWins).unwrap();
    assert_eq!(s.iccma, "p af 2\n");
}

#[test]
fn iccma_line_count() {
    let af = AbstractFramework { n: 12, edges: vec![(0, 11), (10, 3), (11, 11)] };
    let s = to_iccma(&af).unwrap();
    assert_eq!(s, "p af 12\n1 12\n11 4\n12 12\n");
    let lines: Vec<&str> = s.lines().collect();
    assert_eq!(lines.len(), 4);
    assert_eq!(lines[0], "p af 12");
    for l in &lines[1..] {
        for part in l.split(' ') {
            let v: usize = part.parse().unwrap();
            assert!(1 <= v && v <= 12);
        }
    }
}

#[test]
fn malformed_framework() {
    let af = AbstractFramework { n: 2, edges: vec![(0, 2)] };
    assert_eq!(to_iccma(&af), Err(UnsatisfiableFramework));
    assert_eq!(preferred_extensions(&af), Err(UnsatisfiableFramework));
    assert_eq!(extensions(&af, Semantics::Grounded), Err(UnsatisfiableFramework));
}

#[test]
fn grounded_within_preferred() {
    // a attacks b, b attacks c: grounded = {a, c}, the only preferred one.
    let af = AbstractFramework { n: 3, edges: vec![(0, 1), (1, 2)] };
    let g = grounded_extension(&af);
    assert_eq!(g, vec![true, false, true]);
    let p = extensions(&af, Semantics::Preferred).unwrap();
    assert_eq!(p, vec![vec![true, false, true]]);
    assert_eq!(extensions(&af, Semantics::Grounded).unwrap(), vec![g]);
}

#[test]
fn odd_cycle_has_empty_extensions() {
    let af = AbstractFramework { n: 3, edges: vec![(0, 1), (1, 2), (2, 0)] };
    assert_eq!(grounded_extension(&af), vec![false, false, false]);
    assert_eq!(preferred_extensions(&af).unwrap(), vec![vec![false, false, false]]);
}

#[test]
fn self_attacker_excluded() {
    let af = AbstractFramework { n: 2, edges: vec![(0, 0)] };
    assert_eq!(grounded_extension(&af), vec![false, true]);
    assert_eq!(preferred_extensions(&af).unwrap(), vec![vec![false, true]]);
}

#[test]
fn empty_framework() {
    let af = AbstractFramework { n: 0, edges: vec![] };
    assert_eq!(grounded_extension(&af), Vec::<bool>::new());
    assert_eq!(preferred_extensions(&af).unwrap(), vec![Vec::<bool>::new()]);
    assert_eq!(to_iccma(&af).unwrap(), "p af 0\n");
}

#[test]
fn unknown_antecedent_is_malformed() {
    let mut kb = empty_kb();
    kb.strict_rules = vec![StrictRule { antecedents: vec![lit(1)], consequent: lit(2) }];
    assert_eq!(validate_knowledge_base(&kb), Err(MalformedKnowledgeBase::UnknownAntecedent));
    kb.premises = vec![Premise { formula: lit(1), rank: 0 }];
    assert_eq!(validate_knowledge_base(&kb), Ok(()));
}

#[test]
fn policy_decides_rebuttal() {
    // x (rank 1) => y by a rule of rank 9; w (rank 5) conflicts with y.
    let mut kb = empty_kb();
    kb.premises = vec![Premise { formula: lit(1), rank: 1 }, Premise { formula: lit(7), rank: 5 }];
    kb.defeasible_rules = vec![DefeasibleRule { name: lit(20), antecedents: vec![lit(1)], consequent: lit(2), rank: 9 }];
    kb.contraries = vec![(lit(7), lit(2))];
    let weakest = build(&kb, 10, LinkPolicy::WeakestLink, TieBreak::AttackerWins).unwrap();
    let last = build(&kb, 10, LinkPolicy::LastLink, TieBreak::AttackerWins).unwrap();
    let y = weakest.arguments.iter().position(|a| a.conclusion == lit(2)).unwrap();
    // Weakest link: y has strength 1 < 5, so w's rebuttal succeeds and y's undermining of w fails.
    assert!(weakest.framework.edges.contains(&(1, y)));
    assert!(!weakest.framework.edges.contains(&(y, 1)));
    // Last link: y has strength 9 > 5, so only y's undermining of w succeeds.
    assert!(!last.framework.edges.contains(&(1, y)));
    assert!(last.framework.edges.contains(&(y, 1)));
}

#[test]
fn solve_strict_chain() {
    let s = solve(&chain_kb(), 10, LinkPolicy::WeakestLink, TieBreak::AttackerWins).unwrap();
    assert_eq!(s.built.arguments.len(), 2);
    assert_eq!(s.grounded, vec![true, true]);
    assert_eq!(s.preferred, vec![vec![true, true]]);
}

#[test]
fn solve_mutual_conflict() {
    let s = solve(&conflict_kb(), 10, LinkPolicy::WeakestLink, TieBreak::AttackerWins).unwrap();
    assert_eq!(s.grounded, vec![false, false]);
    let mut p = s.preferred.clone();
    p.sort();
    assert_eq!(p, vec![vec![false, true], vec![true, false]]);
}

#[test]
fn used_premises_and_rules() {
    // axiom a; premise x; x => y (rule 0); a, y -> z strict.
    let mut kb = empty_kb();
    kb.axioms = vec![lit(10)];
    kb.premises = vec![Premise { formula: lit(1), rank: 4 }];
    kb.defeasible_rules = vec![DefeasibleRule { name: lit(20), antecedents: vec![lit(1)], consequent: lit(2), rank: 6 }];
    kb.strict_rules = vec![StrictRule { antecedents: vec![lit(10), lit(2)], consequent: lit(3) }];
    let resp = build(&kb, 10, LinkPolicy::WeakestLink, TieBreak::AttackerWins).unwrap();
    assert_eq!(resp.arguments.len(), 4);
    let z = resp.arguments.iter().position(|a| a.conclusion == lit(3)).unwrap();
    assert_eq!(resp.premises_used[z], vec![0]);
    assert_eq!(resp.rules_used[z], vec![0]);
    assert_eq!(resp.premises_used[0], Vec::<usize>::new());
    assert_eq!(resp.rules_used[1], Vec::<usize>::new());
    assert_eq!(resp.strengths[z], 4);
}

#[test]
fn ties_can_favour_the_target() {
    let mut kb = empty_kb();
    kb.premises = vec![Premise { formula: lit(1), rank: 3 }, Premise { formula: lit(2), rank: 3 }];
    kb.contraries = vec![(lit(1), lit(2))];
    let resp = build(&kb, 10, LinkPolicy::WeakestLink, TieBreak::TargetWins).unwrap();
    assert!(resp.framework.edges.is_empty());
}

#[test]
fn last_link_ignores_premises_below_a_strict_rule() {
    // x (rank 1); w (rank 2); w => y by a rule of rank 9; x, y -> z strict.
    let mut kb = empty_kb();
    kb.premises = vec![Premise { formula: lit(1), rank: 1 }, Premise { formula: lit(4), rank: 2 }];
    kb.defeasible_rules = vec![DefeasibleRule { name: lit(20), antecedents: vec![lit(4)], consequent: lit(2), rank: 9 }];
    kb.strict_rules = vec![StrictRule { antecedents: vec![lit(1), lit(2)], consequent: lit(3) }];
    let args = build_arguments(&kb, 10).unwrap();
    let z = args.iter().position(|a| a.conclusion == lit(3)).unwrap();
    assert_eq!(compute_strengths(&kb, &args, LinkPolicy::LastLink)[z], 9);
    assert_eq!(compute_strengths(&kb, &args, LinkPolicy::WeakestLink)[z], 1);
    // Only strict rules and premises: last link falls back to the premises.
    let mut kb2 = empty_kb();
    kb2.premises = vec![Premise { formula: lit(1), rank: 5 }, Premise { formula: lit(4), rank: 3 }];
    kb2.strict_rules = vec![StrictRule { antecedents: vec![lit(1), lit(4)], consequent: lit(3) }];
    let args2 = build_arguments(&kb2, 10).unwrap();
    assert_eq!(compute_strengths(&kb2, &args2, LinkPolicy::LastLink)[2], 3);
}
