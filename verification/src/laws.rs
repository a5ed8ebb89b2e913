use crate::inject::ValueV;
use crate::module::ScopeV;
use crate::provider::ProviderV;
use crate::resolve::ErrorKind;
use crate::resolve::ErrorV;
use crate::resolve::PlanV;
use crate::resolve::all_targets;
use crate::resolve::distinct_scopes;
use crate::resolve::lemma_all_targets_finite;
use crate::resolve::lemma_exec_deps_token_growth;
use crate::resolve::lemma_target_in_all;
use crate::resolve::plan_cost;
use crate::resolve::spec_exec;
use crate::resolve::spec_exec_deps;
use crate::resolve::spec_plan;
use crate::resolve::spec_plan_deps;
use crate::resolve::store_wf;
use crate::runtime::RuntimeV;
use crate::select_provider::Selection;
use crate::select_provider::first_match;
use crate::select_provider::has_match;
use crate::select_provider::lemma_select_found;
use crate::select_provider::spec_select;
use crate::select_provider::unique_match;
use vstd::prelude::*;

verus! {

/// A chain without any provider for the type selects nothing.
pub proof fn lemma_select_missing(chain: Seq<ScopeV>, ty: u64)
    requires
        forall|l: int| 0 <= l < chain.len() ==> !has_match(#[trigger] chain[l].regs, ty),
    ensures
        spec_select(chain, ty) is NotFound,
    decreases chain.len(),
{
    if chain.len() > 0 {
        assert(!has_match(chain[0].regs, ty));
        assert forall|l: int| 0 <= l < chain.drop_first().len() implies !has_match(
            #[trigger] chain.drop_first()[l].regs,
            ty,
        ) by {
            assert(chain.drop_first()[l] == chain[l + 1]);
        }
        lemma_select_missing(chain.drop_first(), ty);
    }
}

/// Where the nearest scope holding providers for the type holds more
/// than one, selection reports ambiguity at that scope.
pub proof fn lemma_select_ambiguous(chain: Seq<ScopeV>, ty: u64, l: int)
    requires
        0 <= l < chain.len(),
        forall|k: int| 0 <= k < l ==> !has_match(#[trigger] chain[k].regs, ty),
        has_match(chain[l].regs, ty),
        !unique_match(chain[l].regs, ty),
    ensures
        spec_select(chain, ty) == (Selection::Ambiguous { level: l }),
    decreases chain.len(),
{
    if l == 0 {
    } else {
        assert(!has_match(chain[0].regs, ty));
        assert forall|k: int| 0 <= k < l - 1 implies !has_match(
            #[trigger] chain.drop_first()[k].regs,
            ty,
        ) by {
            assert(chain.drop_first()[k] == chain[k + 1]);
        }
        assert(chain.drop_first()[l - 1] == chain[l]);
        lemma_select_ambiguous(chain.drop_first(), ty, l - 1);
    }
}

/// Execution never unsets or overwrites a populated singleton cell: a
/// value constructed once stays, exactly as first stored.
pub proof fn lemma_exec_preserves_singletons(p: PlanV, rt: RuntimeV)
    ensures
        forall|k: (int, int)| #[trigger] rt.singletons.contains_key(k) ==> spec_exec(
            p,
            rt,
        ).1.singletons.contains_key(k) && spec_exec(p, rt).1.singletons[k] == rt.singletons[k],
    decreases p, 1int, 0int,
{
    match p {
        PlanV::Instance { .. } => {
            assert(spec_exec(p, rt).1 == rt);
        },
        PlanV::Transient { deps, .. } => {
            lemma_exec_deps_preserves_singletons(deps, 0, rt);
            assert forall|k: (int, int)| #[trigger] rt.singletons.contains_key(k) implies
                spec_exec(p, rt).1.singletons.contains_key(k) && spec_exec(p, rt).1.singletons[k]
                == rt.singletons[k] by {
                assert(spec_exec_deps(deps, 0, rt).1.singletons.contains_key(k));
                assert(spec_exec(p, rt).1.singletons == spec_exec_deps(deps, 0, rt).1.singletons);
            }
        },
        PlanV::Singleton { ty, scope, index, deps } => {
            lemma_exec_deps_preserves_singletons(deps, 0, rt);
            let key = (scope as int, index);
            let rt_d = spec_exec_deps(deps, 0, rt).1;
            assert forall|k: (int, int)| #[trigger] rt.singletons.contains_key(k) implies
                spec_exec(p, rt).1.singletons.contains_key(k) && spec_exec(p, rt).1.singletons[k]
                == rt.singletons[k] by {
                assert(spec_exec_deps(deps, 0, rt).1.singletons.contains_key(k));
                assert(rt_d.singletons[k] == rt.singletons[k]);
                if rt_d.singletons.contains_key(key) {
                    assert(spec_exec(p, rt).1.singletons == rt_d.singletons);
                } else {
                    assert(k != key);
                }
            }
        },
    }
}

/// As `lemma_exec_preserves_singletons`, over a list of plans.
pub proof fn lemma_exec_deps_preserves_singletons(ps: Seq<PlanV>, i: int, rt: RuntimeV)
    ensures
        forall|k: (int, int)| #[trigger] rt.singletons.contains_key(k) ==> spec_exec_deps(
            ps,
            i,
            rt,
        ).1.singletons.contains_key(k) && spec_exec_deps(ps, i, rt).1.singletons[k]
            == rt.singletons[k],
    decreases ps, 0int, ps.len() - i,
{
    if 0 <= i < ps.len() {
        lemma_exec_preserves_singletons(ps[i], rt);
        let rt1 = spec_exec(ps[i], rt).1;
        lemma_exec_deps_preserves_singletons(ps, i + 1, rt1);
        assert forall|k: (int, int)| #[trigger] rt.singletons.contains_key(k) implies
            spec_exec_deps(ps, i, rt).1.singletons.contains_key(k) && spec_exec_deps(
            ps,
            i,
            rt,
        ).1.singletons[k] == rt.singletons[k] by {
            assert(spec_exec(ps[i], rt).1.singletons.contains_key(k));
            assert(rt1.singletons[k] == rt.singletons[k]);
            assert(spec_exec_deps(ps, i + 1, rt1).1.singletons.contains_key(k));
            assert(spec_exec_deps(ps, i, rt).1 == spec_exec_deps(ps, i + 1, rt1).1);
        }
    }
}

/// Resolving a singleton plan a second time answers with the value the
/// first resolution produced: singleton resolution is idempotent.
pub proof fn lemma_singleton_idempotent(p: PlanV, rt: RuntimeV)
    requires
        p is Singleton,
    ensures
        spec_exec(p, spec_exec(p, rt).1).0 == spec_exec(p, rt).0,
{
    match p {
        PlanV::Singleton { ty, scope, index, deps } => {
            let key = (scope as int, index);
            let (toks1, rt_d1) = spec_exec_deps(deps, 0, rt);
            let (v1, rt1) = spec_exec(p, rt);
            assert(rt1.singletons.contains_key(key) && rt1.singletons[key] == v1);
            lemma_exec_deps_preserves_singletons(deps, 0, rt1);
            assert(spec_exec_deps(deps, 0, rt1).1.singletons.contains_key(key));
            assert(spec_exec_deps(deps, 0, rt1).1.singletons[key] == v1);
        },
        _ => {},
    }
}

/// Transient resolution is not idempotent: resolving a transient plan
/// twice in a row constructs two values with distinct tokens.
pub proof fn lemma_transient_not_idempotent(p: PlanV, rt: RuntimeV)
    requires
        p is Transient,
        0 <= rt.next_token,
        rt.next_token + 2 * plan_cost(p) <= u64::MAX,
    ensures
        spec_exec(p, spec_exec(p, rt).1).0.token != spec_exec(p, rt).0.token,
{
    match p {
        PlanV::Transient { ty, deps } => {
            let (toks1, rt_d1) = spec_exec_deps(deps, 0, rt);
            let (v1, rt1) = spec_exec(p, rt);
            lemma_exec_deps_token_growth(deps, 0, rt);
            assert(rt.next_token <= rt_d1.next_token);
            assert(rt_d1.next_token <= rt.next_token + plan_cost(p) - 1);
            assert(v1.token == rt_d1.next_token as u64);
            assert(rt1.next_token == rt_d1.next_token + 1);
            let (toks2, rt_d2) = spec_exec_deps(deps, 0, rt1);
            let (v2, rt2) = spec_exec(p, rt1);
            lemma_exec_deps_token_growth(deps, 0, rt1);
            assert(rt1.next_token <= rt_d2.next_token);
            assert(rt_d2.next_token <= rt1.next_token + plan_cost(p) - 1);
            assert(v2.token == rt_d2.next_token as u64);
            assert(rt_d1.next_token < rt_d2.next_token);
            assert(0 <= rt_d1.next_token <= u64::MAX);
            assert(0 <= rt_d2.next_token <= u64::MAX);
        },
        _ => {},
    }
}

/// Registering two providers for one type at the same scope level makes
/// the graph unsatisfiable for that type: planning from any scope whose
/// nearest providers for the type are those two (or more) fails with an
/// ambiguity error naming the type, and resolution never succeeds.
pub proof fn lemma_ambiguous_never_resolves(chain: Seq<ScopeV>, ty: u64, l: int)
    requires
        0 <= l < chain.len(),
        forall|k: int| 0 <= k < l ==> !has_match(#[trigger] chain[k].regs, ty),
        has_match(chain[l].regs, ty),
        !unique_match(chain[l].regs, ty),
    ensures
        spec_plan(chain, ty, Seq::empty()) == Result::<PlanV, ErrorV>::Err(
            ErrorV { kind: ErrorKind::AmbiguousProvider, ty, trail: seq![ty] },
        ),
{
    lemma_select_ambiguous(chain, ty, l);
    let trail = Seq::<u64>::empty();
    assert(trail.no_duplicates());
    assert(trail.to_set() =~= Set::<u64>::empty());
    assert(trail.to_set().subset_of(all_targets(chain)));
    assert(trail.push(ty) =~= seq![ty]);
}

/// Requesting a type with no provider anywhere in the chain fails
/// planning with an error identifying the missing type, and resolution
/// never succeeds.
pub proof fn lemma_missing_never_resolves(chain: Seq<ScopeV>, ty: u64)
    requires
        forall|l: int| 0 <= l < chain.len() ==> !has_match(#[trigger] chain[l].regs, ty),
    ensures
        spec_plan(chain, ty, Seq::empty()) == Result::<PlanV, ErrorV>::Err(
            ErrorV { kind: ErrorKind::MissingProvider, ty, trail: seq![ty] },
        ),
{
    lemma_select_missing(chain, ty);
    let trail = Seq::<u64>::empty();
    assert(trail.no_duplicates());
    assert(trail.to_set() =~= Set::<u64>::empty());
    assert(trail.to_set().subset_of(all_targets(chain)));
    assert(trail.push(ty) =~= seq![ty]);
}

/// A plan is sound for a chain when every node of it resolves its type
/// with the provider that searching the chain selects: the kinds agree, a
/// singleton node names the selected scope's own cell, an instance node
/// carries the registered value, and the node's dependency plans match
/// the provider's declared dependency list, type for type.
pub open spec fn plan_sound(chain: Seq<ScopeV>, p: PlanV) -> bool
    decreases p, 1int, 0int,
{
    match spec_select(chain, p.ty()) {
        Selection::Found { level, index } => {
            let prov = chain[level].regs[index];
            &&& p.deps().len() == prov.dep_tys().len()
            &&& forall|j: int|
                0 <= j < p.deps().len() ==> (#[trigger] p.deps()[j]).ty() == prov.dep_tys()[j]
            &&& match p {
                PlanV::Transient { .. } => prov is Transient,
                PlanV::Singleton { scope, index: pindex, .. } => prov is Singleton && scope
                    == chain[level].id && pindex == index,
                PlanV::Instance { value, .. } => prov matches ProviderV::Instance { value: w }
                    && value == w,
            }
            &&& match p {
                PlanV::Transient { deps, .. } => plans_sound(chain, deps, 0),
                PlanV::Singleton { deps, .. } => plans_sound(chain, deps, 0),
                PlanV::Instance { .. } => true,
            }
        },
        _ => false,
    }
}

/// Whether every plan from position `i` on is sound for the chain.
pub open spec fn plans_sound(chain: Seq<ScopeV>, ps: Seq<PlanV>, i: int) -> bool
    decreases ps, 0int, ps.len() - i,
{
    if i < 0 || i >= ps.len() {
        true
    } else {
        plan_sound(chain, ps[i]) && plans_sound(chain, ps, i + 1)
    }
}

/// Opening one more type keeps a request trail well formed.
proof fn lemma_trail_push_wf(chain: Seq<ScopeV>, trail: Seq<u64>, ty: u64)
    requires
        trail.no_duplicates(),
        trail.to_set().subset_of(all_targets(chain)),
        !trail.contains(ty),
        all_targets(chain).contains(ty),
    ensures
        trail.push(ty).no_duplicates(),
        trail.push(ty).to_set().subset_of(all_targets(chain)),
        trail.push(ty).len() <= all_targets(chain).len(),
{
    let trail2 = trail.push(ty);
    assert(trail2.no_duplicates()) by {
        assert forall|a: int, b: int|
            0 <= a < trail2.len() && 0 <= b < trail2.len() && a != b implies trail2[a]
            != trail2[b] by {
            if a < trail.len() && b < trail.len() {
                assert(trail[a] != trail[b]);
            } else if a < trail.len() {
                assert(trail2[b] == ty);
                assert(trail[a] != ty);
            } else {
                assert(trail2[a] == ty);
                assert(trail[b] != ty);
            }
        }
    }
    trail.lemma_push_to_set_commute(ty);
    assert(trail2.to_set().subset_of(all_targets(chain)));
    lemma_all_targets_finite(chain);
    trail2.unique_seq_to_set();
    vstd::set_lib::lemma_len_subset(trail2.to_set(), all_targets(chain));
}

/// Every plan that planning hands back is sound for the chain it was
/// planned against, and resolves the requested type.
pub proof fn lemma_plan_sound(chain: Seq<ScopeV>, ty: u64, trail: Seq<u64>)
    requires
        trail.no_duplicates(),
        trail.to_set().subset_of(all_targets(chain)),
    ensures
        spec_plan(chain, ty, trail) matches Result::Ok(p) ==> p.ty() == ty && plan_sound(
            chain,
            p,
        ),
    decreases all_targets(chain).len() - trail.len(), 0int, 0int,
{
    match spec_select(chain, ty) {
        Selection::Found { level, index } => {
            if !trail.contains(ty) {
                lemma_select_found(chain, ty);
                lemma_target_in_all(chain, level, index);
                lemma_trail_push_wf(chain, trail, ty);
                match chain[level].regs[index] {
                    ProviderV::Instance { value } => {},
                    ProviderV::Transient { sig } => {
                        lemma_plan_deps_sound(chain, sig.deps, 0, trail.push(ty));
                        match spec_plan_deps(chain, sig.deps, 0, trail.push(ty)) {
                            Result::Ok(ps) => {
                                lemma_plans_sound_from_pointwise(chain, ps, 0);
                            },
                            Result::Err(_) => {},
                        }
                    },
                    ProviderV::Singleton { sig } => {
                        lemma_plan_deps_sound(chain, sig.deps, 0, trail.push(ty));
                        match spec_plan_deps(chain, sig.deps, 0, trail.push(ty)) {
                            Result::Ok(ps) => {
                                lemma_plans_sound_from_pointwise(chain, ps, 0);
                            },
                            Result::Err(_) => {},
                        }
                    },
                }
            }
        },
        _ => {},
    }
}

/// Every plan of a planned dependency list is sound and resolves the
/// dependency type at its position.
pub proof fn lemma_plan_deps_sound(chain: Seq<ScopeV>, tys: Seq<u64>, i: int, trail: Seq<u64>)
    requires
        0 <= i,
        trail.no_duplicates(),
        trail.to_set().subset_of(all_targets(chain)),
    ensures
        spec_plan_deps(chain, tys, i, trail) matches Result::Ok(ps) ==> {
            &&& ps.len() == if i <= tys.len() { tys.len() - i } else { 0 }
            &&& forall|j: int|
                0 <= j < ps.len() ==> (#[trigger] ps[j]).ty() == tys[i + j] && plan_sound(
                    chain,
                    ps[j],
                )
        },
    decreases all_targets(chain).len() - trail.len(), 1int, tys.len() - i,
{
    if i < tys.len() {
        lemma_plan_sound(chain, tys[i], trail);
        lemma_plan_deps_sound(chain, tys, i + 1, trail);
        match spec_plan(chain, tys[i], trail) {
            Result::Ok(p0) => {
                match spec_plan_deps(chain, tys, i + 1, trail) {
                    Result::Ok(rest) => {
                        let ps = seq![p0] + rest;
                        assert(ps[0] == p0);
                        assert(forall|j: int| 1 <= j < ps.len() ==> ps[j] == rest[j - 1]);
                    },
                    Result::Err(_) => {},
                }
            },
            Result::Err(_) => {},
        }
    }
}

/// Pointwise soundness of a list of plans is soundness of the list.
proof fn lemma_plans_sound_from_pointwise(chain: Seq<ScopeV>, ps: Seq<PlanV>, i: int)
    requires
        forall|j: int| 0 <= j < ps.len() ==> plan_sound(chain, #[trigger] ps[j]),
    ensures
        plans_sound(chain, ps, i),
    decreases ps.len() - i,
{
    if 0 <= i < ps.len() {
        lemma_plans_sound_from_pointwise(chain, ps, i + 1);
    }
}

/// Executing a sound plan against a compatible store yields a value of
/// the planned type, keeps the store compatible, and — for the kinds
/// that construct — embeds exactly one dependency token per dependency
/// plan.
pub proof fn lemma_exec_well_typed(chain: Seq<ScopeV>, p: PlanV, rt: RuntimeV)
    requires
        plan_sound(chain, p),
        distinct_scopes(chain),
        store_wf(rt.singletons, chain),
    ensures
        spec_exec(p, rt).0.ty == p.ty(),
        store_wf(spec_exec(p, rt).1.singletons, chain),
        !(p is Instance) ==> spec_exec(p, rt).0.deps.len() == p.deps().len(),
    decreases p, 1int, 0int,
{
    lemma_select_found(chain, p.ty());
    match p {
        PlanV::Instance { ty, value } => {},
        PlanV::Transient { ty, deps } => {
            lemma_exec_deps_well_typed(chain, deps, 0, rt);
        },
        PlanV::Singleton { ty, scope, index, deps } => {
            lemma_exec_deps_well_typed(chain, deps, 0, rt);
            let key = (scope as int, index);
            let rt_d = spec_exec_deps(deps, 0, rt).1;
            let toks = spec_exec_deps(deps, 0, rt).0;
            match spec_select(chain, ty) {
                Selection::Found { level, index: sel_index } => {
                    assert(chain[level].id == scope);
                    if rt_d.singletons.contains_key(key) {
                        assert(rt_d.singletons[key].ty == p.ty());
                    } else {
                        let v = ValueV { ty, token: rt_d.next_token as u64, deps: toks };
                        assert(store_wf(rt_d.singletons.insert(key, v), chain)) by {
                            assert forall|k: (int, int), l: int|
                                rt_d.singletons.insert(key, v).contains_key(k) && 0 <= l
                                    < chain.len() && chain[l].id as int == k.0 implies {
                                &&& 0 <= k.1 < chain[l].regs.len()
                                &&& rt_d.singletons.insert(key, v)[k].ty
                                    == chain[l].regs[k.1].target()
                                &&& rt_d.singletons.insert(key, v)[k].deps.len()
                                    == chain[l].regs[k.1].dep_tys().len()
                            } by {
                                if k == key {
                                    assert(chain[l].id == scope);
                                    assert(chain[level].id == scope);
                                    assert(l == level);
                                } else {
                                    assert(rt_d.singletons.contains_key(k));
                                }
                            }
                        }
                    }
                },
                _ => {},
            }
        },
    }
}

/// As `lemma_exec_well_typed`, over a list of plans: one token per plan,
/// and the store stays compatible throughout.
pub proof fn lemma_exec_deps_well_typed(chain: Seq<ScopeV>, ps: Seq<PlanV>, i: int, rt: RuntimeV)
    requires
        0 <= i,
        plans_sound(chain, ps, i),
        distinct_scopes(chain),
        store_wf(rt.singletons, chain),
    ensures
        store_wf(spec_exec_deps(ps, i, rt).1.singletons, chain),
        spec_exec_deps(ps, i, rt).0.len() == if i <= ps.len() { ps.len() - i } else { 0 },
    decreases ps, 0int, ps.len() - i,
{
    if i < ps.len() {
        lemma_exec_well_typed(chain, ps[i], rt);
        lemma_exec_deps_well_typed(chain, ps, i + 1, spec_exec(ps[i], rt).1);
    }
}

/// The scope a fork adds is empty, so it offers no targets of its own.
proof fn lemma_fork_targets(chain: Seq<ScopeV>, cid: u64)
    ensures
        all_targets(seq![ScopeV { id: cid, regs: Seq::<ProviderV>::empty() }] + chain)
            == all_targets(chain),
{
    let child = seq![ScopeV { id: cid, regs: Seq::<ProviderV>::empty() }] + chain;
    assert(child.drop_first() =~= chain);
    assert(crate::resolve::level_targets(child[0].regs) =~= Set::<u64>::empty()) by {
        assert(child[0].regs.map_values(|p: ProviderV| p.target()).len() == 0);
    }
    assert(all_targets(child) =~= all_targets(chain));
}

/// Searching from a fresh fork finds exactly what searching from the
/// forked scope finds, one level farther up.
pub proof fn lemma_select_through_fork(chain: Seq<ScopeV>, cid: u64, ty: u64)
    ensures
        ({
            let child = seq![ScopeV { id: cid, regs: Seq::<ProviderV>::empty() }] + chain;
            match spec_select(chain, ty) {
                Selection::Found { level, index } => spec_select(child, ty)
                    == (Selection::Found { level: level + 1, index }),
                Selection::NotFound => spec_select(child, ty) is NotFound,
                Selection::Ambiguous { level } => spec_select(child, ty) == (Selection::Ambiguous {
                    level: level + 1,
                }),
            }
        }),
{
    let child = seq![ScopeV { id: cid, regs: Seq::<ProviderV>::empty() }] + chain;
    assert(child.drop_first() =~= chain);
    assert(!has_match(child[0].regs, ty));
}

/// A fresh fork plans every type exactly as the scope it was forked from
/// does: the same providers, the same cells, the same wiring, and the
/// same failures.
pub proof fn lemma_plan_through_fork(chain: Seq<ScopeV>, cid: u64, ty: u64, trail: Seq<u64>)
    requires
        trail.no_duplicates(),
        trail.to_set().subset_of(all_targets(chain)),
    ensures
        spec_plan(seq![ScopeV { id: cid, regs: Seq::<ProviderV>::empty() }] + chain, ty, trail)
            == spec_plan(chain, ty, trail),
    decreases all_targets(chain).len() - trail.len(), 0int, 0int,
{
    let child = seq![ScopeV { id: cid, regs: Seq::<ProviderV>::empty() }] + chain;
    lemma_fork_targets(chain, cid);
    lemma_select_through_fork(chain, cid, ty);
    match spec_select(chain, ty) {
        Selection::Found { level, index } => {
            lemma_select_found(chain, ty);
            assert(child[level + 1] == chain[level]);
            if !trail.contains(ty) {
                lemma_target_in_all(chain, level, index);
                lemma_trail_push_wf(chain, trail, ty);
                match chain[level].regs[index] {
                    ProviderV::Instance { value } => {},
                    ProviderV::Transient { sig } => {
                        lemma_plan_deps_through_fork(chain, cid, sig.deps, 0, trail.push(ty));
                    },
                    ProviderV::Singleton { sig } => {
                        lemma_plan_deps_through_fork(chain, cid, sig.deps, 0, trail.push(ty));
                    },
                }
            }
        },
        _ => {},
    }
}

/// As `lemma_plan_through_fork`, over a dependency list.
pub proof fn lemma_plan_deps_through_fork(
    chain: Seq<ScopeV>,
    cid: u64,
    tys: Seq<u64>,
    i: int,
    trail: Seq<u64>,
)
    requires
        trail.no_duplicates(),
        trail.to_set().subset_of(all_targets(chain)),
    ensures
        spec_plan_deps(
            seq![ScopeV { id: cid, regs: Seq::<ProviderV>::empty() }] + chain,
            tys,
            i,
            trail,
        ) == spec_plan_deps(chain, tys, i, trail),
    decreases all_targets(chain).len() - trail.len(), 1int, tys.len() - i,
{
    lemma_fork_targets(chain, cid);
    if 0 <= i < tys.len() {
        lemma_plan_through_fork(chain, cid, tys[i], trail);
        lemma_plan_deps_through_fork(chain, cid, tys, i + 1, trail);
    }
}

/// For a container whose graph plans the requested type — exactly one
/// nearest provider for it and, recursively, for everything it needs —
/// resolution returns a value of the requested type, wired through the
/// selected providers: for the constructing kinds, the value embeds one
/// resolved dependency token per declared dependency, and the plans
/// beneath it resolve exactly the provider's declared dependency types,
/// in order.
pub proof fn lemma_resolution_well_typed(chain: Seq<ScopeV>, ty: u64, rt: RuntimeV)
    requires
        spec_plan(chain, ty, Seq::empty()) is Ok,
        distinct_scopes(chain),
        store_wf(rt.singletons, chain),
    ensures
        spec_plan(chain, ty, Seq::empty()) matches Result::Ok(p) ==> {
            &&& p.ty() == ty
            &&& plan_sound(chain, p)
            &&& spec_exec(p, rt).0.ty == ty
            &&& store_wf(spec_exec(p, rt).1.singletons, chain)
            &&& (!(p is Instance) ==> spec_exec(p, rt).0.deps.len() == p.deps().len())
        },
{
    let trail = Seq::<u64>::empty();
    assert(trail.to_set() =~= Set::<u64>::empty());
    assert(trail.to_set().subset_of(all_targets(chain)));
    lemma_plan_sound(chain, ty, trail);
    match spec_plan(chain, ty, trail) {
        Result::Ok(p) => {
            lemma_exec_well_typed(chain, p, rt);
        },
        Result::Err(_) => {},
    }
}

/// Singleton resolution is shared across forks: a child forked off a
/// scope plans a singleton type exactly as the parent does, and resolving
/// it again — from the parent or from the fork, against the same runtime
/// — answers with the identical value the first resolution produced.
pub proof fn lemma_singleton_shared_across_fork(
    chain: Seq<ScopeV>,
    cid: u64,
    ty: u64,
    rt: RuntimeV,
)
    requires
        spec_plan(chain, ty, Seq::empty()) matches Result::Ok(p) && p is Singleton,
    ensures
        spec_plan(seq![ScopeV { id: cid, regs: Seq::<ProviderV>::empty() }] + chain, ty, Seq::empty())
            == spec_plan(chain, ty, Seq::empty()),
        spec_plan(chain, ty, Seq::empty()) matches Result::Ok(p) ==> spec_exec(
            p,
            spec_exec(p, rt).1,
        ).0 == spec_exec(p, rt).0,
{
    let trail = Seq::<u64>::empty();
    assert(trail.to_set() =~= Set::<u64>::empty());
    assert(trail.to_set().subset_of(all_targets(chain)));
    lemma_plan_through_fork(chain, cid, ty, trail);
    match spec_plan(chain, ty, trail) {
        Result::Ok(p) => {
            lemma_singleton_idempotent(p, rt);
        },
        Result::Err(_) => {},
    }
}

/// Shadowing: a scope that itself registers exactly one provider for a
/// type resolves the type with that provider — the nearest scope wins —
/// whatever any ancestor scope registers for the same type.
pub proof fn lemma_shadowing(chain: Seq<ScopeV>, ty: u64)
    requires
        chain.len() >= 1,
        has_match(chain[0].regs, ty),
        unique_match(chain[0].regs, ty),
    ensures
        spec_select(chain, ty) == (Selection::Found {
            level: 0,
            index: first_match(chain[0].regs, ty),
        }),
        spec_plan(chain, ty, Seq::empty()) matches Result::Ok(p) ==> {
            let prov = chain[0].regs[first_match(chain[0].regs, ty)];
            &&& (prov is Transient ==> p is Transient)
            &&& (prov is Singleton ==> (p matches PlanV::Singleton { scope, index, .. }
                && scope == chain[0].id && index == first_match(chain[0].regs, ty)))
            &&& (prov matches ProviderV::Instance { value } ==> p == (PlanV::Instance {
                ty,
                value,
            }))
        },
{
    lemma_select_found(chain, ty);
}

/// A chain that selects nothing for a type truly holds no provider for
/// it, at any level.
pub proof fn lemma_select_notfound_sound(chain: Seq<ScopeV>, ty: u64)
    requires
        spec_select(chain, ty) is NotFound,
    ensures
        forall|l: int| 0 <= l < chain.len() ==> !has_match(#[trigger] chain[l].regs, ty),
    decreases chain.len(),
{
    if chain.len() > 0 {
        lemma_select_notfound_sound(chain.drop_first(), ty);
        assert forall|l: int| 0 <= l < chain.len() implies !has_match(
            #[trigger] chain[l].regs,
            ty,
        ) by {
            if l > 0 {
                assert(chain.drop_first()[l - 1] == chain[l]);
            }
        }
    }
}

/// A chain that reports ambiguity for a type truly holds two or more
/// providers for it at the reported level, the nearest one with any.
pub proof fn lemma_select_ambiguous_sound(chain: Seq<ScopeV>, ty: u64)
    ensures
        spec_select(chain, ty) matches Selection::Ambiguous { level } ==> {
            &&& 0 <= level < chain.len()
            &&& has_match(chain[level].regs, ty)
            &&& !unique_match(chain[level].regs, ty)
            &&& forall|l: int| 0 <= l < level ==> !has_match(#[trigger] chain[l].regs, ty)
        },
    decreases chain.len(),
{
    if chain.len() == 0 {
    } else if has_match(chain[0].regs, ty) {
    } else {
        lemma_select_ambiguous_sound(chain.drop_first(), ty);
        match spec_select(chain.drop_first(), ty) {
            Selection::Ambiguous { level } => {
                assert(chain.drop_first()[level] == chain[level + 1]);
                assert forall|l: int| 0 <= l < level + 1 implies !has_match(
                    #[trigger] chain[l].regs,
                    ty,
                ) by {
                    if l > 0 {
                        assert(chain.drop_first()[l - 1] == chain[l]);
                    }
                }
            },
            _ => {},
        }
    }
}

/// Every diagnostic that planning reports is genuine: an error naming a
/// type as missing means no provider for that type stands anywhere in
/// the chain; one naming it ambiguous means two or more providers for it
/// stand at the nearest level holding any; one naming a circular
/// dependency closes a true cycle — the failing type was already open
/// when it was requested again. Every diagnostic's trail extends the
/// open requests and ends with the failing type.
pub proof fn lemma_plan_error_sound(chain: Seq<ScopeV>, ty: u64, trail: Seq<u64>)
    requires
        trail.no_duplicates(),
        trail.to_set().subset_of(all_targets(chain)),
    ensures
        spec_plan(chain, ty, trail) matches Result::Err(e) ==> {
            &&& e.trail.len() > trail.len()
            &&& e.trail.last() == e.ty
            &&& e.trail.take(trail.len() as int) == trail
            &&& (e.kind == ErrorKind::MissingProvider ==> forall|l: int|
                0 <= l < chain.len() ==> !has_match(#[trigger] chain[l].regs, e.ty))
            &&& (e.kind == ErrorKind::AmbiguousProvider ==> exists|l: int|
                0 <= l < chain.len() && has_match(#[trigger] chain[l].regs, e.ty)
                    && !unique_match(chain[l].regs, e.ty))
            &&& (e.kind == ErrorKind::CircularDependency ==> exists|j: int|
                0 <= j < e.trail.len() - 1 && e.trail[j] == e.ty)
        },
    decreases all_targets(chain).len() - trail.len(), 0int, 0int,
{
    match spec_select(chain, ty) {
        Selection::NotFound => {
            lemma_select_notfound_sound(chain, ty);
            assert(trail.push(ty).take(trail.len() as int) =~= trail);
        },
        Selection::Ambiguous { level } => {
            lemma_select_ambiguous_sound(chain, ty);
            assert(trail.push(ty).take(trail.len() as int) =~= trail);
        },
        Selection::Found { level, index } => {
            if trail.contains(ty) {
                assert(trail.push(ty).take(trail.len() as int) =~= trail);
                let j = choose|j: int| 0 <= j < trail.len() && trail[j] == ty;
                assert(trail.push(ty)[j] == ty);
            } else {
                lemma_select_found(chain, ty);
                lemma_target_in_all(chain, level, index);
                lemma_trail_push_wf(chain, trail, ty);
                assert(trail.push(ty).take(trail.len() as int) =~= trail);
                match chain[level].regs[index] {
                    ProviderV::Instance { .. } => {},
                    ProviderV::Transient { sig } => {
                        lemma_plan_deps_error_sound(chain, sig.deps, 0, trail.push(ty), trail);
                    },
                    ProviderV::Singleton { sig } => {
                        lemma_plan_deps_error_sound(chain, sig.deps, 0, trail.push(ty), trail);
                    },
                }
            }
        },
    }
}

/// As `lemma_plan_error_sound`, over a dependency list whose open
/// requests extend an enclosing trail.
proof fn lemma_plan_deps_error_sound(
    chain: Seq<ScopeV>,
    tys: Seq<u64>,
    i: int,
    trail: Seq<u64>,
    outer: Seq<u64>,
)
    requires
        trail.no_duplicates(),
        trail.to_set().subset_of(all_targets(chain)),
        outer.len() < trail.len(),
        trail.take(outer.len() as int) == outer,
    ensures
        spec_plan_deps(chain, tys, i, trail) matches Result::Err(e) ==> {
            &&& e.trail.len() > outer.len()
            &&& e.trail.last() == e.ty
            &&& e.trail.take(outer.len() as int) == outer
            &&& (e.kind == ErrorKind::MissingProvider ==> forall|l: int|
                0 <= l < chain.len() ==> !has_match(#[trigger] chain[l].regs, e.ty))
            &&& (e.kind == ErrorKind::AmbiguousProvider ==> exists|l: int|
                0 <= l < chain.len() && has_match(#[trigger] chain[l].regs, e.ty)
                    && !unique_match(chain[l].regs, e.ty))
            &&& (e.kind == ErrorKind::CircularDependency ==> exists|j: int|
                0 <= j < e.trail.len() - 1 && e.trail[j] == e.ty)
        },
    decreases all_targets(chain).len() - trail.len(), 1int, tys.len() - i,
{
    if 0 <= i < tys.len() {
        lemma_plan_error_sound(chain, tys[i], trail);
        lemma_plan_deps_error_sound(chain, tys, i + 1, trail, outer);
        match spec_plan(chain, tys[i], trail) {
            Result::Err(e) => {
                assert(e.trail.take(trail.len() as int) == trail);
                assert(e.trail.take(outer.len() as int) =~= trail.take(outer.len() as int));
            },
            Result::Ok(_) => {},
        }
    }
}

/// A type with exactly one reachable provider that itself needs nothing
/// resolves successfully: planning is owed an answer.
pub proof fn lemma_leaf_provider_resolves(chain: Seq<ScopeV>, ty: u64)
    requires
        spec_select(chain, ty) matches Selection::Found { level, index } && chain[level].regs[
            index
        ].dep_tys().len() == 0,
    ensures
        spec_plan(chain, ty, Seq::empty()) is Ok,
{
    lemma_select_found(chain, ty);
    let trail = Seq::<u64>::empty();
    assert(trail.to_set() =~= Set::<u64>::empty());
    assert(trail.to_set().subset_of(all_targets(chain)));
    match spec_select(chain, ty) {
        Selection::Found { level, index } => {
            lemma_target_in_all(chain, level, index);
            lemma_trail_push_wf(chain, trail, ty);
            match chain[level].regs[index] {
                ProviderV::Instance { .. } => {},
                ProviderV::Transient { sig } => {
                    assert(spec_plan_deps(chain, sig.deps, 0, trail.push(ty)) == Result::<
                        Seq<PlanV>,
                        ErrorV,
                    >::Ok(Seq::empty()));
                },
                ProviderV::Singleton { sig } => {
                    assert(spec_plan_deps(chain, sig.deps, 0, trail.push(ty)) == Result::<
                        Seq<PlanV>,
                        ErrorV,
                    >::Ok(Seq::empty()));
                },
            }
        },
        _ => {},
    }
}

/// The identifiers of the scopes of a chain.
pub open spec fn chain_ids(chain: Seq<ScopeV>) -> Set<u64> {
    chain.map_values(|s: ScopeV| s.id).to_set()
}

/// The scopes whose cells executing this plan can touch.
pub open spec fn plan_scopes(p: PlanV) -> Set<u64>
    decreases p, 1int, 0int,
{
    match p {
        PlanV::Instance { .. } => Set::empty(),
        PlanV::Transient { deps, .. } => plan_scopes_deps(deps, 0),
        PlanV::Singleton { scope, deps, .. } => plan_scopes_deps(deps, 0).insert(scope),
    }
}

/// The scopes whose cells executing the plans from position `i` on can
/// touch.
pub open spec fn plan_scopes_deps(ps: Seq<PlanV>, i: int) -> Set<u64>
    decreases ps, 0int, ps.len() - i,
{
    if i < 0 || i >= ps.len() {
        Set::empty()
    } else {
        plan_scopes(ps[i]).union(plan_scopes_deps(ps, i + 1))
    }
}

/// Execution populates cells only in the plan's own scopes: every key it
/// adds names a scope the plan touches.
pub proof fn lemma_exec_new_keys(p: PlanV, rt: RuntimeV)
    ensures
        forall|k: (int, int)| #[trigger] spec_exec(p, rt).1.singletons.contains_key(k)
            ==> rt.singletons.contains_key(k) || exists|s: u64|
            plan_scopes(p).contains(s) && s as int == k.0,
    decreases p, 1int, 0int,
{
    match p {
        PlanV::Instance { .. } => {
            assert(spec_exec(p, rt).1 == rt);
        },
        PlanV::Transient { deps, .. } => {
            lemma_exec_deps_new_keys(deps, 0, rt);
            assert forall|k: (int, int)| #[trigger] spec_exec(p, rt).1.singletons.contains_key(k)
                implies rt.singletons.contains_key(k) || exists|s: u64|
                plan_scopes(p).contains(s) && s as int == k.0 by {
                assert(spec_exec(p, rt).1.singletons == spec_exec_deps(deps, 0, rt).1.singletons);
                if !rt.singletons.contains_key(k) {
                    let s = choose|s: u64| plan_scopes_deps(deps, 0).contains(s) && s as int == k.0;
                    assert(plan_scopes(p).contains(s));
                }
            }
        },
        PlanV::Singleton { ty, scope, index, deps } => {
            lemma_exec_deps_new_keys(deps, 0, rt);
            let key = (scope as int, index);
            let rt_d = spec_exec_deps(deps, 0, rt).1;
            assert forall|k: (int, int)| #[trigger] spec_exec(p, rt).1.singletons.contains_key(k)
                implies rt.singletons.contains_key(k) || exists|s: u64|
                plan_scopes(p).contains(s) && s as int == k.0 by {
                if !rt.singletons.contains_key(k) {
                    if k == key {
                        assert(plan_scopes(p).contains(scope));
                    } else {
                        assert(rt_d.singletons.contains_key(k));
                        let s = choose|s: u64|
                            plan_scopes_deps(deps, 0).contains(s) && s as int == k.0;
                        assert(plan_scopes(p).contains(s));
                    }
                }
            }
        },
    }
}

/// As `lemma_exec_new_keys`, over a list of plans.
pub proof fn lemma_exec_deps_new_keys(ps: Seq<PlanV>, i: int, rt: RuntimeV)
    ensures
        forall|k: (int, int)| #[trigger] spec_exec_deps(ps, i, rt).1.singletons.contains_key(k)
            ==> rt.singletons.contains_key(k) || exists|s: u64|
            plan_scopes_deps(ps, i).contains(s) && s as int == k.0,
    decreases ps, 0int, ps.len() - i,
{
    if 0 <= i < ps.len() {
        lemma_exec_new_keys(ps[i], rt);
        let rt1 = spec_exec(ps[i], rt).1;
        lemma_exec_deps_new_keys(ps, i + 1, rt1);
        assert forall|k: (int, int)|
            #[trigger] spec_exec_deps(ps, i, rt).1.singletons.contains_key(k) implies
            rt.singletons.contains_key(k) || exists|s: u64|
            plan_scopes_deps(ps, i).contains(s) && s as int == k.0 by {
            assert(spec_exec_deps(ps, i, rt).1 == spec_exec_deps(ps, i + 1, rt1).1);
            if !rt.singletons.contains_key(k) {
                if rt1.singletons.contains_key(k) {
                    let s = choose|s: u64| plan_scopes(ps[i]).contains(s) && s as int == k.0;
                    assert(plan_scopes_deps(ps, i).contains(s));
                } else {
                    let tail = plan_scopes_deps(ps, i + 1);
                    let s = choose|s: u64| tail.contains(s) && s as int == k.0;
                    assert(plan_scopes_deps(ps, i).contains(s));
                }
            }
        }
    }
}

/// A sound plan touches only scopes of its own chain.
pub proof fn lemma_plan_scopes_in_chain(chain: Seq<ScopeV>, p: PlanV)
    requires
        plan_sound(chain, p),
    ensures
        plan_scopes(p).subset_of(chain_ids(chain)),
    decreases p, 1int, 0int,
{
    broadcast use vstd::seq_lib::group_seq_lib_default;

    lemma_select_found(chain, p.ty());
    match p {
        PlanV::Instance { .. } => {},
        PlanV::Transient { deps, .. } => {
            lemma_plan_deps_scopes_in_chain(chain, deps, 0);
        },
        PlanV::Singleton { ty, scope, index, deps } => {
            lemma_plan_deps_scopes_in_chain(chain, deps, 0);
            match spec_select(chain, ty) {
                Selection::Found { level, index: sel_index } => {
                    let f = |s: ScopeV| s.id;
                    assert(chain.map_values(f)[level] == chain[level].id);
                    assert(chain.map_values(f).contains(scope));
                    assert(chain_ids(chain).contains(scope));
                },
                _ => {},
            }
        },
    }
}

/// As `lemma_plan_scopes_in_chain`, over a list of plans.
pub proof fn lemma_plan_deps_scopes_in_chain(chain: Seq<ScopeV>, ps: Seq<PlanV>, i: int)
    requires
        0 <= i,
        plans_sound(chain, ps, i),
    ensures
        plan_scopes_deps(ps, i).subset_of(chain_ids(chain)),
    decreases ps, 0int, ps.len() - i,
{
    if i < ps.len() {
        lemma_plan_scopes_in_chain(chain, ps[i]);
        lemma_plan_deps_scopes_in_chain(chain, ps, i + 1);
    }
}

/// Sibling scopes keep their singletons apart: two forks of one scope,
/// under distinct fresh identifiers, each holding its own singleton
/// provider for a type, construct and cache their values independently —
/// the first sibling's resolution populates no cell of the second, and
/// the second constructs its own, distinct value rather than answering
/// with the first sibling's.
pub proof fn lemma_sibling_singletons_independent(
    chain: Seq<ScopeV>,
    sib1: ScopeV,
    sib2: ScopeV,
    ty1: u64,
    ty2: u64,
    rt0: RuntimeV,
)
    requires
        spec_plan(seq![sib1] + chain, ty1, Seq::empty()) matches Result::Ok(p1) && p1 matches
            PlanV::Singleton { scope: s1, .. } && s1 == sib1.id,
        spec_plan(seq![sib2] + chain, ty2, Seq::empty()) matches Result::Ok(p2) && p2 matches
            PlanV::Singleton { scope: s2, .. } && s2 == sib2.id,
        !chain_ids(seq![sib1] + chain).contains(sib2.id),
        forall|j: int| !rt0.singletons.contains_key((sib1.id as int, j)),
        forall|j: int| !rt0.singletons.contains_key((sib2.id as int, j)),
        !plan_scopes_deps(spec_plan(seq![sib1] + chain, ty1, Seq::empty())->Ok_0.deps(), 0)
            .contains(sib1.id),
        !plan_scopes_deps(spec_plan(seq![sib2] + chain, ty2, Seq::empty())->Ok_0.deps(), 0)
            .contains(sib2.id),
        0 <= rt0.next_token,
        rt0.next_token + plan_cost_sum(seq![sib1] + chain, ty1, seq![sib2] + chain, ty2)
            <= u64::MAX,
    ensures
        ({
            let p1 = spec_plan(seq![sib1] + chain, ty1, Seq::empty())->Ok_0;
            let p2 = spec_plan(seq![sib2] + chain, ty2, Seq::empty())->Ok_0;
            let (v1, rt1) = spec_exec(p1, rt0);
            let (v2, rt2) = spec_exec(p2, rt1);
            &&& forall|j: int| !(#[trigger] rt1.singletons.contains_key((sib2.id as int, j)))
            &&& v2.token != v1.token
            &&& rt2.singletons.contains_key((sib2.id as int, p2->Singleton_index))
            &&& rt2.singletons[(sib2.id as int, p2->Singleton_index)] == v2
        }),
{
    let c1 = seq![sib1] + chain;
    let c2 = seq![sib2] + chain;
    let p1 = spec_plan(c1, ty1, Seq::empty())->Ok_0;
    let p2 = spec_plan(c2, ty2, Seq::empty())->Ok_0;
    let trail = Seq::<u64>::empty();
    assert(trail.to_set() =~= Set::<u64>::empty());
    assert(trail.to_set().subset_of(all_targets(c1)));
    lemma_plan_sound(c1, ty1, trail);
    lemma_plan_scopes_in_chain(c1, p1);
    lemma_exec_new_keys(p1, rt0);
    let (v1, rt1) = spec_exec(p1, rt0);
    assert(plan_cost_sum(c1, ty1, c2, ty2) == plan_cost(p1) + plan_cost(p2));
    assert forall|j: int| !(#[trigger] rt1.singletons.contains_key((sib2.id as int, j))) by {
        if rt1.singletons.contains_key((sib2.id as int, j)) {
            assert(!rt0.singletons.contains_key((sib2.id as int, j)));
            let aim = (sib2.id as int, j);
            let s = choose|s: u64| plan_scopes(p1).contains(s) && s as int == aim.0;
            assert(chain_ids(c1).contains(s));
            assert(s == sib2.id);
        }
    }
    match p1 {
        PlanV::Singleton { scope: s1, index: i1, deps: deps1, .. } => {
            let key1 = (sib1.id as int, i1);
            assert forall|s: u64| plan_scopes_deps(deps1, 0).contains(s) implies s as int
                != key1.0 by {
                if s as int == key1.0 {
                    assert(s == sib1.id);
                }
            }
            lemma_exec_deps_preserves_cell_absence(deps1, 0, rt0, key1);
            lemma_exec_deps_token_growth(deps1, 0, rt0);
            let rt_d1 = spec_exec_deps(deps1, 0, rt0).1;
            assert(!rt_d1.singletons.contains_key(key1));
            assert(v1.token == rt_d1.next_token as u64);
            assert(rt1.next_token == rt_d1.next_token + 1);
            assert(rt_d1.next_token <= rt0.next_token + plan_cost(p1) - 1);
            match p2 {
                PlanV::Singleton { scope: s2, index: i2, deps: deps2, .. } => {
                    let key2 = (sib2.id as int, i2);
                    assert(!rt1.singletons.contains_key(key2));
                    assert forall|s: u64| plan_scopes_deps(deps2, 0).contains(s) implies s as int
                        != key2.0 by {
                        if s as int == key2.0 {
                            assert(s == sib2.id);
                        }
                    }
                    lemma_exec_deps_preserves_cell_absence(deps2, 0, rt1, key2);
                    lemma_exec_deps_token_growth(deps2, 0, rt1);
                    let rt_d2 = spec_exec_deps(deps2, 0, rt1).1;
                    assert(!rt_d2.singletons.contains_key(key2));
                    let (v2, rt2) = spec_exec(p2, rt1);
                    assert(v2.token == rt_d2.next_token as u64);
                    assert(rt_d2.next_token >= rt1.next_token);
                    assert(rt_d2.next_token <= rt1.next_token + plan_cost(p2) - 1);
                    assert(0 <= rt_d1.next_token <= u64::MAX);
                    assert(0 <= rt_d2.next_token <= u64::MAX);
                    assert(v1.token != v2.token);
                    assert(rt2.singletons == rt_d2.singletons.insert(key2, v2));
                },
                _ => {},
            }
        },
        _ => {},
    }
}

/// The total token budget of resolving one type from each of two chains.
pub open spec fn plan_cost_sum(c1: Seq<ScopeV>, ty1: u64, c2: Seq<ScopeV>, ty2: u64) -> nat {
    crate::resolve::plan_cost_of(c1, ty1) + crate::resolve::plan_cost_of(c2, ty2)
}

/// Execution cannot populate a cell whose scope it never touches.
proof fn lemma_exec_deps_preserves_cell_absence(
    ps: Seq<PlanV>,
    i: int,
    rt: RuntimeV,
    key: (int, int),
)
    requires
        !rt.singletons.contains_key(key),
        forall|s: u64| plan_scopes_deps(ps, i).contains(s) ==> s as int != key.0,
    ensures
        !spec_exec_deps(ps, i, rt).1.singletons.contains_key(key),
    decreases ps, 0int, ps.len() - i,
{
    lemma_exec_deps_new_keys(ps, i, rt);
}

/// Whether every scope identifier of the chain lies below the bound;
/// chains a runtime numbered lie below its next identifier.
pub open spec fn scopes_below(chain: Seq<ScopeV>, bound: int) -> bool {
    forall|l: int| 0 <= l < chain.len() ==> (#[trigger] chain[l].id) < bound
}

/// Forking keeps scope identifiers distinct: a chain of distinct
/// identifiers below a bound stays distinct when a scope carrying the
/// bound itself is put in front — which is exactly the chain `fork`
/// builds, since the runtime mints each new identifier above every one
/// it handed out before.
pub proof fn lemma_fork_scopes_distinct(chain: Seq<ScopeV>, sib: ScopeV, bound: int)
    requires
        distinct_scopes(chain),
        scopes_below(chain, sib.id as int),
    ensures
        distinct_scopes(seq![sib] + chain),
        scopes_below(seq![sib] + chain, sib.id + 1),
{
    let child = seq![sib] + chain;
    assert forall|l1: int, l2: int|
        0 <= l1 < child.len() && 0 <= l2 < child.len() && #[trigger] child[l1].id == #[trigger]
        child[l2].id implies l1 == l2 by {
        if l1 > 0 && l2 > 0 {
            assert(child[l1] == chain[l1 - 1] && child[l2] == chain[l2 - 1]);
        } else if l1 == 0 && l2 > 0 {
            assert(child[l2] == chain[l2 - 1]);
            assert(chain[l2 - 1].id < sib.id);
        } else if l2 == 0 && l1 > 0 {
            assert(child[l1] == chain[l1 - 1]);
            assert(chain[l1 - 1].id < sib.id);
        }
    }
    assert forall|l: int| 0 <= l < child.len() implies (#[trigger] child[l].id) < sib.id + 1 by {
        if l > 0 {
            assert(child[l] == chain[l - 1]);
        }
    }
}

} // verus!
