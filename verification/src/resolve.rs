use crate::inject::Value;
use crate::inject::ValueV;
use crate::inject::copy_tokens;
use crate::module::Module;
use crate::module::Parent;
use crate::module::ScopeV;
use crate::provider::Provider;
use crate::provider::ProviderV;
use crate::runtime::Runtime;
use crate::runtime::RuntimeV;
use crate::select_provider::ProviderIndex;
use crate::select_provider::SelectOutcome;
use crate::select_provider::Selection;
use crate::select_provider::lemma_select_found;
use crate::select_provider::spec_select;
use vstd::prelude::*;

verus! {

/// Why assembling a resolution plan failed.
#[derive(Clone, Copy, Debug, PartialEq, Eq, Structural)]
pub enum ErrorKind {
    /// No provider for the type exists anywhere in the scope chain.
    MissingProvider,
    /// Two or more providers for the type stand at the same scope level.
    AmbiguousProvider,
    /// The type's dependencies lead back to the type itself.
    CircularDependency,
}

/// A diagnostic from the assembly-time search: what went wrong, the type
/// it went wrong for, and the chain of requests that led there, from the
/// type first asked for down to the failing one.
#[derive(Debug)]
pub struct ResolveError {
    pub kind: ErrorKind,
    pub ty: u64,
    pub trail: Vec<u64>,
}

/// The mathematical image of a `ResolveError`.
#[verifier::ext_equal]
pub ghost struct ErrorV {
    pub kind: ErrorKind,
    pub ty: u64,
    pub trail: Seq<u64>,
}

impl View for ResolveError {
    type V = ErrorV;

    open spec fn view(&self) -> ErrorV {
        ErrorV { kind: self.kind, ty: self.ty, trail: self.trail@ }
    }
}

/// The frozen wiring for one request: which provider answers each type
/// and, beneath it, the plans for the provider's own dependencies, in
/// declaration order. Building the plan is the dry-run search; executing
/// it is the only step that runs constructors.
#[derive(Debug)]
pub enum Plan {
    /// Construct a fresh value.
    Transient { ty: u64, deps: Vec<Plan> },
    /// Construct at most once; the cell of scope `scope` at position
    /// `index` keeps the value.
    Singleton { ty: u64, scope: u64, index: usize, deps: Vec<Plan> },
    /// Answer with the value supplied at registration time.
    Instance { ty: u64, value: Value },
}

/// The mathematical image of a `Plan`.
#[verifier::ext_equal]
pub ghost enum PlanV {
    Transient { ty: u64, deps: Seq<PlanV> },
    Singleton { ty: u64, scope: u64, index: int, deps: Seq<PlanV> },
    Instance { ty: u64, value: ValueV },
}

impl PlanV {
    /// The type this plan node resolves.
    pub open spec fn ty(self) -> u64 {
        match self {
            PlanV::Transient { ty, .. } => ty,
            PlanV::Singleton { ty, .. } => ty,
            PlanV::Instance { ty, .. } => ty,
        }
    }

    /// The dependency plans beneath this node.
    pub open spec fn deps(self) -> Seq<PlanV> {
        match self {
            PlanV::Transient { deps, .. } => deps,
            PlanV::Singleton { deps, .. } => deps,
            PlanV::Instance { .. } => Seq::empty(),
        }
    }
}

/// The image of a plan.
pub open spec fn plan_view(p: Plan) -> PlanV
    decreases p,
{
    match p {
        Plan::Transient { ty, deps } => PlanV::Transient { ty, deps: plan_views(deps@) },
        Plan::Singleton { ty, scope, index, deps } => PlanV::Singleton {
            ty,
            scope,
            index: index as int,
            deps: plan_views(deps@),
        },
        Plan::Instance { ty, value } => PlanV::Instance { ty, value: value@ },
    }
}

/// The images of a list of plans, in order.
pub open spec fn plan_views(ps: Seq<Plan>) -> Seq<PlanV>
    decreases ps,
{
    if ps.len() == 0 {
        Seq::empty()
    } else {
        seq![plan_view(ps[0])] + plan_views(ps.drop_first())
    }
}

/// The images of a list of plans, element by element.
pub proof fn lemma_plan_views(ps: Seq<Plan>)
    ensures
        plan_views(ps).len() == ps.len(),
        forall|i: int| 0 <= i < ps.len() ==> plan_views(ps)[i] == plan_view(ps[i]),
    decreases ps.len(),
{
    if ps.len() > 0 {
        lemma_plan_views(ps.drop_first());
    }
}

impl View for Plan {
    type V = PlanV;

    open spec fn view(&self) -> PlanV {
        plan_view(*self)
    }
}

/// The image of a planning result.
pub open spec fn plan_result_view(r: Result<Plan, ResolveError>) -> Result<PlanV, ErrorV> {
    match r {
        Result::Ok(p) => Result::Ok(plan_view(p)),
        Result::Err(e) => Result::Err(e@),
    }
}

/// The types produced by the providers of one registry.
pub open spec fn level_targets(reg: Seq<ProviderV>) -> Set<u64> {
    reg.map_values(|p: ProviderV| p.target()).to_set()
}

/// The types produced by any provider anywhere in the chain.
pub open spec fn all_targets(chain: Seq<ScopeV>) -> Set<u64>
    decreases chain.len(),
{
    if chain.len() == 0 {
        Set::empty()
    } else {
        level_targets(chain[0].regs).union(all_targets(chain.drop_first()))
    }
}

/// Finitely many providers produce finitely many types.
pub proof fn lemma_all_targets_finite(chain: Seq<ScopeV>)
    ensures
        all_targets(chain).finite(),
    decreases chain.len(),
{
    broadcast use vstd::seq_lib::seq_to_set_is_finite;

    if chain.len() > 0 {
        lemma_all_targets_finite(chain.drop_first());
    }
}

/// Every provider's target is among the chain's targets.
pub proof fn lemma_target_in_all(chain: Seq<ScopeV>, level: int, index: int)
    requires
        0 <= level < chain.len(),
        0 <= index < chain[level].regs.len(),
    ensures
        all_targets(chain).contains(chain[level].regs[index].target()),
    decreases chain.len(),
{
    broadcast use vstd::seq_lib::group_seq_lib_default;

    if level == 0 {
        let f = |p: ProviderV| p.target();
        assert(chain[0].regs.map_values(f)[index] == chain[0].regs[index].target());
        assert(chain[0].regs.map_values(f).contains(chain[0].regs[index].target()));
    } else {
        lemma_target_in_all(chain.drop_first(), level - 1, index);
        assert(chain.drop_first()[level - 1] == chain[level]);
    }
}

/// The planning search, from a scope whose visible registries are
/// `chain`: select the provider for the type (nearest scope first, one
/// match per level), then plan each of its declared dependencies the same
/// way, from the same requesting scope. `trail` holds the types whose
/// planning is still open, in request order; meeting one of them again is
/// a circular dependency. Errors name the failing type and the request
/// trail down to it.
pub open spec fn spec_plan(chain: Seq<ScopeV>, ty: u64, trail: Seq<u64>) -> Result<
    PlanV,
    ErrorV,
>
    decreases all_targets(chain).len() - trail.len(), 0int, 0int,
        when trail.no_duplicates() && trail.to_set().subset_of(all_targets(chain))
        via spec_plan_decreases
{
    match spec_select(chain, ty) {
        Selection::NotFound => Result::Err(
            ErrorV { kind: ErrorKind::MissingProvider, ty, trail: trail.push(ty) },
        ),
        Selection::Ambiguous { .. } => Result::Err(
            ErrorV { kind: ErrorKind::AmbiguousProvider, ty, trail: trail.push(ty) },
        ),
        Selection::Found { level, index } => {
            if trail.contains(ty) {
                Result::Err(
                    ErrorV { kind: ErrorKind::CircularDependency, ty, trail: trail.push(ty) },
                )
            } else {
                match chain[level].regs[index] {
                    ProviderV::Instance { value } => Result::Ok(PlanV::Instance { ty, value }),
                    ProviderV::Transient { sig } => match spec_plan_deps(
                        chain,
                        sig.deps,
                        0,
                        trail.push(ty),
                    ) {
                        Result::Ok(deps) => Result::Ok(PlanV::Transient { ty, deps }),
                        Result::Err(e) => Result::Err(e),
                    },
                    ProviderV::Singleton { sig } => match spec_plan_deps(
                        chain,
                        sig.deps,
                        0,
                        trail.push(ty),
                    ) {
                        Result::Ok(deps) => Result::Ok(
                            PlanV::Singleton { ty, scope: chain[level].id, index, deps },
                        ),
                        Result::Err(e) => Result::Err(e),
                    },
                }
            }
        },
    }
}

/// Plans the dependency types from position `i` on, in order; the first
/// failure is the whole list's failure.
pub open spec fn spec_plan_deps(
    chain: Seq<ScopeV>,
    tys: Seq<u64>,
    i: int,
    trail: Seq<u64>,
) -> Result<Seq<PlanV>, ErrorV>
    decreases all_targets(chain).len() - trail.len(), 1int, tys.len() - i,
        when trail.no_duplicates() && trail.to_set().subset_of(all_targets(chain))
{
    if i < 0 || i >= tys.len() {
        Result::Ok(Seq::empty())
    } else {
        match spec_plan(chain, tys[i], trail) {
            Result::Err(e) => Result::Err(e),
            Result::Ok(p) => match spec_plan_deps(chain, tys, i + 1, trail) {
                Result::Err(e) => Result::Err(e),
                Result::Ok(ps) => Result::Ok(seq![p] + ps),
            },
        }
    }
}

#[via_fn]
proof fn spec_plan_decreases(chain: Seq<ScopeV>, ty: u64, trail: Seq<u64>) {
    match spec_select(chain, ty) {
        Selection::Found { level, index } => {
            if !trail.contains(ty) {
                lemma_select_found(chain, ty);
                lemma_target_in_all(chain, level, index);
                lemma_all_targets_finite(chain);
                let trail2 = trail.push(ty);
                assert(trail2.no_duplicates()) by {
                    assert forall|a: int, b: int|
                        0 <= a < trail2.len() && 0 <= b < trail2.len() && a != b implies trail2[a]
                        != trail2[b] by {
                        if a < trail.len() && b < trail.len() {
                            assert(trail[a] != trail[b]);
                        } else if a < trail.len() {
                            assert(trail2[b] == ty);
                            assert(!trail.contains(ty));
                            assert(trail[a] != ty);
                        } else {
                            assert(trail2[a] == ty);
                            assert(!trail.contains(ty));
                            assert(trail[b] != ty);
                        }
                    }
                }
                trail.lemma_push_to_set_commute(ty);
                assert(trail2.to_set() =~= trail.to_set().insert(ty));
                assert(trail2.to_set().subset_of(all_targets(chain)));
                trail2.unique_seq_to_set();
                vstd::set_lib::lemma_len_subset(trail2.to_set(), all_targets(chain));
            }
        },
        _ => {},
    }
}


/// How many constructions executing this plan performs: one per
/// transient or singleton node, none for a pre-supplied instance.
pub open spec fn plan_cost(p: PlanV) -> nat
    decreases p, 1int, 0int,
{
    match p {
        PlanV::Instance { .. } => 0,
        PlanV::Transient { deps, .. } => 1 + plan_cost_deps(deps, 0),
        PlanV::Singleton { deps, .. } => 1 + plan_cost_deps(deps, 0),
    }
}

/// The construction count of the plans from position `i` on.
pub open spec fn plan_cost_deps(ps: Seq<PlanV>, i: int) -> nat
    decreases ps, 0int, ps.len() - i,
{
    if i < 0 || i >= ps.len() {
        0
    } else {
        plan_cost(ps[i]) + plan_cost_deps(ps, i + 1)
    }
}

/// Executing a plan against a runtime: dependencies first, in order, then
/// the node itself. A transient node constructs a fresh value stamped
/// with the next token; a singleton node answers with its cell's value if
/// the cell is populated, and otherwise constructs, stamps, and populates
/// the cell; an instance node answers with the registered value. The
/// constructed value embeds the tokens of the dependency values it was
/// given, in declaration order.
pub open spec fn spec_exec(p: PlanV, rt: RuntimeV) -> (ValueV, RuntimeV)
    decreases p, 1int, 0int,
{
    match p {
        PlanV::Instance { ty: _, value } => (value, rt),
        PlanV::Transient { ty, deps } => {
            let (toks, rt1) = spec_exec_deps(deps, 0, rt);
            (
                ValueV { ty, token: rt1.next_token as u64, deps: toks },
                RuntimeV {
                    singletons: rt1.singletons,
                    next_token: rt1.next_token + 1,
                    next_scope: rt1.next_scope,
                },
            )
        },
        PlanV::Singleton { ty, scope, index, deps } => {
            let (toks, rt1) = spec_exec_deps(deps, 0, rt);
            if rt1.singletons.contains_key((scope as int, index)) {
                (rt1.singletons[(scope as int, index)], rt1)
            } else {
                let v = ValueV { ty, token: rt1.next_token as u64, deps: toks };
                (
                    v,
                    RuntimeV {
                        singletons: rt1.singletons.insert((scope as int, index), v),
                        next_token: rt1.next_token + 1,
                        next_scope: rt1.next_scope,
                    },
                )
            }
        },
    }
}

/// Executes the plans from position `i` on, in order, collecting the
/// token of each resolved value.
pub open spec fn spec_exec_deps(ps: Seq<PlanV>, i: int, rt: RuntimeV) -> (Seq<u64>, RuntimeV)
    decreases ps, 0int, ps.len() - i,
{
    if i < 0 || i >= ps.len() {
        (Seq::empty(), rt)
    } else {
        let (v, rt1) = spec_exec(ps[i], rt);
        let (toks, rt2) = spec_exec_deps(ps, i + 1, rt1);
        (seq![v.token] + toks, rt2)
    }
}

/// Execution hands out at most one token per construction, and never
/// takes one back.
pub proof fn lemma_exec_token_growth(p: PlanV, rt: RuntimeV)
    ensures
        rt.next_token <= spec_exec(p, rt).1.next_token,
        spec_exec(p, rt).1.next_token <= rt.next_token + plan_cost(p),
    decreases p, 1int, 0int,
{
    match p {
        PlanV::Instance { .. } => {},
        PlanV::Transient { deps, .. } => {
            lemma_exec_deps_token_growth(deps, 0, rt);
        },
        PlanV::Singleton { deps, .. } => {
            lemma_exec_deps_token_growth(deps, 0, rt);
        },
    }
}

/// As `lemma_exec_token_growth`, over a list of plans.
pub proof fn lemma_exec_deps_token_growth(ps: Seq<PlanV>, i: int, rt: RuntimeV)
    ensures
        rt.next_token <= spec_exec_deps(ps, i, rt).1.next_token,
        spec_exec_deps(ps, i, rt).1.next_token <= rt.next_token + plan_cost_deps(ps, i),
    decreases ps, 0int, ps.len() - i,
{
    if 0 <= i < ps.len() {
        lemma_exec_token_growth(ps[i], rt);
        lemma_exec_deps_token_growth(ps, i + 1, spec_exec(ps[i], rt).1);
    }
}

/// Whether the list holds the token.
fn contains_token(v: &Vec<u64>, x: u64) -> (r: bool)
    ensures
        r == v@.contains(x),
{
    let mut i: usize = 0;
    while i < v.len()
        invariant
            i <= v@.len(),
            forall|j: int| 0 <= j < i ==> v@[j] != x,
        decreases v@.len() - i,
    {
        if v[i] == x {
            return true;
        }
        i = i + 1;
    }
    false
}

/// Splices one planned dependency list step into the whole: the plans
/// from `i` on are the plan at `i` followed by the plans from `i + 1` on,
/// and the first error wins.
pub open spec fn splice_deps(prefix: Seq<PlanV>, rest: Result<Seq<PlanV>, ErrorV>) -> Result<
    Seq<PlanV>,
    ErrorV,
> {
    match rest {
        Result::Ok(ps) => Result::Ok(prefix + ps),
        Result::Err(e) => Result::Err(e),
    }
}

/// Whether no two scopes of a chain share an identifier; what `fork`
/// builds, minting each identifier fresh from one runtime, always
/// satisfies it.
pub open spec fn distinct_scopes(chain: Seq<ScopeV>) -> bool {
    forall|l1: int, l2: int|
        0 <= l1 < chain.len() && 0 <= l2 < chain.len() && #[trigger] chain[l1].id == #[trigger] chain[l2].id
            ==> l1 == l2
}

/// Whether a runtime's populated singleton cells are compatible with a
/// chain: every cell owned by one of the chain's scopes names a provider
/// position of that scope and holds a value of that provider's target
/// type, with one dependency token per declared dependency. Cells of
/// scopes outside the chain are unconstrained: a child's cells do not
/// bind its parent.
pub open spec fn store_wf(st: Map<(int, int), ValueV>, chain: Seq<ScopeV>) -> bool {
    forall|k: (int, int), l: int|
        #![trigger st.contains_key(k), chain[l]]
        st.contains_key(k) && 0 <= l < chain.len() && chain[l].id as int == k.0 ==> {
            &&& 0 <= k.1 < chain[l].regs.len()
            &&& st[k].ty == chain[l].regs[k.1].target()
            &&& st[k].deps.len() == chain[l].regs[k.1].dep_tys().len()
        }
}

impl Module {
    /// How many ancestors this scope has.
    pub fn depth(&self) -> (d: usize)
        requires
            self.chain().len() <= usize::MAX as int,
        ensures
            d as int == self.chain().len() - 1,
        decreases *self,
    {
        match &self.parent_module {
            Parent::Root => 0,
            Parent::Owned(p) => 1 + p.depth(),
            Parent::Shared(p) => 1 + (**p).depth(),
            Parent::SharedSync(p) => 1 + (**p).depth(),
        }
    }

    /// The provider at the given position of the chain.
    fn provider_at(&self, level: usize, index: usize) -> (p: &Provider)
        requires
            (level as int) < self.chain().len(),
            (index as int) < self.chain()[level as int].regs.len(),
        ensures
            p@ == self.chain()[level as int].regs[index as int],
        decreases *self,
    {
        if level == 0 {
            proof {
                assert(self.chain()[0].regs == self.registry());
            }
            &self.providers[index]
        } else {
            match &self.parent_module {
                Parent::Root => {
                    proof {
                        assert(false);
                    }
                    &self.providers[0]
                },
                Parent::Owned(p) => {
                    proof {
                        assert(self.chain().drop_first() =~= p.chain());
                        assert(self.chain()[level as int] == p.chain()[level - 1]);
                    }
                    p.provider_at(level - 1, index)
                },
                Parent::Shared(p) => {
                    proof {
                        assert(self.chain().drop_first() =~= (**p).chain());
                        assert(self.chain()[level as int] == (**p).chain()[level - 1]);
                    }
                    (**p).provider_at(level - 1, index)
                },
                Parent::SharedSync(p) => {
                    proof {
                        assert(self.chain().drop_first() =~= (**p).chain());
                        assert(self.chain()[level as int] == (**p).chain()[level - 1]);
                    }
                    (**p).provider_at(level - 1, index)
                },
            }
        }
    }

    /// The identifier of the scope at the given level of the chain.
    fn scope_at(&self, level: usize) -> (s: u64)
        requires
            (level as int) < self.chain().len(),
        ensures
            s == self.chain()[level as int].id,
        decreases *self,
    {
        if level == 0 {
            self.scope
        } else {
            match &self.parent_module {
                Parent::Root => {
                    proof {
                        assert(false);
                    }
                    self.scope
                },
                Parent::Owned(p) => {
                    proof {
                        assert(self.chain().drop_first() =~= p.chain());
                        assert(self.chain()[level as int] == p.chain()[level - 1]);
                    }
                    p.scope_at(level - 1)
                },
                Parent::Shared(p) => {
                    proof {
                        assert(self.chain().drop_first() =~= (**p).chain());
                        assert(self.chain()[level as int] == (**p).chain()[level - 1]);
                    }
                    (**p).scope_at(level - 1)
                },
                Parent::SharedSync(p) => {
                    proof {
                        assert(self.chain().drop_first() =~= (**p).chain());
                        assert(self.chain()[level as int] == (**p).chain()[level - 1]);
                    }
                    (**p).scope_at(level - 1)
                },
            }
        }
    }

    /// One step of the planning search, as `spec_plan` describes it, with
    /// `trail` holding the types whose planning is still open.
    fn plan_rec(&self, ty: u64, trail: &Vec<u64>) -> (r: Result<Plan, ResolveError>)
        requires
            self.chain().len() <= usize::MAX as int,
            trail@.no_duplicates(),
            trail@.to_set().subset_of(all_targets(self.chain())),
        ensures
            plan_result_view(r) == spec_plan(self.chain(), ty, trail@),
        decreases all_targets(self.chain()).len() - trail@.len(), 1int,
    {
        let ghost chain = self.chain();
        match self.select(ty) {
            SelectOutcome::Missing => {
                let mut tr = copy_tokens(trail);
                tr.push(ty);
                Result::Err(ResolveError { kind: ErrorKind::MissingProvider, ty, trail: tr })
            },
            SelectOutcome::Ambiguous => {
                let mut tr = copy_tokens(trail);
                tr.push(ty);
                Result::Err(ResolveError { kind: ErrorKind::AmbiguousProvider, ty, trail: tr })
            },
            SelectOutcome::Found(pi) => {
                proof {
                    lemma_select_found(chain, ty);
                }
                let (level, index): (usize, usize) = match pi {
                    ProviderIndex::AtSelf(s) => (0, s.index),
                    ProviderIndex::AtParent(q) => (q.levels_up, q.index),
                };
                proof {
                    assert(spec_select(chain, ty) == (Selection::Found {
                        level: level as int,
                        index: index as int,
                    }));
                }
                if contains_token(trail, ty) {
                    let mut tr = copy_tokens(trail);
                    tr.push(ty);
                    Result::Err(
                        ResolveError { kind: ErrorKind::CircularDependency, ty, trail: tr },
                    )
                } else {
                    proof {
                        lemma_target_in_all(chain, level as int, index as int);
                    }
                    let prov = self.provider_at(level, index);
                    match prov {
                        Provider::Instance(inst) => Result::Ok(
                            Plan::Instance { ty, value: inst.value.clone() },
                        ),
                        Provider::Transient(t) => {
                            match self.plan_deps(&t.sig.deps, ty, trail) {
                                Result::Err(e) => Result::Err(e),
                                Result::Ok(deps) => Result::Ok(Plan::Transient { ty, deps }),
                            }
                        },
                        Provider::Singleton(sg) => {
                            match self.plan_deps(&sg.sig.deps, ty, trail) {
                                Result::Err(e) => Result::Err(e),
                                Result::Ok(deps) => {
                                    let scope = self.scope_at(level);
                                    Result::Ok(Plan::Singleton { ty, scope, index, deps })
                                },
                            }
                        },
                    }
                }
            },
        }
    }

    /// Plans every type of one dependency list, in order, from this
    /// scope's vantage point, with the requesting type newly open.
    fn plan_deps(&self, tys: &Vec<u64>, ty: u64, trail: &Vec<u64>) -> (r: Result<
        Vec<Plan>,
        ResolveError,
    >)
        requires
            self.chain().len() <= usize::MAX as int,
            trail@.no_duplicates(),
            trail@.to_set().subset_of(all_targets(self.chain())),
            !trail@.contains(ty),
            all_targets(self.chain()).contains(ty),
        ensures
            match r {
                Result::Ok(ps) => spec_plan_deps(self.chain(), tys@, 0, trail@.push(ty))
                    == Result::<Seq<PlanV>, ErrorV>::Ok(plan_views(ps@)),
                Result::Err(e) => spec_plan_deps(self.chain(), tys@, 0, trail@.push(ty))
                    == Result::<Seq<PlanV>, ErrorV>::Err(e@),
            },
        decreases all_targets(self.chain()).len() - trail@.len(), 0int,
    {
        let ghost chain = self.chain();
        let mut trailx = copy_tokens(trail);
        trailx.push(ty);
        proof {
            assert(trailx@ == trail@.push(ty));
            assert(trailx@.no_duplicates()) by {
                assert forall|a: int, b: int|
                    0 <= a < trailx@.len() && 0 <= b < trailx@.len() && a != b implies trailx@[a]
                    != trailx@[b] by {
                    if a < trail@.len() && b < trail@.len() {
                        assert(trailx@[a] == trail@[a] && trailx@[b] == trail@[b]);
                    } else if a < trail@.len() {
                        assert(trailx@[b] == ty && trailx@[a] == trail@[a]);
                        assert(trail@[a] != ty);
                    } else {
                        assert(trailx@[a] == ty && trailx@[b] == trail@[b]);
                        assert(trail@[b] != ty);
                    }
                }
            }
            trail@.lemma_push_to_set_commute(ty);
            assert(trailx@.to_set().subset_of(all_targets(chain)));
            lemma_all_targets_finite(chain);
            trailx@.unique_seq_to_set();
            vstd::set_lib::lemma_len_subset(trailx@.to_set(), all_targets(chain));
            assert(trailx@.len() <= all_targets(chain).len());
        }
        let mut out: Vec<Plan> = Vec::new();
        let mut i: usize = 0;
        while i < tys.len()
            invariant
                chain == self.chain(),
                self.chain().len() <= usize::MAX as int,
                trailx@ == trail@.push(ty),
                trailx@.len() == trail@.len() + 1,
                trailx@.no_duplicates(),
                trailx@.to_set().subset_of(all_targets(chain)),
                trailx@.len() <= all_targets(chain).len(),
                i <= tys@.len(),
                spec_plan_deps(chain, tys@, 0, trailx@) == splice_deps(
                    plan_views(out@),
                    spec_plan_deps(chain, tys@, i as int, trailx@),
                ),
            decreases tys@.len() - i,
        {
            let ghost out_before = out@;
            match self.plan_rec(tys[i], &trailx) {
                Result::Err(e) => {
                    proof {
                        assert(spec_plan(chain, tys@[i as int], trailx@) == Result::<
                            PlanV,
                            ErrorV,
                        >::Err(e@));
                        assert(spec_plan_deps(chain, tys@, i as int, trailx@) == Result::<
                            Seq<PlanV>,
                            ErrorV,
                        >::Err(e@));
                    }
                    return Result::Err(e);
                },
                Result::Ok(p) => {
                    out.push(p);
                    proof {
                        lemma_plan_views(out_before);
                        lemma_plan_views(out@);
                        assert(out@ == out_before.push(p));
                        assert(plan_views(out@) =~= plan_views(out_before).push(plan_view(p)));
                        assert(spec_plan(chain, tys@[i as int], trailx@) == Result::<
                            PlanV,
                            ErrorV,
                        >::Ok(plan_view(p)));
                        match spec_plan_deps(chain, tys@, i + 1 as int, trailx@) {
                            Result::Ok(rest) => {
                                assert(spec_plan_deps(chain, tys@, i as int, trailx@) == Result::<
                                    Seq<PlanV>,
                                    ErrorV,
                                >::Ok(seq![plan_view(p)] + rest));
                                assert(plan_views(out_before) + (seq![plan_view(p)] + rest)
                                    =~= plan_views(out@) + rest);
                            },
                            Result::Err(e) => {
                                assert(spec_plan_deps(chain, tys@, i as int, trailx@) == Result::<
                                    Seq<PlanV>,
                                    ErrorV,
                                >::Err(e));
                            },
                        }
                    }
                },
            }
            i = i + 1;
        }
        proof {
            assert(spec_plan_deps(chain, tys@, i as int, trailx@) == Result::<
                Seq<PlanV>,
                ErrorV,
            >::Ok(Seq::empty()));
            assert(plan_views(out@) + Seq::<PlanV>::empty() =~= plan_views(out@));
        }
        Result::Ok(out)
    }

    /// Builds the resolution plan for the type: the dry-run search over
    /// the full transitive dependency graph, executing no provider.
    pub fn plan(&self, ty: u64) -> (r: Result<Plan, ResolveError>)
        requires
            self.chain().len() <= usize::MAX as int,
        ensures
            plan_result_view(r) == spec_plan(self.chain(), ty, Seq::empty()),
    {
        let trail: Vec<u64> = Vec::new();
        proof {
            assert(trail@.to_set() =~= Set::<u64>::empty());
            assert(trail@.to_set().subset_of(all_targets(self.chain())));
        }
        self.plan_rec(ty, &trail)
    }

    /// Verifies the full transitive dependency graph for the type, before
    /// and without executing any provider: succeeds exactly when every
    /// transitive dependency has one nearest provider, and otherwise
    /// reports the failing type and the request trail that led to it.
    pub fn validate(&self, ty: u64) -> (r: Result<(), ResolveError>)
        requires
            self.chain().len() <= usize::MAX as int,
        ensures
            match r {
                Result::Ok(_) => spec_plan(self.chain(), ty, Seq::empty()) is Ok,
                Result::Err(e) => spec_plan(self.chain(), ty, Seq::empty()) == Result::<
                    PlanV,
                    ErrorV,
                >::Err(e@),
            },
    {
        match self.plan(ty) {
            Result::Ok(_) => Result::Ok(()),
            Result::Err(e) => Result::Err(e),
        }
    }

    /// Resolves the type from this scope: plans first — failing fast,
    /// with nothing constructed and the runtime untouched, if the graph
    /// is unsatisfiable — and only then executes the plan against the
    /// runtime.
    ///
    /// The runtime must belong to this hierarchy: its populated cells
    /// must be compatible with this chain, whose scopes carry distinct
    /// identifiers, and resolution keeps them so.
    ///
    /// A transient provider's answer is a fresh value; a singleton or
    /// instance provider's answer is a copy of the one stored or
    /// registered value, whose identity its token carries.
    pub fn resolve(&self, ty: u64, rt: &mut Runtime) -> (r: Result<Value, ResolveError>)
        requires
            self.chain().len() <= usize::MAX as int,
            distinct_scopes(self.chain()),
            store_wf(old(rt)@.singletons, self.chain()),
            old(rt)@.next_token + plan_cost_of(self.chain(), ty) <= u64::MAX,
        ensures
            store_wf(final(rt)@.singletons, self.chain()),
            match spec_plan(self.chain(), ty, Seq::empty()) {
                Result::Ok(p) => r matches Result::Ok(v) && v@ == spec_exec(p, old(rt)@).0
                    && final(rt)@ == spec_exec(p, old(rt)@).1,
                Result::Err(e) => r matches Result::Err(re) && re@ == e && final(rt)@ == old(
                    rt,
                )@,
            },
    {
        match self.plan(ty) {
            Result::Err(e) => Result::Err(e),
            Result::Ok(p) => {
                proof {
                    let trail = Seq::<u64>::empty();
                    assert(trail.to_set() =~= Set::<u64>::empty());
                    assert(trail.to_set().subset_of(all_targets(self.chain())));
                    crate::laws::lemma_plan_sound(self.chain(), ty, trail);
                    crate::laws::lemma_exec_well_typed(self.chain(), p@, rt@);
                }
                Result::Ok(execute(&p, rt))
            },
        }
    }
}

/// What executing the plan for the type will cost in tokens; nothing if
/// planning fails.
pub open spec fn plan_cost_of(chain: Seq<ScopeV>, ty: u64) -> nat {
    match spec_plan(chain, ty, Seq::empty()) {
        Result::Ok(p) => plan_cost(p),
        Result::Err(_) => 0,
    }
}

/// Executes a frozen plan against the runtime, as `spec_exec` describes:
/// the one step of resolution that runs constructors. Only `resolve` and
/// `resolve_dependencies` reach it, so every execution went through the
/// dry-run search and the store discipline their contracts demand.
pub(crate) fn execute(plan: &Plan, rt: &mut Runtime) -> (v: Value)
    requires
        old(rt)@.next_token + plan_cost(plan@) <= u64::MAX,
    ensures
        v@ == spec_exec(plan@, old(rt)@).0,
        final(rt)@ == spec_exec(plan@, old(rt)@).1,
    decreases *plan, 1int,
{
    match plan {
        Plan::Instance { ty: _, value } => value.clone(),
        Plan::Transient { ty, deps } => {
            let ghost rt0 = rt@;
            let toks = execute_deps(deps, rt);
            proof {
                lemma_exec_deps_token_growth(plan_views(deps@), 0, rt0);
            }
            let t = rt.fresh_token();
            Value { ty: *ty, token: t, deps: toks }
        },
        Plan::Singleton { ty, scope, index, deps } => {
            let ghost rt0 = rt@;
            let toks = execute_deps(deps, rt);
            proof {
                lemma_exec_deps_token_growth(plan_views(deps@), 0, rt0);
            }
            match rt.get_singleton(*scope, *index) {
                Option::Some(v0) => v0.clone(),
                Option::None => {
                    let t = rt.fresh_token();
                    let v = Value { ty: *ty, token: t, deps: toks };
                    rt.put_singleton(*scope, *index, v.clone());
                    v
                },
            }
        },
    }
}

/// Executes the plans of one dependency list, in order, collecting each
/// resolved value's token.
fn execute_deps(deps: &Vec<Plan>, rt: &mut Runtime) -> (toks: Vec<u64>)
    requires
        old(rt)@.next_token + plan_cost_deps(plan_views(deps@), 0) <= u64::MAX,
    ensures
        toks@ == spec_exec_deps(plan_views(deps@), 0, old(rt)@).0,
        final(rt)@ == spec_exec_deps(plan_views(deps@), 0, old(rt)@).1,
    decreases *deps, 0int,
{
    let ghost ps = plan_views(deps@);
    let ghost rt0 = rt@;
    proof {
        lemma_plan_views(deps@);
    }
    let mut toks: Vec<u64> = Vec::new();
    let mut i: usize = 0;
    while i < deps.len()
        invariant
            ps == plan_views(deps@),
            ps.len() == deps@.len(),
            forall|j: int| 0 <= j < deps@.len() ==> ps[j] == plan_view(deps@[j]),
            i <= deps@.len(),
            rt@.next_token + plan_cost_deps(ps, i as int) <= u64::MAX,
            spec_exec_deps(ps, 0, rt0).0 == toks@ + spec_exec_deps(ps, i as int, rt@).0,
            spec_exec_deps(ps, 0, rt0).1 == spec_exec_deps(ps, i as int, rt@).1,
        decreases deps@.len() - i,
    {
        let ghost rt_pre = rt@;
        let ghost toks_before = toks@;
        proof {
            lemma_exec_token_growth(ps[i as int], rt_pre);
        }
        let v = execute(&deps[i], rt);
        toks.push(v.token);
        proof {
            lemma_exec_deps_token_growth(ps, i + 1 as int, rt@);
            assert(spec_exec_deps(ps, i as int, rt_pre).0 == seq![v@.token] + spec_exec_deps(
                ps,
                i + 1 as int,
                rt@,
            ).0);
            assert(toks_before + (seq![v@.token] + spec_exec_deps(ps, i + 1 as int, rt@).0)
                =~= toks@ + spec_exec_deps(ps, i + 1 as int, rt@).0);
        }
        i = i + 1;
    }
    proof {
        assert(toks@ + Seq::<u64>::empty() =~= toks@);
    }
    toks
}


/// The images of a list of resolved values, in order.
pub open spec fn values_view(vs: Seq<Value>) -> Seq<ValueV> {
    vs.map_values(|v: Value| v@)
}

/// What executing the plans of a whole dependency list costs in tokens.
pub open spec fn resolve_list_cost(chain: Seq<ScopeV>, tys: Seq<u64>, i: int) -> nat
    decreases tys.len() - i,
{
    if i < 0 || i >= tys.len() {
        0
    } else {
        plan_cost_of(chain, tys[i]) + resolve_list_cost(chain, tys, i + 1)
    }
}

/// Plans the types from position `i` on, each from scratch, executing
/// nothing; the first failure is the list's failure.
pub open spec fn spec_plan_list(chain: Seq<ScopeV>, tys: Seq<u64>, i: int) -> Result<
    Seq<PlanV>,
    ErrorV,
>
    decreases tys.len() - i,
{
    if i < 0 || i >= tys.len() {
        Result::Ok(Seq::empty())
    } else {
        match spec_plan(chain, tys[i], Seq::empty()) {
            Result::Err(e) => Result::Err(e),
            Result::Ok(p) => match spec_plan_list(chain, tys, i + 1) {
                Result::Err(e) => Result::Err(e),
                Result::Ok(ps) => Result::Ok(seq![p] + ps),
            },
        }
    }
}

/// Executes the plans from position `i` on, in order, each against the
/// runtime the one before left behind.
pub open spec fn spec_exec_list(ps: Seq<PlanV>, i: int, rt: RuntimeV) -> (Seq<ValueV>, RuntimeV)
    decreases ps.len() - i,
{
    if i < 0 || i >= ps.len() {
        (Seq::empty(), rt)
    } else {
        let (v, rt1) = spec_exec(ps[i], rt);
        let (vs, rt2) = spec_exec_list(ps, i + 1, rt1);
        (seq![v] + vs, rt2)
    }
}

/// Resolving a whole dependency list: plan every type first — if any
/// fails, nothing executes and the runtime stays untouched — then execute
/// the plans in order.
pub open spec fn spec_resolve_list(chain: Seq<ScopeV>, tys: Seq<u64>, rt: RuntimeV) -> (
    Result<Seq<ValueV>, ErrorV>,
    RuntimeV,
) {
    match spec_plan_list(chain, tys, 0) {
        Result::Err(e) => (Result::Err(e), rt),
        Result::Ok(ps) => {
            let (vs, rt2) = spec_exec_list(ps, 0, rt);
            (Result::Ok(vs), rt2)
        },
    }
}

impl Module {
    /// Resolves every type of a dependency list from this scope, in the
    /// order declared, as `spec_resolve_list` describes: the whole list
    /// is planned before any provider executes, so an unsatisfiable
    /// entry fails the list with nothing constructed; then each plan is
    /// executed against the runtime state its predecessors left behind.
    pub fn resolve_dependencies(&self, tys: &Vec<u64>, rt: &mut Runtime) -> (r: Result<
        Vec<Value>,
        ResolveError,
    >)
        requires
            self.chain().len() <= usize::MAX as int,
            distinct_scopes(self.chain()),
            store_wf(old(rt)@.singletons, self.chain()),
            old(rt)@.next_token + resolve_list_cost(self.chain(), tys@, 0) <= u64::MAX,
        ensures
            final(rt)@ == spec_resolve_list(self.chain(), tys@, old(rt)@).1,
            store_wf(final(rt)@.singletons, self.chain()),
            match r {
                Result::Ok(vs) => spec_resolve_list(self.chain(), tys@, old(rt)@).0 == Result::<
                    Seq<ValueV>,
                    ErrorV,
                >::Ok(values_view(vs@)),
                Result::Err(e) => spec_resolve_list(self.chain(), tys@, old(rt)@).0 == Result::<
                    Seq<ValueV>,
                    ErrorV,
                >::Err(e@),
            },
    {
        let ghost chain = self.chain();
        let ghost rt0 = rt@;
        let mut plans: Vec<Plan> = Vec::new();
        let mut i: usize = 0;
        while i < tys.len()
            invariant
                chain == self.chain(),
                rt0 == old(rt)@,
                rt0 == rt@,
                self.chain().len() <= usize::MAX as int,
                store_wf(rt@.singletons, chain),
                i <= tys@.len(),
                plans@.len() == i,
                spec_plan_list(chain, tys@, 0) == splice_deps(
                    plan_views(plans@),
                    spec_plan_list(chain, tys@, i as int),
                ),
                forall|j: int|
                    0 <= j < i ==> spec_plan(chain, tys@[j], Seq::empty()) == Result::<
                        PlanV,
                        ErrorV,
                    >::Ok(plan_views(plans@)[j]),
            decreases tys@.len() - i,
        {
            let ghost plans_before = plans@;
            match self.plan(tys[i]) {
                Result::Err(e) => {
                    proof {
                        assert(spec_plan_list(chain, tys@, i as int) == Result::<
                            Seq<PlanV>,
                            ErrorV,
                        >::Err(e@));
                    }
                    return Result::Err(e);
                },
                Result::Ok(p) => {
                    plans.push(p);
                    proof {
                        lemma_plan_views(plans_before);
                        lemma_plan_views(plans@);
                        assert(plans@ == plans_before.push(p));
                        assert(plan_views(plans@) =~= plan_views(plans_before).push(plan_view(p)));
                        match spec_plan_list(chain, tys@, i + 1 as int) {
                            Result::Ok(rest) => {
                                assert(spec_plan_list(chain, tys@, i as int) == Result::<
                                    Seq<PlanV>,
                                    ErrorV,
                                >::Ok(seq![plan_view(p)] + rest));
                                assert(plan_views(plans_before) + (seq![plan_view(p)] + rest)
                                    =~= plan_views(plans@) + rest);
                            },
                            Result::Err(e) => {
                                assert(spec_plan_list(chain, tys@, i as int) == Result::<
                                    Seq<PlanV>,
                                    ErrorV,
                                >::Err(e));
                            },
                        }
                    }
                },
            }
            i = i + 1;
        }
        let ghost ps = plan_views(plans@);
        proof {
            lemma_plan_views(plans@);
            assert(spec_plan_list(chain, tys@, i as int) == Result::<Seq<PlanV>, ErrorV>::Ok(
                Seq::empty(),
            ));
            assert(ps + Seq::<PlanV>::empty() =~= ps);
            assert(spec_plan_list(chain, tys@, 0) == Result::<Seq<PlanV>, ErrorV>::Ok(ps));
        }
        let mut out: Vec<Value> = Vec::new();
        let mut k: usize = 0;
        while k < plans.len()
            invariant
                chain == self.chain(),
                rt0 == old(rt)@,
                self.chain().len() <= usize::MAX as int,
                distinct_scopes(chain),
                store_wf(rt@.singletons, chain),
                tys@.len() == plans@.len(),
                k <= plans@.len(),
                out@.len() == k,
                ps == plan_views(plans@),
                ps.len() == plans@.len(),
                forall|j: int|
                    0 <= j < plans@.len() ==> spec_plan(chain, tys@[j], Seq::empty()) == Result::<
                        PlanV,
                        ErrorV,
                    >::Ok(ps[j]),
                rt@.next_token + resolve_list_cost(chain, tys@, k as int) <= u64::MAX,
                spec_exec_list(ps, 0, rt0).0 == values_view(out@) + spec_exec_list(
                    ps,
                    k as int,
                    rt@,
                ).0,
                spec_exec_list(ps, 0, rt0).1 == spec_exec_list(ps, k as int, rt@).1,
            decreases plans@.len() - k,
        {
            let ghost rt_pre = rt@;
            let ghost out_before = out@;
            match self.resolve(tys[k], rt) {
                Result::Err(e) => {
                    proof {
                        assert(false);
                    }
                    return Result::Err(e);
                },
                Result::Ok(v) => {
                    out.push(v);
                    proof {
                        lemma_exec_token_growth(ps[k as int], rt_pre);
                        assert(v@ == spec_exec(ps[k as int], rt_pre).0);
                        assert(rt@ == spec_exec(ps[k as int], rt_pre).1);
                        assert(spec_exec_list(ps, k as int, rt_pre).0 == seq![v@]
                            + spec_exec_list(ps, k + 1 as int, rt@).0);
                        assert(values_view(out@) =~= values_view(out_before).push(v@));
                        assert(values_view(out_before) + (seq![v@] + spec_exec_list(
                            ps,
                            k + 1 as int,
                            rt@,
                        ).0) =~= values_view(out@) + spec_exec_list(ps, k + 1 as int, rt@).0);
                    }
                },
            }
            k = k + 1;
        }
        proof {
            assert(values_view(out@) + Seq::<ValueV>::empty() =~= values_view(out@));
        }
        Result::Ok(out)
    }
}

} // verus!
