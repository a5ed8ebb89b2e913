use crate::module::Module;
use crate::module::Parent;
use crate::module::ScopeV;
use crate::provider::ProviderV;
use vstd::prelude::*;

verus! {

/// The position of a provider inside the requesting scope's own registry.
#[derive(Clone, Copy, Debug, PartialEq, Eq, Structural)]
pub struct SelfIndex {
    pub index: usize,
}

/// The position of a provider in an ancestor scope's registry: how many
/// levels up the parent chain that scope stands, and where in its
/// registry the provider sits.
#[derive(Clone, Copy, Debug, PartialEq, Eq, Structural)]
pub struct ParentIndex {
    pub levels_up: usize,
    pub index: usize,
}

/// Where a selected provider stands, seen from the requesting scope.
#[derive(Clone, Copy, Debug, PartialEq, Eq, Structural)]
pub enum ProviderIndex {
    AtSelf(SelfIndex),
    AtParent(ParentIndex),
}

impl ProviderIndex {
    /// How far up the chain the owning scope stands; the requesting scope
    /// itself is level zero.
    pub open spec fn level(self) -> int {
        match self {
            ProviderIndex::AtSelf(_) => 0,
            ProviderIndex::AtParent(p) => p.levels_up as int,
        }
    }

    /// The position inside the owning scope's registry.
    pub open spec fn index(self) -> int {
        match self {
            ProviderIndex::AtSelf(s) => s.index as int,
            ProviderIndex::AtParent(p) => p.index as int,
        }
    }
}

/// What searching the chain for a type can come to.
pub ghost enum Selection {
    Found { level: int, index: int },
    NotFound,
    Ambiguous { level: int },
}

/// Whether some provider of this registry produces the type.
pub open spec fn has_match(reg: Seq<ProviderV>, ty: u64) -> bool {
    exists|i: int| 0 <= i < reg.len() && reg[i].target() == ty
}

/// Whether no two providers of this registry produce the type.
pub open spec fn unique_match(reg: Seq<ProviderV>, ty: u64) -> bool {
    forall|i: int, j: int|
        0 <= i < reg.len() && 0 <= j < reg.len() && reg[i].target() == ty && reg[j].target() == ty
            ==> i == j
}

/// The position of the first provider of this registry that produces the
/// type; the registry's length if there is none.
pub open spec fn first_match(reg: Seq<ProviderV>, ty: u64) -> int
    decreases reg.len(),
{
    if reg.len() == 0 {
        0
    } else if reg[0].target() == ty {
        0
    } else {
        1 + first_match(reg.drop_first(), ty)
    }
}

/// Searching ascends the chain from the requesting scope: the first
/// registry that holds any provider for the type decides the outcome —
/// exactly one match selects it (shadowing every farther scope), more
/// than one is ambiguous, and a chain without any match has none.
pub open spec fn spec_select(chain: Seq<ScopeV>, ty: u64) -> Selection
    decreases chain.len(),
{
    if chain.len() == 0 {
        Selection::NotFound
    } else if has_match(chain[0].regs, ty) {
        if unique_match(chain[0].regs, ty) {
            Selection::Found { level: 0, index: first_match(chain[0].regs, ty) }
        } else {
            Selection::Ambiguous { level: 0 }
        }
    } else {
        match spec_select(chain.drop_first(), ty) {
            Selection::Found { level, index } => Selection::Found { level: level + 1, index },
            Selection::NotFound => Selection::NotFound,
            Selection::Ambiguous { level } => Selection::Ambiguous { level: level + 1 },
        }
    }
}

/// The first match of a registry with a match is a match, and nothing
/// before it matches.
pub proof fn lemma_first_match(reg: Seq<ProviderV>, ty: u64)
    requires
        has_match(reg, ty),
    ensures
        0 <= first_match(reg, ty) < reg.len(),
        reg[first_match(reg, ty)].target() == ty,
        forall|j: int| 0 <= j < first_match(reg, ty) ==> reg[j].target() != ty,
    decreases reg.len(),
{
    if reg.len() == 0 {
    } else if reg[0].target() == ty {
    } else {
        assert(has_match(reg.drop_first(), ty)) by {
            let i = choose|i: int| 0 <= i < reg.len() && reg[i].target() == ty;
            assert(reg.drop_first()[i - 1].target() == ty);
        }
        lemma_first_match(reg.drop_first(), ty);
        assert forall|j: int| 0 <= j < first_match(reg, ty) implies reg[j].target() != ty by {
            if j > 0 {
                assert(reg.drop_first()[j - 1].target() != ty);
            }
        }
    }
}

/// A match that nothing before it matches is the first match.
pub proof fn lemma_first_match_is(reg: Seq<ProviderV>, ty: u64, k: int)
    requires
        0 <= k < reg.len(),
        reg[k].target() == ty,
        forall|j: int| 0 <= j < k ==> reg[j].target() != ty,
    ensures
        first_match(reg, ty) == k,
{
    lemma_first_match(reg, ty);
}

/// What a found selection says of the chain: the level is in range, the
/// selected provider produces the type, it is the only one at its level
/// that does, and no nearer level holds any provider for the type.
pub proof fn lemma_select_found(chain: Seq<ScopeV>, ty: u64)
    ensures
        spec_select(chain, ty) matches Selection::Found { level, index } ==> {
            &&& 0 <= level < chain.len()
            &&& 0 <= index < chain[level].regs.len()
            &&& chain[level].regs[index].target() == ty
            &&& index == first_match(chain[level].regs, ty)
            &&& has_match(chain[level].regs, ty)
            &&& unique_match(chain[level].regs, ty)
            &&& forall|l: int| 0 <= l < level ==> !has_match(chain[l].regs, ty)
        },
    decreases chain.len(),
{
    if chain.len() == 0 {
    } else if has_match(chain[0].regs, ty) {
        if unique_match(chain[0].regs, ty) {
            lemma_first_match(chain[0].regs, ty);
        }
    } else {
        lemma_select_found(chain.drop_first(), ty);
        match spec_select(chain.drop_first(), ty) {
            Selection::Found { level, index } => {
                assert(chain.drop_first()[level] == chain[level + 1]);
                assert forall|l: int| 0 <= l < level + 1 implies !has_match(chain[l].regs, ty) by {
                    if l > 0 {
                        assert(chain.drop_first()[l - 1] == chain[l]);
                    }
                }
            },
            _ => {},
        }
    }
}

/// What the search can answer the requesting scope.
#[derive(Debug)]
pub enum SelectOutcome {
    Found(ProviderIndex),
    Missing,
    Ambiguous,
}

impl Module {
    /// Searches this scope's registry, then its ancestors', for the one
    /// provider producing the type, as `spec_select` describes.
    pub fn select(&self, ty: u64) -> (r: SelectOutcome)
        requires
            self.chain().len() <= usize::MAX as int,
        ensures
            match r {
                SelectOutcome::Found(pi) => spec_select(self.chain(), ty) == (Selection::Found {
                    level: pi.level(),
                    index: pi.index(),
                }),
                SelectOutcome::Missing => spec_select(self.chain(), ty) is NotFound,
                SelectOutcome::Ambiguous => spec_select(self.chain(), ty) is Ambiguous,
            },
        decreases *self,
    {
        let ghost reg = self.registry();
        proof {
            assert(self.chain()[0].regs == reg);
        }
        let mut found: Option<usize> = None;
        let mut i: usize = 0;
        while i < self.providers.len()
            invariant
                self.chain().len() <= usize::MAX as int,
                self.chain()[0].regs == reg,
                reg == self.registry(),
                i <= self.providers@.len(),
                reg.len() == self.providers@.len(),
                match found {
                    Option::None => forall|j: int| 0 <= j < i ==> reg[j].target() != ty,
                    Option::Some(k) => {
                        &&& 0 <= k < i
                        &&& reg[k as int].target() == ty
                        &&& forall|j: int| 0 <= j < i && j != k ==> reg[j].target() != ty
                    },
                },
            decreases self.providers@.len() - i,
        {
            if self.providers[i].target() == ty {
                match found {
                    Option::None => {
                        found = Some(i);
                    },
                    Option::Some(k) => {
                        proof {
                            assert(reg[k as int].target() == ty && reg[i as int].target() == ty
                                && k != i);
                            assert(!unique_match(reg, ty));
                        }
                        return SelectOutcome::Ambiguous;
                    },
                }
            }
            i = i + 1;
        }
        match found {
            Option::Some(k) => {
                proof {
                    assert(self.chain().len() >= 1);
                    assert(has_match(reg, ty)) by {
                        assert(reg[k as int].target() == ty);
                    }
                    lemma_first_match_is(reg, ty, k as int);
                    assert(unique_match(reg, ty));
                    assert(first_match(reg, ty) == k as int);
                    assert(spec_select(self.chain(), ty) == (Selection::Found {
                        level: 0,
                        index: k as int,
                    }));
                }
                SelectOutcome::Found(ProviderIndex::AtSelf(SelfIndex { index: k }))
            },
            Option::None => {
                proof {
                    assert(!has_match(reg, ty));
                }
                match &self.parent_module {
                    Parent::Root => {
                        proof {
                            reveal_with_fuel(spec_select, 2);
                            assert(self.chain() == seq![self.scope_view()]);
                            assert(self.chain().drop_first().len() == 0);
                        }
                        SelectOutcome::Missing
                    },
                    Parent::Owned(p) => {
                        let ghost rest = self.chain().drop_first();
                        proof {
                            assert(rest =~= p.chain());
                            lemma_select_found(rest, ty);
                        }
                        lift_outcome(p.select(ty))
                    },
                    Parent::Shared(p) => {
                        let ghost rest = self.chain().drop_first();
                        proof {
                            assert(rest =~= (**p).chain());
                            lemma_select_found(rest, ty);
                        }
                        lift_outcome((**p).select(ty))
                    },
                    Parent::SharedSync(p) => {
                        let ghost rest = self.chain().drop_first();
                        proof {
                            assert(rest =~= (**p).chain());
                            lemma_select_found(rest, ty);
                        }
                        lift_outcome((**p).select(ty))
                    },
                }
            },
        }
    }
}

/// Re-expresses a parent's search answer from the child's vantage point:
/// everything the parent found stands one level farther up.
fn lift_outcome(sub: SelectOutcome) -> (r: SelectOutcome)
    requires
        sub matches SelectOutcome::Found(pi) ==> pi.level() < usize::MAX as int,
    ensures
        match sub {
            SelectOutcome::Found(pi) => r matches SelectOutcome::Found(qi) && qi.level() == pi.level()
                + 1 && qi.index() == pi.index(),
            SelectOutcome::Missing => r is Missing,
            SelectOutcome::Ambiguous => r is Ambiguous,
        },
{
    match sub {
        SelectOutcome::Found(ProviderIndex::AtSelf(s)) => SelectOutcome::Found(
            ProviderIndex::AtParent(ParentIndex { levels_up: 1, index: s.index }),
        ),
        SelectOutcome::Found(ProviderIndex::AtParent(p)) => SelectOutcome::Found(
            ProviderIndex::AtParent(ParentIndex { levels_up: p.levels_up + 1, index: p.index }),
        ),
        SelectOutcome::Missing => SelectOutcome::Missing,
        SelectOutcome::Ambiguous => SelectOutcome::Ambiguous,
    }
}

} // verus!
