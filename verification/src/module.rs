use crate::provider::Provider;
use crate::provider::ProviderV;
use crate::runtime::Runtime;
use std::rc::Rc;
use std::sync::Arc;
use vstd::prelude::*;

verus! {

/// Relies on `Rc::clone`: it returns a new handle to the same allocation,
/// so the returned handle carries the same value as the cloned one.
#[verifier::external_body]
fn rc_share(v: &Rc<Module>) -> (res: Rc<Module>)
    ensures
        res == *v,
{
    Rc::clone(v)
}

/// Relies on `Arc::clone`: it returns a new handle to the same allocation,
/// so the returned handle carries the same value as the cloned one.
#[verifier::external_body]
fn arc_share(v: &Arc<Module>) -> (res: Arc<Module>)
    ensures
        res == *v,
{
    Arc::clone(v)
}

/// The link from a scope to the scope it was forked from: a root scope has
/// none, and a child holds its parent exclusively or through a shared
/// handle (single- or multi-threaded).
#[derive(Debug)]
pub enum Parent {
    Root,
    Owned(Box<Module>),
    Shared(Rc<Module>),
    SharedSync(Arc<Module>),
}

/// One scope of the container: its identifier, the providers registered
/// at this scope in registration order, and the link to the parent scope,
/// if any.
///
/// The identifier names this scope's singleton storage cells in a
/// `Runtime`: the root is scope zero, and forking takes a fresh
/// identifier from the runtime, so sibling scopes never share a cell. A
/// scope's own providers are consulted before any provider reachable
/// through the parent link, and a parent never observes the providers of
/// its children.
#[derive(Debug)]
pub struct Module {
    pub scope: u64,
    pub providers: Vec<Provider>,
    pub parent_module: Parent,
}

/// The images of the providers of one registry, in registration order.
pub open spec fn views_of_providers(s: Seq<Provider>) -> Seq<ProviderV> {
    s.map_values(|p: Provider| p@)
}

/// The mathematical image of one scope: its identifier and the images of
/// its registered providers, in order.
#[verifier::ext_equal]
pub ghost struct ScopeV {
    pub id: u64,
    pub regs: Seq<ProviderV>,
}

impl Module {
    /// The providers registered at this scope itself.
    pub open spec fn registry(self) -> Seq<ProviderV> {
        views_of_providers(self.providers@)
    }

    /// This scope's own image: its identifier and registry.
    pub open spec fn scope_view(self) -> ScopeV {
        ScopeV { id: self.scope, regs: self.registry() }
    }

    /// The scopes visible from this one, nearest first: this scope
    /// itself, then its parent, up to the root.
    pub open spec fn chain(self) -> Seq<ScopeV>
        decreases self,
    {
        match self.parent_module {
            Parent::Root => seq![self.scope_view()],
            Parent::Owned(m) => seq![self.scope_view()] + m.chain(),
            Parent::Shared(m) => seq![self.scope_view()] + m.chain(),
            Parent::SharedSync(m) => seq![self.scope_view()] + m.chain(),
        }
    }

    /// Creates an empty root scope, with scope identifier zero.
    pub fn new() -> (m: Module)
        ensures
            m.chain() == seq![ScopeV { id: 0, regs: Seq::<ProviderV>::empty() }],
    {
        let m = Module { scope: 0, providers: Vec::new(), parent_module: Parent::Root };
        proof {
            assert(m.registry() =~= Seq::<ProviderV>::empty());
            assert(m.chain() =~~= seq![ScopeV { id: 0, regs: Seq::<ProviderV>::empty() }]);
        }
        m
    }

    /// Appends one provider to this scope's own registry, consuming the
    /// old scope; nothing already registered is removed or reordered.
    pub fn add(self, provider: Provider) -> (m: Module)
        ensures
            m.chain() == self.chain().update(
                0,
                ScopeV { id: self.chain()[0].id, regs: self.chain()[0].regs.push(provider@) },
            ),
    {
        let ghost before = self.chain();
        let Module { scope, mut providers, parent_module } = self;
        let ghost old_providers = providers@;
        providers.push(provider);
        let m = Module { scope, providers, parent_module };
        proof {
            assert(m.registry() =~= views_of_providers(old_providers).push(provider@));
            assert(m.chain() =~~= before.update(
                0,
                ScopeV { id: before[0].id, regs: before[0].regs.push(provider@) },
            ));
        }
        m
    }

    /// Copies this scope and everything it links to; the copy presents the
    /// same chain of registries.
    fn duplicate(&self) -> (m: Module)
        ensures
            m.chain() == self.chain(),
        decreases *self,
    {
        let providers = copy_providers(&self.providers);
        let parent_module = match &self.parent_module {
            Parent::Root => Parent::Root,
            Parent::Owned(p) => Parent::Owned(Box::new(p.duplicate())),
            Parent::Shared(p) => Parent::Shared(rc_share(p)),
            Parent::SharedSync(p) => Parent::SharedSync(arc_share(p)),
        };
        let m = Module { scope: self.scope, providers, parent_module };
        proof {
            assert(m.chain() =~~= self.chain());
        }
        m
    }

    /// Forks this scope: the child starts with an empty registry, under a
    /// scope identifier freshly taken from the runtime, and sees, behind
    /// it, exactly the scopes this one sees.
    pub fn fork(&self, rt: &mut Runtime) -> (child: Module)
        requires
            old(rt)@.next_scope < u64::MAX,
        ensures
            child.chain() == seq![
                ScopeV { id: old(rt)@.next_scope as u64, regs: Seq::<ProviderV>::empty() },
            ] + self.chain(),
            final(rt)@.next_scope == old(rt)@.next_scope + 1,
            final(rt)@.singletons == old(rt)@.singletons,
            final(rt)@.next_token == old(rt)@.next_token,
    {
        let scope = rt.fresh_scope();
        let child = Module {
            scope,
            providers: Vec::new(),
            parent_module: Parent::Owned(Box::new(self.duplicate())),
        };
        proof {
            assert(child.registry() =~= Seq::<ProviderV>::empty());
            assert(child.chain() =~~= seq![
                ScopeV { id: scope, regs: Seq::<ProviderV>::empty() },
            ] + self.chain());
        }
        child
    }

    /// Forks a scope held in a single-threaded shared handle: the child
    /// takes shared ownership of the parent and a fresh scope identifier
    /// from the runtime.
    pub fn fork_rc(this: &Rc<Module>, rt: &mut Runtime) -> (child: Module)
        requires
            old(rt)@.next_scope < u64::MAX,
        ensures
            child.chain() == seq![
                ScopeV { id: old(rt)@.next_scope as u64, regs: Seq::<ProviderV>::empty() },
            ] + (**this).chain(),
            final(rt)@.next_scope == old(rt)@.next_scope + 1,
            final(rt)@.singletons == old(rt)@.singletons,
            final(rt)@.next_token == old(rt)@.next_token,
    {
        let scope = rt.fresh_scope();
        let child = Module {
            scope,
            providers: Vec::new(),
            parent_module: Parent::Shared(rc_share(this)),
        };
        proof {
            assert(child.registry() =~= Seq::<ProviderV>::empty());
            assert(child.chain() =~~= seq![
                ScopeV { id: scope, regs: Seq::<ProviderV>::empty() },
            ] + (**this).chain());
        }
        child
    }

    /// Forks a scope held in a thread-safe shared handle: the child takes
    /// shared ownership of the parent and a fresh scope identifier from
    /// the runtime.
    pub fn fork_arc(this: &Arc<Module>, rt: &mut Runtime) -> (child: Module)
        requires
            old(rt)@.next_scope < u64::MAX,
        ensures
            child.chain() == seq![
                ScopeV { id: old(rt)@.next_scope as u64, regs: Seq::<ProviderV>::empty() },
            ] + (**this).chain(),
            final(rt)@.next_scope == old(rt)@.next_scope + 1,
            final(rt)@.singletons == old(rt)@.singletons,
            final(rt)@.next_token == old(rt)@.next_token,
    {
        let scope = rt.fresh_scope();
        let child = Module {
            scope,
            providers: Vec::new(),
            parent_module: Parent::SharedSync(arc_share(this)),
        };
        proof {
            assert(child.registry() =~= Seq::<ProviderV>::empty());
            assert(child.chain() =~~= seq![
                ScopeV { id: scope, regs: Seq::<ProviderV>::empty() },
            ] + (**this).chain());
        }
        child
    }
}

impl Default for Module {
    /// An empty root scope, with scope identifier zero.
    fn default() -> (m: Self)
        ensures
            m.chain() == seq![ScopeV { id: 0, regs: Seq::<ProviderV>::empty() }],
    {
        Module::new()
    }
}

impl Clone for Module {
    /// The copy presents the same chain of registries as the original.
    fn clone(&self) -> (m: Self)
        ensures
            m.chain() == self.chain(),
    {
        self.duplicate()
    }
}

/// Copies a registry element by element; the copy presents the same
/// provider images.
fn copy_providers(v: &Vec<Provider>) -> (r: Vec<Provider>)
    ensures
        views_of_providers(r@) == views_of_providers(v@),
{
    let mut r: Vec<Provider> = Vec::new();
    let mut i: usize = 0;
    while i < v.len()
        invariant
            i <= v@.len(),
            r@.len() == i,
            forall|j: int| 0 <= j < i ==> r@[j]@ == v@[j]@,
        decreases v@.len() - i,
    {
        r.push(v[i].clone());
        i = i + 1;
    }
    proof {
        assert(views_of_providers(r@) =~= views_of_providers(v@));
    }
    r
}

} // verus!
