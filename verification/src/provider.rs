use crate::inject::Inject;
use crate::inject::InjectV;
use crate::inject::Value;
use crate::inject::ValueV;
use vstd::prelude::*;

verus! {

/// A provider that constructs a fresh value on every resolution.
#[derive(Debug)]
pub struct Transient {
    pub sig: Inject,
}

impl Transient {
    /// Registers the constructor signature of the type this provider
    /// builds; each resolution runs that constructor anew.
    pub fn new(sig: Inject) -> (p: Transient)
        ensures
            p.sig == sig,
    {
        Transient { sig }
    }
}

impl Clone for Transient {
    fn clone(&self) -> (r: Self)
        ensures
            r.sig@ == self.sig@,
    {
        Transient { sig: self.sig.clone() }
    }
}

/// A provider whose value is constructed at most once: the first
/// resolution builds and stores it, every later resolution answers with
/// the stored value.
#[derive(Debug)]
pub struct Singleton {
    pub sig: Inject,
}

impl Singleton {
    /// Registers the constructor signature of the type this provider
    /// builds; the storage cell for its value starts empty.
    pub fn new(sig: Inject) -> (p: Singleton)
        ensures
            p.sig == sig,
    {
        Singleton { sig }
    }
}

impl Clone for Singleton {
    fn clone(&self) -> (r: Self)
        ensures
            r.sig@ == self.sig@,
    {
        Singleton { sig: self.sig.clone() }
    }
}

/// A provider that wraps a value supplied at registration time; it never
/// constructs anything and has no dependencies.
#[derive(Debug)]
pub struct Instance {
    pub value: Value,
}

impl Instance {
    /// Registers a pre-supplied value; every resolution answers with it.
    pub fn new(value: Value) -> (p: Instance)
        ensures
            p.value == value,
    {
        Instance { value }
    }
}

impl Clone for Instance {
    fn clone(&self) -> (r: Self)
        ensures
            r.value@ == self.value@,
    {
        Instance { value: self.value.clone() }
    }
}

/// A registered factory or value source for exactly one type, tagged with
/// its lifecycle kind.
#[derive(Debug)]
pub enum Provider {
    Transient(Transient),
    Singleton(Singleton),
    Instance(Instance),
}

/// The mathematical image of a `Provider`.
#[verifier::ext_equal]
pub ghost enum ProviderV {
    Transient { sig: InjectV },
    Singleton { sig: InjectV },
    Instance { value: ValueV },
}

impl ProviderV {
    /// The one type this provider produces.
    pub open spec fn target(self) -> u64 {
        match self {
            ProviderV::Transient { sig } => sig.target,
            ProviderV::Singleton { sig } => sig.target,
            ProviderV::Instance { value } => value.ty,
        }
    }

    /// The ordered list of types this provider's constructor needs.
    pub open spec fn dep_tys(self) -> Seq<u64> {
        match self {
            ProviderV::Transient { sig } => sig.deps,
            ProviderV::Singleton { sig } => sig.deps,
            ProviderV::Instance { value: _ } => Seq::empty(),
        }
    }
}

impl View for Provider {
    type V = ProviderV;

    open spec fn view(&self) -> ProviderV {
        match self {
            Provider::Transient(p) => ProviderV::Transient { sig: p.sig@ },
            Provider::Singleton(p) => ProviderV::Singleton { sig: p.sig@ },
            Provider::Instance(p) => ProviderV::Instance { value: p.value@ },
        }
    }
}

impl Clone for Provider {
    fn clone(&self) -> (r: Self)
        ensures
            r@ == self@,
    {
        match self {
            Provider::Transient(p) => Provider::Transient(p.clone()),
            Provider::Singleton(p) => Provider::Singleton(p.clone()),
            Provider::Instance(p) => Provider::Instance(p.clone()),
        }
    }
}

impl Provider {
    /// The one type this provider produces.
    pub fn target(&self) -> (t: u64)
        ensures
            t == self@.target(),
    {
        match self {
            Provider::Transient(p) => p.sig.target,
            Provider::Singleton(p) => p.sig.target,
            Provider::Instance(p) => p.value.ty,
        }
    }
}

} // verus!
