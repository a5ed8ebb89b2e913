use vstd::prelude::*;

verus! {

/// A constructed instance, as the container observes it: the type it
/// belongs to, the token its construction was given, and the tokens of the
/// dependency values its constructor received, in declaration order.
///
/// Tokens let a caller tell instances apart: every construction performed
/// by the resolution engine stamps the new value with a fresh token, and a
/// pre-supplied instance keeps whatever token it was registered with.
#[derive(Debug)]
pub struct Value {
    pub ty: u64,
    pub token: u64,
    pub deps: Vec<u64>,
}

/// The mathematical image of a `Value`.
#[verifier::ext_equal]
pub ghost struct ValueV {
    pub ty: u64,
    pub token: u64,
    pub deps: Seq<u64>,
}

impl View for Value {
    type V = ValueV;

    open spec fn view(&self) -> ValueV {
        ValueV { ty: self.ty, token: self.token, deps: self.deps@ }
    }
}

/// Copies a token list element by element.
pub(crate) fn copy_tokens(v: &Vec<u64>) -> (r: Vec<u64>)
    ensures
        r@ == v@,
{
    let mut r: Vec<u64> = Vec::new();
    let mut i: usize = 0;
    while i < v.len()
        invariant
            i <= v@.len(),
            r@ == v@.subrange(0, i as int),
        decreases v@.len() - i,
    {
        r.push(v[i]);
        proof {
            assert(r@ =~= v@.subrange(0, i + 1 as int));
        }
        i = i + 1;
    }
    proof {
        assert(r@ =~= v@);
    }
    r
}

impl Clone for Value {
    fn clone(&self) -> (r: Self)
        ensures
            r@ == self@,
    {
        Value { ty: self.ty, token: self.token, deps: copy_tokens(&self.deps) }
    }
}

/// The constructor signature of an injectable type, as the
/// dependency-declaration facility supplies it: the type the constructor
/// produces and the ordered list of types it needs, one per argument.
#[derive(Debug)]
pub struct Inject {
    pub target: u64,
    pub deps: Vec<u64>,
}

/// The mathematical image of an `Inject` declaration.
#[verifier::ext_equal]
pub ghost struct InjectV {
    pub target: u64,
    pub deps: Seq<u64>,
}

impl View for Inject {
    type V = InjectV;

    open spec fn view(&self) -> InjectV {
        InjectV { target: self.target, deps: self.deps@ }
    }
}

impl Clone for Inject {
    fn clone(&self) -> (r: Self)
        ensures
            r@ == self@,
    {
        Inject { target: self.target, deps: copy_tokens(&self.deps) }
    }
}

} // verus!
