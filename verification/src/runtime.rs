use crate::inject::Value;
use crate::inject::ValueV;
use vstd::prelude::*;

verus! {

/// One populated singleton storage cell: the identifier of the scope that
/// owns it, the position of its provider in that scope's registry, and
/// the value constructed on first resolution.
#[derive(Debug)]
struct StoredSingleton {
    scope: u64,
    index: usize,
    value: Value,
}

/// The mutable state that resolution threads along for one scope
/// hierarchy: the populated singleton storage cells, the source of the
/// fresh tokens that constructions are stamped with, and the source of
/// the identifiers that forking gives new scopes.
///
/// Scopes themselves stay immutable once built, so this state stands
/// apart from them; sharing one `Runtime` across a hierarchy and its
/// forks is what makes a singleton's value common to all of them. A
/// runtime belongs to one hierarchy: the scope identifiers it hands out
/// are distinct from each other, so cells of different scopes never
/// collide in it.
#[derive(Debug)]
pub struct Runtime {
    singletons: Vec<StoredSingleton>,
    next_token: u64,
    next_scope: u64,
}

/// The mathematical image of a `Runtime`: the storage cells as a map from
/// owning scope and position to stored value, the next token to hand
/// out, and the next scope identifier to hand out.
#[verifier::ext_equal]
pub ghost struct RuntimeV {
    pub singletons: Map<(int, int), ValueV>,
    pub next_token: int,
    pub next_scope: int,
}

spec fn singletons_map(s: Seq<StoredSingleton>) -> Map<(int, int), ValueV>
    decreases s.len(),
{
    if s.len() == 0 {
        Map::empty()
    } else {
        singletons_map(s.drop_last()).insert(
            (s.last().scope as int, s.last().index as int),
            s.last().value@,
        )
    }
}

impl View for Runtime {
    type V = RuntimeV;

    closed spec fn view(&self) -> RuntimeV {
        RuntimeV {
            singletons: singletons_map(self.singletons@),
            next_token: self.next_token as int,
            next_scope: self.next_scope as int,
        }
    }
}

impl Runtime {
    /// A runtime with no singleton constructed yet, tokens starting at
    /// zero, and scope identifiers starting after the root's, which is
    /// zero.
    pub fn new() -> (rt: Runtime)
        ensures
            rt@.singletons == Map::<(int, int), ValueV>::empty(),
            rt@.next_token == 0,
            rt@.next_scope == 1,
    {
        Runtime { singletons: Vec::new(), next_token: 0, next_scope: 1 }
    }

    /// The stored value of the singleton cell of the given scope and
    /// position, if that cell has been populated.
    pub fn get_singleton(&self, scope: u64, index: usize) -> (r: Option<&Value>)
        ensures
            match r {
                Option::Some(v) => self@.singletons.contains_key((scope as int, index as int))
                    && v@ == self@.singletons[(scope as int, index as int)],
                Option::None => !self@.singletons.contains_key((scope as int, index as int)),
            },
    {
        let ghost key = (scope as int, index as int);
        let ghost all = self.singletons@;
        let mut j: usize = self.singletons.len();
        proof {
            assert(all.subrange(0, all.len() as int) =~= all);
        }
        while j > 0
            invariant
                key == (scope as int, index as int),
                j <= all.len(),
                all == self.singletons@,
                singletons_map(all).contains_key(key) == singletons_map(
                    all.subrange(0, j as int),
                ).contains_key(key),
                singletons_map(all).contains_key(key) ==> singletons_map(all)[key]
                    == singletons_map(all.subrange(0, j as int))[key],
            decreases j,
        {
            j = j - 1;
            let e = &self.singletons[j];
            proof {
                assert(all.subrange(0, j + 1 as int).drop_last() =~= all.subrange(0, j as int));
                assert(all.subrange(0, j + 1 as int).last() == all[j as int]);
                assert(singletons_map(all.subrange(0, j + 1 as int)) == singletons_map(
                    all.subrange(0, j as int),
                ).insert((all[j as int].scope as int, all[j as int].index as int), all[j as int].value@));
            }
            proof {
                assert((*e) == all[j as int]);
            }
            if e.scope == scope && e.index == index {
                proof {
                    assert(key == (all[j as int].scope as int, all[j as int].index as int));
                    assert(singletons_map(all.subrange(0, j + 1 as int)).contains_key(key));
                    assert(singletons_map(all.subrange(0, j + 1 as int))[key] == all[j as int].value@);
                }
                return Some(&e.value);
            }
            proof {
                assert(key != (all[j as int].scope as int, all[j as int].index as int));
                assert(singletons_map(all.subrange(0, j + 1 as int)).contains_key(key)
                    == singletons_map(all.subrange(0, j as int)).contains_key(key));
                assert(singletons_map(all.subrange(0, j + 1 as int)).contains_key(key)
                    ==> singletons_map(all.subrange(0, j + 1 as int))[key] == singletons_map(
                    all.subrange(0, j as int),
                )[key]);
            }
        }
        proof {
            assert(all.subrange(0, 0) =~= Seq::<StoredSingleton>::empty());
        }
        None
    }

    /// Populates the singleton cell of the given scope and position.
    pub fn put_singleton(&mut self, scope: u64, index: usize, value: Value)
        ensures
            final(self)@.singletons == old(self)@.singletons.insert(
                (scope as int, index as int),
                value@,
            ),
            final(self)@.next_token == old(self)@.next_token,
            final(self)@.next_scope == old(self)@.next_scope,
    {
        let ghost before = self.singletons@;
        self.singletons.push(StoredSingleton { scope, index, value });
        proof {
            assert(self.singletons@.drop_last() =~= before);
        }
    }

    /// Hands out the next fresh token.
    pub fn fresh_token(&mut self) -> (t: u64)
        requires
            old(self)@.next_token < u64::MAX,
        ensures
            t == old(self)@.next_token,
            final(self)@.next_token == old(self)@.next_token + 1,
            final(self)@.singletons == old(self)@.singletons,
            final(self)@.next_scope == old(self)@.next_scope,
    {
        let t = self.next_token;
        self.next_token = self.next_token + 1;
        t
    }

    /// Hands out the next fresh scope identifier.
    pub fn fresh_scope(&mut self) -> (s: u64)
        requires
            old(self)@.next_scope < u64::MAX,
        ensures
            s == old(self)@.next_scope,
            final(self)@.next_scope == old(self)@.next_scope + 1,
            final(self)@.singletons == old(self)@.singletons,
            final(self)@.next_token == old(self)@.next_token,
    {
        let s = self.next_scope;
        self.next_scope = self.next_scope + 1;
        s
    }
}

} // verus!
