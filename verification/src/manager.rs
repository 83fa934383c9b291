//! The entity registry: durable identity and discovery. It caches the
//! entities loaded from a storage root and owns the shared resolver pool
//! used by every evolution it manages.

use vstd::prelude::*;
use vstd::string::StringExecFns;

use crate::entity::{Entity, EntityModel};
use crate::resolver::{LLMResolver, ResolverModel};

verus! {

/// The registry of loaded entities and the shared resolver pool.
pub struct LifeManager {
    root_folder: String,
    loaded_entities: Vec<Entity>,
    resolvers: Vec<LLMResolver>,
}

/// Mathematical model of a [`LifeManager`].
pub ghost struct ManagerModel {
    pub root_folder: Seq<char>,
    pub entities: Seq<EntityModel>,
    pub resolvers: Seq<ResolverModel>,
}

impl View for LifeManager {
    type V = ManagerModel;

    closed spec fn view(&self) -> ManagerModel {
        ManagerModel {
            root_folder: self.root_folder@,
            entities: self.loaded_entities.deep_view(),
            resolvers: self.resolvers.deep_view(),
        }
    }
}

impl ManagerModel {
    /// Every cached entity is well formed, no two share an identity, and
    /// the resolver pool is never empty.
    pub open spec fn wf(self) -> bool {
        &&& forall|i: int| 0 <= i < self.entities.len() ==> (#[trigger] self.entities[i]).wf()
        &&& forall|i: int, j: int|
            0 <= i < self.entities.len() && 0 <= j < self.entities.len() && i != j
                ==> (#[trigger] self.entities[i]).id != (#[trigger] self.entities[j]).id
        &&& self.resolvers.len() >= 1
    }

    /// Whether some cached entity carries the given identity.
    pub open spec fn has_entity(self, id: Seq<char>) -> bool {
        exists|i: int| 0 <= i < self.entities.len() && (#[trigger] self.entities[i]).id == id
    }
}

impl LifeManager {
    /// A fresh registry over a storage root, with the resolver pool it
    /// will share among its entities. The pool must not be empty.
    pub fn new(root_folder: String, resolvers: Vec<LLMResolver>) -> (r: Self)
        requires
            resolvers@.len() >= 1,
        ensures
            r@.wf(),
            r@.root_folder == root_folder@,
            r@.entities == Seq::<EntityModel>::empty(),
            r@.resolvers == resolvers.deep_view(),
    {
        let r = LifeManager { root_folder, loaded_entities: Vec::new(), resolvers };
        proof {
            assert(r@.entities =~= Seq::<EntityModel>::empty());
        }
        r
    }

    /// The storage root this registry scans and persists under.
    pub fn root_folder(&self) -> (r: &String)
        ensures
            r@ == self@.root_folder,
    {
        &self.root_folder
    }

    /// Caches a newly created or loaded entity. Fails — changing nothing —
    /// exactly when an entity with the same identity is already cached.
    pub fn register_entity(&mut self, entity: Entity) -> (registered: bool)
        requires
            old(self)@.wf(),
            entity@.wf(),
        ensures
            final(self)@.wf(),
            final(self)@.root_folder == old(self)@.root_folder,
            final(self)@.resolvers == old(self)@.resolvers,
            registered == !old(self)@.has_entity(entity@.id),
            registered ==> final(self)@.entities == old(self)@.entities.push(entity@),
            !registered ==> final(self)@ == old(self)@,
    {
        let n = self.loaded_entities.len();
        let mut i: usize = 0;
        while i < n
            invariant
                i <= n,
                self@ == old(self)@,
                old(self)@.wf(),
                n == self@.entities.len(),
                forall|j: int| 0 <= j < i ==> (#[trigger] self@.entities[j]).id != entity@.id,
            decreases n - i,
        {
            proof {
                assert(self.loaded_entities@[i as int]@ == self@.entities[i as int]);
            }
            if self.loaded_entities[i].id_matches(entity.id()) {
                proof {
                    assert(self@.has_entity(entity@.id));
                }
                return false;
            }
            i += 1;
        }
        let ghost prev = self.loaded_entities.deep_view();
        let ghost entity_view = entity@;
        self.loaded_entities.push(entity);
        proof {
            assert(self.loaded_entities.deep_view() =~= prev.push(entity_view));
        }
        true
    }

    /// The identities of every cached entity, in registration order.
    pub fn list_entities(&self) -> (r: Vec<String>)
        ensures
            r.deep_view() == self@.entities.map_values(|e: EntityModel| e.id),
    {
        let mut r: Vec<String> = Vec::new();
        let mut i: usize = 0;
        while i < self.loaded_entities.len()
            invariant
                i <= self@.entities.len(),
                self@.entities.len() == self.loaded_entities@.len(),
                r.deep_view() =~= self@.entities.map_values(|e: EntityModel| e.id).take(i as int),
            decreases self.loaded_entities@.len() - i,
        {
            let ghost prev = r.deep_view();
            proof {
                assert(self.loaded_entities@[i as int]@ == self@.entities[i as int]);
            }
            let id = self.loaded_entities[i].id().to_owned();
            r.push(id);
            proof {
                assert(r.deep_view() =~= prev.push(id@));
                assert(r.deep_view() =~= self@.entities.map_values(|e: EntityModel| e.id).take(
                    i + 1,
                ));
            }
            i += 1;
        }
        proof {
            assert(r.deep_view() =~= self@.entities.map_values(|e: EntityModel| e.id));
        }
        r
    }

    /// Resolves an identity to the cached entity carrying it.
    pub fn get_entity(&self, id: &str) -> (r: Option<&Entity>)
        requires
            self@.wf(),
        ensures
            match r {
                Option::Some(e) => e@.id == id@ && self@.has_entity(id@) && (exists|i: int|
                    0 <= i < self@.entities.len() && #[trigger] self@.entities[i] == e@),
                Option::None => !self@.has_entity(id@),
            },
    {
        let n = self.loaded_entities.len();
        let mut i: usize = 0;
        while i < n
            invariant
                i <= n,
                n == self@.entities.len(),
                forall|j: int| 0 <= j < i ==> (#[trigger] self@.entities[j]).id != id@,
            decreases n - i,
        {
            proof {
                assert(self.loaded_entities@[i as int]@ == self@.entities[i as int]);
            }
            if self.loaded_entities[i].id_matches(id) {
                return Some(&self.loaded_entities[i]);
            }
            i += 1;
        }
        None
    }

    /// Removes the cached entity carrying an identity and hands it to the
    /// caller, who gives it back through [`LifeManager::register_entity`]
    /// once done mutating it.
    pub fn take_entity(&mut self, id: &str) -> (r: Option<Entity>)
        requires
            old(self)@.wf(),
        ensures
            final(self)@.wf(),
            final(self)@.root_folder == old(self)@.root_folder,
            final(self)@.resolvers == old(self)@.resolvers,
            match r {
                Option::Some(e) => e@.id == id@ && old(self)@.has_entity(id@) && (exists|i: int|
                    0 <= i < old(self)@.entities.len() && #[trigger] old(self)@.entities[i] == e@
                        && final(self)@.entities == old(self)@.entities.remove(i)),
                Option::None => !old(self)@.has_entity(id@) && final(self)@ == old(self)@,
            },
    {
        let n = self.loaded_entities.len();
        let mut i: usize = 0;
        while i < n
            invariant
                i <= n,
                self@ == old(self)@,
                old(self)@.wf(),
                n == self@.entities.len(),
                forall|j: int| 0 <= j < i ==> (#[trigger] self@.entities[j]).id != id@,
            decreases n - i,
        {
            proof {
                assert(self.loaded_entities@[i as int]@ == self@.entities[i as int]);
            }
            if self.loaded_entities[i].id_matches(id) {
                let e = self.loaded_entities.remove(i);
                proof {
                    let before = old(self)@.entities;
                    let removed = before.remove(i as int);
                    assert(self.loaded_entities.deep_view() =~= removed);
                    assert(removed =~= before.subrange(0, i as int) + before.subrange(
                        i + 1,
                        before.len() as int,
                    ));
                    assert forall|a: int| 0 <= a < removed.len() implies (
                    #[trigger] removed[a]).wf() by {
                        if a < i {
                            assert(removed[a] == before[a]);
                        } else {
                            assert(removed[a] == before[a + 1]);
                        }
                    }
                    assert forall|a: int, b: int|
                        0 <= a < removed.len() && 0 <= b < removed.len() && a != b implies (
                    #[trigger] removed[a]).id != (#[trigger] removed[b]).id by {
                        let a0: int = if a < i { a } else { a + 1 };
                        let b0: int = if b < i { b } else { b + 1 };
                        assert(removed[a] == before[a0]);
                        assert(removed[b] == before[b0]);
                    }
                }
                return Some(e);
            }
            i += 1;
        }
        None
    }

    /// Read-only access to every cached entity, in registration order.
    pub fn get_all_entities(&self) -> (r: &Vec<Entity>)
        ensures
            r.deep_view() == self@.entities,
    {
        &self.loaded_entities
    }

    /// The shared resolver pool.
    pub fn resolvers(&self) -> (r: &Vec<LLMResolver>)
        ensures
            r.deep_view() == self@.resolvers,
    {
        &self.resolvers
    }

    /// Replaces the shared resolver pool for subsequent evolutions;
    /// in-flight ones keep the pool they started with. The new pool must
    /// not be empty either.
    pub fn set_resolvers(&mut self, resolvers: Vec<LLMResolver>)
        requires
            old(self)@.wf(),
            resolvers@.len() >= 1,
        ensures
            final(self)@.wf(),
            final(self)@.root_folder == old(self)@.root_folder,
            final(self)@.entities == old(self)@.entities,
            final(self)@.resolvers == resolvers.deep_view(),
    {
        self.resolvers = resolvers;
    }
}

} // verus!
