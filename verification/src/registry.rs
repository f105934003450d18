//! The registry: all descriptors of one build, each under a name of its own.
use vstd::prelude::*;
use crate::entity::{EntityModel, ExtensionSqlEntity};
use crate::error::SqlGraphError;
use crate::text::same_text;

verus! {

/// The descriptors that contracts see for a list of descriptors.
pub open spec fn models(entities: Seq<ExtensionSqlEntity>) -> Seq<EntityModel> {
    entities.map_values(|e: ExtensionSqlEntity| e@)
}

/// A descriptor may be registered: it has a name, and it has SQL unless it
/// is there only for what it declares.
pub open spec fn admissible(e: EntityModel) -> bool {
    &&& e.name.len() > 0
    &&& e.sql.len() > 0 || e.creates.len() > 0
}

/// Some descriptor of `reg` is called `name`.
pub open spec fn has_name(reg: Seq<EntityModel>, name: Seq<char>) -> bool {
    exists|i: int| 0 <= i < reg.len() && (#[trigger] reg[i]).name == name
}

/// No two descriptors of `reg` have the same name.
pub open spec fn unique_names(reg: Seq<EntityModel>) -> bool {
    forall|i: int, j: int|
        0 <= i < reg.len() && 0 <= j < reg.len() && i != j ==> (#[trigger] reg[i]).name != (
        #[trigger] reg[j]).name
}

/// What holds of every registry: the names are unique, and every descriptor
/// was admissible when it came in.
pub open spec fn valid_registry(reg: Seq<EntityModel>) -> bool {
    &&& unique_names(reg)
    &&& forall|i: int| 0 <= i < reg.len() ==> admissible(#[trigger] reg[i])
}

/// The place of a registered descriptor in its registry.
#[derive(Debug, Clone, Copy, PartialEq, Eq, Hash, PartialOrd, Ord)]
pub struct RegistryHandle {
    pub index: usize,
}

/// The descriptors of one build, in the order in which they were registered.
#[derive(Debug)]
pub struct Registry {
    entities: Vec<ExtensionSqlEntity>,
}

impl View for Registry {
    type V = Seq<EntityModel>;

    closed spec fn view(&self) -> Seq<EntityModel> {
        models(self.entities@)
    }
}

impl ExtensionSqlEntity {
    /// Whether the descriptor may be registered.
    pub fn is_admissible(&self) -> (r: bool)
        ensures
            r == admissible(self@),
    {
        self.name.unicode_len() > 0 && (self.sql.unicode_len() > 0 || self.creates.len() > 0)
    }
}

impl Registry {
    #[verifier::type_invariant]
    spec fn valid(&self) -> bool {
        valid_registry(models(self.entities@))
    }

    /// A registry without descriptors.
    pub fn new() -> (r: Registry)
        ensures
            r@ == Seq::<EntityModel>::empty(),
    {
        let r = Registry { entities: Vec::new() };
        assert(r@ =~= Seq::<EntityModel>::empty());
        r
    }

    /// The number of descriptors.
    pub fn len(&self) -> (r: usize)
        ensures
            r == self@.len(),
    {
        self.entities.len()
    }

    /// The descriptors, in the order in which they were registered.
    pub fn entities(&self) -> (r: &Vec<ExtensionSqlEntity>)
        ensures
            models(r@) == self@,
            valid_registry(self@),
    {
        proof {
            use_type_invariant(self);
        }
        &self.entities
    }

    /// The descriptor that was registered under `handle`, if it is one of
    /// this registry.
    pub fn get(&self, handle: RegistryHandle) -> (r: Option<&ExtensionSqlEntity>)
        ensures
            match r {
                Some(e) => handle.index < self@.len() && e@ == self@[handle.index as int],
                None => handle.index >= self@.len(),
            },
    {
        if handle.index < self.entities.len() {
            Some(&self.entities[handle.index])
        } else {
            None
        }
    }

    /// Whether a descriptor called `name` is registered.
    pub fn contains_name(&self, name: &str) -> (r: bool)
        ensures
            r == has_name(self@, name@),
    {
        let mut i: usize = 0;
        while i < self.entities.len()
            invariant
                i <= self.entities.len(),
                forall|j: int| 0 <= j < i ==> (#[trigger] self@[j]).name != name@,
            decreases self.entities.len() - i,
        {
            if same_text(self.entities[i].name, name) {
                assert(self@[i as int].name == name@);
                return true;
            }
            i += 1;
        }
        false
    }

    /// Takes `descriptor` in, unless its name is taken. A refused
    /// descriptor leaves the registry as it was.
    pub fn register(&mut self, descriptor: ExtensionSqlEntity) -> (r: Result<
        RegistryHandle,
        SqlGraphError,
    >)
        requires
            admissible(descriptor@),
        ensures
            match r {
                Ok(handle) => {
                    &&& !has_name(old(self)@, descriptor@.name)
                    &&& final(self)@ == old(self)@.push(descriptor@)
                    &&& handle.index == old(self)@.len()
                },
                Err(SqlGraphError::DuplicateEntity(name)) => {
                    &&& has_name(old(self)@, descriptor@.name)
                    &&& name@ == descriptor@.name
                    &&& final(self)@ == old(self)@
                },
                Err(_) => false,
            },
    {
        proof {
            use_type_invariant(&*self);
        }
        if self.contains_name(descriptor.name) {
            return Err(SqlGraphError::DuplicateEntity(String::from_str(descriptor.name)));
        }
        let index = self.entities.len();
        let ghost before = self@;
        let mut entities: Vec<ExtensionSqlEntity> = Vec::new();
        core::mem::swap(&mut self.entities, &mut entities);
        entities.push(descriptor);
        proof {
            assert(models(entities@) =~= before.push(descriptor@));
            assert forall|i: int, j: int|
                0 <= i < entities@.len() && 0 <= j < entities@.len() && i != j implies (
            #[trigger] models(entities@)[i]).name != (#[trigger] models(entities@)[j]).name by {
                if i < before.len() && j < before.len() {
                    assert(before[i].name != before[j].name);
                } else if i < before.len() {
                    assert(before[i].name != descriptor@.name);
                } else {
                    assert(before[j].name != descriptor@.name);
                }
            }
        }
        self.entities = entities;
        Ok(RegistryHandle { index })
    }
}


/// Once a descriptor is in the registry its name is taken, so that a
/// second descriptor with the same name is refused.
pub proof fn lemma_registered_name_is_taken(reg: Seq<EntityModel>, e: EntityModel)
    ensures
        has_name(reg.push(e), e.name),
{
    assert(reg.push(e)[reg.len() as int] == e);
}

} // verus!
