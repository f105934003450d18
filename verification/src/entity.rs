//! Descriptors: the declared units of SQL that the graph orders.
use vstd::prelude::*;
use crate::declared::{canonical_match, DeclaredModel, SqlDeclared, SqlDeclaredEntity};

verus! {

/// Where a positioning reference puts its descriptor.
#[derive(Debug, Clone, Copy, PartialEq, Eq, Hash, PartialOrd, Ord)]
pub enum Positioning {
    /// The descriptor needs the target to exist first.
    Requires,
    /// The descriptor comes before the target.
    Before,
    /// The descriptor comes after the target.
    After,
}

/// A positioning reference as contracts see it.
pub struct PositioningModel {
    pub relation: Positioning,
    pub target: Seq<char>,
}

/// A request to order one descriptor relative to another, which it names
/// by its descriptor name, by a spelling of an entity that it declares, or
/// by an anchor token.
#[derive(Debug, Clone, PartialEq, Eq, Hash, PartialOrd, Ord)]
pub struct PositioningRef {
    pub relation: Positioning,
    pub target: String,
}

impl View for PositioningRef {
    type V = PositioningModel;

    open spec fn view(&self) -> PositioningModel {
        PositioningModel { relation: self.relation, target: self.target@ }
    }
}

/// A descriptor as contracts see it.
pub struct EntityModel {
    pub module: Seq<char>,
    pub full_path: Seq<char>,
    pub sql: Seq<char>,
    pub file: Seq<char>,
    pub line: u32,
    pub name: Seq<char>,
    pub bootstrap: bool,
    pub finalize: bool,
    pub requires: Seq<PositioningModel>,
    pub creates: Seq<DeclaredModel>,
}

/// One declared unit of SQL, with where it was declared, what it declares
/// and how it asks to be ordered.
#[derive(Debug, Clone, Hash, PartialEq, Eq, PartialOrd, Ord)]
pub struct ExtensionSqlEntity {
    pub module: &'static str,
    pub full_path: &'static str,
    pub sql: &'static str,
    pub file: &'static str,
    pub line: u32,
    pub name: &'static str,
    pub bootstrap: bool,
    pub finalize: bool,
    pub requires: Vec<PositioningRef>,
    pub creates: Vec<SqlDeclaredEntity>,
}

impl View for ExtensionSqlEntity {
    type V = EntityModel;

    open spec fn view(&self) -> EntityModel {
        EntityModel {
            module: self.module@,
            full_path: self.full_path@,
            sql: self.sql@,
            file: self.file@,
            line: self.line,
            name: self.name@,
            bootstrap: self.bootstrap,
            finalize: self.finalize,
            requires: self.requires@.map_values(|r: PositioningRef| r@),
            creates: self.creates@.map_values(|c: SqlDeclaredEntity| c@),
        }
    }
}


/// `k` is the first entity that `e` declares to which `identifier` refers.
pub open spec fn first_declared(e: EntityModel, identifier: DeclaredModel, k: int) -> bool {
    &&& 0 <= k < e.creates.len()
    &&& refers_to(identifier, e.creates[k])
    &&& forall|i: int| 0 <= i < k ==> !refers_to(identifier, #[trigger] e.creates[i])
}

/// `identifier` refers to the declared entity `declared`: the sorts are the
/// same, and the spelling is a way to refer to it.
pub open spec fn refers_to(identifier: DeclaredModel, declared: DeclaredModel) -> bool {
    identifier.kind == declared.kind && canonical_match(declared.name, identifier.name)
}

impl ExtensionSqlEntity {
    /// The first entity that this descriptor declares to which `identifier`
    /// refers.
    pub fn has_sql_declared_entity(&self, identifier: &SqlDeclared) -> (r: Option<
        &SqlDeclaredEntity,
    >)
        ensures
            match r {
                Some(declared) => exists|k: int| #[trigger]
                    first_declared(self@, identifier@, k) && *declared == self.creates@[k],
                None => forall|k: int|
                    0 <= k < self@.creates.len() ==> !refers_to(
                        identifier@,
                        #[trigger] self@.creates[k],
                    ),
            },
    {
        let mut k: usize = 0;
        while k < self.creates.len()
            invariant
                k <= self.creates.len(),
                forall|i: int| 0 <= i < k ==> !refers_to(identifier@, #[trigger] self@.creates[i]),
            decreases self.creates.len() - k,
        {
            assert(self@.creates[k as int] == self.creates@[k as int]@);
            if self.creates[k].has_sql_declared_entity(identifier) {
                assert(first_declared(self@, identifier@, k as int));
                return Some(&self.creates[k]);
            }
            k += 1;
        }
        None
    }

    /// The label of the descriptor in a drawing of the graph.
    pub fn dot_identifier(&self) -> (r: String)
        ensures
            r@ == "sql "@ + self@.name,
    {
        let mut r = String::from_str("sql ");
        r.append(self.name);
        r
    }

    /// The name of the descriptor.
    pub fn rust_identifier(&self) -> (r: String)
        ensures
            r@ == self@.name,
    {
        String::from_str(self.name)
    }

    /// The file in which the descriptor was declared.
    pub fn file(&self) -> (r: Option<&'static str>)
        ensures
            r == Some(self.file),
    {
        Some(self.file)
    }

    /// The line at which the descriptor was declared.
    pub fn line(&self) -> (r: Option<u32>)
        ensures
            r == Some(self.line),
    {
        Some(self.line)
    }
}

} // verus!
