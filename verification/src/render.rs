//! Rendering: the text of a descriptor, and of a whole order of them.
use vstd::prelude::*;
use crate::declared::DeclaredModel;
use crate::entity::{EntityModel, ExtensionSqlEntity};
use crate::error::SqlGraphError;
use crate::positioning::{
    first_unresolved, fully_resolvable, lemma_resolves_once, resolve_requires, resolved,
    resolves_to, targets_of,
};
use crate::registry::{models, Registry};
use crate::text::{decimal, decimal_text};

verus! {

/// The texts that contracts see for a list of strings.
pub open spec fn texts(items: Seq<String>) -> Seq<Seq<char>> {
    items.map_values(|s: String| s@)
}

/// One comment line for each item, in order.
pub open spec fn comment_lines(items: Seq<Seq<char>>) -> Seq<char>
    decreases items.len(),
{
    if items.len() == 0 {
        Seq::empty()
    } else {
        comment_lines(items.drop_last()) + "--   "@ + items.last() + "\n"@
    }
}

/// A comment block: a title line, a line for each item and an empty line.
/// Without items there is no block.
pub open spec fn block(title: Seq<char>, items: Seq<Seq<char>>) -> Seq<char> {
    if items.len() == 0 {
        Seq::empty()
    } else {
        title + comment_lines(items) + "\n"@
    }
}

/// The marker comment `marker`, if `present`.
pub open spec fn marker(present: bool, marker: Seq<char>) -> Seq<char> {
    if present {
        marker
    } else {
        Seq::empty()
    }
}

/// The bare names of the entities that `e` declares.
pub open spec fn created_names(e: EntityModel) -> Seq<Seq<char>> {
    e.creates.map_values(|d: DeclaredModel| d.name)
}

/// The names of the descriptors to which the references of `e` resolve.
pub open spec fn required_names(reg: Seq<EntityModel>, e: EntityModel) -> Seq<Seq<char>> {
    Seq::new(e.requires.len(), |k: int| reg[resolved(reg, e.name, e.requires[k].target)].name)
}

/// The text of one descriptor: where it was declared, its anchor markers,
/// what it declares, what its references resolve to, its SQL as it is, and
/// an empty line.
pub open spec fn entity_sql(reg: Seq<EntityModel>, e: EntityModel) -> Seq<char> {
    "-- "@ + e.file + ":"@ + decimal_text(e.line as nat) + "\n"@ + marker(
        e.bootstrap,
        "-- bootstrap\n"@,
    ) + marker(e.finalize, "-- finalize\n"@) + block("-- creates:\n"@, created_names(e)) + block(
        "-- requires:\n"@,
        required_names(reg, e),
    ) + e.sql + "\n\n"@
}

/// The texts of the descriptors of `order`, one after the other.
pub open spec fn document(reg: Seq<EntityModel>, order: Seq<usize>) -> Seq<char>
    decreases order.len(),
{
    if order.len() == 0 {
        Seq::empty()
    } else {
        document(reg, order.drop_last()) + entity_sql(reg, reg[order.last() as int])
    }
}

/// The comment block with this title and these items.
fn comment_block(title: &str, items: &Vec<String>) -> (r: String)
    ensures
        r@ == block(title@, texts(items@)),
{
    if items.len() == 0 {
        return String::new();
    }
    let mut lines = String::new();
    let mut i: usize = 0;
    assert(texts(items@).take(0) =~= Seq::<Seq<char>>::empty());
    while i < items.len()
        invariant
            i <= items.len(),
            lines@ == comment_lines(texts(items@).take(i as int)),
        decreases items.len() - i,
    {
        proof {
            let now = texts(items@).take(i + 1);
            assert(now.drop_last() =~= texts(items@).take(i as int));
            assert(now.last() == items@[i as int]@);
        }
        lines.append("--   ");
        lines.append(items[i].as_str());
        lines.append("\n");
        i += 1;
    }
    assert(texts(items@).take(items.len() as int) =~= texts(items@));
    let mut r = String::from_str(title);
    r.append(lines.as_str());
    r.append("\n");
    r
}

/// The bare names of the entities that `entity` declares.
fn created_list(entity: &ExtensionSqlEntity) -> (r: Vec<String>)
    ensures
        texts(r@) == created_names(entity@),
{
    let mut r: Vec<String> = Vec::new();
    let mut k: usize = 0;
    while k < entity.creates.len()
        invariant
            k <= entity.creates.len(),
            r.len() == k,
            forall|i: int| 0 <= i < k ==> (#[trigger] r@[i])@ == entity.creates@[i]@.name,
        decreases entity.creates.len() - k,
    {
        r.push(entity.creates[k].name());
        k += 1;
    }
    assert(texts(r@) =~= created_names(entity@));
    r
}

/// The names of the descriptors to which the references of `entity`
/// resolve, which are those that `targets` holds.
fn required_list(entities: &Vec<ExtensionSqlEntity>, entity: &ExtensionSqlEntity, targets: &Vec<
    usize,
>) -> (r: Vec<String>)
    requires
        targets_of(models(entities@), entity@, targets@),
    ensures
        texts(r@) == required_names(models(entities@), entity@),
{
    let ghost reg = models(entities@);
    let mut r: Vec<String> = Vec::new();
    let mut k: usize = 0;
    while k < targets.len()
        invariant
            reg == models(entities@),
            targets_of(reg, entity@, targets@),
            k <= targets.len(),
            r.len() == k,
            forall|i: int|
                0 <= i < k ==> (#[trigger] r@[i])@ == reg[resolved(
                    reg,
                    entity@.name,
                    entity@.requires[i].target,
                )].name,
        decreases targets.len() - k,
    {
        let t = targets[k];
        proof {
            let raw = entity@.requires[k as int].target;
            assert(resolves_to(reg, entity@.name, raw, targets@[k as int] as int));
            lemma_resolves_once(reg, entity@.name, raw, t as int, resolved(reg, entity@.name, raw));
            assert(reg[t as int] == entities@[t as int]@);
        }
        r.push(String::from_str(entities[t].name));
        k += 1;
    }
    assert(texts(r@) =~= required_names(reg, entity@));
    r
}

impl ExtensionSqlEntity {
    /// The text of the descriptor in the script of the registry `context`,
    /// in which its references are resolved. The first reference that does
    /// not resolve is reported.
    pub fn to_sql(&self, context: &Registry) -> (r: Result<String, SqlGraphError>)
        ensures
            match r {
                Ok(text) => fully_resolvable(context@, self@) && text@ == entity_sql(
                    context@,
                    self@,
                ),
                Err(SqlGraphError::UnresolvedReference(from, raw)) => {
                    &&& from@ == self@.name
                    &&& exists|k: int| #[trigger]
                        first_unresolved(context@, self@, k) && raw@ == self@.requires[k].target
                },
                Err(_) => false,
            },
    {
        entity_text(context.entities(), self)
    }
}

/// The text of `entity`, whose references are resolved among `entities`.
pub fn entity_text(entities: &Vec<ExtensionSqlEntity>, entity: &ExtensionSqlEntity) -> (r: Result<
    String,
    SqlGraphError,
>)
    ensures
        match r {
            Ok(text) => fully_resolvable(models(entities@), entity@) && text@ == entity_sql(
                models(entities@),
                entity@,
            ),
            Err(SqlGraphError::UnresolvedReference(from, raw)) => {
                &&& from@ == entity@.name
                &&& exists|k: int| #[trigger]
                    first_unresolved(models(entities@), entity@, k) && raw@
                        == entity@.requires[k].target
            },
            Err(_) => false,
        },
{
    let ghost reg = models(entities@);
    let targets = match resolve_requires(entities, entity) {
        Ok(targets) => targets,
        Err(e) => {
            return Err(e);
        },
    };
    proof {
        assert forall|k: int| 0 <= k < entity@.requires.len() implies crate::positioning::resolvable(
            reg,
            entity@.name,
            (#[trigger] entity@.requires[k]).target,
        ) by {
            assert(resolves_to(reg, entity@.name, entity@.requires[k].target, targets@[k] as int));
        }
    }
    let created = created_list(entity);
    let required = required_list(entities, entity, &targets);
    let mut text = String::from_str("-- ");
    text.append(entity.file);
    text.append(":");
    text.append(decimal(entity.line).as_str());
    text.append("\n");
    if entity.bootstrap {
        text.append("-- bootstrap\n");
    } else {
        assert(text@ + Seq::<char>::empty() =~= text@);
    }
    if entity.finalize {
        text.append("-- finalize\n");
    } else {
        assert(text@ + Seq::<char>::empty() =~= text@);
    }
    text.append(comment_block("-- creates:\n", &created).as_str());
    text.append(comment_block("-- requires:\n", &required).as_str());
    text.append(entity.sql);
    text.append("\n\n");
    Ok(text)
}

} // verus!
