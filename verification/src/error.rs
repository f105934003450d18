//! The ways in which building the entity graph can fail.
use vstd::prelude::*;

verus! {

/// A failure of the build. Every kind is fatal: no script is produced.
#[derive(Debug, Clone, PartialEq, Eq)]
pub enum SqlGraphError {
    /// Two descriptors share this name.
    DuplicateEntity(String),
    /// The descriptor named first holds the positioning reference given
    /// second, which matches no descriptor, declared entity or anchor.
    UnresolvedReference(String, String),
    /// The ordering constraints form a cycle through the descriptors with
    /// these names, each of which must come before the next, and the last
    /// before the first.
    CyclicDependency(Vec<String>),
    /// The tag of a declared entity is none of `Type`, `Enum`, `Function`.
    MalformedDeclaration(String),
    /// A declared entity has an empty name.
    EmptyIdentifier,
}

/// The names of a cycle, each followed by an arrow.
pub open spec fn arrows(names: Seq<Seq<char>>) -> Seq<char>
    decreases names.len(),
{
    if names.len() == 0 {
        Seq::empty()
    } else {
        arrows(names.drop_last()) + names.last() + " -> "@
    }
}

/// The message of an error.
pub open spec fn message_text(e: SqlGraphError) -> Seq<char> {
    match e {
        SqlGraphError::DuplicateEntity(name) => "duplicate entity `"@ + name@ + "`"@,
        SqlGraphError::UnresolvedReference(from, raw) => "unresolved reference `"@ + raw@
            + "` in `"@ + from@ + "`"@,
        SqlGraphError::CyclicDependency(cycle) => "cyclic dependency: "@ + arrows(
            cycle@.map_values(|s: String| s@),
        ) + (if cycle@.len() > 0 {
            cycle@[0]@
        } else {
            Seq::empty()
        }),
        SqlGraphError::MalformedDeclaration(tag) => "malformed declaration `"@ + tag@
            + "`: can only declare `Type(Ident)`, `Enum(Ident)` or `Function(Ident)`"@,
        SqlGraphError::EmptyIdentifier => "empty identifier"@,
    }
}

impl SqlGraphError {
    /// The error in words. A cycle is written as its names joined by
    /// arrows, the first name once more at the end.
    pub fn message(&self) -> (r: String)
        ensures
            r@ == message_text(*self),
    {
        match self {
            SqlGraphError::DuplicateEntity(name) => {
                let mut r = String::from_str("duplicate entity `");
                r.append(name.as_str());
                r.append("`");
                r
            },
            SqlGraphError::UnresolvedReference(from, raw) => {
                let mut r = String::from_str("unresolved reference `");
                r.append(raw.as_str());
                r.append("` in `");
                r.append(from.as_str());
                r.append("`");
                r
            },
            SqlGraphError::CyclicDependency(cycle) => {
                let ghost names = cycle@.map_values(|s: String| s@);
                let mut path = String::new();
                let mut i: usize = 0;
                assert(names.take(0) =~= Seq::<Seq<char>>::empty());
                while i < cycle.len()
                    invariant
                        i <= cycle.len(),
                        names == cycle@.map_values(|s: String| s@),
                        path@ == arrows(names.take(i as int)),
                    decreases cycle.len() - i,
                {
                    proof {
                        let now = names.take(i + 1);
                        assert(now.drop_last() =~= names.take(i as int));
                        assert(now.last() == cycle@[i as int]@);
                    }
                    path.append(cycle[i].as_str());
                    path.append(" -> ");
                    i += 1;
                }
                assert(names.take(cycle.len() as int) =~= names);
                let mut r = String::from_str("cyclic dependency: ");
                r.append(path.as_str());
                if cycle.len() > 0 {
                    r.append(cycle[0].as_str());
                } else {
                    assert(r@ + Seq::<char>::empty() =~= r@);
                }
                r
            },
            SqlGraphError::MalformedDeclaration(tag) => {
                let mut r = String::from_str("malformed declaration `");
                r.append(tag.as_str());
                r.append(
                    "`: can only declare `Type(Ident)`, `Enum(Ident)` or `Function(Ident)`",
                );
                r
            },
            SqlGraphError::EmptyIdentifier => String::from_str("empty identifier"),
        }
    }
}

} // verus!
