//! Declared entities and the spellings under which they are referred to.
//!
//! A declared entity is identified by its bare name. Code elsewhere may
//! refer to it through a number of wrapped spellings, all of which are
//! functions of the bare name.
use vstd::prelude::*;
use crate::error::SqlGraphError;
use crate::text::{chars_of, same_text};

verus! {

/// `inner` between `open` and `close`.
pub open spec fn wrapped(open: Seq<char>, inner: Seq<char>, close: Seq<char>) -> Seq<char> {
    open + inner + close
}

/// The nullable form of a spelling.
pub open spec fn nullable(s: Seq<char>) -> Seq<char> {
    wrapped("Option<"@, s, ">"@)
}

/// The sequence form of a spelling.
pub open spec fn sequence(s: Seq<char>) -> Seq<char> {
    wrapped("Vec<"@, s, ">"@)
}

/// The array form of a spelling.
pub open spec fn array(s: Seq<char>) -> Seq<char> {
    wrapped("Array<"@, s, ">"@)
}

/// The variable-length-wrapped form of a spelling.
pub open spec fn varlena(s: Seq<char>) -> Seq<char> {
    wrapped("Varlena<"@, s, ">"@)
}

/// The pointer form of a spelling that names no owner.
pub open spec fn boxed(s: Seq<char>) -> Seq<char> {
    wrapped("pgx::pgbox::PgBox<"@, s, ">"@)
}

/// The pointer form of a spelling whose memory the caller owns.
pub open spec fn boxed_by_rust(s: Seq<char>) -> Seq<char> {
    wrapped("pgx::pgbox::PgBox<"@, s, ", pgx::pgbox::AllocatedByRust>"@)
}

/// The pointer form of a spelling whose memory the host owns.
pub open spec fn boxed_by_postgres(s: Seq<char>) -> Seq<char> {
    wrapped("pgx::pgbox::PgBox<"@, s, ", pgx::pgbox::AllocatedByPostgres>"@)
}

/// `s` is one of the spellings of the entity with the bare name `name`.
pub open spec fn is_spelling(name: Seq<char>, s: Seq<char>) -> bool {
    ||| s == name
    ||| s == nullable(name)
    ||| s == sequence(name)
    ||| s == sequence(nullable(name))
    ||| s == nullable(sequence(name))
    ||| s == nullable(sequence(nullable(name)))
    ||| s == array(name)
    ||| s == nullable(array(name))
    ||| s == varlena(name)
    ||| s == boxed(name)
    ||| s == boxed_by_rust(name)
    ||| s == boxed_by_postgres(name)
}

/// `i` is the position of the first `c` in `s`.
pub open spec fn first_at(s: Seq<char>, c: char, i: int) -> bool {
    &&& 0 <= i < s.len()
    &&& s[i] == c
    &&& forall|j: int| 0 <= j < i ==> s[j] != c
}

/// A scope separator, `::`, starts at position `i` of `s`.
pub open spec fn separator_at(s: Seq<char>, i: int) -> bool {
    &&& 0 <= i
    &&& i + 1 < s.len()
    &&& s[i] == ':'
    &&& s[i + 1] == ':'
}

/// `q` is where the last scope separator starts that lies wholly before
/// position `end` of `s`.
pub open spec fn last_separator_before(s: Seq<char>, end: int, q: int) -> bool {
    &&& separator_at(s, q)
    &&& q + 2 <= end
    &&& forall|j: int| q < j && j + 2 <= end ==> !separator_at(s, j)
}

/// `rest` is `s` without its scope qualification: what follows the last
/// scope separator before the first `<` of `s`. A text without `<`, or
/// without a separator before it, has no such rest.
pub open spec fn unqualified(s: Seq<char>, rest: Seq<char>) -> bool {
    exists|g: int, q: int|
        #![trigger first_at(s, '<', g), last_separator_before(s, g, q)]
        first_at(s, '<', g) && last_separator_before(s, g, q) && rest == s.skip(q + 2)
}

/// `candidate` refers to the entity with the bare name `name`: it is one of
/// its spellings, or it has a generic parameter and, with its scope
/// qualification taken off, is one of them.
pub open spec fn canonical_match(name: Seq<char>, candidate: Seq<char>) -> bool {
    ||| is_spelling(name, candidate)
    ||| exists|rest: Seq<char>| #[trigger] unqualified(candidate, rest) && is_spelling(name, rest)
}

/// `i` is where the first scope separator of `s` starts.
pub open spec fn first_separator_at(s: Seq<char>, i: int) -> bool {
    &&& separator_at(s, i)
    &&& forall|j: int| 0 <= j < i ==> !separator_at(s, j)
}

/// The last of the segments into which the scope separators cut `s`, the
/// separators being taken from left to right, each where the one before it
/// has ended.
pub open spec fn last_segment(s: Seq<char>) -> Seq<char>
    decreases s.len(),
{
    if exists|i: int| first_separator_at(s, i) {
        let i = choose|i: int| first_separator_at(s, i);
        last_segment(s.skip(i + 2))
    } else {
        s
    }
}

/// The position of the first `c` in `s`.
pub fn find_char(s: &[char], c: char) -> (r: Option<usize>)
    ensures
        match r {
            Some(i) => first_at(s@, c, i as int),
            None => forall|j: int| 0 <= j < s.len() ==> s@[j] != c,
        },
{
    let mut i: usize = 0;
    while i < s.len()
        invariant
            i <= s.len(),
            forall|j: int| 0 <= j < i ==> s@[j] != c,
        decreases s.len() - i,
    {
        if s[i] == c {
            return Some(i);
        }
        i += 1;
    }
    None
}

/// Where the last scope separator starts that lies wholly before `end`.
pub fn rfind_separator(s: &[char], end: usize) -> (r: Option<usize>)
    requires
        end <= s.len(),
    ensures
        match r {
            Some(q) => last_separator_before(s@, end as int, q as int),
            None => forall|j: int| j + 2 <= end ==> !separator_at(s@, j),
        },
{
    if end < 2 {
        return None;
    }
    let mut q: usize = end - 2;
    loop
        invariant
            end <= s.len(),
            q + 2 <= end,
            forall|j: int| q < j && j + 2 <= end ==> !separator_at(s@, j),
        decreases q,
    {
        if s[q] == ':' && s[q + 1] == ':' {
            return Some(q);
        }
        if q == 0 {
            return None;
        }
        q -= 1;
    }
}

/// The last segment of a text is that of what follows its first separator.
proof fn lemma_last_segment_step(s: Seq<char>, i: int)
    requires
        first_separator_at(s, i),
    ensures
        last_segment(s) == last_segment(s.skip(i + 2)),
{
    let k = choose|k: int| first_separator_at(s, k);
    assert(k == i) by {
        if k < i {
            assert(!separator_at(s, k));
        } else if i < k {
            assert(!separator_at(s, i));
        }
    }
}

/// The last segment of `name`.
fn last_segment_of(name: &str) -> (r: String)
    ensures
        r@ == last_segment(name@),
{
    let chars = chars_of(name);
    let n = chars.len();
    let mut start: usize = 0;
    let mut i: usize = 0;
    assert(chars@.skip(0) =~= chars@);
    while i < n && i + 1 < n
        invariant
            n == chars.len(),
            start <= i <= n,
            last_segment(chars@) == last_segment(chars@.skip(start as int)),
            forall|j: int| start <= j < i ==> !separator_at(chars@, j),
        decreases n - i,
    {
        if chars[i] == ':' && chars[i + 1] == ':' {
            proof {
                let tail = chars@.skip(start as int);
                assert forall|j: int| 0 <= j < i - start implies !separator_at(tail, j) by {
                    assert(!separator_at(chars@, j + start));
                }
                assert(first_separator_at(tail, i - start));
                lemma_last_segment_step(tail, i - start);
                assert(tail.skip(i - start + 2) =~= chars@.skip(i + 2));
            }
            start = i + 2;
            i = i + 2;
        } else {
            i += 1;
        }
    }
    proof {
        let tail = chars@.skip(start as int);
        assert forall|j: int| !first_separator_at(tail, j) by {
            if first_separator_at(tail, j) {
                assert(separator_at(chars@, j + start));
            }
        }
        assert(tail =~= name@.subrange(start as int, n as int));
    }
    String::from_str(name.substring_char(start, n))
}

/// `inner` between `open` and `close`.
fn wrap(open: &str, inner: &str, close: &str) -> (r: String)
    ensures
        r@ == wrapped(open@, inner@, close@),
{
    let mut r = String::from_str(open);
    r.append(inner);
    r.append(close);
    r
}

/// What sort of thing a declared entity is.
#[derive(Debug, Clone, Copy, PartialEq, Eq)]
pub enum DeclaredKind {
    Type,
    Enum,
    Function,
}

/// The sort that a tag names: `Type`, `Enum` or `Function`, and nothing else.
pub open spec fn declared_kind(tag: Seq<char>) -> Option<DeclaredKind> {
    if tag == "Type"@ {
        Some(DeclaredKind::Type)
    } else if tag == "Enum"@ {
        Some(DeclaredKind::Enum)
    } else if tag == "Function"@ {
        Some(DeclaredKind::Function)
    } else {
        None
    }
}

/// A declared entity as contracts see it: its sort and its bare name.
pub struct DeclaredModel {
    pub kind: DeclaredKind,
    pub name: Seq<char>,
}

/// A reference to a declared entity by sort and spelling.
#[derive(Debug, Clone, PartialEq, Eq)]
pub enum SqlDeclared {
    Type(String),
    Enum(String),
    Function(String),
}

impl View for SqlDeclared {
    type V = DeclaredModel;

    open spec fn view(&self) -> DeclaredModel {
        match self {
            SqlDeclared::Type(s) => DeclaredModel { kind: DeclaredKind::Type, name: s@ },
            SqlDeclared::Enum(s) => DeclaredModel { kind: DeclaredKind::Enum, name: s@ },
            SqlDeclared::Function(s) => DeclaredModel { kind: DeclaredKind::Function, name: s@ },
        }
    }
}

/// The bare name of a declared entity together with its spellings.
#[derive(Debug, Hash, PartialEq, Eq, PartialOrd, Ord)]
pub struct SqlDeclaredEntityData {
    sql: String,
    name: String,
    option: String,
    vec: String,
    vec_option: String,
    option_vec: String,
    option_vec_option: String,
    array: String,
    option_array: String,
    varlena: String,
    pg_box: Vec<String>,
}

impl SqlDeclaredEntityData {
    /// Every stored spelling is the one that the bare name determines.
    #[verifier::type_invariant]
    spec fn consistent(&self) -> bool {
        &&& self.name@.len() > 0
        &&& self.sql@ == last_segment(self.name@)
        &&& self.option@ == nullable(self.name@)
        &&& self.vec@ == sequence(self.name@)
        &&& self.vec_option@ == sequence(nullable(self.name@))
        &&& self.option_vec@ == nullable(sequence(self.name@))
        &&& self.option_vec_option@ == nullable(sequence(nullable(self.name@)))
        &&& self.array@ == array(self.name@)
        &&& self.option_array@ == nullable(array(self.name@))
        &&& self.varlena@ == varlena(self.name@)
        &&& self.pg_box@.len() == 3
        &&& self.pg_box@[0]@ == boxed(self.name@)
        &&& self.pg_box@[1]@ == boxed_by_rust(self.name@)
        &&& self.pg_box@[2]@ == boxed_by_postgres(self.name@)
    }

    /// The bare name.
    pub closed spec fn name_text(&self) -> Seq<char> {
        self.name@
    }

    /// The spellings of the entity with the bare name `name`.
    fn new(name: &str) -> (r: Self)
        requires
            name@.len() > 0,
        ensures
            r.name_text() == name@,
    {
        let option = wrap("Option<", name, ">");
        let vec = wrap("Vec<", name, ">");
        let vec_option = wrap("Vec<", option.as_str(), ">");
        let option_vec = wrap("Option<", vec.as_str(), ">");
        let option_vec_option = wrap("Option<", vec_option.as_str(), ">");
        let array = wrap("Array<", name, ">");
        let option_array = wrap("Option<", array.as_str(), ">");
        let mut pg_box: Vec<String> = Vec::new();
        pg_box.push(wrap("pgx::pgbox::PgBox<", name, ">"));
        pg_box.push(wrap("pgx::pgbox::PgBox<", name, ", pgx::pgbox::AllocatedByRust>"));
        pg_box.push(wrap("pgx::pgbox::PgBox<", name, ", pgx::pgbox::AllocatedByPostgres>"));
        SqlDeclaredEntityData {
            sql: last_segment_of(name),
            name: String::from_str(name),
            option,
            vec,
            vec_option,
            option_vec,
            option_vec_option,
            array,
            option_array,
            varlena: wrap("Varlena<", name, ">"),
            pg_box,
        }
    }

    /// Whether `s` is one of the spellings.
    fn spells(&self, s: &str) -> (r: bool)
        ensures
            r == is_spelling(self.name_text(), s@),
    {
        proof {
            use_type_invariant(self);
        }
        let s = String::from_str(s);
        s == self.name || s == self.option || s == self.vec || s == self.vec_option || s
            == self.option_vec || s == self.option_vec_option || s == self.array || s
            == self.option_array || s == self.varlena || s == self.pg_box[0] || s == self.pg_box[1]
            || s == self.pg_box[2]
    }
}

impl Clone for SqlDeclaredEntityData {
    fn clone(&self) -> (r: Self)
        ensures
            r.name_text() == self.name_text(),
    {
        proof {
            use_type_invariant(self);
        }
        let mut pg_box: Vec<String> = Vec::new();
        pg_box.push(self.pg_box[0].clone());
        pg_box.push(self.pg_box[1].clone());
        pg_box.push(self.pg_box[2].clone());
        SqlDeclaredEntityData {
            sql: self.sql.clone(),
            name: self.name.clone(),
            option: self.option.clone(),
            vec: self.vec.clone(),
            vec_option: self.vec_option.clone(),
            option_vec: self.option_vec.clone(),
            option_vec_option: self.option_vec_option.clone(),
            array: self.array.clone(),
            option_array: self.option_array.clone(),
            varlena: self.varlena.clone(),
            pg_box,
        }
    }
}

/// A type, an enumeration or a function that a descriptor declares.
#[derive(Debug, Hash, PartialEq, Eq, PartialOrd, Ord)]
pub enum SqlDeclaredEntity {
    Type(SqlDeclaredEntityData),
    Enum(SqlDeclaredEntityData),
    Function(SqlDeclaredEntityData),
}

impl View for SqlDeclaredEntity {
    type V = DeclaredModel;

    closed spec fn view(&self) -> DeclaredModel {
        match self {
            SqlDeclaredEntity::Type(data) => DeclaredModel {
                kind: DeclaredKind::Type,
                name: data.name_text(),
            },
            SqlDeclaredEntity::Enum(data) => DeclaredModel {
                kind: DeclaredKind::Enum,
                name: data.name_text(),
            },
            SqlDeclaredEntity::Function(data) => DeclaredModel {
                kind: DeclaredKind::Function,
                name: data.name_text(),
            },
        }
    }
}

impl Clone for SqlDeclaredEntity {
    fn clone(&self) -> (r: Self)
        ensures
            r@ == self@,
    {
        match self {
            SqlDeclaredEntity::Type(data) => SqlDeclaredEntity::Type(data.clone()),
            SqlDeclaredEntity::Enum(data) => SqlDeclaredEntity::Enum(data.clone()),
            SqlDeclaredEntity::Function(data) => SqlDeclaredEntity::Function(data.clone()),
        }
    }
}

impl SqlDeclaredEntity {
    /// Declares the entity called `name` of the sort that `variant` names.
    ///
    /// An empty name is refused first, then a tag that names no sort.
    pub fn build(variant: &str, name: &str) -> (r: Result<SqlDeclaredEntity, SqlGraphError>)
        ensures
            match r {
                Ok(entity) => name@.len() > 0 && declared_kind(variant@) == Some(entity@.kind)
                    && entity@.name == name@,
                Err(SqlGraphError::EmptyIdentifier) => name@.len() == 0,
                Err(SqlGraphError::MalformedDeclaration(tag)) => name@.len() > 0 && declared_kind(
                    variant@,
                ) is None && tag@ == variant@,
                Err(_) => false,
            },
    {
        if name.unicode_len() == 0 {
            return Err(SqlGraphError::EmptyIdentifier);
        }
        let data = SqlDeclaredEntityData::new(name);
        if same_text(variant, "Type") {
            Ok(SqlDeclaredEntity::Type(data))
        } else if same_text(variant, "Enum") {
            Ok(SqlDeclaredEntity::Enum(data))
        } else if same_text(variant, "Function") {
            Ok(SqlDeclaredEntity::Function(data))
        } else {
            Err(SqlGraphError::MalformedDeclaration(String::from_str(variant)))
        }
    }

    /// The name and the spellings, whatever the sort.
    fn data(&self) -> (r: &SqlDeclaredEntityData)
        ensures
            r.name_text() == self@.name,
    {
        match self {
            SqlDeclaredEntity::Type(data) => data,
            SqlDeclaredEntity::Enum(data) => data,
            SqlDeclaredEntity::Function(data) => data,
        }
    }

    /// The sort of the entity.
    pub fn kind(&self) -> (r: DeclaredKind)
        ensures
            r == self@.kind,
    {
        match self {
            SqlDeclaredEntity::Type(_) => DeclaredKind::Type,
            SqlDeclaredEntity::Enum(_) => DeclaredKind::Enum,
            SqlDeclaredEntity::Function(_) => DeclaredKind::Function,
        }
    }

    /// The bare name of the entity.
    pub fn name(&self) -> (r: String)
        ensures
            r@ == self@.name,
    {
        self.data().name.clone()
    }

    /// The entity as it is written in listings: `Type(name)`, `Enum(name)`,
    /// and for a function `Function name)`.
    pub fn label(&self) -> (r: String)
        ensures
            r@ == match self@.kind {
                DeclaredKind::Type => wrapped("Type("@, self@.name, ")"@),
                DeclaredKind::Enum => wrapped("Enum("@, self@.name, ")"@),
                DeclaredKind::Function => wrapped("Function "@, self@.name, ")"@),
            },
    {
        match self {
            SqlDeclaredEntity::Type(data) => wrap("Type(", data.name.as_str(), ")"),
            SqlDeclaredEntity::Enum(data) => wrap("Enum(", data.name.as_str(), ")"),
            SqlDeclaredEntity::Function(data) => wrap("Function ", data.name.as_str(), ")"),
        }
    }

    /// The name of the entity in SQL: the last segment of its bare name.
    pub fn sql(&self) -> (r: String)
        ensures
            r@ == last_segment(self@.name),
    {
        let data = self.data();
        proof {
            use_type_invariant(data);
        }
        data.sql.clone()
    }

    /// Whether `candidate` is a way to refer to this entity.
    pub fn has_match(&self, candidate: &str) -> (r: bool)
        ensures
            r == canonical_match(self@.name, candidate@),
    {
        let data = self.data();
        if data.spells(candidate) {
            return true;
        }
        let chars = chars_of(candidate);
        let start = match find_char(chars.as_slice(), '<') {
            Some(start) => start,
            None => {
                return false;
            },
        };
        let end = match rfind_separator(chars.as_slice(), start) {
            Some(end) => end,
            None => {
                assert forall|rest: Seq<char>| !unqualified(candidate@, rest) by {
                    if unqualified(candidate@, rest) {
                        let (g, q) = choose|g: int, q: int|
                            #![trigger first_at(candidate@, '<', g), last_separator_before(candidate@, g, q)]
                            first_at(candidate@, '<', g) && last_separator_before(
                                candidate@,
                                g,
                                q,
                            ) && rest == candidate@.skip(q + 2);
                        assert(g == start);
                        assert(!separator_at(candidate@, q));
                    }
                }
                return false;
            },
        };
        let rest = candidate.substring_char(end + 2, chars.len());
        let r = data.spells(rest);
        proof {
            assert(rest@ =~= candidate@.skip(end + 2));
            assert(first_at(candidate@, '<', start as int) && last_separator_before(
                candidate@,
                start as int,
                end as int,
            ));
            assert(unqualified(candidate@, rest@));
            assert forall|other: Seq<char>| unqualified(candidate@, other) implies other
                == rest@ by {
                let (g, q) = choose|g: int, q: int|
                    #![trigger first_at(candidate@, '<', g), last_separator_before(candidate@, g, q)]
                    first_at(candidate@, '<', g) && last_separator_before(candidate@, g, q)
                        && other == candidate@.skip(q + 2);
                assert(g == start);
                assert(q == end) by {
                    if q < end {
                        assert(!separator_at(candidate@, end as int));
                    } else if end < q {
                        assert(!separator_at(candidate@, q));
                    }
                }
            }
        }
        r
    }

    /// Whether `identifier` refers to this entity: the sorts are the same,
    /// and the spelling is a way to refer to it.
    pub fn has_sql_declared_entity(&self, identifier: &SqlDeclared) -> (r: bool)
        ensures
            r == (identifier@.kind == self@.kind && canonical_match(
                self@.name,
                identifier@.name,
            )),
    {
        match (identifier, self) {
            (SqlDeclared::Type(spelling), SqlDeclaredEntity::Type(_)) => self.has_match(
                spelling.as_str(),
            ),
            (SqlDeclared::Enum(spelling), SqlDeclaredEntity::Enum(_)) => self.has_match(
                spelling.as_str(),
            ),
            (SqlDeclared::Function(spelling), SqlDeclaredEntity::Function(_)) => self.has_match(
                spelling.as_str(),
            ),
            _ => false,
        }
    }
}


/// Every spelling of an entity refers to it: the bare name, the nullable
/// form, the sequence form, the sequence of nullables, the nullable
/// sequence, the nullable sequence of nullables, the array form, the
/// nullable array, the variable-length-wrapped form and the three pointer
/// forms.
pub proof fn lemma_spellings_match(name: Seq<char>)
    ensures
        canonical_match(name, name),
        canonical_match(name, nullable(name)),
        canonical_match(name, sequence(name)),
        canonical_match(name, sequence(nullable(name))),
        canonical_match(name, nullable(sequence(name))),
        canonical_match(name, nullable(sequence(nullable(name)))),
        canonical_match(name, array(name)),
        canonical_match(name, nullable(array(name))),
        canonical_match(name, varlena(name)),
        canonical_match(name, boxed(name)),
        canonical_match(name, boxed_by_rust(name)),
        canonical_match(name, boxed_by_postgres(name)),
{
}

/// Every spelling but the bare name holds a `<`.
proof fn lemma_wrapped_spelling_has_bracket(name: Seq<char>, s: Seq<char>)
    requires
        is_spelling(name, s),
        s != name,
    ensures
        s.contains('<'),
{
    reveal_strlit("Option<");
    reveal_strlit("Vec<");
    reveal_strlit("Array<");
    reveal_strlit("Varlena<");
    reveal_strlit("pgx::pgbox::PgBox<");
    if s == nullable(name) || s == nullable(sequence(name)) || s == nullable(
        sequence(nullable(name)),
    ) || s == nullable(array(name)) {
        assert(s[6] == '<');
    } else if s == sequence(name) || s == sequence(nullable(name)) {
        assert(s[3] == '<');
    } else if s == array(name) {
        assert(s[5] == '<');
    } else if s == varlena(name) {
        assert(s[7] == '<');
    } else {
        assert(s[17] == '<');
    }
}

/// A candidate without `<` refers to an entity only as its bare name: no
/// scope qualification is taken off it.
pub proof fn lemma_bare_candidate(name: Seq<char>, candidate: Seq<char>)
    requires
        !candidate.contains('<'),
    ensures
        canonical_match(name, candidate) <==> candidate == name,
{
    if is_spelling(name, candidate) && candidate != name {
        lemma_wrapped_spelling_has_bracket(name, candidate);
    }
    assert forall|rest: Seq<char>| !unqualified(candidate, rest) by {
        if unqualified(candidate, rest) {
            let (g, q) = choose|g: int, q: int|
                #![trigger first_at(candidate, '<', g), last_separator_before(candidate, g, q)]
                first_at(candidate, '<', g) && last_separator_before(candidate, g, q) && rest
                    == candidate.skip(q + 2);
            assert(candidate[g] == '<');
        }
    }
}

/// The nullable form of an entity under a scope qualification refers to
/// the entity, whatever the qualification, as long as it holds no `<`.
pub proof fn lemma_qualified_nullable_matches(name: Seq<char>, qualification: Seq<char>)
    requires
        !qualification.contains('<'),
    ensures
        canonical_match(name, qualification + "::"@ + nullable(name)),
{
    reveal_strlit("::");
    reveal_strlit("Option<");
    reveal_strlit(">");
    let candidate = qualification + "::"@ + nullable(name);
    let q = qualification.len() as int;
    let g = q + 8;
    assert(candidate[g] == '<');
    assert forall|j: int| 0 <= j < g implies candidate[j] != '<' by {
        if j < q {
            assert(candidate[j] == qualification[j]);
            assert(qualification.contains(qualification[j]));
        }
    }
    assert(first_at(candidate, '<', g));
    assert(separator_at(candidate, q));
    assert forall|j: int| q < j && j + 2 <= g implies !separator_at(candidate, j) by {
        assert(candidate[j + 1] != ':');
    }
    assert(last_separator_before(candidate, g, q));
    assert(candidate.skip(q + 2) =~= nullable(name));
    assert(unqualified(candidate, nullable(name)));
}

/// The bare name of an entity under a scope qualification does not refer
/// to the entity, as long as neither holds a `<`: without a generic
/// parameter no qualification is taken off.
pub proof fn lemma_qualified_bare_name_differs(name: Seq<char>, qualification: Seq<char>)
    requires
        !qualification.contains('<'),
        !name.contains('<'),
    ensures
        !canonical_match(name, qualification + "::"@ + name),
{
    reveal_strlit("::");
    let candidate = qualification + "::"@ + name;
    assert forall|j: int| 0 <= j < candidate.len() implies candidate[j] != '<' by {
        if j < qualification.len() {
            assert(qualification.contains(qualification[j]));
        } else if j >= qualification.len() + 2 {
            assert(candidate[j] == name[j - qualification.len() - 2]);
            assert(name.contains(name[j - qualification.len() - 2]));
        }
    }
    lemma_bare_candidate(name, candidate);
    assert(candidate.len() == qualification.len() + 2 + name.len());
}

} // verus!
