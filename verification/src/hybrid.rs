//! Hybrid search: fuse vector similarity and full-text relevance.
//!
//! Two ranked searches run over one table, nearest neighbors by the index and
//! lexical relevance by full-text search, and their ranks are fused. Running
//! them is the caller's; this module checks the request, decides from catalog
//! facts what to query, writes the two statements, and fuses what they return.
//!
//! Values never enter a statement's text: they are bound as parameters. The
//! identifiers that do are those the catalog handed back already quoted.

use crate::floats::f64_rank;
use crate::fusion::{
    a_lone_list_keeps_its_order, arithmetic, binary_ok, binary_value, falls, fuses,
    lemma_position_holds, lemma_position_is_index, lemma_scored_are_listed, lone, outranks,
    position, rrf, valid_k, Arithmetic, FusionError,
};
use crate::pg_vector::VectorError;
use crate::text::{chars_of, push_signed_decimal, same_text, signed_decimal, trim, trim_range};
use std::collections::HashMap;
use vstd::prelude::*;

verus! {

/// Why a hybrid search could not run. Variants that name a column or relation
/// carry the caller's own identifier.
#[derive(Debug)]
pub enum HybridError {
    /// The relation did not resolve to a table.
    RelationNotFound(String),
    /// A named column is not present on the relation.
    ColumnMissing { role: &'static str, column: String },
    /// The id column is not an integer type, so it cannot key fusion losslessly.
    IdNotInteger { column: String, found: String },
    /// The vector column is not `brindle_vector`.
    VectorNotVector { column: String, found: String },
    /// The text column is neither `tsvector` nor a text type.
    TextNotSearchable { column: String, found: String },
    /// No index covers the vector column, so no metric can be inferred.
    NoBrindleIndex { column: String },
    /// Indexes with different metrics cover the vector column.
    AmbiguousMetric { column: String, operators: String },
    /// A count was below 1.
    NonPositive { param: &'static str, value: i32 },
    /// The query vector is no vector.
    Vector(VectorError),
    /// Fusion rejected its parameters.
    Fusion(FusionError),
}

/// A hybrid error, as mathematics.
pub enum Fault {
    RelationNotFound { relation: Seq<char> },
    ColumnMissing { role: Seq<char>, column: Seq<char> },
    IdNotInteger { column: Seq<char>, found: Seq<char> },
    VectorNotVector { column: Seq<char>, found: Seq<char> },
    TextNotSearchable { column: Seq<char>, found: Seq<char> },
    NoBrindleIndex { column: Seq<char> },
    AmbiguousMetric { column: Seq<char>, operators: Seq<char> },
    NonPositive { param: Seq<char>, value: int },
    Vector(VectorError),
    Fusion(FusionError),
}

impl View for HybridError {
    type V = Fault;

    open spec fn view(&self) -> Fault {
        match *self {
            HybridError::RelationNotFound(r) => Fault::RelationNotFound { relation: r@ },
            HybridError::ColumnMissing { role, column } => Fault::ColumnMissing {
                role: role@,
                column: column@,
            },
            HybridError::IdNotInteger { column, found } => Fault::IdNotInteger {
                column: column@,
                found: found@,
            },
            HybridError::VectorNotVector { column, found } => Fault::VectorNotVector {
                column: column@,
                found: found@,
            },
            HybridError::TextNotSearchable { column, found } => Fault::TextNotSearchable {
                column: column@,
                found: found@,
            },
            HybridError::NoBrindleIndex { column } => Fault::NoBrindleIndex { column: column@ },
            HybridError::AmbiguousMetric { column, operators } => Fault::AmbiguousMetric {
                column: column@,
                operators: operators@,
            },
            HybridError::NonPositive { param, value } => Fault::NonPositive {
                param: param@,
                value: value as int,
            },
            HybridError::Vector(error) => Fault::Vector(error),
            HybridError::Fusion(error) => Fault::Fusion(error),
        }
    }
}

impl Fault {
    /// The text a user sees, given how an offending `k` prints.
    pub open spec fn text(self, k: Seq<char>) -> Seq<char> {
        match self {
            Fault::RelationNotFound { relation } => "relation \""@ + relation
                + "\" does not exist"@,
            Fault::ColumnMissing { role, column } => role + " column \""@ + column
                + "\" does not exist on the relation"@,
            Fault::IdNotInteger { column, found } => "id column \""@ + column + "\" is "@ + found
                + ", but must be an integer type (smallint, integer, or bigint)"@,
            Fault::VectorNotVector { column, found } => "vector column \""@ + column + "\" is "@
                + found + ", but must be brindle_vector"@,
            Fault::TextNotSearchable { column, found } => "text column \""@ + column + "\" is "@
                + found + ", but must be tsvector or a text type (text, varchar, char)"@,
            Fault::NoBrindleIndex { column } =>
                "hybrid search needs a brindle index on vector column \""@ + column
                + "\" (its operator class selects the distance metric)"@,
            Fault::AmbiguousMetric { column, operators } => "vector column \""@ + column
                + "\" has brindle indexes with different metrics ("@ + operators
                + "); drop one so the metric is unambiguous"@,
            Fault::NonPositive { param, value } => param + " must be at least 1, got "@
                + signed_decimal(value),
            Fault::Vector(error) => error.text(),
            Fault::Fusion(error) => "invalid RRF k: "@ + k + " (must be finite and >= 0)"@,
        }
    }
}

impl HybridError {
    /// The text a user sees, given how an offending `k` prints.
    pub fn message(&self, k: &str) -> (s: String)
        ensures
            s@ == self@.text(k@),
    {
        let mut s = String::new();
        match self {
            HybridError::RelationNotFound(relation) => {
                s.append("relation \"");
                s.append(relation.as_str());
                s.append("\" does not exist");
            },
            HybridError::ColumnMissing { role, column } => {
                s.append(role);
                s.append(" column \"");
                s.append(column.as_str());
                s.append("\" does not exist on the relation");
            },
            HybridError::IdNotInteger { column, found } => {
                s.append("id column \"");
                s.append(column.as_str());
                s.append("\" is ");
                s.append(found.as_str());
                s.append(", but must be an integer type (smallint, integer, or bigint)");
            },
            HybridError::VectorNotVector { column, found } => {
                s.append("vector column \"");
                s.append(column.as_str());
                s.append("\" is ");
                s.append(found.as_str());
                s.append(", but must be brindle_vector");
            },
            HybridError::TextNotSearchable { column, found } => {
                s.append("text column \"");
                s.append(column.as_str());
                s.append("\" is ");
                s.append(found.as_str());
                s.append(", but must be tsvector or a text type (text, varchar, char)");
            },
            HybridError::NoBrindleIndex { column } => {
                s.append("hybrid search needs a brindle index on vector column \"");
                s.append(column.as_str());
                s.append("\" (its operator class selects the distance metric)");
            },
            HybridError::AmbiguousMetric { column, operators } => {
                s.append("vector column \"");
                s.append(column.as_str());
                s.append("\" has brindle indexes with different metrics (");
                s.append(operators.as_str());
                s.append("); drop one so the metric is unambiguous");
            },
            HybridError::NonPositive { param, value } => {
                s.append(param);
                s.append(" must be at least 1, got ");
                push_signed_decimal(&mut s, *value);
            },
            HybridError::Vector(e) => {
                s = e.message();
            },
            HybridError::Fusion(e) => {
                s = e.message(k);
            },
        }
        assert(s@ =~= self@.text(k@));
        s
    }
}

/// Rows pulled from each side when the caller names no depth: a few times `k`,
/// so that fusion has overlap to reward, and at least 40.
pub open spec fn default_depth(k: int) -> int {
    if 4 * k > i32::MAX {
        i32::MAX as int
    } else if 4 * k < 40 {
        40
    } else {
        4 * k
    }
}

/// What is wrong with a request's counts, if anything is.
pub open spec fn request_fault(k: i32, n: Option<i32>) -> Option<Fault> {
    if k < 1 {
        Some(Fault::NonPositive { param: "k"@, value: k as int })
    } else if n is Some && n->0 < 1 {
        Some(Fault::NonPositive { param: "n"@, value: n->0 as int })
    } else {
        None
    }
}

/// Check a request's counts and settle how many rows each side contributes.
pub fn depth(k: i32, n: Option<i32>) -> (r: Result<i32, HybridError>)
    ensures
        match (r, request_fault(k, n)) {
            (Ok(d), None) => d >= 1 && d == (if n is Some {
                n->0 as int
            } else {
                default_depth(k as int)
            }),
            (Err(e), Some(f)) => e@ == f,
            _ => false,
        },
{
    if k < 1 {
        return Err(HybridError::NonPositive { param: "k", value: k });
    }
    let depth: i32 = match n {
        Some(n) => n,
        None => {
            let wide: i64 = k as i64 * 4;
            if wide > i32::MAX as i64 {
                i32::MAX
            } else if wide < 40 {
                40
            } else {
                wide as i32
            }
        },
    };
    if depth < 1 {
        return Err(HybridError::NonPositive { param: "n", value: depth });
    }
    Ok(depth)
}

/// Whether a lexical query says anything: a blank one is skipped, and the vector
/// ranking stands alone.
pub fn says_anything(query: &str) -> (r: bool)
    ensures
        r == (trim(query@).len() > 0),
{
    let chars = chars_of(query);
    assert(chars@.subrange(0, chars@.len() as int) =~= chars@);
    let (a, b) = trim_range(chars.as_slice(), 0, chars.len());
    a < b
}

/// Whether the lexical column is already lexed.
#[derive(Clone, Copy, PartialEq, Eq, Debug, Structural)]
pub enum TextKind {
    /// A `tsvector` column, read directly.
    Tsvector,
    /// A text column, lexed in the query with the query's own configuration.
    Text,
}

/// What the catalog says of the names a caller gave. Identifiers come quoted;
/// a type is absent exactly when the column is; operators are those of the
/// indexes on the vector column, distinct and joined by `|`.
pub struct CatalogFacts {
    pub rel_ident: Option<String>,
    pub id_ident: Option<String>,
    pub vec_ident: Option<String>,
    pub text_ident: Option<String>,
    pub id_type: Option<String>,
    pub vec_type: Option<String>,
    pub text_type: Option<String>,
    pub vec_operators: Option<String>,
}

/// What a hybrid search queries.
pub struct Resolved {
    pub rel_ident: String,
    pub id_ident: String,
    pub vec_ident: String,
    pub text_ident: String,
    /// The ordering operator of the index, schema-qualified.
    pub vec_operator: String,
    pub text_kind: TextKind,
}

/// Optional text as a sequence; absent counts as empty.
pub open spec fn text_or_empty(s: Option<String>) -> Seq<char> {
    match s {
        Some(t) => t@,
        None => Seq::empty(),
    }
}

/// How many non-empty pieces text has between bars.
pub open spec fn pieces(s: Seq<char>) -> nat
    decreases s.len(),
{
    if s.len() == 0 {
        0
    } else if s.last() != '|' && (s.len() == 1 || s[s.len() - 2] == '|') {
        pieces(s.drop_last()) + 1
    } else {
        pieces(s.drop_last())
    }
}

/// Integer types, by catalog name.
pub open spec fn integer_type(t: Seq<char>) -> bool {
    t == "int2"@ || t == "int4"@ || t == "int8"@
}

/// How text of a type is searched, by catalog name.
pub open spec fn text_kind(t: Seq<char>) -> Option<TextKind> {
    if t == "tsvector"@ {
        Some(TextKind::Tsvector)
    } else if t == "text"@ || t == "varchar"@ || t == "bpchar"@ {
        Some(TextKind::Text)
    } else {
        None
    }
}

/// What a caller named.
pub struct Names<'a> {
    pub relation: &'a str,
    pub id_column: &'a str,
    pub vector_column: &'a str,
    pub text_column: &'a str,
}

impl CatalogFacts {
    /// The first thing that keeps a search from running, if anything does.
    pub open spec fn fault(self, names: Names) -> Option<Fault> {
        let operators = text_or_empty(self.vec_operators);
        if self.rel_ident is None {
            Some(Fault::RelationNotFound { relation: names.relation@ })
        } else if self.id_type is None {
            Some(Fault::ColumnMissing { role: "id"@, column: names.id_column@ })
        } else if !integer_type(self.id_type->0@) {
            Some(Fault::IdNotInteger { column: names.id_column@, found: self.id_type->0@ })
        } else if self.vec_type is None {
            Some(Fault::ColumnMissing { role: "vector"@, column: names.vector_column@ })
        } else if self.vec_type->0@ != "brindle_vector"@ {
            Some(
                Fault::VectorNotVector { column: names.vector_column@, found: self.vec_type->0@ },
            )
        } else if self.text_type is None {
            Some(Fault::ColumnMissing { role: "text"@, column: names.text_column@ })
        } else if text_kind(self.text_type->0@) is None {
            Some(
                Fault::TextNotSearchable { column: names.text_column@, found: self.text_type->0@ },
            )
        } else if pieces(operators) == 0 {
            Some(Fault::NoBrindleIndex { column: names.vector_column@ })
        } else if pieces(operators) > 1 {
            Some(Fault::AmbiguousMetric { column: names.vector_column@, operators })
        } else {
            None
        }
    }
}

/// Count the non-empty pieces of text between bars.
fn count_pieces(s: &str) -> (r: usize)
    ensures
        r == pieces(s@),
{
    let chars = chars_of(s);
    let mut count: usize = 0;
    let mut i: usize = 0;
    assert(chars@.take(0) =~= Seq::<char>::empty());
    while i < chars.len()
        invariant
            i <= chars@.len(),
            count <= i,
            count == pieces(chars@.take(i as int)),
        decreases chars@.len() - i,
    {
        proof {
            assert(chars@.take(i + 1).drop_last() =~= chars@.take(i as int));
            assert(chars@.take(i + 1).last() == chars@[i as int]);
        }
        if chars[i] != '|' && (i == 0 || chars[i - 1] == '|') {
            count += 1;
        }
        i += 1;
    }
    assert(chars@.take(chars@.len() as int) =~= chars@);
    count
}

/// Absent text as empty text.
fn or_empty(s: Option<String>) -> (r: String)
    ensures
        r@ == text_or_empty(s),
{
    match s {
        Some(t) => t,
        None => String::new(),
    }
}

/// Check the id column: present, and an integer type.
fn check_id(facts: &CatalogFacts, names: &Names) -> (r: Result<(), HybridError>)
    ensures
        match r {
            Ok(_) => facts.id_type is Some && integer_type(facts.id_type->0@),
            Err(e) => facts.rel_ident is Some ==> facts.fault(*names) == Some(e@),
        },
{
    match &facts.id_type {
        None => Err(
            HybridError::ColumnMissing { role: "id", column: names.id_column.to_owned() },
        ),
        Some(t) => {
            if same_text(t.as_str(), "int2") || same_text(t.as_str(), "int4") || same_text(
                t.as_str(),
                "int8",
            ) {
                Ok(())
            } else {
                Err(
                    HybridError::IdNotInteger {
                        column: names.id_column.to_owned(),
                        found: t.clone(),
                    },
                )
            }
        },
    }
}

/// Check the vector column: present, and a vector. Checked before the index, so
/// that an indexed array column is reported as the wrong type.
fn check_vector(facts: &CatalogFacts, names: &Names) -> (r: Result<(), HybridError>)
    requires
        facts.rel_ident is Some,
        facts.id_type is Some && integer_type(facts.id_type->0@),
    ensures
        match r {
            Ok(_) => facts.vec_type is Some && facts.vec_type->0@ == "brindle_vector"@,
            Err(e) => facts.fault(*names) == Some(e@),
        },
{
    match &facts.vec_type {
        None => Err(
            HybridError::ColumnMissing { role: "vector", column: names.vector_column.to_owned() },
        ),
        Some(t) => {
            if same_text(t.as_str(), "brindle_vector") {
                Ok(())
            } else {
                Err(
                    HybridError::VectorNotVector {
                        column: names.vector_column.to_owned(),
                        found: t.clone(),
                    },
                )
            }
        },
    }
}

/// Check the text column: present, and searchable.
fn check_text(facts: &CatalogFacts, names: &Names) -> (r: Result<TextKind, HybridError>)
    requires
        facts.rel_ident is Some,
        facts.id_type is Some && integer_type(facts.id_type->0@),
        facts.vec_type is Some && facts.vec_type->0@ == "brindle_vector"@,
    ensures
        match r {
            Ok(kind) => facts.text_type is Some && text_kind(facts.text_type->0@) == Some(kind),
            Err(e) => facts.fault(*names) == Some(e@),
        },
{
    match &facts.text_type {
        None => Err(
            HybridError::ColumnMissing { role: "text", column: names.text_column.to_owned() },
        ),
        Some(t) => {
            if same_text(t.as_str(), "tsvector") {
                Ok(TextKind::Tsvector)
            } else if same_text(t.as_str(), "text") || same_text(t.as_str(), "varchar")
                || same_text(t.as_str(), "bpchar") {
                Ok(TextKind::Text)
            } else {
                Err(
                    HybridError::TextNotSearchable {
                        column: names.text_column.to_owned(),
                        found: t.clone(),
                    },
                )
            }
        },
    }
}

/// Decide from catalog facts what a search queries. One ordering operator means
/// an unambiguous metric; none means no index covers the column; several mean
/// indexes with different metrics, which is not resolved by guessing.
pub fn resolve(facts: CatalogFacts, names: &Names) -> (r: Result<Resolved, HybridError>)
    ensures
        match (r, facts.fault(*names)) {
            (Ok(res), None) => {
                &&& res.rel_ident@ == facts.rel_ident->0@
                &&& res.id_ident@ == text_or_empty(facts.id_ident)
                &&& res.vec_ident@ == text_or_empty(facts.vec_ident)
                &&& res.text_ident@ == text_or_empty(facts.text_ident)
                &&& res.vec_operator@ == text_or_empty(facts.vec_operators)
                &&& text_kind(facts.text_type->0@) == Some(res.text_kind)
            },
            (Err(e), Some(f)) => e@ == f,
            _ => false,
        },
{
    if facts.rel_ident.is_none() {
        return Err(HybridError::RelationNotFound(names.relation.to_owned()));
    }
    check_id(&facts, names)?;
    check_vector(&facts, names)?;
    let text_kind = check_text(&facts, names)?;
    let operators = or_empty(facts.vec_operators);
    let found: usize = count_pieces(operators.as_str());
    if found == 0 {
        return Err(HybridError::NoBrindleIndex { column: names.vector_column.to_owned() });
    }
    if found > 1 {
        return Err(
            HybridError::AmbiguousMetric { column: names.vector_column.to_owned(), operators },
        );
    }
    Ok(
        Resolved {
            rel_ident: or_empty(facts.rel_ident),
            id_ident: or_empty(facts.id_ident),
            vec_ident: or_empty(facts.vec_ident),
            text_ident: or_empty(facts.text_ident),
            vec_operator: operators,
            text_kind,
        },
    )
}

impl Resolved {
    /// The statement of the vector side: `$1` is the query vector, `$2` the
    /// depth.
    pub open spec fn vector_statement(self) -> Seq<char> {
        "SELECT ("@ + self.id_ident@ + ")::bigint FROM "@ + self.rel_ident@ + " WHERE "@
            + self.vec_ident@ + " IS NOT NULL ORDER BY "@ + self.vec_ident@ + " OPERATOR("@
            + self.vec_operator@ + ") $1 LIMIT $2"@
    }

    /// The lexed form of the text column.
    pub open spec fn lexed(self, with_config: bool) -> Seq<char> {
        match self.text_kind {
            TextKind::Tsvector => self.text_ident@,
            TextKind::Text => if with_config {
                "to_tsvector($2::regconfig, "@ + self.text_ident@ + ")"@
            } else {
                "to_tsvector("@ + self.text_ident@ + ")"@
            },
        }
    }

    /// The query's side of the match.
    pub open spec fn tsquery(with_config: bool) -> Seq<char> {
        if with_config {
            "websearch_to_tsquery($2::regconfig, $1)"@
        } else {
            "websearch_to_tsquery($1)"@
        }
    }

    /// The statement of the lexical side: `$1` is the query text; with a
    /// configuration, that is `$2` and the depth `$3`, without, the depth is
    /// `$2`. Ties go to the smaller id, so ranks are deterministic.
    pub open spec fn text_statement(self, with_config: bool) -> Seq<char> {
        "SELECT ("@ + self.id_ident@ + ")::bigint FROM "@ + self.rel_ident@ + " WHERE "@
            + self.lexed(with_config) + " @@ "@ + Self::tsquery(with_config)
            + " ORDER BY ts_rank("@ + self.lexed(with_config) + ", "@ + Self::tsquery(with_config)
            + ") DESC, ("@ + self.id_ident@ + ")::bigint ASC LIMIT "@ + (if with_config {
            "$3"@
        } else {
            "$2"@
        })
    }

    /// Write the statement of the vector side. No second sort key: it would cost
    /// the index ordering scan.
    pub fn vector_sql(&self) -> (s: String)
        ensures
            s@ == self.vector_statement(),
    {
        let mut s = String::new();
        s.append("SELECT (");
        s.append(self.id_ident.as_str());
        s.append(")::bigint FROM ");
        s.append(self.rel_ident.as_str());
        s.append(" WHERE ");
        s.append(self.vec_ident.as_str());
        s.append(" IS NOT NULL ORDER BY ");
        s.append(self.vec_ident.as_str());
        s.append(" OPERATOR(");
        s.append(self.vec_operator.as_str());
        s.append(") $1 LIMIT $2");
        assert(s@ =~= self.vector_statement());
        s
    }

    fn lexed_sql(&self, with_config: bool) -> (s: String)
        ensures
            s@ == self.lexed(with_config),
    {
        let mut s = String::new();
        match self.text_kind {
            TextKind::Tsvector => {
                s.append(self.text_ident.as_str());
            },
            TextKind::Text => {
                if with_config {
                    s.append("to_tsvector($2::regconfig, ");
                } else {
                    s.append("to_tsvector(");
                }
                s.append(self.text_ident.as_str());
                s.append(")");
            },
        }
        assert(s@ =~= self.lexed(with_config));
        s
    }

    /// Write the statement of the lexical side.
    pub fn text_sql(&self, with_config: bool) -> (s: String)
        ensures
            s@ == self.text_statement(with_config),
    {
        let lexed = self.lexed_sql(with_config);
        let tsquery = if with_config {
            "websearch_to_tsquery($2::regconfig, $1)"
        } else {
            "websearch_to_tsquery($1)"
        };
        let limit = if with_config { "$3" } else { "$2" };
        let mut s = String::new();
        s.append("SELECT (");
        s.append(self.id_ident.as_str());
        s.append(")::bigint FROM ");
        s.append(self.rel_ident.as_str());
        s.append(" WHERE ");
        s.append(lexed.as_str());
        s.append(" @@ ");
        s.append(tsquery);
        s.append(" ORDER BY ts_rank(");
        s.append(lexed.as_str());
        s.append(", ");
        s.append(tsquery);
        s.append(") DESC, (");
        s.append(self.id_ident.as_str());
        s.append(")::bigint ASC LIMIT ");
        s.append(limit);
        assert(s@ =~= self.text_statement(with_config));
        s
    }
}

/// The fusion key of an id: ids in order map to keys in order.
pub open spec fn id_key(id: i64) -> u64 {
    (id + 0x8000_0000_0000_0000) as u64
}

/// The id of a fusion key.
pub open spec fn key_id(key: u64) -> i64 {
    (key - 0x8000_0000_0000_0000) as i64
}

/// The fusion key of an id.
pub fn key_of(id: i64) -> (key: u64)
    ensures
        key == id_key(id),
{
    (id as i128 + 0x8000_0000_0000_0000i128) as u64
}

/// The id of a fusion key.
pub fn id_of(key: u64) -> (id: i64)
    ensures
        id == key_id(key),
{
    (key as i128 - 0x8000_0000_0000_0000i128) as i64
}

/// Ids and keys correspond one to one, and in the same order, negative ids
/// included: fusion's tie-break by ascending key is one by ascending id.
pub proof fn keys_follow_ids(a: i64, b: i64, key: u64)
    ensures
        key_id(id_key(a)) == a,
        id_key(key_id(key)) == key,
        id_key(a) < id_key(b) <==> a < b,
{
}

/// One fused row: id, score bits, and the row's 1-based rank within each source.
pub type HybridRow = (i64, u64, Option<i32>, Option<i32>);

/// Fusion keys of ids.
pub open spec fn keys(ids: Seq<i64>) -> Seq<u64> {
    Seq::new(ids.len(), |i: int| id_key(ids[i]))
}

/// Rank of a key in a source: one more than where it first occurs.
pub open spec fn rank_in(list: Seq<u64>, key: u64) -> Option<i32> {
    match position(list, key) {
        Some(p) => Some((p + 1) as i32),
        None => None,
    }
}

/// The rows of a fused ranking.
pub open spec fn fused_rows(
    fused: Seq<(u64, u64)>,
    vector: Seq<u64>,
    text: Seq<u64>,
) -> Seq<HybridRow> {
    Seq::new(
        fused.len(),
        |i: int|
            (
                key_id(fused[i].0),
                fused[i].1,
                rank_in(vector, fused[i].0),
                rank_in(text, fused[i].0),
            ),
    )
}

/// The two rankings, the vector side first.
pub open spec fn both(vector: Seq<u64>, text: Seq<u64>) -> Seq<Seq<u64>> {
    seq![vector, text]
}

/// `rows` are the first `k` rows of the fusion of the two rankings.
pub open spec fn hybrid_answer(
    ops: Arithmetic,
    vector: Seq<u64>,
    text: Seq<u64>,
    rrf_k: u64,
    k: nat,
    rows: Seq<HybridRow>,
) -> bool {
    exists|fused: Seq<(u64, u64)>| #[trigger]
        fuses(ops, both(vector, text), rrf_k, fused) && rows == fused_rows(
            if k < fused.len() {
                fused.take(k as int)
            } else {
                fused
            },
            vector,
            text,
        )
}

fn keys_of(ids: &[i64]) -> (out: Vec<u64>)
    ensures
        out@ == keys(ids@),
{
    let mut out: Vec<u64> = Vec::new();
    let mut i: usize = 0;
    while i < ids.len()
        invariant
            i <= ids@.len(),
            out@ == keys(ids@.take(i as int)),
        decreases ids@.len() - i,
    {
        out.push(key_of(ids[i]));
        i += 1;
        assert(out@ =~= keys(ids@.take(i as int)));
    }
    assert(ids@.take(ids@.len() as int) =~= ids@);
    out
}

/// The rank of every key of a source.
fn ranks(list: &Vec<u64>) -> (map: HashMap<u64, i32>)
    requires
        list@.len() <= i32::MAX,
    ensures
        forall|key: u64| #[trigger]
            map@.dom().contains(key) <==> position(list@, key) is Some,
        forall|key: u64| #[trigger]
            map@.dom().contains(key) ==> rank_in(list@, key) == Some(map@[key]),
{
    broadcast use vstd::std_specs::hash::group_hash_axioms;

    let mut map: HashMap<u64, i32> = HashMap::new();
    let mut i: usize = 0;
    assert(list@.take(0) =~= Seq::<u64>::empty());
    while i < list.len()
        invariant
            i <= list@.len() <= i32::MAX,
            forall|key: u64| #[trigger]
                map@.dom().contains(key) <==> position(list@.take(i as int), key) is Some,
            forall|key: u64| #[trigger]
                map@.dom().contains(key) ==> rank_in(list@.take(i as int), key) == Some(map@[key]),
        decreases list@.len() - i,
    {
        let key: u64 = list[i];
        proof {
            assert(list@.take(i + 1).drop_last() =~= list@.take(i as int));
            assert(list@.take(i + 1).last() == key);
        }
        if !map.contains_key(&key) {
            map.insert(key, i as i32 + 1);
        }
        i += 1;
    }
    assert(list@.take(list@.len() as int) =~= list@);
    map
}

/// Fuse the two ranked id lists and take the top `k`, carrying each row's rank
/// within each source.
pub fn fuse<C: Fn(u64, u64) -> u64, A: Fn(u64, u64) -> u64>(
    contribute: &C,
    sum: &A,
    vector_ids: &[i64],
    text_ids: &[i64],
    rrf_k: u64,
    k: usize,
) -> (r: Result<Vec<HybridRow>, HybridError>)
    requires
        binary_ok(*contribute),
        binary_ok(*sum),
        vector_ids@.len() <= i32::MAX,
        text_ids@.len() <= i32::MAX,
    ensures
        match r {
            Ok(rows) => valid_k(rrf_k) && hybrid_answer(
                arithmetic(*contribute, *sum),
                keys(vector_ids@),
                keys(text_ids@),
                rrf_k,
                k as nat,
                rows@,
            ),
            Err(e) => !valid_k(rrf_k) && e == HybridError::Fusion(
                FusionError::InvalidK { k: rrf_k },
            ),
        },
{
    broadcast use vstd::std_specs::hash::group_hash_axioms;

    let vector_keys = keys_of(vector_ids);
    let text_keys = keys_of(text_ids);
    let vector_rank = ranks(&vector_keys);
    let text_rank = ranks(&text_keys);
    let lists: [&[u64]; 2] = [vector_keys.as_slice(), text_keys.as_slice()];
    let fused = match rrf(contribute, sum, &lists, rrf_k) {
        Ok(fused) => fused,
        Err(e) => {
            return Err(HybridError::Fusion(e));
        },
    };
    let ghost ops = arithmetic(*contribute, *sum);
    assert(crate::fusion::list_views(lists@) =~= both(vector_keys@, text_keys@));
    let count: usize = if k < fused.len() { k } else { fused.len() };
    let mut rows: Vec<HybridRow> = Vec::new();
    let mut i: usize = 0;
    while i < count
        invariant
            i <= count <= fused@.len(),
            forall|key: u64| #[trigger]
                vector_rank@.dom().contains(key) <==> position(vector_keys@, key) is Some,
            forall|key: u64| #[trigger]
                vector_rank@.dom().contains(key) ==> rank_in(vector_keys@, key) == Some(
                    vector_rank@[key],
                ),
            forall|key: u64| #[trigger]
                text_rank@.dom().contains(key) <==> position(text_keys@, key) is Some,
            forall|key: u64| #[trigger]
                text_rank@.dom().contains(key) ==> rank_in(text_keys@, key) == Some(
                    text_rank@[key],
                ),
            rows@ == fused_rows(fused@.take(i as int), vector_keys@, text_keys@),
        decreases count - i,
    {
        let (key, score): (u64, u64) = fused[i];
        let vr: Option<i32> = match vector_rank.get(&key) {
            Some(r) => Some(*r),
            None => None,
        };
        let tr: Option<i32> = match text_rank.get(&key) {
            Some(r) => Some(*r),
            None => None,
        };
        proof {
            assert(vector_rank@.dom().contains(key) <==> position(vector_keys@, key) is Some);
            assert(text_rank@.dom().contains(key) <==> position(text_keys@, key) is Some);
        }
        rows.push((id_of(key), score, vr, tr));
        i += 1;
        assert(rows@ =~= fused_rows(fused@.take(i as int), vector_keys@, text_keys@));
    }
    proof {
        assert(fused@.take(fused@.len() as int) =~= fused@);
        assert(fuses(ops, both(vector_keys@, text_keys@), rrf_k, fused@));
    }
    Ok(rows)
}

/// When one side found nothing, the answer is the other side's ranking: its ids
/// in its own order, each with its rank there and none on the empty side.
pub proof fn an_empty_side_leaves_the_other(
    ops: Arithmetic,
    vector: Seq<i64>,
    text: Seq<i64>,
    rrf_k: u64,
    k: nat,
    rows: Seq<HybridRow>,
)
    requires
        hybrid_answer(ops, keys(vector), keys(text), rrf_k, k, rows),
        vector.len() == 0 || text.len() == 0,
        vector.no_duplicates(),
        text.no_duplicates(),
        vector.len() + text.len() <= i32::MAX,
        falls(ops, rrf_k, vector.len() + text.len()),
    ensures
        ({
            let ids = if text.len() == 0 {
                vector
            } else {
                text
            };
            &&& rows.len() == if k < ids.len() {
                k
            } else {
                ids.len()
            }
            &&& forall|i: int|
                0 <= i < rows.len() ==> {
                    &&& (#[trigger] rows[i]).0 == ids[i]
                    &&& rows[i].2 == if text.len() == 0 {
                        Some((i + 1) as i32)
                    } else {
                        None
                    }
                    &&& rows[i].3 == if text.len() == 0 {
                        None
                    } else {
                        Some((i + 1) as i32)
                    }
                }
        }),
{
    let (vk, tk) = (keys(vector), keys(text));
    let lists = both(vk, tk);
    let at: int = if text.len() == 0 {
        0
    } else {
        1
    };
    let list = lists[at];
    let ids = if text.len() == 0 {
        vector
    } else {
        text
    };
    assert(list == keys(ids));
    assert(lone(lists, at));
    assert(list.no_duplicates()) by {
        assert forall|i: int, j: int|
            0 <= i < list.len() && 0 <= j < list.len() && i != j implies list[i] != list[j] by {
            keys_follow_ids(ids[i], ids[j], 0);
        }
    }
    let fused = choose|fused: Seq<(u64, u64)>| #[trigger]
        fuses(ops, lists, rrf_k, fused) && rows == fused_rows(
            if k < fused.len() {
                fused.take(k as int)
            } else {
                fused
            },
            vk,
            tk,
        );
    a_lone_list_keeps_its_order(ops, lists, at, rrf_k, fused);
    assert forall|i: int| 0 <= i < rows.len() implies {
        &&& (#[trigger] rows[i]).0 == ids[i]
        &&& rank_in(list, fused[i].0) == Some((i + 1) as i32)
    } by {
        keys_follow_ids(ids[i], 0, 0);
        lemma_position_is_index(list, list[i]);
    }
}

/// The lexical statement sees the text column only through its lexed form, which
/// is the column itself if it is a `tsvector` and `to_tsvector` of it if it is
/// text; around that, both kinds are matched, ranked best first with ties to the
/// smaller id, and cut to the depth in the same words.
pub proof fn both_kinds_of_text_are_ranked_alike(r: Resolved, with_config: bool, lexed: Seq<char>)
    requires
        lexed == (match r.text_kind {
            TextKind::Tsvector => r.text_ident@,
            TextKind::Text => (if with_config {
                "to_tsvector($2::regconfig, "@
            } else {
                "to_tsvector("@
            }) + r.text_ident@ + ")"@,
        }),
    ensures
        with_config ==> r.text_statement(with_config) == "SELECT ("@ + r.id_ident@
            + ")::bigint FROM "@ + r.rel_ident@ + " WHERE "@ + lexed + " @@ "@
            + "websearch_to_tsquery($2::regconfig, $1)"@ + " ORDER BY ts_rank("@ + lexed + ", "@
            + "websearch_to_tsquery($2::regconfig, $1)"@ + ") DESC, ("@ + r.id_ident@
            + ")::bigint ASC LIMIT "@ + "$3"@,
        !with_config ==> r.text_statement(with_config) == "SELECT ("@ + r.id_ident@
            + ")::bigint FROM "@ + r.rel_ident@ + " WHERE "@ + lexed + " @@ "@
            + "websearch_to_tsquery($1)"@ + " ORDER BY ts_rank("@ + lexed + ", "@
            + "websearch_to_tsquery($1)"@ + ") DESC, ("@ + r.id_ident@ + ")::bigint ASC LIMIT "@
            + "$2"@,
{
}

/// A text column is searched as a `tsvector` column would be that holds its
/// lexed form: the two statements are the same.
pub proof fn a_text_column_is_its_lexed_form(text: Resolved, vector: Resolved, with_config: bool)
    requires
        text.text_kind == TextKind::Text,
        vector.text_kind == TextKind::Tsvector,
        vector.text_ident@ == (if with_config {
            "to_tsvector($2::regconfig, "@
        } else {
            "to_tsvector("@
        }) + text.text_ident@ + ")"@,
        text.rel_ident@ == vector.rel_ident@,
        text.id_ident@ == vector.id_ident@,
    ensures
        text.text_statement(with_config) == vector.text_statement(with_config),
{
}

/// The lexical statement depends on the relation, the id column and the text
/// column alone, and the vector statement on the relation, the id column, the
/// vector column and its operator alone.
pub proof fn statements_keep_to_their_side(a: Resolved, b: Resolved, with_config: bool)
    requires
        a.rel_ident@ == b.rel_ident@,
        a.id_ident@ == b.id_ident@,
    ensures
        a.text_ident@ == b.text_ident@ && a.text_kind == b.text_kind ==> a.text_statement(
            with_config,
        ) == b.text_statement(with_config),
        a.vec_ident@ == b.vec_ident@ && a.vec_operator@ == b.vec_operator@
            ==> a.vector_statement() == b.vector_statement(),
{
}

/// The vector statement asks for the ids of the rows that have a vector, in the
/// order of the index, up to the depth; whatever the names.
pub proof fn neighbors_are_asked_for_in_index_order(r: Resolved)
    ensures
        r.vector_statement() == "SELECT ("@ + r.id_ident@ + ")::bigint FROM "@ + r.rel_ident@
            + " WHERE "@ + r.vec_ident@ + " IS NOT NULL ORDER BY "@ + r.vec_ident@ + " OPERATOR("@
            + r.vec_operator@ + ") $1 LIMIT $2"@,
{
}

/// A rank in a list of ids: one more than where the id first occurs, and none
/// where it does not.
pub open spec fn stands(ids: Seq<i64>, id: i64, rank: Option<i32>) -> bool {
    match rank {
        None => !ids.contains(id),
        Some(r) => {
            &&& 1 <= r <= ids.len()
            &&& ids[r - 1] == id
            &&& forall|j: int| 0 <= j < r - 1 ==> #[trigger] ids[j] != id
        },
    }
}

/// A fused score: the contribution of each rank there is, and their sum when
/// there are two.
pub open spec fn earns<C: Fn(u64, u64) -> u64, A: Fn(u64, u64) -> u64>(
    contribute: C,
    sum: A,
    rrf_k: u64,
    vector_rank: Option<i32>,
    text_rank: Option<i32>,
    score: u64,
) -> bool {
    match (vector_rank, text_rank) {
        (None, None) => false,
        (Some(p), None) => forall|x: u64| #[trigger]
            call_ensures(contribute, (rrf_k, p as u64), x) ==> score == x,
        (None, Some(q)) => forall|y: u64| #[trigger]
            call_ensures(contribute, (rrf_k, q as u64), y) ==> score == y,
        (Some(p), Some(q)) => forall|x: u64, y: u64, t: u64|
            call_ensures(contribute, (rrf_k, p as u64), x) && call_ensures(
                contribute,
                (rrf_k, q as u64),
                y,
            ) && #[trigger] call_ensures(sum, (x, y), t) ==> score == t,
    }
}

/// The rank a key has among keys is the rank its id has among ids.
proof fn lemma_ranks_stand(ids: Seq<i64>, key: u64)
    requires
        ids.len() <= i32::MAX,
    ensures
        stands(ids, key_id(key), rank_in(keys(ids), key)),
{
    let list = keys(ids);
    let id = key_id(key);
    lemma_position_holds(list, key);
    match position(list, key) {
        Some(p) => {
            assert(ids[p as int] == id);
            assert forall|j: int| 0 <= j < p implies #[trigger] ids[j] != id by {
                assert(list[j] != key);
            }
        },
        None => {
            if ids.contains(id) {
                let i = choose|i: int| 0 <= i < ids.len() && ids[i] == id;
                assert(list[i] == key);
            }
        },
    }
}

/// What the score of a key is.
proof fn lemma_earns<C: Fn(u64, u64) -> u64, A: Fn(u64, u64) -> u64>(
    contribute: C,
    sum: A,
    vector: Seq<u64>,
    text: Seq<u64>,
    rrf_k: u64,
    key: u64,
    score: u64,
)
    requires
        binary_ok(contribute),
        binary_ok(sum),
        vector.len() <= i32::MAX,
        text.len() <= i32::MAX,
        arithmetic(contribute, sum).score(both(vector, text), rrf_k, key) == Some(score),
    ensures
        earns(contribute, sum, rrf_k, rank_in(vector, key), rank_in(text, key), score),
{
    let ops = arithmetic(contribute, sum);
    let lists = both(vector, text);
    assert(lists.drop_last() =~= seq![vector]);
    assert(seq![vector].drop_last() =~= Seq::<Seq<u64>>::empty());
    lemma_position_holds(vector, key);
    lemma_position_holds(text, key);
    let first = ops.score(seq![vector], rrf_k, key);
    assert(first == (match position(vector, key) {
        None => None,
        Some(p) => Some((ops.contribute)(rrf_k, (p + 1) as u64)),
    })) by {
        assert(ops.score(Seq::<Seq<u64>>::empty(), rrf_k, key) is None);
    }
    assert forall|p: u64, x: u64| #[trigger] call_ensures(contribute, (rrf_k, p), x) implies x == (
    ops.contribute)(rrf_k, p) by {
        assert(call_ensures(contribute, (rrf_k, p), binary_value(contribute, rrf_k, p)));
    }
    assert forall|a: u64, b: u64, t: u64| #[trigger] call_ensures(sum, (a, b), t) implies t == (
    ops.sum)(a, b) by {
        assert(call_ensures(sum, (a, b), binary_value(sum, a, b)));
    }
}

/// The rows of a hybrid search, in terms of the two id lists: each row is an id
/// of either list with its rank in both and the score those ranks earn; rows come
/// by score, the higher first, then by id, the smaller first; there are `k` of
/// them, or one for every id when those are fewer; and an id left out has earned
/// no more than any row.
pub proof fn rows_are_the_best_of_both_lists<C: Fn(u64, u64) -> u64, A: Fn(u64, u64) -> u64>(
    contribute: C,
    sum: A,
    vector: Seq<i64>,
    text: Seq<i64>,
    rrf_k: u64,
    k: nat,
    rows: Seq<HybridRow>,
)
    requires
        binary_ok(contribute),
        binary_ok(sum),
        vector.len() <= i32::MAX,
        text.len() <= i32::MAX,
        hybrid_answer(arithmetic(contribute, sum), keys(vector), keys(text), rrf_k, k, rows),
    ensures
        rows.len() <= k,
        forall|i: int|
            0 <= i < rows.len() ==> {
                let row = #[trigger] rows[i];
                &&& stands(vector, row.0, row.2)
                &&& stands(text, row.0, row.3)
                &&& earns(contribute, sum, rrf_k, row.2, row.3, row.1)
            },
        forall|i: int, j: int|
            0 <= i < j < rows.len() ==> {
                let (a, b) = (#[trigger] rows[i], #[trigger] rows[j]);
                f64_rank(a.1) > f64_rank(b.1) || (f64_rank(a.1) == f64_rank(b.1) && a.0 < b.0)
            },
        forall|id: i64|
            #![trigger vector.contains(id)]
            #![trigger text.contains(id)]
            (vector.contains(id) || text.contains(id))
                && (forall|i: int| 0 <= i < rows.len() ==> (#[trigger] rows[i]).0 != id) ==> {
                &&& rows.len() == k
                &&& exists|vr: Option<i32>, tr: Option<i32>, s: u64|
                    {
                        &&& stands(vector, id, vr)
                        &&& stands(text, id, tr)
                        &&& #[trigger] earns(contribute, sum, rrf_k, vr, tr, s)
                        &&& forall|i: int|
                            0 <= i < rows.len() ==> f64_rank((#[trigger] rows[i]).1) > f64_rank(s)
                                || (f64_rank(rows[i].1) == f64_rank(s) && rows[i].0 < id)
                    }
            },
{
    let ops = arithmetic(contribute, sum);
    let (vk, tk) = (keys(vector), keys(text));
    let lists = both(vk, tk);
    let fused = choose|fused: Seq<(u64, u64)>| #[trigger]
        fuses(ops, lists, rrf_k, fused) && rows == fused_rows(
            if k < fused.len() {
                fused.take(k as int)
            } else {
                fused
            },
            vk,
            tk,
        );
    assert forall|i: int| 0 <= i < rows.len() implies {
        let row = #[trigger] rows[i];
        &&& stands(vector, row.0, row.2)
        &&& stands(text, row.0, row.3)
        &&& earns(contribute, sum, rrf_k, row.2, row.3, row.1)
    } by {
        let key = fused[i].0;
        lemma_ranks_stand(vector, key);
        lemma_ranks_stand(text, key);
        assert(ops.score(lists, rrf_k, fused[i].0) == Some(fused[i].1));
        lemma_earns(contribute, sum, vk, tk, rrf_k, key, fused[i].1);
    }
    assert forall|i: int, j: int| 0 <= i < j < rows.len() implies {
        let (a, b) = (#[trigger] rows[i], #[trigger] rows[j]);
        f64_rank(a.1) > f64_rank(b.1) || (f64_rank(a.1) == f64_rank(b.1) && a.0 < b.0)
    } by {
        assert(outranks(fused[i], fused[j]));
        keys_follow_ids(rows[i].0, rows[j].0, fused[i].0);
        keys_follow_ids(rows[i].0, rows[j].0, fused[j].0);
    }
    assert forall|id: i64|
        #![trigger vector.contains(id)]
        #![trigger text.contains(id)]
        (vector.contains(id) || text.contains(id)) && (
        forall|i: int| 0 <= i < rows.len() ==> (#[trigger] rows[i]).0 != id) implies {
        &&& rows.len() == k
        &&& exists|vr: Option<i32>, tr: Option<i32>, s: u64|
            {
                &&& stands(vector, id, vr)
                &&& stands(text, id, tr)
                &&& #[trigger] earns(contribute, sum, rrf_k, vr, tr, s)
                &&& forall|i: int|
                    0 <= i < rows.len() ==> f64_rank((#[trigger] rows[i]).1) > f64_rank(s) || (
                    f64_rank(rows[i].1) == f64_rank(s) && rows[i].0 < id)
            }
    } by {
        let key = id_key(id);
        keys_follow_ids(id, id, key);
        lemma_scored_are_listed(ops, lists, rrf_k, key);
        assert(lists[0] == vk && lists[1] == tk);
        if vector.contains(id) {
            let i = choose|i: int| 0 <= i < vector.len() && vector[i] == id;
            assert(vk[i] == key);
            assert(lists[0].contains(key));
        } else {
            let i = choose|i: int| 0 <= i < text.len() && text[i] == id;
            assert(tk[i] == key);
            assert(lists[1].contains(key));
        }
        let s = ops.score(lists, rrf_k, key)->0;
        assert(fused.contains((key, s)));
        let at = choose|at: int| 0 <= at < fused.len() && fused[at] == (key, s);
        if at < rows.len() {
            assert(rows[at].0 == id);
        }
        lemma_ranks_stand(vector, key);
        lemma_ranks_stand(text, key);
        lemma_earns(contribute, sum, vk, tk, rrf_k, key, s);
        let (vr, tr) = (rank_in(vk, key), rank_in(tk, key));
        assert(earns(contribute, sum, rrf_k, vr, tr, s));
        assert forall|i: int| 0 <= i < rows.len() implies f64_rank((#[trigger] rows[i]).1)
            > f64_rank(s) || (f64_rank(rows[i].1) == f64_rank(s) && rows[i].0 < id) by {
            assert(outranks(fused[i], fused[at]));
            keys_follow_ids(rows[i].0, id, fused[i].0);
        }
    }
}

/// Unless told how many, each side contributes four rows for every one asked for,
/// but no fewer than 40 and no more than a 32-bit count holds.
pub proof fn depths_grow_with_what_is_asked(k: i32)
    requires
        k >= 1,
    ensures
        k <= 10 ==> default_depth(k as int) == 40,
        10 <= k <= 0x1fff_ffff ==> default_depth(k as int) == k + k + k + k,
        k > 0x1fff_ffff ==> default_depth(k as int) == 0x7fff_ffff,
{
}

/// A request is in order exactly when it asks for at least one row, and for at
/// least one from each side if it says how many; the count it asks for is looked
/// at first.
pub proof fn counts_start_at_one(k: i32, n: Option<i32>)
    ensures
        request_fault(k, n) is None <==> k >= 1 && (n matches Some(d) ==> d >= 1),
        k <= 0 ==> request_fault(k, n) == Some(
            Fault::NonPositive { param: "k"@, value: k as int },
        ),
        k > 0 && (n matches Some(d) && d <= 0) ==> request_fault(k, n) == Some(
            Fault::NonPositive { param: "n"@, value: n->0 as int },
        ),
{
}

/// Operators joined by bars are counted: one on its own is one, however long, and
/// a bar separates what stands before it from what stands after.
pub proof fn operators_are_counted(before: Seq<char>, after: Seq<char>)
    ensures
        pieces(Seq::empty()) == 0,
        before.len() > 0 && !before.contains('|') ==> pieces(before) == 1,
        pieces(before + seq!['|'] + after) == pieces(before) + pieces(after),
    decreases before.len() + after.len(),
{
    let whole = before + seq!['|'] + after;
    if before.len() > 0 && !before.contains('|') {
        assert(before.last() != '|') by {
            assert(before[before.len() - 1] == before.last());
        }
        let head = before.drop_last();
        if before.len() > 1 {
            assert(before[before.len() - 2] != '|');
            assert forall|i: int| 0 <= i < head.len() implies head[i] != '|' by {
                assert(before[i] == head[i]);
            }
            operators_are_counted(head, Seq::empty());
        } else {
            assert(pieces(head) == 0);
        }
        assert(pieces(before) == 1);
    }
    if after.len() == 0 {
        assert(whole.drop_last() =~= before);
        assert(whole.last() == '|');
    } else {
        let head = after.drop_last();
        operators_are_counted(before, head);
        assert(whole.drop_last() =~= before + seq!['|'] + head);
        assert(whole.last() == after.last());
        if after.len() == 1 {
            assert(whole[whole.len() - 2] == '|');
        } else {
            assert(whole[whole.len() - 2] == after[after.len() - 2]);
        }
    }
}

/// A search resolves exactly where the table is there, its id column holds
/// integers, its vector column vectors and its text column text, and one operator
/// orders its vectors. The identifiers do not matter for that.
pub proof fn sound_tables_resolve(facts: CatalogFacts, names: Names)
    ensures
        facts.fault(names) is None <==> {
            &&& facts.rel_ident is Some
            &&& facts.id_type matches Some(t) && (t@ == "int2"@ || t@ == "int4"@ || t@ == "int8"@)
            &&& facts.vec_type matches Some(t) && t@ == "brindle_vector"@
            &&& facts.text_type matches Some(t) && (t@ == "tsvector"@ || t@ == "text"@ || t@
                == "varchar"@ || t@ == "bpchar"@)
            &&& facts.vec_operators matches Some(o) && pieces(o@) == 1
        },
        facts.vec_operators matches Some(o) ==> o@.len() > 0 && !o@.contains('|') ==> pieces(o@)
            == 1,
        text_kind("tsvector"@) == Some(TextKind::Tsvector),
        text_kind("text"@) == Some(TextKind::Text),
        text_kind("varchar"@) == Some(TextKind::Text),
        text_kind("bpchar"@) == Some(TextKind::Text),
{
    reveal_strlit("tsvector");
    reveal_strlit("text");
    reveal_strlit("varchar");
    reveal_strlit("bpchar");
    assert("tsvector"@.len() != "text"@.len());
    assert("tsvector"@.len() != "varchar"@.len());
    assert("tsvector"@.len() != "bpchar"@.len());
    if let Some(o) = facts.vec_operators {
        operators_are_counted(o@, Seq::empty());
    }
}

/// Each side contributes as many rows as the caller says, if that is one or more,
/// and as many as the default depth without a word.
pub proof fn depths_are_what_is_asked_for(k: i32, n: Option<i32>, r: Result<i32, HybridError>)
    requires
        call_ensures(depth, (k, n), r),
    ensures
        r is Ok <==> k >= 1 && (n matches Some(d) ==> d >= 1),
        r matches Ok(d) ==> n matches Some(given) ==> d == given,
        r matches Ok(d) ==> n is None ==> (d == 40 && k <= 10) || (d == 4 * k && 10 <= k
            <= 0x1fff_ffff) || (d == 0x7fff_ffff && k > 0x1fff_ffff),
{
}

} // verus!
