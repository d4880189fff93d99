//! What error messages tell.
//!
//! A message names what it is about: whatever an error carries stands in its text.

use crate::distance::DistanceError;
use crate::hnsw::source::HnswDecodeError;
use crate::hnsw::HnswError;
use crate::hybrid::Fault;
use crate::index_am::attrs::UnfilterableColumn;
use crate::index_am::opclass::OpclassError;
use crate::index_am::options::ExcessiveDegree;
use crate::index_am::scan::ScanError;
use crate::index_am::storage::{CorruptPage, MetaError};
use crate::pg_vector::VectorError;
use crate::text::{decimal, hex, signed_decimal};
use vstd::prelude::*;

verus! {

/// Some text stands in another.
pub open spec fn mentions(text: Seq<char>, part: Seq<char>) -> bool {
    exists|before: Seq<char>, after: Seq<char>| text == #[trigger] (before + part + after)
}

proof fn lemma_mentions(text: Seq<char>, before: Seq<char>, part: Seq<char>, after: Seq<char>)
    requires
        text =~= before + part + after,
    ensures
        mentions(text, part),
{
}

/// A graph's errors give the numbers they are about.
pub proof fn graph_errors_say_what_is_wrong(e: HnswError)
    ensures
        e matches HnswError::DimensionMismatch { expected, got } ==> {
            &&& mentions(e.text(), decimal(expected as nat))
            &&& mentions(e.text(), decimal(got as nat))
        },
        e matches HnswError::UnknownNode { id } ==> mentions(e.text(), decimal(id as nat)),
        e matches HnswError::NodeLimitReached { limit } ==> mentions(
            e.text(),
            decimal(limit as nat),
        ),
        e matches HnswError::DimensionTooLarge { got, max } ==> {
            &&& mentions(e.text(), decimal(got as nat))
            &&& mentions(e.text(), decimal(max as nat))
        },
{
    match e {
        HnswError::DimensionMismatch { expected, got } => {
            lemma_mentions(
                e.text(),
                "vector dimension mismatch: expected "@,
                decimal(expected as nat),
                ", got "@ + decimal(got as nat),
            );
            lemma_mentions(
                e.text(),
                "vector dimension mismatch: expected "@ + decimal(expected as nat) + ", got "@,
                decimal(got as nat),
                Seq::<char>::empty(),
            );
        },
        HnswError::UnknownNode { id } => {
            lemma_mentions(
                e.text(),
                "unknown node id: "@,
                decimal(id as nat),
                Seq::<char>::empty(),
            );
        },
        HnswError::NodeLimitReached { limit } => {
            lemma_mentions(
                e.text(),
                "graph is full: "@,
                decimal(limit as nat),
                " nodes is the ceiling for 32-bit ids"@,
            );
        },
        HnswError::DimensionTooLarge { got, max } => {
            lemma_mentions(
                e.text(),
                "vector has "@,
                decimal(got as nat),
                " dimensions, the maximum is "@ + decimal(max as nat),
            );
            lemma_mentions(
                e.text(),
                "vector has "@ + decimal(got as nat) + " dimensions, the maximum is "@,
                decimal(max as nat),
                Seq::<char>::empty(),
            );
        },
        _ => {},
    }
}

/// A vector's errors give the count or the position they are about.
pub proof fn vector_errors_say_what_is_wrong(e: VectorError)
    ensures
        e matches VectorError::TooManyDimensions(dim) ==> {
            &&& mentions(e.text(), decimal(dim as nat))
            &&& mentions(e.text(), decimal(16_000))
        },
        e matches VectorError::NonFinite(index) ==> mentions(e.text(), decimal(index as nat)),
        e matches VectorError::Syntax(expected) ==> mentions(e.text(), expected@),
        e matches VectorError::InvalidElement(index) ==> mentions(e.text(), decimal(index as nat)),
{
    match e {
        VectorError::TooManyDimensions(dim) => {
            lemma_mentions(
                e.text(),
                "vector has "@,
                decimal(dim as nat),
                " dimensions, the maximum is "@ + decimal(16_000),
            );
            lemma_mentions(
                e.text(),
                "vector has "@ + decimal(dim as nat) + " dimensions, the maximum is "@,
                decimal(16_000),
                Seq::<char>::empty(),
            );
        },
        VectorError::NonFinite(index) => {
            lemma_mentions(
                e.text(),
                "vector element "@,
                decimal(index as nat),
                " must be a finite number"@,
            );
        },
        VectorError::Syntax(expected) => {
            lemma_mentions(
                e.text(),
                "malformed vector literal: "@,
                expected@,
                Seq::<char>::empty(),
            );
        },
        VectorError::InvalidElement(index) => {
            lemma_mentions(
                e.text(),
                "vector element "@,
                decimal(index as nat),
                " is not a number"@,
            );
        },
        _ => {},
    }
}

/// A distance's error gives both lengths.
pub proof fn distance_errors_say_what_is_wrong(e: DistanceError)
    ensures
        e matches DistanceError::DimensionMismatch { left, right } ==> {
            &&& mentions(e.text(), decimal(left as nat))
            &&& mentions(e.text(), decimal(right as nat))
        },
{
    match e {
        DistanceError::DimensionMismatch { left, right } => {
            lemma_mentions(
                e.text(),
                "vector dimension mismatch: "@,
                decimal(left as nat),
                " != "@ + decimal(right as nat),
            );
            lemma_mentions(
                e.text(),
                "vector dimension mismatch: "@ + decimal(left as nat) + " != "@,
                decimal(right as nat),
                Seq::<char>::empty(),
            );
        },
        _ => {},
    }
}

/// A decoder's errors give the version, or what is invalid.
pub proof fn decoding_errors_say_what_is_wrong(e: HnswDecodeError)
    ensures
        e matches HnswDecodeError::UnsupportedVersion { got } ==> mentions(
            e.text(),
            decimal(got as nat),
        ),
        e matches HnswDecodeError::Invalid(what) ==> mentions(e.text(), what@),
{
    match e {
        HnswDecodeError::UnsupportedVersion { got } => {
            lemma_mentions(
                e.text(),
                "unsupported graph format version "@,
                decimal(got as nat),
                Seq::<char>::empty(),
            );
        },
        HnswDecodeError::Invalid(what) => {
            lemma_mentions(e.text(), "invalid serialized graph: "@, what@, Seq::<char>::empty());
        },
        _ => {},
    }
}

/// A metapage's errors give what was read from it.
pub proof fn metapage_errors_say_what_is_wrong(e: MetaError)
    ensures
        e matches MetaError::TooShort { len } ==> mentions(e.text(), decimal(len as nat)),
        e matches MetaError::BadMagic { magic } ==> mentions(e.text(), hex(magic as nat)),
        e matches MetaError::WrongVersion { version } ==> {
            &&& mentions(e.text(), decimal(version as nat))
            &&& mentions(e.text(), decimal(3))
        },
        e matches MetaError::TooLong { len, nblocks } ==> {
            &&& mentions(e.text(), decimal(len as nat))
            &&& mentions(e.text(), decimal(nblocks as nat))
        },
{
    match e {
        MetaError::TooShort { len } => {
            lemma_mentions(e.text(), "metapage too short ("@, decimal(len as nat), " bytes)"@);
        },
        MetaError::BadMagic { magic } => {
            lemma_mentions(
                e.text(),
                "bad metapage magic 0x"@,
                hex(magic as nat),
                Seq::<char>::empty(),
            );
        },
        MetaError::WrongVersion { version } => {
            lemma_mentions(
                e.text(),
                "index was written in storage format "@,
                decimal(version as nat),
                ", this build reads "@ + decimal(3) + "; REINDEX to rebuild it"@,
            );
            lemma_mentions(
                e.text(),
                "index was written in storage format "@ + decimal(version as nat)
                    + ", this build reads "@,
                decimal(3),
                "; REINDEX to rebuild it"@,
            );
        },
        MetaError::TooLong { len, nblocks } => {
            lemma_mentions(
                e.text(),
                "metapage declares "@,
                decimal(len as nat),
                " blob bytes but the index has "@ + decimal(nblocks as nat) + " pages"@,
            );
            lemma_mentions(
                e.text(),
                "metapage declares "@ + decimal(len as nat) + " blob bytes but the index has "@,
                decimal(nblocks as nat),
                " pages"@,
            );
        },
        _ => {},
    }
}

/// A hybrid search's errors name the relation or the column, and what was found
/// there.
pub proof fn hybrid_errors_say_what_is_wrong(e: Fault, k: Seq<char>)
    ensures
        e matches Fault::RelationNotFound { relation } ==> mentions(e.text(k), relation),
        e matches Fault::ColumnMissing { role, column } ==> {
            &&& mentions(e.text(k), role)
            &&& mentions(e.text(k), column)
        },
        e matches Fault::IdNotInteger { column, found } ==> {
            &&& mentions(e.text(k), column)
            &&& mentions(e.text(k), found)
        },
        e matches Fault::VectorNotVector { column, found } ==> {
            &&& mentions(e.text(k), column)
            &&& mentions(e.text(k), found)
        },
        e matches Fault::TextNotSearchable { column, found } ==> {
            &&& mentions(e.text(k), column)
            &&& mentions(e.text(k), found)
        },
        e matches Fault::NoBrindleIndex { column } ==> mentions(e.text(k), column),
        e matches Fault::AmbiguousMetric { column, operators } ==> {
            &&& mentions(e.text(k), column)
            &&& mentions(e.text(k), operators)
        },
        e matches Fault::NonPositive { param, value } ==> {
            &&& mentions(e.text(k), param)
            &&& mentions(e.text(k), signed_decimal(value))
        },
        e matches Fault::Fusion(_) ==> mentions(e.text(k), k),
{
    match e {
        Fault::RelationNotFound { relation } => {
            lemma_mentions(e.text(k), "relation \""@, relation, "\" does not exist"@);
        },
        Fault::ColumnMissing { role, column } => {
            lemma_mentions(
                e.text(k),
                Seq::<char>::empty(),
                role,
                " column \""@ + column + "\" does not exist on the relation"@,
            );
            lemma_mentions(
                e.text(k),
                role + " column \""@,
                column,
                "\" does not exist on the relation"@,
            );
        },
        Fault::IdNotInteger { column, found } => {
            lemma_mentions(
                e.text(k),
                "id column \""@,
                column,
                "\" is "@ + found + ", but must be an integer type (smallint, integer, or bigint)"@,
            );
            lemma_mentions(
                e.text(k),
                "id column \""@ + column + "\" is "@,
                found,
                ", but must be an integer type (smallint, integer, or bigint)"@,
            );
        },
        Fault::VectorNotVector { column, found } => {
            lemma_mentions(
                e.text(k),
                "vector column \""@,
                column,
                "\" is "@ + found + ", but must be brindle_vector"@,
            );
            lemma_mentions(
                e.text(k),
                "vector column \""@ + column + "\" is "@,
                found,
                ", but must be brindle_vector"@,
            );
        },
        Fault::TextNotSearchable { column, found } => {
            lemma_mentions(
                e.text(k),
                "text column \""@,
                column,
                "\" is "@ + found + ", but must be tsvector or a text type (text, varchar, char)"@,
            );
            lemma_mentions(
                e.text(k),
                "text column \""@ + column + "\" is "@,
                found,
                ", but must be tsvector or a text type (text, varchar, char)"@,
            );
        },
        Fault::NoBrindleIndex { column } => {
            lemma_mentions(
                e.text(k),
                "hybrid search needs a brindle index on vector column \""@,
                column,
                "\" (its operator class selects the distance metric)"@,
            );
        },
        Fault::AmbiguousMetric { column, operators } => {
            lemma_mentions(
                e.text(k),
                "vector column \""@,
                column,
                "\" has brindle indexes with different metrics ("@ + operators
                    + "); drop one so the metric is unambiguous"@,
            );
            lemma_mentions(
                e.text(k),
                "vector column \""@ + column + "\" has brindle indexes with different metrics ("@,
                operators,
                "); drop one so the metric is unambiguous"@,
            );
        },
        Fault::NonPositive { param, value } => {
            lemma_mentions(
                e.text(k),
                Seq::<char>::empty(),
                param,
                " must be at least 1, got "@ + signed_decimal(value),
            );
            lemma_mentions(
                e.text(k),
                param + " must be at least 1, got "@,
                signed_decimal(value),
                Seq::<char>::empty(),
            );
        },
        Fault::Fusion(_) => {
            lemma_mentions(e.text(k), "invalid RRF k: "@, k, " (must be finite and >= 0)"@);
        },
        _ => {},
    }
}

/// An operator class's errors name what it does not describe.
pub proof fn operator_class_errors_say_what_is_wrong(e: OpclassError)
    ensures
        e matches OpclassError::Undeclared { describes, procnum } ==> {
            &&& mentions(e.text(), describes@)
            &&& mentions(e.text(), decimal(procnum as nat))
        },
        e matches OpclassError::NoValue { describes } ==> mentions(e.text(), describes@),
{
    match e {
        OpclassError::Undeclared { describes, procnum } => {
            lemma_mentions(
                e.text(),
                "operator class declares no "@,
                describes@,
                " (support function "@ + decimal(procnum as nat) + ")"@,
            );
            lemma_mentions(
                e.text(),
                "operator class declares no "@ + describes@ + " (support function "@,
                decimal(procnum as nat),
                ")"@,
            );
        },
        OpclassError::NoValue { describes } => {
            lemma_mentions(
                e.text(),
                "operator class reports no "@,
                describes@,
                Seq::<char>::empty(),
            );
        },
        _ => {},
    }
}

/// What is wrong with a column, a page, an option or a stored node is given by its
/// number.
pub proof fn other_errors_say_what_is_wrong(
    column: UnfilterableColumn,
    page: CorruptPage,
    degree: ExcessiveDegree,
    gamma: Seq<char>,
    node: usize,
)
    ensures
        mentions(column.text(), decimal(column.column as nat)),
        mentions(column.text(), decimal(column.oid as nat)),
        mentions(page.text(), decimal(page.blkno as nat)),
        mentions(page.text(), decimal(page.pd_lower as nat)),
        mentions(degree.text(gamma), signed_decimal(degree.m as int)),
        mentions(degree.text(gamma), gamma),
        mentions(degree.text(gamma), decimal(degree.degree as nat)),
        mentions(ScanError::UnmappedNode(node).text(), decimal(node as nat)),
{
    lemma_mentions(
        column.text(),
        "column "@,
        decimal(column.column as nat),
        " of the index has type "@ + decimal(column.oid as nat) + ", which cannot be filtered on"@,
    );
    lemma_mentions(
        column.text(),
        "column "@ + decimal(column.column as nat) + " of the index has type "@,
        decimal(column.oid as nat),
        ", which cannot be filtered on"@,
    );
    lemma_mentions(
        page.text(),
        "corrupted index page "@,
        decimal(page.blkno as nat),
        " (pd_lower "@ + decimal(page.pd_lower as nat) + ")"@,
    );
    lemma_mentions(
        page.text(),
        "corrupted index page "@ + decimal(page.blkno as nat) + " (pd_lower "@,
        decimal(page.pd_lower as nat),
        ")"@,
    );
    lemma_mentions(
        degree.text(gamma),
        "m = "@,
        signed_decimal(degree.m as int),
        " with gamma = "@ + gamma + " would give each node up to "@
            + decimal(degree.degree as nat) + " neighbors"@,
    );
    lemma_mentions(
        degree.text(gamma),
        "m = "@ + signed_decimal(degree.m as int) + " with gamma = "@,
        gamma,
        " would give each node up to "@ + decimal(degree.degree as nat) + " neighbors"@,
    );
    lemma_mentions(
        degree.text(gamma),
        "m = "@ + signed_decimal(degree.m as int) + " with gamma = "@ + gamma
            + " would give each node up to "@,
        decimal(degree.degree as nat),
        " neighbors"@,
    );
    lemma_mentions(
        ScanError::UnmappedNode(node).text(),
        "corrupted index: node "@,
        decimal(node as nat),
        " has no heap pointer"@,
    );
}

} // verus!
