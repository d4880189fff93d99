//! Operator classes: which metric an index ranks by, and which type its column
//! holds.
//!
//! Both come from support functions of the class: nothing else knows them before
//! the first vector is read.

use crate::text::{decimal, push_decimal};
use crate::vector::Metric;
use vstd::prelude::*;

verus! {

/// Support-function number of the proc reporting the metric.
pub const METRIC_PROC_NUM: u16 = 2;

/// Support-function number of the proc reporting the indexed type.
pub const KIND_PROC_NUM: u16 = 3;

/// Support functions an operator class provides.
pub const SUPPORT_PROCS: u16 = 3;

/// The type an indexed column holds, and therefore how its values are read.
#[derive(Clone, Copy, PartialEq, Eq, Debug, Structural)]
pub enum VectorKind {
    RealArray,
    Vector,
}

impl VectorKind {
    /// The code an operator class reports.
    pub open spec fn spec_code(self) -> i32 {
        match self {
            VectorKind::RealArray => 0,
            VectorKind::Vector => 1,
        }
    }

    /// The kind a code means.
    pub open spec fn spec_from_code(code: i32) -> Option<VectorKind> {
        match code {
            0 => Some(VectorKind::RealArray),
            1 => Some(VectorKind::Vector),
            _ => None,
        }
    }

    /// The code an operator class reports. Existing codes are never renumbered.
    pub fn code(self) -> (c: i32)
        ensures
            c == self.spec_code(),
    {
        match self {
            VectorKind::RealArray => 0,
            VectorKind::Vector => 1,
        }
    }

    /// Inverse of [`VectorKind::code`]; `None` for an unknown code.
    pub fn from_code(code: i32) -> (r: Option<VectorKind>)
        ensures
            r == Self::spec_from_code(code),
    {
        match code {
            0 => Some(VectorKind::RealArray),
            1 => Some(VectorKind::Vector),
            _ => None,
        }
    }
}

/// A kind's code leads back to the kind, and a code that decodes is the code of
/// what it decodes to.
pub proof fn kind_codes_round_trip(kind: VectorKind, code: i32)
    ensures
        VectorKind::spec_from_code(kind.spec_code()) == Some(kind),
        VectorKind::spec_from_code(code) matches Some(k) ==> k.spec_code() == code,
{
}

/// What calling a descriptive support function came to.
#[derive(Clone, Copy, PartialEq, Eq, Debug, Structural)]
pub enum Support {
    /// The class declares no such function.
    Undeclared,
    /// The function returned nothing.
    NoValue,
    /// The function returned this code.
    Code(i32),
}

/// Why an operator class cannot be used.
#[derive(Clone, Copy, PartialEq, Eq, Debug)]
pub enum OpclassError {
    /// The class declares no function that would describe it.
    Undeclared { describes: &'static str, procnum: u16 },
    /// The describing function returned nothing.
    NoValue { describes: &'static str },
    /// The metric code is unknown.
    UnknownMetric,
    /// The kind code is unknown.
    UnknownKind,
    /// The kind disagrees with the type the class was declared for.
    KindMismatch,
}

impl OpclassError {
    /// The text a user sees.
    pub open spec fn text(self) -> Seq<char> {
        match self {
            OpclassError::Undeclared { describes, procnum } => "operator class declares no "@
                + describes@ + " (support function "@ + decimal(procnum as nat) + ")"@,
            OpclassError::NoValue { describes } => "operator class reports no "@ + describes@,
            OpclassError::UnknownMetric => "operator class reports an unknown metric"@,
            OpclassError::UnknownKind => "operator class reports an unknown indexed type"@,
            OpclassError::KindMismatch =>
                "operator class does not match the type of the indexed column"@,
        }
    }

    /// The text a user sees.
    pub fn message(&self) -> (s: String)
        ensures
            s@ == self.text(),
    {
        let mut s = String::new();
        match self {
            OpclassError::Undeclared { describes, procnum } => {
                s.append("operator class declares no ");
                s.append(describes);
                s.append(" (support function ");
                push_decimal(&mut s, *procnum as u64);
                s.append(")");
            },
            OpclassError::NoValue { describes } => {
                s.append("operator class reports no ");
                s.append(describes);
            },
            OpclassError::UnknownMetric => {
                s.append("operator class reports an unknown metric");
            },
            OpclassError::UnknownKind => {
                s.append("operator class reports an unknown indexed type");
            },
            OpclassError::KindMismatch => {
                s.append("operator class does not match the type of the indexed column");
            },
        }
        assert(s@ =~= self.text());
        s
    }
}

/// The code a describing function gave, or why there is none.
pub open spec fn code_of(
    reply: Support,
    procnum: u16,
    describes: &'static str,
) -> Result<i32, OpclassError> {
    match reply {
        Support::Undeclared => Err(OpclassError::Undeclared { describes, procnum }),
        Support::NoValue => Err(OpclassError::NoValue { describes }),
        Support::Code(code) => Ok(code),
    }
}

/// The code a describing function gave.
fn support_code(reply: Support, procnum: u16, describes: &'static str) -> (r: Result<
    i32,
    OpclassError,
>)
    ensures
        r == code_of(reply, procnum, describes),
{
    match reply {
        Support::Undeclared => Err(OpclassError::Undeclared { describes, procnum }),
        Support::NoValue => Err(OpclassError::NoValue { describes }),
        Support::Code(code) => Ok(code),
    }
}

/// The metric an operator class selects, from its metric function's reply.
pub fn index_metric(reply: Support) -> (r: Result<Metric, OpclassError>)
    ensures
        r == (match code_of(reply, METRIC_PROC_NUM, "metric") {
            Err(e) => Err(e),
            Ok(code) => if 0 <= code <= 255 && Metric::spec_from_code(code as u8) is Some {
                Ok(Metric::spec_from_code(code as u8)->0)
            } else {
                Err(OpclassError::UnknownMetric)
            },
        }),
{
    let code: i32 = support_code(reply, METRIC_PROC_NUM, "metric")?;
    if code < 0 || code > 255 {
        return Err(OpclassError::UnknownMetric);
    }
    match Metric::from_code(code as u8) {
        Some(metric) => Ok(metric),
        None => Err(OpclassError::UnknownMetric),
    }
}

/// The type an operator class is declared for, from its kind function's reply.
/// The kind decides how raw values are reinterpreted, so one that disagrees with
/// the type the class was declared for is refused.
pub fn index_kind(reply: Support, declared_for_array: bool) -> (r: Result<
    VectorKind,
    OpclassError,
>)
    ensures
        r == (match code_of(reply, KIND_PROC_NUM, "indexed type") {
            Err(e) => Err(e),
            Ok(code) => match VectorKind::spec_from_code(code) {
                None => Err(OpclassError::UnknownKind),
                Some(kind) => if declared_for_array != (kind == VectorKind::RealArray) {
                    Err(OpclassError::KindMismatch)
                } else {
                    Ok(kind)
                },
            },
        }),
{
    let code: i32 = support_code(reply, KIND_PROC_NUM, "indexed type")?;
    match VectorKind::from_code(code) {
        None => Err(OpclassError::UnknownKind),
        Some(kind) => {
            if declared_for_array != (kind == VectorKind::RealArray) {
                return Err(OpclassError::KindMismatch);
            }
            Ok(kind)
        },
    }
}

/// A class reports Euclidean distance as 0, cosine as 1 and inner product as 2, and
/// no other number is a metric. A class that reports nothing, or declares no
/// second support function to report it with, is refused.
pub proof fn metrics_have_their_codes(reply: Support, r: Result<Metric, OpclassError>)
    requires
        call_ensures(index_metric, (reply,), r),
    ensures
        reply == Support::Code(0) <==> r == Ok::<Metric, OpclassError>(Metric::L2),
        reply == Support::Code(1) <==> r == Ok::<Metric, OpclassError>(Metric::Cosine),
        reply == Support::Code(2) <==> r == Ok::<Metric, OpclassError>(Metric::InnerProduct),
        reply matches Support::Code(c) && !(0 <= c <= 2) ==> r == Err::<Metric, OpclassError>(
            OpclassError::UnknownMetric,
        ),
        reply == Support::NoValue ==> (r matches Err(OpclassError::NoValue { .. })),
        reply == Support::Undeclared ==> (r matches Err(OpclassError::Undeclared { procnum, .. })
            && procnum == 2),
{
}

/// A class reports arrays as 0 and vectors as 1, and is taken at its word only
/// where the column it was declared for agrees.
pub proof fn kinds_agree_with_the_column(
    reply: Support,
    declared_for_array: bool,
    r: Result<VectorKind, OpclassError>,
)
    requires
        call_ensures(index_kind, (reply, declared_for_array), r),
    ensures
        reply == Support::Code(0) && declared_for_array <==> r == Ok::<VectorKind, OpclassError>(
            VectorKind::RealArray,
        ),
        reply == Support::Code(1) && !declared_for_array <==> r == Ok::<VectorKind, OpclassError>(
            VectorKind::Vector,
        ),
        reply matches Support::Code(c) && c != 0 && c != 1 ==> r == Err::<
            VectorKind,
            OpclassError,
        >(OpclassError::UnknownKind),
        reply == Support::NoValue ==> (r matches Err(OpclassError::NoValue { .. })),
        reply == Support::Undeclared ==> (r matches Err(OpclassError::Undeclared { procnum, .. })
            && procnum == 3),
{
}

} // verus!
