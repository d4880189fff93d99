//! `brindle_vector`, the extension's own vector type.
//!
//! A value is a list of `f32` components, here as their bits: at least one, at
//! most [`MAX_DIM`], all finite. Its text form is `[1,2,3]`. How one component
//! reads and prints is the caller's, as two functions; everything around a
//! component is decided here.

use crate::floats::{f32_is_finite, F32_INFINITY, F32_SIGN};
use crate::text::{
    blank, chars_of, clean, decimal, is_space, lemma_trim_back, lemma_trim_blank, lemma_trim_front,
    only_whitespace_is_trimmed, push_decimal, trim, trim_end, trim_range, trim_start,
};
use vstd::prelude::*;
use vstd::slice::{slice_subrange, slice_to_vec};

verus! {

/// Largest vector the type accepts. Keeps the dimension count in the 16 bits a
/// stored value reserves for it.
pub const MAX_DIM: usize = 16_000;

/// Bytes before the first component of a stored value.
pub const DATA_OFFSET: usize = 8;

/// Why a value cannot be a `brindle_vector`.
#[derive(Debug, Clone, Copy, PartialEq, Eq)]
pub enum VectorError {
    /// A vector needs at least one component.
    Empty,
    /// More components than [`MAX_DIM`].
    TooManyDimensions(usize),
    /// The component at this position is a NaN or infinite; neither ranks.
    NonFinite(usize),
    /// The literal is not `[x, y, ...]`.
    Syntax(&'static str),
    /// The component at this position is not a number.
    InvalidElement(usize),
}

impl VectorError {
    /// The text a user sees.
    pub open spec fn text(self) -> Seq<char> {
        match self {
            VectorError::Empty => "vector must have at least one dimension"@,
            VectorError::TooManyDimensions(dim) => "vector has "@ + decimal(dim as nat)
                + " dimensions, the maximum is "@ + decimal(MAX_DIM as nat),
            VectorError::NonFinite(index) => "vector element "@ + decimal(index as nat)
                + " must be a finite number"@,
            VectorError::Syntax(expected) => "malformed vector literal: "@ + expected@,
            VectorError::InvalidElement(index) => "vector element "@ + decimal(index as nat)
                + " is not a number"@,
        }
    }

    /// The text a user sees.
    pub fn message(&self) -> (s: String)
        ensures
            s@ == self.text(),
    {
        let mut s = String::new();
        match self {
            VectorError::Empty => {
                s.append("vector must have at least one dimension");
            },
            VectorError::TooManyDimensions(dim) => {
                s.append("vector has ");
                push_decimal(&mut s, *dim as u64);
                s.append(" dimensions, the maximum is ");
                push_decimal(&mut s, MAX_DIM as u64);
            },
            VectorError::NonFinite(index) => {
                s.append("vector element ");
                push_decimal(&mut s, *index as u64);
                s.append(" must be a finite number");
            },
            VectorError::Syntax(expected) => {
                s.append("malformed vector literal: ");
                s.append(expected);
            },
            VectorError::InvalidElement(index) => {
                s.append("vector element ");
                push_decimal(&mut s, *index as u64);
                s.append(" is not a number");
            },
        }
        assert(s@ =~= self.text());
        s
    }
}

/// Position of the first component that is not finite.
pub open spec fn first_non_finite(values: Seq<u32>) -> Option<nat>
    decreases values.len(),
{
    if values.len() == 0 {
        None
    } else {
        match first_non_finite(values.drop_last()) {
            Some(i) => Some(i),
            None => if f32_is_finite(values.last()) {
                None
            } else {
                Some((values.len() - 1) as nat)
            },
        }
    }
}

/// Why these components cannot be a vector, if they cannot.
pub open spec fn fault(values: Seq<u32>) -> Option<VectorError> {
    if values.len() == 0 {
        Some(VectorError::Empty)
    } else if values.len() > MAX_DIM {
        Some(VectorError::TooManyDimensions(values.len() as usize))
    } else {
        match first_non_finite(values) {
            Some(i) => Some(VectorError::NonFinite(i as usize)),
            None => None,
        }
    }
}

/// Components without fault are finite throughout.
pub proof fn sound_vectors_are_finite(values: Seq<u32>)
    ensures
        first_non_finite(values) is None <==> forall|i: int|
            0 <= i < values.len() ==> f32_is_finite(#[trigger] values[i]),
        first_non_finite(values) matches Some(i) ==> i < values.len() && !f32_is_finite(
            values[i as int],
        ) && forall|j: int| 0 <= j < i ==> f32_is_finite(#[trigger] values[j]),
    decreases values.len(),
{
    if values.len() > 0 {
        let head = values.drop_last();
        sound_vectors_are_finite(head);
        assert forall|i: int| 0 <= i < head.len() implies head[i] == #[trigger] values[i] by {}
        if first_non_finite(head) is None && f32_is_finite(values.last()) {
            assert forall|i: int| 0 <= i < values.len() implies f32_is_finite(
                #[trigger] values[i],
            ) by {
                if i < head.len() {
                    assert(f32_is_finite(head[i]));
                }
            }
        } else if first_non_finite(head) is None {
            assert(values[values.len() - 1] == values.last());
            assert forall|j: int| 0 <= j < head.len() implies f32_is_finite(
                #[trigger] values[j],
            ) by {
                assert(f32_is_finite(head[j]));
            }
        } else {
            let i = first_non_finite(head)->0 as int;
            assert(values[i] == head[i]);
            assert forall|j: int| 0 <= j < i implies f32_is_finite(#[trigger] values[j]) by {
                assert(f32_is_finite(head[j]));
            }
        }
    }
}

/// Check what every stored vector is: non-empty, within [`MAX_DIM`], and finite
/// throughout.
pub fn validate(values: &[u32]) -> (r: Result<(), VectorError>)
    ensures
        match fault(values@) {
            None => r == Ok::<(), VectorError>(()),
            Some(e) => r == Err::<(), VectorError>(e),
        },
{
    if values.len() == 0 {
        return Err(VectorError::Empty);
    }
    if values.len() > MAX_DIM {
        return Err(VectorError::TooManyDimensions(values.len()));
    }
    let mut i: usize = 0;
    assert(values@.take(0) =~= Seq::<u32>::empty());
    while i < values.len()
        invariant
            i <= values@.len(),
            0 < values@.len() <= MAX_DIM,
            first_non_finite(values@.take(i as int)) is None,
        decreases values@.len() - i,
    {
        let bits: u32 = values[i];
        let mag: u32 = if bits >= F32_SIGN { bits - F32_SIGN } else { bits };
        proof {
            assert(values@.take(i + 1).drop_last() =~= values@.take(i as int));
            assert(values@.take(i + 1).last() == values@[i as int]);
        }
        if mag >= F32_INFINITY {
            proof {
                lemma_first_of_prefix(values@, i + 1);
            }
            return Err(VectorError::NonFinite(i));
        }
        i += 1;
    }
    assert(values@.take(values@.len() as int) =~= values@);
    Ok(())
}

/// The first fault of a prefix is the first fault.
proof fn lemma_first_of_prefix(values: Seq<u32>, upto: int)
    requires
        0 <= upto <= values.len(),
        first_non_finite(values.take(upto)) is Some,
    ensures
        first_non_finite(values) == first_non_finite(values.take(upto)),
    decreases values.len(),
{
    if upto < values.len() {
        assert(values.drop_last().take(upto) =~= values.take(upto));
        lemma_first_of_prefix(values.drop_last(), upto);
    } else {
        assert(values.take(upto) =~= values);
    }
}

/// A component reader answers every question, and always the same way.
pub open spec fn reader_ok<P: Fn(&[char]) -> Option<u32>>(read: P) -> bool {
    &&& forall|s: &[char]| #[trigger] call_requires(read, (s,))
    &&& forall|s: &[char], x: Option<u32>, y: Option<u32>| #[trigger]
        call_ensures(read, (s,), x) && #[trigger] call_ensures(read, (s,), y) ==> x == y
}

/// `read` may answer `x` on this text.
pub open spec fn reader_gives<P: Fn(&[char]) -> Option<u32>>(
    read: P,
    s: Seq<char>,
    x: Option<u32>,
) -> bool {
    exists|t: &[char]| t@ == s && #[trigger] call_ensures(read, (t,), x)
}

/// What `read` makes of a text.
pub open spec fn reader<P: Fn(&[char]) -> Option<u32>>(read: P) -> spec_fn(Seq<char>) -> Option<
    u32,
> {
    |s: Seq<char>| choose|x: Option<u32>| reader_gives(read, s, x)
}

/// Text cut at every comma.
pub open spec fn fields(s: Seq<char>) -> Seq<Seq<char>>
    decreases s.len(),
{
    if s.len() == 0 {
        seq![s]
    } else {
        let before = fields(s.drop_last());
        if s.last() == ',' {
            before.push(Seq::empty())
        } else {
            before.drop_last().push(before.last().push(s.last()))
        }
    }
}

/// The components of fields, up to the first that is not a number.
pub open spec fn components(
    read: spec_fn(Seq<char>) -> Option<u32>,
    parts: Seq<Seq<char>>,
) -> Result<Seq<u32>, VectorError>
    decreases parts.len(),
{
    if parts.len() == 0 {
        Ok(Seq::empty())
    } else {
        match components(read, parts.drop_last()) {
            Err(e) => Err(e),
            Ok(values) => match read(trim(parts.last())) {
                Some(x) => Ok(values.push(x)),
                None => Err(VectorError::InvalidElement((parts.len() - 1) as usize)),
            },
        }
    }
}

/// The vector a literal stands for, or why it stands for none.
pub open spec fn literal(
    read: spec_fn(Seq<char>) -> Option<u32>,
    input: Seq<char>,
) -> Result<Seq<u32>, VectorError> {
    let outer = trim(input);
    if outer.len() == 0 || outer[0] != '[' {
        Err(VectorError::Syntax("expected '[' at the start"))
    } else if outer.len() == 1 || outer.last() != ']' {
        Err(VectorError::Syntax("expected ']' at the end"))
    } else {
        let body = trim(outer.subrange(1, outer.len() - 1));
        if body.len() == 0 {
            Err(VectorError::Empty)
        } else {
            match components(read, fields(body)) {
                Err(e) => Err(e),
                Ok(values) => match fault(values) {
                    Some(e) => Err(e),
                    None => Ok(values),
                },
            }
        }
    }
}

/// A result over vectors, as one over sequences.
pub open spec fn parsed(r: Result<Vec<u32>, VectorError>) -> Result<Seq<u32>, VectorError> {
    match r {
        Ok(v) => Ok(v@),
        Err(e) => Err(e),
    }
}

/// Read one field.
fn read_field<P: Fn(&[char]) -> Option<u32>>(read: &P, field: &[char]) -> (r: Option<u32>)
    requires
        reader_ok(*read),
    ensures
        r == reader(*read)(field@),
{
    let r: Option<u32> = read(field);
    proof {
        assert(reader_gives(*read, field@, r));
        let x = reader(*read)(field@);
        let t = choose|t: &[char]| t@ == field@ && #[trigger] call_ensures(*read, (t,), x);
        assert(t =~= field);
    }
    r
}

/// Parse the text form `[1,2,3]`, tolerating whitespace around the brackets and
/// around every component.
pub fn parse_literal<P: Fn(&[char]) -> Option<u32>>(read: &P, input: &str) -> (r: Result<
    Vec<u32>,
    VectorError,
>)
    requires
        reader_ok(*read),
    ensures
        parsed(r) == literal(reader(*read), input@),
{
    let chars = chars_of(input);
    assert(chars@.subrange(0, chars@.len() as int) =~= chars@);
    let (a, b) = trim_range(chars.as_slice(), 0, chars.len());
    let ghost outer = trim(input@);
    assert(outer == chars@.subrange(a as int, b as int));
    if a == b || chars[a] != '[' {
        return Err(VectorError::Syntax("expected '[' at the start"));
    }
    if b - a == 1 || chars[b - 1] != ']' {
        return Err(VectorError::Syntax("expected ']' at the end"));
    }
    assert(outer.subrange(1, outer.len() - 1) =~= chars@.subrange(a + 1, b - 1));
    let (from, to) = trim_range(chars.as_slice(), a + 1, b - 1);
    let ghost body = trim(outer.subrange(1, outer.len() - 1));
    assert(body == chars@.subrange(from as int, to as int));
    if from == to {
        return Err(VectorError::Empty);
    }
    let values = parse_fields(read, slice_subrange(chars.as_slice(), from, to))?;
    validate(values.as_slice())?;
    Ok(values)
}

/// Read the components of a non-empty body.
fn parse_fields<P: Fn(&[char]) -> Option<u32>>(read: &P, body: &[char]) -> (r: Result<
    Vec<u32>,
    VectorError,
>)
    requires
        reader_ok(*read),
        body@.len() > 0,
    ensures
        parsed(r) == components(reader(*read), fields(body@)),
{
    let ghost f = reader(*read);
    let ghost goal = components(f, fields(body@));
    let mut values: Vec<u32> = Vec::new();
    let mut start: usize = 0;
    let mut at: usize = 0;
    proof {
        assert(body@.take(0) =~= Seq::<char>::empty());
        assert(body@.subrange(0, 0) =~= Seq::<char>::empty());
        assert(fields(body@.take(0)).drop_last() =~= Seq::<Seq<char>>::empty());
    }
    while at < body.len()
        invariant
            reader_ok(*read),
            f == reader(*read),
            goal == components(f, fields(body@)),
            start <= at <= body@.len(),
            values@.len() <= at,
            fields(body@.take(at as int)).len() == values@.len() + 1,
            fields(body@.take(at as int)).last() == body@.subrange(start as int, at as int),
            components(f, fields(body@.take(at as int)).drop_last()) == Ok::<
                Seq<u32>,
                VectorError,
            >(values@),
        decreases body@.len() - at,
    {
        let ghost head = body@.take(at as int);
        let ghost more = body@.take(at + 1);
        proof {
            assert(more.drop_last() =~= head);
            assert(more.last() == body@[at as int]);
        }
        if body[at] == ',' {
            let (x, y) = trim_range(body, start, at);
            let field = slice_subrange(body, x, y);
            let got: Option<u32> = read_field(read, field);
            proof {
                assert(fields(more).drop_last() =~= fields(head));
                lemma_components_prefix(f, body@, at + 1);
            }
            match got {
                Some(value) => {
                    values.push(value);
                },
                None => {
                    return Err(VectorError::InvalidElement(values.len()));
                },
            }
            start = at + 1;
            assert(body@.subrange(start as int, at + 1) =~= Seq::<char>::empty());
        } else {
            proof {
                assert(fields(more).drop_last() =~= fields(head).drop_last());
                assert(body@.subrange(start as int, at as int).push(body@[at as int])
                    =~= body@.subrange(start as int, at + 1));
            }
        }
        at += 1;
    }
    assert(body@.take(body@.len() as int) =~= body@);
    let (x, y) = trim_range(body, start, at);
    let got: Option<u32> = read_field(read, slice_subrange(body, x, y));
    match got {
        Some(value) => {
            values.push(value);
            Ok(values)
        },
        None => Err(VectorError::InvalidElement(values.len())),
    }
}

/// There is at least one field.
proof fn lemma_fields_nonempty(s: Seq<char>)
    ensures
        fields(s).len() >= 1,
    decreases s.len(),
{
    if s.len() > 0 {
        lemma_fields_nonempty(s.drop_last());
    }
}

/// Fields that are complete in a prefix stay as they are.
proof fn lemma_fields_prefix(s: Seq<char>, upto: int)
    requires
        0 <= upto <= s.len(),
    ensures
        fields(s.take(upto)).len() <= fields(s).len(),
        fields(s).take(fields(s.take(upto)).len() - 1) == fields(s.take(upto)).drop_last(),
    decreases s.len(),
{
    lemma_fields_nonempty(s.take(upto));
    if upto == s.len() {
        assert(s.take(upto) =~= s);
    } else {
        lemma_fields_nonempty(s.drop_last());
        lemma_fields_prefix(s.drop_last(), upto);
        assert(s.drop_last().take(upto) =~= s.take(upto));
        let k = fields(s.take(upto)).len() - 1;
        assert(fields(s).take(k) =~= fields(s.drop_last()).take(k));
    }
}

/// A field that is not a number makes the whole fail there.
proof fn lemma_components_fail(
    read: spec_fn(Seq<char>) -> Option<u32>,
    parts: Seq<Seq<char>>,
    upto: int,
)
    requires
        0 <= upto <= parts.len(),
        components(read, parts.take(upto)) is Err,
    ensures
        components(read, parts) == components(read, parts.take(upto)),
    decreases parts.len(),
{
    if upto < parts.len() {
        assert(parts.drop_last().take(upto) =~= parts.take(upto));
        lemma_components_fail(read, parts.drop_last(), upto);
    } else {
        assert(parts.take(upto) =~= parts);
    }
}

/// What the complete fields of a prefix give decides the whole when it is an
/// error.
proof fn lemma_components_prefix(read: spec_fn(Seq<char>) -> Option<u32>, s: Seq<char>, upto: int)
    requires
        0 <= upto <= s.len(),
    ensures
        components(read, fields(s.take(upto)).drop_last()) is Err ==> components(read, fields(s))
            == components(read, fields(s.take(upto)).drop_last()),
{
    lemma_fields_prefix(s, upto);
    let k = fields(s.take(upto)).len() - 1;
    lemma_fields_nonempty(s.take(upto));
    if components(read, fields(s.take(upto)).drop_last()) is Err {
        lemma_components_fail(read, fields(s), k);
    }
}

/// A component printer answers every question, and always the same way.
pub open spec fn printer_ok<F: Fn(u32) -> String>(print: F) -> bool {
    &&& forall|x: u32| #[trigger] call_requires(print, (x,))
    &&& forall|x: u32, a: String, b: String| #[trigger]
        call_ensures(print, (x,), a) && #[trigger] call_ensures(print, (x,), b) ==> a@ == b@
}

/// `print` may answer this text.
pub open spec fn printer_gives<F: Fn(u32) -> String>(print: F, x: u32, s: Seq<char>) -> bool {
    exists|t: String| t@ == s && #[trigger] call_ensures(print, (x,), t)
}

/// How `print` writes a component.
pub open spec fn printer<F: Fn(u32) -> String>(print: F) -> spec_fn(u32) -> Seq<char> {
    |x: u32| choose|s: Seq<char>| printer_gives(print, x, s)
}

/// Components separated by commas.
pub open spec fn joined(print: spec_fn(u32) -> Seq<char>, values: Seq<u32>) -> Seq<char>
    decreases values.len(),
{
    if values.len() == 0 {
        Seq::empty()
    } else if values.len() == 1 {
        print(values[0])
    } else {
        joined(print, values.drop_last()) + seq![','] + print(values.last())
    }
}

/// The text form of a vector.
pub open spec fn rendered(print: spec_fn(u32) -> Seq<char>, values: Seq<u32>) -> Seq<char> {
    seq!['['] + joined(print, values) + seq![']']
}

/// Render the text form [`parse_literal`] accepts.
pub fn format_literal<F: Fn(u32) -> String>(print: &F, values: &[u32]) -> (out: String)
    requires
        printer_ok(*print),
    ensures
        out@ == rendered(printer(*print), values@),
{
    let ghost f = printer(*print);
    proof {
        reveal_strlit("[");
        reveal_strlit(",");
        reveal_strlit("]");
        assert("["@ =~= seq!['[']);
        assert(","@ =~= seq![',']);
        assert("]"@ =~= seq![']']);
        assert(values@.take(0) =~= Seq::<u32>::empty());
    }
    let mut out = String::new();
    out.append("[");
    assert(out@ =~= seq!['['] + joined(f, values@.take(0)));
    let mut i: usize = 0;
    while i < values.len()
        invariant
            printer_ok(*print),
            f == printer(*print),
            ","@ == seq![','],
            i <= values@.len(),
            out@ == seq!['['] + joined(f, values@.take(i as int)),
        decreases values@.len() - i,
    {
        let ghost head = values@.take(i as int);
        let ghost more = values@.take(i + 1);
        if i > 0 {
            out.append(",");
        }
        let part: String = print(values[i]);
        proof {
            assert(printer_gives(*print, values@[i as int], part@));
            let s = f(values@[i as int]);
            assert(printer_gives(*print, values@[i as int], s));
        }
        out.append(part.as_str());
        proof {
            assert(more.drop_last() =~= head);
            assert(more.last() == values@[i as int]);
            if i == 0 {
                assert(more[0] == values@[0]);
                assert(out@ =~= seq!['['] + joined(f, more));
            } else {
                assert(out@ =~= seq!['['] + joined(f, more));
            }
        }
        i += 1;
    }
    assert(values@.take(values@.len() as int) =~= values@);
    out.append("]");
    out
}

/// A component's text that a list can hold: not empty, without commas, and
/// without whitespace at its ends.
pub open spec fn holdable(t: Seq<char>) -> bool {
    &&& t.len() > 0
    &&& !is_space(t[0])
    &&& !is_space(t.last())
    &&& forall|i: int| 0 <= i < t.len() ==> #[trigger] t[i] != ','
}

/// Text that starts and ends with something is trimmed already.
proof fn lemma_trim_clean(s: Seq<char>)
    requires
        s.len() > 0,
        !is_space(s[0]),
        !is_space(s.last()),
    ensures
        trim(s) == s,
{
}

/// Text without commas extends the last field.
proof fn lemma_fields_extend(a: Seq<char>, t: Seq<char>)
    requires
        forall|i: int| 0 <= i < t.len() ==> #[trigger] t[i] != ',',
    ensures
        fields(a + t) == fields(a).drop_last().push(fields(a).last() + t),
        fields(a).len() >= 1,
    decreases t.len(),
{
    lemma_fields_nonempty(a);
    if t.len() == 0 {
        assert(a + t =~= a);
        assert(fields(a).last() + t =~= fields(a).last());
        assert(fields(a).drop_last().push(fields(a).last()) =~= fields(a));
    } else {
        let head = t.drop_last();
        assert forall|i: int| 0 <= i < head.len() implies #[trigger] head[i] != ',' by {
            assert(head[i] == t[i]);
        }
        lemma_fields_extend(a, head);
        assert((a + t).drop_last() =~= a + head);
        assert(t[t.len() - 1] != ',');
        let before = fields(a + head);
        assert(before.drop_last() =~= fields(a).drop_last());
        assert((fields(a).last() + head).push(t.last()) =~= fields(a).last() + t);
    }
}

/// The fields of joined components are the components.
proof fn lemma_fields_joined(print: spec_fn(u32) -> Seq<char>, values: Seq<u32>)
    requires
        values.len() > 0,
        forall|i: int| 0 <= i < values.len() ==> holdable(print(#[trigger] values[i])),
    ensures
        fields(joined(print, values)) == Seq::new(values.len(), |i: int| print(values[i])),
        joined(print, values).len() > 0,
        !is_space(joined(print, values)[0]),
        !is_space(joined(print, values).last()),
    decreases values.len(),
{
    let want = Seq::new(values.len(), |i: int| print(values[i]));
    let none = Seq::<char>::empty();
    if values.len() == 1 {
        let t = print(values[0]);
        assert(holdable(t));
        lemma_fields_extend(none, t);
        assert(none + t =~= t);
        assert(fields(none) =~= seq![none]);
        assert(fields(t) =~= want);
    } else {
        let head = values.drop_last();
        let t = print(values.last());
        assert forall|i: int| 0 <= i < head.len() implies holdable(print(#[trigger] head[i])) by {
            assert(head[i] == values[i]);
        }
        assert(holdable(print(values[values.len() - 1])));
        lemma_fields_joined(print, head);
        let a = joined(print, head);
        let b = a + seq![','];
        assert(b.drop_last() =~= a);
        assert(b.last() == ',');
        assert(fields(b) == fields(a).push(none));
        lemma_fields_extend(b, t);
        assert(fields(b).drop_last() =~= fields(a));
        assert(none + t =~= t);
        assert(fields(b + t) =~= want);
    }
}

/// Components read back one by one.
proof fn lemma_components_back(
    read: spec_fn(Seq<char>) -> Option<u32>,
    print: spec_fn(u32) -> Seq<char>,
    values: Seq<u32>,
)
    requires
        forall|i: int|
            0 <= i < values.len() ==> holdable(print(#[trigger] values[i])) && read(
                print(values[i]),
            ) == Some(values[i]),
    ensures
        components(read, Seq::new(values.len(), |i: int| print(values[i]))) == Ok::<
            Seq<u32>,
            VectorError,
        >(values),
    decreases values.len(),
{
    let parts = Seq::new(values.len(), |i: int| print(values[i]));
    if values.len() == 0 {
        assert(values =~= Seq::<u32>::empty());
    } else {
        let head = values.drop_last();
        assert forall|i: int| 0 <= i < head.len() implies holdable(print(#[trigger] head[i]))
            && read(print(head[i])) == Some(head[i]) by {
            assert(head[i] == values[i]);
        }
        lemma_components_back(read, print, head);
        assert(parts.drop_last() =~= Seq::new(head.len(), |i: int| print(head[i])));
        let last = values[values.len() - 1];
        assert(holdable(print(last)));
        lemma_trim_clean(print(last));
        assert(head.push(last) =~= values);
    }
}

/// A vector comes back from its text form, as long as each component does and
/// prints as something a list can hold.
pub proof fn literals_round_trip(
    read: spec_fn(Seq<char>) -> Option<u32>,
    print: spec_fn(u32) -> Seq<char>,
    values: Seq<u32>,
)
    requires
        fault(values) is None,
        forall|i: int|
            0 <= i < values.len() ==> holdable(print(#[trigger] values[i])) && read(
                print(values[i]),
            ) == Some(values[i]),
    ensures
        literal(read, rendered(print, values)) == Ok::<Seq<u32>, VectorError>(values),
{
    let body = joined(print, values);
    let outer = rendered(print, values);
    lemma_fields_joined(print, values);
    lemma_components_back(read, print, values);
    lemma_trim_clean(outer);
    lemma_trim_clean(body);
    assert(outer.subrange(1, outer.len() - 1) =~= body);
}

/// Whatever text is read, and however numbers are, a vector that comes out of it
/// is sound: not empty, not too long, and finite throughout.
pub proof fn literals_are_sound(read: spec_fn(Seq<char>) -> Option<u32>, input: Seq<char>)
    ensures
        literal(read, input) matches Ok(values) ==> {
            &&& fault(values) is None
            &&& 1 <= values.len() <= MAX_DIM
            &&& forall|i: int| 0 <= i < values.len() ==> f32_is_finite(#[trigger] values[i])
        },
{
    if let Ok(values) = literal(read, input) {
        sound_vectors_are_finite(values);
    }
}

/// A `brindle_vector` value.
pub struct BrindleVector {
    values: Vec<u32>,
}

impl View for BrindleVector {
    type V = Seq<u32>;

    closed spec fn view(&self) -> Seq<u32> {
        self.values@
    }
}

impl BrindleVector {
    /// Copy components into a new value.
    pub fn from_slice(values: &[u32]) -> (r: Result<Self, VectorError>)
        ensures
            match (r, fault(values@)) {
                (Ok(v), None) => v@ == values@,
                (Err(e), Some(f)) => e == f,
                _ => false,
            },
    {
        validate(values)?;
        Ok(BrindleVector { values: slice_to_vec(values) })
    }

    /// Number of components.
    pub fn dim(&self) -> (r: usize)
        ensures
            r == self@.len(),
    {
        self.values.len()
    }

    /// The components.
    pub fn as_slice(&self) -> (r: &[u32])
        ensures
            r@ == self@,
    {
        self.values.as_slice()
    }
}

/// Size in bytes of a stored value with `dim` components.
pub fn stored_size(dim: u16) -> (r: usize)
    ensures
        r == DATA_OFFSET + 4 * dim,
{
    DATA_OFFSET + dim as usize * 4
}

/// Whether a stored value of `size` bytes can hold the components its header
/// counts. One that disagrees is corrupt.
pub fn size_agrees(size: usize, dim: u16) -> (r: bool)
    ensures
        r == (size == DATA_OFFSET + 4 * dim),
{
    size == stored_size(dim)
}

/// Why an array cannot become a vector.
#[derive(Debug, Clone, Copy, PartialEq, Eq)]
pub enum ArrayError {
    /// The array has more than one dimension.
    NotOneDimensional,
    /// An element is `NULL`.
    NullElement,
    /// The elements are no vector.
    Vector(VectorError),
}

impl ArrayError {
    /// The text a user sees.
    pub open spec fn text(self) -> Seq<char> {
        match self {
            ArrayError::NotOneDimensional => "vector must be a one-dimensional array"@,
            ArrayError::NullElement => "vector must not contain NULL elements"@,
            ArrayError::Vector(e) => e.text(),
        }
    }

    /// The text a user sees.
    pub fn message(&self) -> (s: String)
        ensures
            s@ == self.text(),
    {
        match self {
            ArrayError::NotOneDimensional => "vector must be a one-dimensional array".to_owned(),
            ArrayError::NullElement => "vector must not contain NULL elements".to_owned(),
            ArrayError::Vector(e) => e.message(),
        }
    }
}

/// Every element is there.
pub open spec fn no_nulls(elements: Seq<Option<u32>>) -> bool {
    forall|i: int| 0 <= i < elements.len() ==> (#[trigger] elements[i]) is Some
}

/// The elements that are there.
pub open spec fn present(elements: Seq<Option<u32>>) -> Seq<u32> {
    Seq::new(elements.len(), |i: int| elements[i]->0)
}

/// Why an array cannot become a vector, if it cannot.
pub open spec fn array_fault(ndim: i32, elements: Seq<Option<u32>>) -> Option<ArrayError> {
    if ndim > 1 {
        Some(ArrayError::NotOneDimensional)
    } else if !no_nulls(elements) {
        Some(ArrayError::NullElement)
    } else {
        match fault(present(elements)) {
            Some(e) => Some(ArrayError::Vector(e)),
            None => None,
        }
    }
}

/// Convert an array of `ndim` dimensions. An array of several is one flat run of
/// elements, so it is refused rather than flattened; an empty one has none and
/// is refused as empty.
pub fn from_real_array(ndim: i32, elements: &[Option<u32>]) -> (r: Result<
    BrindleVector,
    ArrayError,
>)
    ensures
        match (r, array_fault(ndim, elements@)) {
            (Ok(v), None) => v@ == present(elements@),
            (Err(e), Some(f)) => e == f,
            _ => false,
        },
{
    if ndim > 1 {
        return Err(ArrayError::NotOneDimensional);
    }
    let mut values: Vec<u32> = Vec::new();
    let mut i: usize = 0;
    while i < elements.len()
        invariant
            i <= elements@.len(),
            ndim <= 1,
            values@ == present(elements@).take(i as int),
            forall|k: int| 0 <= k < i ==> (#[trigger] elements@[k]) is Some,
        decreases elements@.len() - i,
    {
        match elements[i] {
            Some(x) => {
                values.push(x);
            },
            None => {
                assert(elements@[i as int] is None);
                return Err(ArrayError::NullElement);
            },
        }
        i += 1;
        assert(values@ =~= present(elements@).take(i as int));
    }
    assert(values@ =~= present(elements@));
    match BrindleVector::from_slice(values.as_slice()) {
        Ok(v) => Ok(v),
        Err(e) => Err(ArrayError::Vector(e)),
    }
}

/// A character in front that is no comma extends the first field.
proof fn lemma_fields_front(c: char, s: Seq<char>)
    requires
        c != ',',
    ensures
        fields(seq![c] + s) == fields(s).update(0, seq![c] + fields(s)[0]),
        fields(s).len() >= 1,
    decreases s.len(),
{
    lemma_fields_nonempty(s);
    let t = seq![c] + s;
    let want = fields(s).update(0, seq![c] + fields(s)[0]);
    if s.len() == 0 {
        assert(t.drop_last() =~= s);
        assert(fields(s) =~= seq![s]);
        assert(s.push(c) =~= t && t + s =~= t);
        assert(fields(t) =~= seq![t]);
        assert(want =~= seq![t]);
    } else {
        let head = s.drop_last();
        lemma_fields_front(c, head);
        assert(t.drop_last() =~= seq![c] + head);
        assert(t.last() == s.last());
        let before = fields(head);
        if s.last() == ',' {
            assert(fields(t) =~= want);
        } else {
            assert((seq![c] + before[0]).push(s.last()) =~= seq![c] + before[0].push(s.last()));
            assert(fields(t) =~= want);
        }
    }
}

/// Two cuts of the same shape, whose fields differ in whitespace around them
/// only.
spec fn same_trimmed(a: Seq<Seq<char>>, b: Seq<Seq<char>>) -> bool {
    &&& a.len() == b.len()
    &&& forall|i: int| 0 <= i < a.len() ==> trim(#[trigger] a[i]) == trim(b[i])
}

/// Whitespace at the start of a list belongs to its first field.
proof fn lemma_front_trimmed(s: Seq<char>)
    ensures
        same_trimmed(fields(s), fields(trim_start(s))),
    decreases s.len(),
{
    if s.len() > 0 && is_space(s[0]) {
        let rest = s.drop_first();
        lemma_front_trimmed(rest);
        lemma_fields_front(s[0], rest);
        assert(seq![s[0]] + rest =~= s);
        assert forall|i: int| 0 <= i < fields(s).len() implies trim(#[trigger] fields(s)[i])
            == trim(fields(trim_start(s))[i]) by {
            if i == 0 {
                lemma_trim_front(seq![s[0]], fields(rest)[0]);
            }
            assert(trim(fields(rest)[i]) == trim(fields(trim_start(s))[i]));
        }
    }
}

/// Whitespace at the end of a list belongs to its last field.
proof fn lemma_back_trimmed(s: Seq<char>)
    ensures
        same_trimmed(fields(s), fields(trim_end(s))),
    decreases s.len(),
{
    if s.len() > 0 && is_space(s.last()) {
        let rest = s.drop_last();
        lemma_back_trimmed(rest);
        lemma_fields_nonempty(rest);
        let before = fields(rest);
        assert forall|i: int| 0 <= i < fields(s).len() implies trim(#[trigger] fields(s)[i])
            == trim(fields(trim_end(s))[i]) by {
            if i == before.len() - 1 {
                lemma_trim_back(before.last(), seq![s.last()]);
                assert(before.last() + seq![s.last()] =~= before.last().push(s.last()));
            }
            assert(trim(before[i]) == trim(fields(trim_end(s))[i]));
        }
    }
}

/// What fields read as depends on what they are trimmed to.
proof fn lemma_components_trimmed(
    read: spec_fn(Seq<char>) -> Option<u32>,
    a: Seq<Seq<char>>,
    b: Seq<Seq<char>>,
)
    requires
        same_trimmed(a, b),
    ensures
        components(read, a) == components(read, b),
    decreases a.len(),
{
    if a.len() > 0 {
        let (x, y) = (a.drop_last(), b.drop_last());
        assert forall|i: int| 0 <= i < x.len() implies trim(#[trigger] x[i]) == trim(y[i]) by {
            assert(trim(a[i]) == trim(b[i]));
        }
        lemma_components_trimmed(read, x, y);
        assert(trim(a[a.len() - 1]) == trim(b[a.len() - 1]));
    }
}

/// Texts with something in front of and behind each, between commas.
pub open spec fn spaced(
    lefts: Seq<Seq<char>>,
    texts: Seq<Seq<char>>,
    rights: Seq<Seq<char>>,
) -> Seq<char>
    decreases texts.len(),
{
    if texts.len() == 0 {
        Seq::empty()
    } else {
        let part = lefts.last() + texts.last() + rights.last();
        if texts.len() == 1 {
            part
        } else {
            spaced(lefts.drop_last(), texts.drop_last(), rights.drop_last()) + ","@ + part
        }
    }
}

/// Component texts with whitespace around each: as many of one as of the other,
/// and no text with a comma in it or whitespace at its ends.
pub open spec fn well_spaced(
    lefts: Seq<Seq<char>>,
    texts: Seq<Seq<char>>,
    rights: Seq<Seq<char>>,
) -> bool {
    &&& lefts.len() == texts.len() == rights.len()
    &&& texts.len() > 0
    &&& forall|i: int| 0 <= i < texts.len() ==> blank(#[trigger] lefts[i])
    &&& forall|i: int| 0 <= i < texts.len() ==> blank(#[trigger] rights[i])
    &&& forall|i: int| 0 <= i < texts.len() ==> clean(#[trigger] texts[i])
    &&& forall|i: int, j: int|
        0 <= i < texts.len() && 0 <= j < texts[i].len() ==> #[trigger] texts[i][j] != ','
}

proof fn lemma_well_spaced(lefts: Seq<Seq<char>>, texts: Seq<Seq<char>>, rights: Seq<Seq<char>>)
    requires
        well_spaced(lefts, texts, rights),
        texts.len() > 1,
    ensures
        well_spaced(lefts.drop_last(), texts.drop_last(), rights.drop_last()),
{
    let (l, t, r) = (lefts.drop_last(), texts.drop_last(), rights.drop_last());
    assert forall|i: int| 0 <= i < t.len() implies blank(#[trigger] l[i]) by {
        assert(blank(lefts[i]));
    }
    assert forall|i: int| 0 <= i < t.len() implies blank(#[trigger] r[i]) by {
        assert(blank(rights[i]));
    }
    assert forall|i: int| 0 <= i < t.len() implies clean(#[trigger] t[i]) by {
        assert(clean(texts[i]));
    }
    assert forall|i: int, j: int| 0 <= i < t.len() && 0 <= j < t[i].len() implies
        #[trigger] t[i][j] != ',' by {
        assert(texts[i][j] != ',');
    }
}

/// The fields of spaced texts, and that trimming leaves the texts.
proof fn lemma_fields_spaced(lefts: Seq<Seq<char>>, texts: Seq<Seq<char>>, rights: Seq<Seq<char>>)
    requires
        well_spaced(lefts, texts, rights),
    ensures
        same_trimmed(fields(spaced(lefts, texts, rights)), texts),
        texts.len() > 1 || texts[0].len() > 0 ==> exists|i: int|
            0 <= i < spaced(lefts, texts, rights).len() && !is_space(
                #[trigger] spaced(lefts, texts, rights)[i],
            ),
        texts.len() == 1 && texts[0].len() == 0 ==> blank(spaced(lefts, texts, rights)),
    decreases texts.len(),
{
    let last = texts.len() - 1;
    let (l, t, r) = (lefts[last], texts[last], rights[last]);
    let part = l + t + r;
    let all = spaced(lefts, texts, rights);
    let none = Seq::<char>::empty();
    assert(blank(l) && blank(r) && clean(t));
    only_whitespace_is_trimmed(l, t, r);
    only_whitespace_is_trimmed(none, t, none);
    assert(none + t + none =~= t);
    assert forall|i: int| 0 <= i < part.len() implies #[trigger] part[i] != ',' by {
        if i < l.len() {
            assert(is_space(l[i]));
        } else if i < l.len() + t.len() {
            assert(texts[last][i - l.len()] != ',');
        } else {
            assert(is_space(r[i - l.len() - t.len()]));
        }
    }
    if texts.len() == 1 {
        lemma_fields_extend(none, part);
        assert(none + part =~= part);
        assert(fields(none) =~= seq![none]);
        assert(fields(all) =~= seq![part]);
        if t.len() > 0 {
            assert(all[l.len() as int] == t[0]);
        } else {
            assert forall|i: int| 0 <= i < all.len() implies is_space(#[trigger] all[i]) by {
                if i < l.len() {
                    assert(is_space(l[i]));
                } else {
                    assert(is_space(r[i - l.len()]));
                }
            }
        }
    } else {
        let head = texts.drop_last();
        lemma_well_spaced(lefts, texts, rights);
        lemma_fields_spaced(lefts.drop_last(), head, rights.drop_last());
        let a = spaced(lefts.drop_last(), head, rights.drop_last());
        reveal_strlit(",");
        let b = a + ","@;
        assert(b.drop_last() =~= a);
        assert(b.last() == ',');
        assert(fields(b) == fields(a).push(none));
        lemma_fields_extend(b, part);
        assert(fields(b).drop_last() =~= fields(a));
        assert(none + part =~= part);
        assert(fields(all) =~= fields(a).push(part));
        assert forall|i: int| 0 <= i < fields(all).len() implies trim(#[trigger] fields(all)[i])
            == trim(texts[i]) by {
            if i < last {
                assert(trim(fields(a)[i]) == trim(head[i]));
            }
        }
        assert(all[a.len() as int] == ',');
        assert(!is_space(','));
    }
}

/// Texts read one by one, up to the first that is no number.
proof fn lemma_components_read(
    read: spec_fn(Seq<char>) -> Option<u32>,
    texts: Seq<Seq<char>>,
    answers: Seq<Option<u32>>,
)
    requires
        texts.len() == answers.len(),
        forall|i: int| 0 <= i < texts.len() ==> read(trim(#[trigger] texts[i])) == answers[i],
    ensures
        (forall|i: int| 0 <= i < answers.len() ==> (#[trigger] answers[i]) is Some) ==> components(
            read,
            texts,
        ) == Ok::<Seq<u32>, VectorError>(Seq::new(answers.len(), |i: int| answers[i]->0)),
        forall|j: int|
            0 <= j < answers.len() && (#[trigger] answers[j]) is None && (forall|i: int|
                0 <= i < j ==> (#[trigger] answers[i]) is Some) ==> components(read, texts) == Err::<
                Seq<u32>,
                VectorError,
            >(VectorError::InvalidElement(j as usize)),
    decreases texts.len(),
{
    let want = Seq::new(answers.len(), |i: int| answers[i]->0);
    if texts.len() == 0 {
        assert(want =~= Seq::<u32>::empty());
    } else {
        let head = texts.drop_last();
        let before = answers.drop_last();
        let last = texts.len() - 1;
        assert forall|i: int| 0 <= i < head.len() implies read(trim(#[trigger] head[i]))
            == before[i] by {
            assert(read(trim(texts[i])) == answers[i]);
        }
        lemma_components_read(read, head, before);
        assert(read(trim(texts[last])) == answers[last]);
        if forall|i: int| 0 <= i < before.len() ==> (#[trigger] before[i]) is Some {
            let some = Seq::new(before.len(), |i: int| before[i]->0);
            if answers[last] is Some {
                assert(some.push(answers[last]->0) =~= want);
            }
        }
        assert forall|j: int|
            0 <= j < answers.len() && (#[trigger] answers[j]) is None && (forall|i: int|
                0 <= i < j ==> (#[trigger] answers[i]) is Some) implies components(read, texts)
            == Err::<Seq<u32>, VectorError>(VectorError::InvalidElement(j as usize)) by {
            if j < last {
                assert(before[j] is None);
                assert forall|i: int| 0 <= i < j implies (#[trigger] before[i]) is Some by {
                    assert(answers[i] is Some);
                }
            } else {
                assert forall|i: int| 0 <= i < before.len() implies (
                #[trigger] before[i]) is Some by {
                    assert(answers[i] is Some);
                }
            }
        }
        if forall|i: int| 0 <= i < answers.len() ==> (#[trigger] answers[i]) is Some {
            assert forall|i: int| 0 <= i < before.len() implies (#[trigger] before[i]) is Some by {
                assert(answers[i] is Some);
            }
        }
    }
}

/// Whitespace does not matter, around the brackets or around any component:
/// every component reads as its own text does. A literal fails at the first
/// component that is no number, then for its length, then at the first component
/// that is not finite; otherwise it is its components.
pub proof fn whitespace_does_not_matter<P: Fn(&[char]) -> Option<u32>>(
    read: P,
    before: Seq<char>,
    lefts: Seq<Seq<char>>,
    texts: Seq<Seq<char>>,
    rights: Seq<Seq<char>>,
    after: Seq<char>,
    answers: Seq<Option<u32>>,
)
    requires
        reader_ok(read),
        blank(before),
        blank(after),
        well_spaced(lefts, texts, rights),
        texts.len() > 1 || texts[0].len() > 0,
        answers.len() == texts.len(),
        forall|i: int|
            0 <= i < texts.len() ==> #[trigger] reader_gives(read, texts[i], answers[i]),
    ensures
        ({
            let input = before + "["@ + spaced(lefts, texts, rights) + "]"@ + after;
            let r = literal(reader(read), input);
            let values = Seq::new(answers.len(), |i: int| answers[i]->0);
            &&& forall|j: int|
                0 <= j < answers.len() && (#[trigger] answers[j]) is None && (forall|i: int|
                    0 <= i < j ==> (#[trigger] answers[i]) is Some) ==> r == Err::<
                    Seq<u32>,
                    VectorError,
                >(VectorError::InvalidElement(j as usize))
            &&& (forall|i: int| 0 <= i < answers.len() ==> (#[trigger] answers[i]) is Some) ==> {
                &&& answers.len() > 16_000 ==> r == Err::<Seq<u32>, VectorError>(
                    VectorError::TooManyDimensions(answers.len() as usize),
                )
                &&& forall|j: int|
                    0 <= j < answers.len() <= 16_000 && !f32_is_finite(#[trigger] values[j]) && (
                    forall|i: int| 0 <= i < j ==> f32_is_finite(#[trigger] values[i])) ==> r
                        == Err::<Seq<u32>, VectorError>(VectorError::NonFinite(j as usize))
                &&& answers.len() <= 16_000 && (forall|i: int|
                    0 <= i < values.len() ==> f32_is_finite(#[trigger] values[i])) ==> r == Ok::<
                    Seq<u32>,
                    VectorError,
                >(values)
            }
        }),
{
    let f = reader(read);
    let list = spaced(lefts, texts, rights);
    let core = "["@ + list + "]"@;
    let input = before + "["@ + list + "]"@ + after;
    reveal_strlit("[");
    reveal_strlit("]");
    assert(input =~= before + core + after);
    assert(clean(core)) by {
        assert(core[0] == '[' && core.last() == ']');
        assert(!is_space('[') && !is_space(']'));
    }
    only_whitespace_is_trimmed(before, core, after);
    assert(core.subrange(1, core.len() - 1) =~= list);
    lemma_fields_spaced(lefts, texts, rights);
    let body = trim(list);
    assert(body.len() > 0) by {
        let i = choose|i: int| 0 <= i < list.len() && !is_space(#[trigger] list[i]);
        lemma_trim_keeps(list, i);
    }
    lemma_front_trimmed(list);
    lemma_back_trimmed(trim_start(list));
    assert(same_trimmed(fields(body), texts)) by {
        assert forall|i: int| 0 <= i < fields(body).len() implies trim(#[trigger] fields(body)[i])
            == trim(texts[i]) by {
            assert(trim(fields(list)[i]) == trim(texts[i]));
            assert(trim(fields(list)[i]) == trim(fields(trim_start(list))[i]));
            assert(trim(fields(trim_start(list))[i]) == trim(fields(body)[i]));
        }
    }
    lemma_components_trimmed(f, fields(body), texts);
    assert forall|i: int| 0 <= i < texts.len() implies f(trim(#[trigger] texts[i]))
        == answers[i] by {
        let none = Seq::<char>::empty();
        only_whitespace_is_trimmed(none, texts[i], none);
        assert(none + texts[i] + none =~= texts[i]);
        assert(reader_gives(read, texts[i], answers[i]));
        lemma_reader_unique(read, texts[i], answers[i]);
    }
    lemma_components_read(f, texts, answers);
    let values = Seq::new(answers.len(), |i: int| answers[i]->0);
    sound_vectors_are_finite(values);
    if forall|i: int| 0 <= i < answers.len() ==> (#[trigger] answers[i]) is Some {
        assert forall|j: int|
            0 <= j < answers.len() <= 16_000 && !f32_is_finite(#[trigger] values[j]) && (forall|
                i: int,
            |
                0 <= i < j ==> f32_is_finite(#[trigger] values[i])) implies fault(values) == Some(
            VectorError::NonFinite(j as usize),
        ) by {
            let i = first_non_finite(values)->0 as int;
            assert(!f32_is_finite(values[i]));
            if i < j {
                assert(f32_is_finite(values[i]));
            }
            if j < i {
                assert(f32_is_finite(values[j]));
            }
        }
    }
}

/// A reader's answer is the one answer it gives.
proof fn lemma_reader_unique<P: Fn(&[char]) -> Option<u32>>(
    read: P,
    s: Seq<char>,
    x: Option<u32>,
)
    requires
        reader_ok(read),
        reader_gives(read, s, x),
    ensures
        reader(read)(s) == x,
{
    let y = reader(read)(s);
    assert(reader_gives(read, s, y));
    let t = choose|t: &[char]| t@ == s && #[trigger] call_ensures(read, (t,), x);
    let u = choose|u: &[char]| u@ == s && #[trigger] call_ensures(read, (u,), y);
    assert(t =~= u);
}

/// Something that is no whitespace is left after trimming.
proof fn lemma_trim_keeps(s: Seq<char>, i: int)
    requires
        0 <= i < s.len(),
        !is_space(s[i]),
    ensures
        trim(s).len() > 0,
    decreases s.len(),
{
    if is_space(s[0]) {
        assert(s.drop_first()[i - 1] == s[i]);
        lemma_trim_keeps(s.drop_first(), i - 1);
    } else {
        lemma_trim_end_keeps(s, 0);
    }
}

proof fn lemma_trim_end_keeps(s: Seq<char>, i: int)
    requires
        0 <= i < s.len(),
        !is_space(s[i]),
    ensures
        trim_end(s).len() > 0,
    decreases s.len(),
{
    if is_space(s.last()) {
        assert(s.drop_last()[i] == s[i]);
        lemma_trim_end_keeps(s.drop_last(), i);
    }
}

/// Brackets are what makes a literal: without one at each end it is refused,
/// naming the first that is missing, and with only whitespace between them it is
/// empty.
pub proof fn literals_need_their_brackets(
    read: spec_fn(Seq<char>) -> Option<u32>,
    before: Seq<char>,
    core: Seq<char>,
    after: Seq<char>,
)
    requires
        blank(before),
        blank(after),
        clean(core),
    ensures
        core.len() == 0 || core[0] != '[' ==> literal(read, before + core + after) == Err::<
            Seq<u32>,
            VectorError,
        >(VectorError::Syntax("expected '[' at the start")),
        core.len() > 0 && core[0] == '[' && (core.len() == 1 || core.last() != ']') ==> literal(
            read,
            before + core + after,
        ) == Err::<Seq<u32>, VectorError>(VectorError::Syntax("expected ']' at the end")),
        core.len() > 1 && core[0] == '[' && core.last() == ']' && blank(
            core.subrange(1, core.len() - 1),
        ) ==> literal(read, before + core + after) == Err::<Seq<u32>, VectorError>(
            VectorError::Empty,
        ),
{
    only_whitespace_is_trimmed(before, core, after);
    if core.len() > 1 && blank(core.subrange(1, core.len() - 1)) {
        lemma_trim_blank(core.subrange(1, core.len() - 1));
    }
}

/// A list of components is a vector exactly when it has from 1 to 16000 of them
/// and all are finite; otherwise the first of these that fails is named.
pub proof fn vectors_are_short_and_finite(values: Seq<u32>)
    ensures
        fault(values) is None <==> 1 <= values.len() <= 16_000 && forall|i: int|
            0 <= i < values.len() ==> f32_is_finite(#[trigger] values[i]),
        values.len() == 0 <==> fault(values) == Some(VectorError::Empty),
        values.len() > 16_000 ==> fault(values) == Some(
            VectorError::TooManyDimensions(values.len() as usize),
        ),
        forall|j: int|
            0 <= j < values.len() <= 16_000 && !f32_is_finite(#[trigger] values[j]) && (forall|
                i: int,
            |
                0 <= i < j ==> f32_is_finite(#[trigger] values[i])) ==> fault(values) == Some(
                VectorError::NonFinite(j as usize),
            ),
{
    sound_vectors_are_finite(values);
    assert forall|j: int|
        0 <= j < values.len() <= 16_000 && !f32_is_finite(#[trigger] values[j]) && (forall|i: int|
            0 <= i < j ==> f32_is_finite(#[trigger] values[i])) implies fault(values) == Some(
        VectorError::NonFinite(j as usize),
    ) by {
        let i = first_non_finite(values)->0 as int;
        assert(!f32_is_finite(values[i]));
        if i < j {
            assert(f32_is_finite(values[i]));
        }
        if j < i {
            assert(f32_is_finite(values[j]));
        }
    }
}

/// A vector is written as its components in order, between brackets, with a comma
/// before each but the first.
pub proof fn components_are_written_in_order(
    print: spec_fn(u32) -> Seq<char>,
    values: Seq<u32>,
    x: u32,
)
    ensures
        rendered(print, Seq::empty()) == seq!['[', ']'],
        rendered(print, seq![x]) == seq!['['] + print(x) + seq![']'],
        values.len() > 0 ==> rendered(print, values.push(x)) == rendered(print, values).drop_last()
            + seq![','] + print(x) + seq![']'],
{
    assert(rendered(print, Seq::empty()) =~= seq!['[', ']']);
    assert(values.push(x).drop_last() =~= values);
    if values.len() > 0 {
        assert(rendered(print, values).drop_last() =~= seq!['['] + joined(print, values));
        assert(rendered(print, values.push(x)) =~= rendered(print, values).drop_last() + seq![',']
            + print(x) + seq![']']);
    }
}

/// An array becomes a vector exactly when it has at most one dimension, no null
/// among its elements, from 1 to 16000 of them, and all are finite; its
/// dimensions are looked at first, then its nulls.
pub proof fn flat_full_arrays_are_vectors(ndim: i32, elements: Seq<Option<u32>>)
    ensures
        array_fault(ndim, elements) is None <==> {
            &&& ndim <= 1
            &&& 1 <= elements.len() <= 16_000
            &&& forall|i: int|
                0 <= i < elements.len() ==> (#[trigger] elements[i] matches Some(x)
                    && f32_is_finite(x))
        },
        ndim > 1 ==> array_fault(ndim, elements) == Some(ArrayError::NotOneDimensional),
        ndim <= 1 && elements.contains(None) ==> array_fault(ndim, elements) == Some(
            ArrayError::NullElement,
        ),
        ndim <= 1 && elements.len() == 0 ==> array_fault(ndim, elements) == Some(
            ArrayError::Vector(VectorError::Empty),
        ),
{
    vectors_are_short_and_finite(present(elements));
    if no_nulls(elements) && !elements.contains(None) {
        let values = present(elements);
        assert forall|i: int| 0 <= i < elements.len() implies values[i] == (
        #[trigger] elements[i])->0 by {}
        if forall|i: int| 0 <= i < values.len() ==> f32_is_finite(#[trigger] values[i]) {
            assert forall|i: int| 0 <= i < elements.len() implies (#[trigger] elements[i] matches Some(
                x,
            ) && f32_is_finite(x)) by {
                assert(f32_is_finite(values[i]));
            }
        }
        if forall|i: int|
            0 <= i < elements.len() ==> (#[trigger] elements[i] matches Some(x) && f32_is_finite(
                x,
            )) {
            assert forall|i: int| 0 <= i < values.len() implies f32_is_finite(
                #[trigger] values[i],
            ) by {
                assert(elements[i] matches Some(x) && f32_is_finite(x));
            }
        }
    }
}

} // verus!
