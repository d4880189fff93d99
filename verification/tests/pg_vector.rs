use brindle::pg_vector;
use brindle::pg_vector::{
    from_real_array, size_agrees, stored_size, validate, ArrayError, BrindleVector, VectorError,
    MAX_DIM,
};

fn bits(v: &[f32]) -> Vec<u32> {
    v.iter().map(|x| x.to_bits()).collect()
}

fn read(field: &[char]) -> Option<u32> {
    let text: String = field.iter().collect();
    text.parse::<f32>().ok().map(|x| x.to_bits())
}

fn print(x: u32) -> String {
    f32::from_bits(x).to_string()
}

fn parse_literal(input: &str) -> Result<Vec<f32>, VectorError> {
    pg_vector::parse_literal(&read, input)
        .map(|v| v.into_iter().map(f32::from_bits).collect())
}

fn format_literal(values: &[f32]) -> String {
    pg_vector::format_literal(&print, &bits(values))
}

#[test]
fn parses_pgvector_text_form() {
    assert_eq!(parse_literal("[1,2,3]").unwrap(), vec![1.0, 2.0, 3.0]);
    assert_eq!(parse_literal(" [ 1 , -2.5 ] ").unwrap(), vec![1.0, -2.5]);
    assert_eq!(parse_literal("[1e3]").unwrap(), vec![1000.0]);
}

#[test]
fn round_trips_through_text() {
    let values = vec![1.0, -2.5, 0.125, 1e10];
    assert_eq!(parse_literal(&format_literal(&values)).unwrap(), values);
}

#[test]
fn rejects_malformed_literals() {
    assert!(matches!(
        parse_literal("1,2,3"),
        Err(VectorError::Syntax(_))
    ));
    assert!(matches!(
        parse_literal("[1,2,3"),
        Err(VectorError::Syntax(_))
    ));
    assert_eq!(parse_literal("[]"), Err(VectorError::Empty));
    assert_eq!(parse_literal("[1,x]"), Err(VectorError::InvalidElement(1)));
}

#[test]
fn rejects_values_that_cannot_rank() {
    assert_eq!(parse_literal("[1,NaN]"), Err(VectorError::NonFinite(1)));
    assert_eq!(parse_literal("[inf]"), Err(VectorError::NonFinite(0)));
    assert_eq!(validate(&[]), Err(VectorError::Empty));
    assert_eq!(
        validate(&bits(&vec![0.0; MAX_DIM + 1])),
        Err(VectorError::TooManyDimensions(MAX_DIM + 1))
    );
}

#[test]
fn literals_print_without_spaces() {
    assert_eq!(format_literal(&[1.0, -2.5, 0.125]), "[1,-2.5,0.125]");
    assert_eq!(format_literal(&[7.0]), "[7]");
}

#[test]
fn an_empty_field_is_no_number() {
    assert_eq!(parse_literal("[1,,2]"), Err(VectorError::InvalidElement(1)));
    assert_eq!(parse_literal("[,]"), Err(VectorError::InvalidElement(0)));
    assert_eq!(parse_literal("[ ]"), Err(VectorError::Empty));
    assert!(matches!(parse_literal("1]"), Err(VectorError::Syntax(_))));
    assert!(matches!(parse_literal(""), Err(VectorError::Syntax(_))));
}

#[test]
fn vector_errors_explain_themselves() {
    assert_eq!(
        VectorError::Empty.message(),
        "vector must have at least one dimension"
    );
    assert_eq!(
        VectorError::TooManyDimensions(16_001).message(),
        "vector has 16001 dimensions, the maximum is 16000"
    );
    assert_eq!(
        VectorError::NonFinite(4).message(),
        "vector element 4 must be a finite number"
    );
}

#[test]
fn the_first_fault_is_reported() {
    assert_eq!(
        validate(&bits(&[1.0, f32::INFINITY, f32::NAN])),
        Err(VectorError::NonFinite(1))
    );
    assert_eq!(validate(&bits(&[0.0, -0.0, f32::MAX])), Ok(()));
    assert!(BrindleVector::from_slice(&bits(&[f32::NAN])).is_err());
}

#[test]
fn stored_values_keep_their_components() {
    let v = BrindleVector::from_slice(&bits(&[1.5, -2.0])).ok().unwrap();
    assert_eq!(v.dim(), 2);
    assert_eq!(v.as_slice(), &bits(&[1.5, -2.0])[..]);
    assert_eq!(stored_size(2), 16);
    assert!(size_agrees(16, 2));
    assert!(!size_agrees(15, 2));
}

#[test]
fn arrays_become_vectors_when_flat_and_full() {
    let full: Vec<Option<u32>> = bits(&[1.0, 2.0]).into_iter().map(Some).collect();
    let v = from_real_array(1, &full).ok().unwrap();
    assert_eq!(v.as_slice(), &bits(&[1.0, 2.0])[..]);
    assert_eq!(
        from_real_array(2, &full).err(),
        Some(ArrayError::NotOneDimensional)
    );
    let holed = [Some(0u32), None];
    assert_eq!(
        from_real_array(1, &holed).err(),
        Some(ArrayError::NullElement)
    );
    let empty: [Option<u32>; 0] = [];
    assert_eq!(
        from_real_array(0, &empty).err(),
        Some(ArrayError::Vector(VectorError::Empty))
    );
    assert_eq!(
        ArrayError::NotOneDimensional.message(),
        "vector must be a one-dimensional array"
    );
    assert_eq!(
        ArrayError::NullElement.message(),
        "vector must not contain NULL elements"
    );
}
