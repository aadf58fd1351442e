use hdl::structured::{flat_round_trip, round_trip, Field, FieldShape, NandInputs, NandOutputs, Record, StructuredData};

#[test]
fn when_a_output_struct_with_array_and_nonarray_inputs_is_defined_derive_trait_generates_correct_methods(
) {
    // fields: arrayinput1: [T; 2], nonarrayinput1: T, arrayinput2: [T; 5], nonarrayinput2: T
    let under_test = Record::<bool> {
        fields: vec![
            Field::Array(vec![false, true]),
            Field::Scalar(true),
            Field::Array(vec![false, false, true, false, true]),
            Field::Scalar(false),
        ],
    };

    let transformed_under_test = Record::<bool>::from_flat(&under_test.shape(), under_test.clone().to_flat());

    assert_eq!(under_test, transformed_under_test);
}

#[test]
fn record_flattens_in_declared_order() {
    let r = Record::<bool> {
        fields: vec![
            Field::Array(vec![false, true]),
            Field::Scalar(true),
            Field::Array(vec![false, false, true, false, true]),
            Field::Scalar(false),
        ],
    };
    assert_eq!(
        r.to_flat(),
        vec![false, true, true, false, false, true, false, true, false]
    );
    assert_eq!(
        r.shape(),
        vec![FieldShape::Array(2), FieldShape::Scalar, FieldShape::Array(5), FieldShape::Scalar]
    );
}

#[test]
fn record_from_flat_then_to_flat_gives_the_sequence_back() {
    let shape = vec![FieldShape::Scalar, FieldShape::Array(3), FieldShape::Array(0), FieldShape::Scalar];
    let flat = vec![true, false, true, true, false];
    let r = Record::<bool>::from_flat(&shape, flat.clone());
    assert_eq!(
        r,
        Record {
            fields: vec![
                Field::Scalar(true),
                Field::Array(vec![false, true, true]),
                Field::Array(vec![]),
                Field::Scalar(false),
            ],
        }
    );
    assert_eq!(r.to_flat(), flat);
}

#[test]
fn empty_record_round_trips() {
    let r = Record::<bool>::from_flat(&vec![], vec![]);
    assert_eq!(r, Record { fields: vec![] });
    assert_eq!(r.to_flat(), Vec::<bool>::new());
}

#[test]
fn nand_inputs_round_trip() {
    let flat = NandInputs { in1: true, in2: false }.to_flat();
    assert_eq!(flat, vec![true, false]);
    assert_eq!(NandInputs::from_flat(flat), NandInputs { in1: true, in2: false });
    let y = NandOutputs::from_flat(vec![true]);
    assert_eq!(y, NandOutputs { out: true });
    assert_eq!(y.to_flat(), vec![true]);
}

#[test]
fn round_trips_through_the_flat_form() {
    let x = round_trip(NandInputs { in1: false, in2: true });
    assert_eq!(x, NandInputs { in1: false, in2: true });
    assert_eq!(flat_round_trip::<bool, NandInputs<bool>>(vec![true, false]), vec![true, false]);
    let r = Record::<bool> { fields: vec![Field::Array(vec![true, false]), Field::Scalar(true)] };
    assert_eq!(r.round_trip(), r);
    let shape = vec![FieldShape::Scalar, FieldShape::Array(2)];
    assert_eq!(Record::<bool>::flat_round_trip(&shape, vec![false, true, true]), vec![false, true, true]);
}
