//! Network files.

use mlkit_ink::flatbuffer::Flatbuffer;
use mlkit_ink::float::F32;
use mlkit_ink::tflite::{custom_options, dequantize, load_weights};
use mlkit_ink::Error;

fn g(x: f32) -> F32 {
    F32 { bits: x.to_bits() }
}

fn values(result: Result<Vec<F32>, Error>) -> Vec<f32> {
    result.unwrap().iter().map(|x| f32::from_bits(x.bits)).collect()
}

#[test]
fn signed_hybrid_bytes_and_affine_uint8() {
    let bytes = [0, 1, 127, 128, 255];
    assert_eq!(
        values(dequantize(&bytes, 3, g(0.5), 0, 0)),
        [0.0, 0.5, 63.5, -64.0, -0.5]
    );
    assert_eq!(
        values(dequantize(&bytes, 9, g(0.5), 0, 0)),
        [0.0, 0.5, 63.5, -64.0, -0.5]
    );
    assert_eq!(
        values(dequantize(&bytes, 3, g(0.5), 128, 0)),
        [-64.0, -63.5, -0.5, 0.0, 63.5]
    );
    assert_eq!(values(dequantize(&[255], 9, g(0.5), -1, 0)), [0.0]);
    for scale in [0.0, -1.0, f32::NAN, f32::INFINITY] {
        assert!(dequantize(&bytes, 3, g(scale), 0, 42).is_err());
    }
}

#[test]
fn custom_options_allow_kannada_padding() {
    for padding in [0, 2, 255] {
        assert_eq!(
            custom_options(&[0, 0, 72, 66, 4, 1, 1, padding], 0).unwrap(),
            g(50.0)
        );
    }
    for data in [
        &[0, 0, 72, 66, 4, 1, 1][..],
        &[0, 0, 72, 66, 4, 0, 1, 0],
        &[0, 0, 128, 191, 4, 1, 1, 0],
        &[0, 0, 128, 127, 4, 1, 1, 0],
    ] {
        assert!(
            matches!(custom_options(data, 42), Err(Error::Format(m)) if m.contains("byte 42"))
        );
    }
}

#[test]
fn vectors_and_strings_validate_their_entire_extent() {
    // A one-field table, followed by a length-one string/vector.
    let valid = [
        6, 0, 8, 0, 4, 0, 0, 0, 8, 0, 0, 0, 4, 0, 0, 0, 1, 0, 0, 0, b'x', 0,
    ];
    let table = Flatbuffer(&valid).table(8).unwrap();
    assert_eq!(table.string(4).unwrap(), b"x");
    assert!(table.vector(4, 4).is_err());
    assert!(table.vector(4, 1).unwrap().element(1).is_err());
    let mut missing_terminator = valid;
    missing_terminator[21] = 1;
    assert!(
        Flatbuffer(&missing_terminator)
            .table(8)
            .unwrap()
            .string(4)
            .is_err()
    );
    let mut huge_vector = valid;
    huge_vector[16..20].copy_from_slice(&u32::MAX.to_le_bytes());
    assert!(
        Flatbuffer(&huge_vector)
            .table(8)
            .unwrap()
            .vector(4, 8)
            .is_err()
    );
    let mut invalid_field = valid;
    invalid_field[4] = 7;
    assert!(
        Flatbuffer(&invalid_field)
            .table(8)
            .unwrap()
            .vector(4, 1)
            .is_err()
    );
}

#[test]
fn malformed_offsets_are_format_errors() {
    for bytes in [
        &[][..],
        b"bad file",
        &[255, 255, 255, 255, b'T', b'F', b'L', b'3'],
        &[8, 0, 0, 0, b'T', b'F', b'L', b'3', 255, 255, 255, 127],
    ] {
        assert!(matches!(load_weights(bytes), Err(Error::Format(m)) if m.contains("byte ")));
    }
    assert!(Flatbuffer(&[0; 8]).bytes(usize::MAX, 2).is_err());
    // Vtable follows the table, exercising negative signed displacement.
    let bytes = [252, 255, 255, 255, 4, 0, 4, 0];
    assert!(
        Flatbuffer(&bytes)
            .table(0)
            .unwrap()
            .field(4, 4)
            .unwrap()
            .is_none()
    );
    let bytes = [8, 0, 4, 0, 3, 0, 0, 0, 8, 0, 0, 0];
    assert!(Flatbuffer(&bytes).table(8).unwrap().field(4, 4).is_err());
    let bytes = [255, 255, 255, 255];
    assert!(Flatbuffer(&bytes).indirect(0).is_err());
}

#[test]
fn bad_scales_and_thresholds_are_named() {
    assert_eq!(
        dequantize(&[1], 3, g(-1.5), 0, 42),
        Err(Error::Format(
            "byte 42: invalid quantization scale -1.5".to_string()
        ))
    );
    assert_eq!(
        custom_options(&[0, 0, 128, 191, 4, 1, 1, 0], 7),
        Err(Error::Format(
            "byte 7: invalid cell clipping threshold -1".to_string()
        ))
    );
}
