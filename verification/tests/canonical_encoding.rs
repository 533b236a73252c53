use incidence_core::canonical_encoding::{CanonicalEncodingError, CanonicalField, CanonicalPayloadWriter};
use incidence_core::versions::CanonicalEncodingVersion;
use incidence_core::temporal::RunHorizon;

#[test]
fn scalar_encoding_canonicalizes_zero_and_rejects_non_finite_values() {
    for zero in [-0.0_f64, 0.0] {
        let mut writer = CanonicalPayloadWriter::new();
        assert_eq!(writer.write_scalar(CanonicalField::ScalarProbe, zero.to_bits()), Ok(()));
        assert_eq!(writer.as_bytes(), 0_u64.to_be_bytes());
    }

    for input in [f64::NAN, f64::INFINITY, f64::NEG_INFINITY] {
        let mut writer = CanonicalPayloadWriter::new();
        assert_eq!(
            writer.write_scalar(CanonicalField::ScalarProbe, input.to_bits()),
            Err(CanonicalEncodingError::NonFiniteScalar { field: CanonicalField::ScalarProbe, bits: input.to_bits() })
        );
        assert!(writer.as_bytes().is_empty());
    }
}

#[test]
fn finite_scalar_is_written_big_endian() {
    let mut writer = CanonicalPayloadWriter::new();
    assert_eq!(writer.write_scalar(CanonicalField::ScalarProbe, 1.5_f64.to_bits()), Ok(()));
    assert_eq!(writer.as_bytes(), 1.5_f64.to_bits().to_be_bytes());
}

#[test]
fn horizon_encodes_with_envelope_and_tag() {
    let bytes = CanonicalEncodingVersion::V1.encode(&RunHorizon { first: 2, last: 9 }).expect("encode");
    let mut expected = vec![0x49, 0x4e, 0x43, 0x44, 0x00, 0x01, 0x00, 0x15];
    expected.extend_from_slice(&2_u64.to_be_bytes());
    expected.extend_from_slice(&9_u64.to_be_bytes());
    assert_eq!(bytes, expected);
}
