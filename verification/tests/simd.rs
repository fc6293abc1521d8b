use milkyapps_core::simd::position_of_any_bool;

#[test]
fn position_of_any_bool_tests() {
    let mut buffer = [false; 16];
    assert!(matches!(
        position_of_any_bool(buffer.as_ref(), false),
        Some(0)
    ));

    // Just the first is true
    buffer[0] = true;
    assert!(matches!(
        position_of_any_bool(buffer.as_ref(), true),
        Some(0)
    ));
    assert!(matches!(
        position_of_any_bool(buffer.as_ref(), false),
        Some(1)
    ));

    // Just the last is true
    buffer.fill(false);
    buffer[buffer.len() - 1] = true;
    assert!(matches!(
        position_of_any_bool(buffer.as_ref(), false),
        Some(0)
    ));
    assert!(matches!(
        position_of_any_bool(buffer.as_ref(), true),
        Some(idx) if idx == buffer.len() - 1
    ));
}

#[test]
fn position_in_slices_of_any_length() {
    assert_eq!(position_of_any_bool(&[], true), None);
    for len in 0..70usize {
        let mut buffer = vec![false; len];
        assert_eq!(position_of_any_bool(&buffer, true), None);
        for i in (0..len).rev() {
            buffer[i] = true;
            assert_eq!(position_of_any_bool(&buffer, true), Some(i));
        }
    }
}
