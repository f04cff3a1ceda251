use cubes::change::ValueOnChange;
use cubes::physics::ScalarMotion;

#[test]
fn value_on_change_passes_only_changes() {
    let mut v: ValueOnChange<(i32, i32)> = ValueOnChange::new();
    assert_eq!(v.value((640, 480)), Some((640, 480)));
    assert_eq!(v.value((640, 480)), None);
    assert_eq!(v.value((800, 600)), Some((800, 600)));
    assert_eq!(v.value((640, 480)), Some((640, 480)));
    assert_eq!(v.value((640, 480)), None);
}

#[test]
fn scalar_motion_new_keeps_fields() {
    let m = ScalarMotion::new(0.5f32, 0.2, 0.9);
    assert_eq!(m.scalar, 0.5);
    assert_eq!(m.change, 0.2);
    assert_eq!(m.decay, 0.9);
}

#[test]
fn uniform_mat4_cast() {
    // The matrix's storage is sixteen floats, column by column, with no padding.
    let m = cgmath::Matrix4::<f32>::new(
        0.0, 1.0, 2.0, 3.0, 4.0, 5.0, 6.0, 7.0, 8.0, 9.0, 10.0, 11.0, 12.0, 13.0, 14.0, 15.0,
    );
    let cols: &[[f32; 4]; 4] = m.as_ref();
    for i in 0..16 {
        let v: f32 = cols[i / 4][i % 4];
        assert_eq!(v, i as f32);
    }
}
