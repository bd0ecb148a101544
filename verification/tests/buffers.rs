use joeboids::buffers::DoubleBuffer;
use joeboids::TargetType;

#[test]
fn starts_on_the_first_buffer() {
    let buffers = DoubleBuffer::new(vec![1], vec![2]);
    assert_eq!(buffers.current(), &vec![1]);
    assert!(!buffers.switched());
}

#[test]
fn a_step_makes_the_written_state_current() {
    let mut buffers = DoubleBuffer::new(1, 1);
    buffers.write_next(2);
    assert_eq!(*buffers.current(), 2);
    assert!(buffers.switched());
    buffers.write_next(3);
    assert_eq!(*buffers.current(), 3);
    assert!(!buffers.switched());
    buffers.write_next(4);
    assert_eq!(*buffers.current(), 4);
}

#[test]
fn setting_the_second_buffer_makes_it_current() {
    let mut buffers = DoubleBuffer::new("a", "b");
    buffers.set_second("c");
    assert_eq!(*buffers.current(), "c");
    buffers.write_next("d");
    assert_eq!(*buffers.current(), "d");
    let buffers = buffers.with_second("e");
    assert_eq!(*buffers.current(), "e");
}

#[test]
fn reset_starts_over_on_the_first_buffer() {
    let mut buffers = DoubleBuffer::new(0, 0);
    buffers.write_next(5);
    buffers.reset(7, 8);
    assert_eq!(*buffers.current(), 7);
    assert!(!buffers.switched());
}

#[test]
fn target_type_is_copy() {
    let t = TargetType::Avoid;
    let u = t;
    assert_eq!(t, u);
    assert_ne!(TargetType::Approach, u);
}
