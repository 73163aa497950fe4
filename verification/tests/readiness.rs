use atria::input::readiness::classify_descriptor;

const POLLIN: i16 = 0x1;
const POLLHUP: i16 = 0x10;

#[test]
fn readable_data_survives_a_simultaneous_hangup() {
    let readiness = classify_descriptor(POLLIN | POLLHUP);
    assert!(readiness.is_readable());
    assert!(readiness.has_failed());
}
