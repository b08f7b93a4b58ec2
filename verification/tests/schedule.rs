use clux::schedule::is_report_step;

#[test]
fn reports_every_25_steps_and_at_the_end() {
    assert!(is_report_step(25, 100));
    assert!(is_report_step(100, 100));
    assert!(!is_report_step(26, 100));
    assert!(is_report_step(7, 7));
    assert!(is_report_step(0, 3));
}
