use rinkaku::progress::{should_report_progress, PROGRESS_REPORT_STRIDE};

#[test]
fn should_report_at_first_stride_boundary() {
    assert_eq!(true, should_report_progress(16, 100));
}

#[test]
fn should_not_report_between_stride_boundaries() {
    assert_eq!(false, should_report_progress(15, 100));
}

#[test]
fn should_not_report_between_stride_boundaries_just_past_one() {
    assert_eq!(false, should_report_progress(17, 100));
}

#[test]
fn should_report_at_second_stride_boundary() {
    assert_eq!(true, should_report_progress(32, 100));
}

#[test]
fn should_report_on_final_file_even_off_stride() {
    assert_eq!(true, should_report_progress(97, 97));
}

#[test]
fn should_report_on_final_file_when_total_is_smaller_than_stride() {
    assert_eq!(true, should_report_progress(5, 5));
}

#[test]
fn should_not_report_on_non_final_file_smaller_than_stride() {
    assert_eq!(false, should_report_progress(3, 5));
}

#[test]
fn should_not_report_when_total_is_zero() {
    assert_eq!(false, should_report_progress(0, 0));
}

#[test]
fn progress_stride_is_sixteen_files() {
    assert_eq!(16, PROGRESS_REPORT_STRIDE);
    assert!(should_report_progress(PROGRESS_REPORT_STRIDE * 3, 1000));
    assert!(!should_report_progress(PROGRESS_REPORT_STRIDE * 3 + 1, 1000));
}
