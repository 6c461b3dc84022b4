//! Human-readable age rendering.

use fellows::human::Human;
use fellows::human::dec_str;
use fellows::human::human_opt_secs;

#[test]
fn decimal_rendering_is_exact() {
    assert_eq!(dec_str(0), "0");
    assert_eq!(dec_str(7), "7");
    assert_eq!(dec_str(10), "10");
    assert_eq!(dec_str(105), "105");
    assert_eq!(dec_str(18446744073709551615), "18446744073709551615");
}

#[test]
fn ages_use_the_coarsest_fitting_unit() {
    assert_eq!(human_opt_secs(&Some(0)), "0s");
    assert_eq!(human_opt_secs(&Some(59)), "59s");
    assert_eq!(human_opt_secs(&Some(60)), "1m");
    assert_eq!(human_opt_secs(&Some(3599)), "59m");
    assert_eq!(human_opt_secs(&Some(3600)), "1h");
    assert_eq!(human_opt_secs(&Some(86399)), "23h");
    assert_eq!(human_opt_secs(&Some(86400)), "1d");
    assert_eq!(human_opt_secs(&Some(200000)), "2d");
}

#[test]
fn unknown_age_renders_as_question_mark() {
    assert_eq!(human_opt_secs(&None), "?");
    assert_eq!(None::<u64>.human(), "?");
    assert_eq!(Some(61u64).human(), "1m");
}
