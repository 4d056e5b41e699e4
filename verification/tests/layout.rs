use rheaper::layout::{backtraces_dir, backtraces_file, events_dir, events_file, run_dir};

#[test]
fn run_directory_is_named_after_the_unix_second() {
    assert_eq!(run_dir(1_700_000_000), "hip-1700000000");
    assert_eq!(run_dir(0), "hip-0");
    assert_eq!(run_dir(9), "hip-9");
    assert_eq!(run_dir(10), "hip-10");
    assert_eq!(run_dir(u64::MAX), "hip-18446744073709551615");
}

#[test]
fn event_file_is_named_after_the_thread_tag() {
    assert_eq!(events_file(0), "events-0");
    assert_eq!(events_file(17), "events-17");
    assert_eq!(events_file(1234567890), "events-1234567890");
}

#[test]
fn backtrace_file_is_named_after_the_tracker_id() {
    assert_eq!(backtraces_file(0), "bt-0");
    assert_eq!(backtraces_file(305), "bt-305");
}

#[test]
fn subdirectories_have_fixed_names() {
    assert_eq!(events_dir(), "events");
    assert_eq!(backtraces_dir(), "backtraces");
}
