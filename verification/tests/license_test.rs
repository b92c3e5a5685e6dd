use shadow::license::{join, sections};
use shadow::tree::timing::TimingDuration;

#[test]
fn licenses_are_taken_apart_at_the_colon() {
    assert_eq!(
        sections("ZGF0YQ==:c2lnbmF0dXJl"),
        Some(("ZGF0YQ==".to_owned(), "c2lnbmF0dXJl".to_owned()))
    );
    assert_eq!(sections("data:"), Some(("data".to_owned(), String::new())));
    assert_eq!(sections(":signature"), Some((String::new(), "signature".to_owned())));
    assert_eq!(sections("a:b:c"), Some(("a".to_owned(), "b".to_owned())));
    assert_eq!(sections("no colon"), None);
    assert_eq!(sections(""), None);
}

#[test]
fn licenses_are_written_with_a_colon() {
    assert_eq!(join("data", "signature"), "data:signature");
    let license = join("ZGF0YQ==", "c2ln");
    assert_eq!(sections(&license), Some(("ZGF0YQ==".to_owned(), "c2ln".to_owned())));
}

#[test]
fn timing_adds_up_nanoseconds() {
    let duration = TimingDuration::new();
    assert_eq!(duration.get(), 0);
    assert_eq!(duration.inc(5), 0);
    assert_eq!(duration.inc(7), 5);
    assert_eq!(duration.get(), 12);
}
