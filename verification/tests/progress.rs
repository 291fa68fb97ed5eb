use pamly::convert::LockFile;
use pamly::util::strings::to_upper_camel_case;

#[test]
fn new_record() {
    let lock = LockFile::lock("Init");
    assert_eq!(lock.state, "Init");
    assert_eq!(lock.total, 0);
    assert_eq!(lock.current, 0);
    assert_eq!(lock.error, None);
    assert_eq!(lock.percent(), 0);
}

#[test]
fn percent_is_rounded_down() {
    let mut lock = LockFile::lock("Init");
    lock.start(3);
    assert_eq!(lock.percent(), 0);
    assert!(lock.inc());
    assert_eq!(lock.percent(), 33);
    assert!(lock.inc());
    assert_eq!(lock.percent(), 66);
    assert!(lock.inc());
    assert_eq!(lock.percent(), 100);
    assert!(lock.inc());
    assert_eq!(lock.percent(), 133);
    assert_eq!(lock.current, 4);
}

#[test]
fn inc_reports_a_rise_of_the_percentage() {
    let mut lock = LockFile::lock("Init");
    lock.start(1000);
    let mut rises = 0;
    for _ in 0..1000 {
        if lock.inc() {
            rises += 1;
        }
    }
    assert_eq!(rises, 100);
    assert_eq!(lock.percent(), 100);
}

#[test]
fn percent_without_expected_work() {
    let mut lock = LockFile::lock("Init");
    assert_eq!(lock.percent(), 0);
    assert!(lock.inc());
    assert_eq!(lock.percent(), u64::MAX);
    assert!(!lock.inc());
}

#[test]
fn counter_stays_at_the_largest_number() {
    let mut lock = LockFile::lock("Init");
    lock.start(u64::MAX);
    lock.finish();
    assert_eq!(lock.current, u64::MAX);
    assert!(!lock.inc());
    assert_eq!(lock.current, u64::MAX);
    assert_eq!(lock.percent(), 100);
}

#[test]
fn stages_and_errors() {
    let mut lock = LockFile::lock("Init");
    lock.state("Reading");
    lock.start(10);
    lock.inc();
    lock.error("no such file");
    assert_eq!(lock.state, "Reading");
    assert_eq!(lock.error, Some("Error: no such file".to_string()));
    assert_eq!(lock.current, 1);
    lock.finish();
    assert_eq!(lock.current, 10);
    lock.start(4);
    assert_eq!((lock.current, lock.total), (0, 4));
}

#[test]
fn upper_camel_case() {
    assert_eq!(to_upper_camel_case("hello world"), "HelloWorld");
    assert_eq!(to_upper_camel_case("epithelium_squamous"), "EpitheliumSquamous");
    assert_eq!(to_upper_camel_case("a-b c_d"), "ABCD");
    assert_eq!(to_upper_camel_case("  two  spaces "), "TwoSpaces");
    assert_eq!(to_upper_camel_case(""), "");
    assert_eq!(to_upper_camel_case("alreadyCamel"), "AlreadyCamel");
    assert_eq!(to_upper_camel_case("ßtraße"), "SStraße");
    assert_eq!(to_upper_camel_case("élan vital"), "ÉlanVital");
}

#[test]
fn named_counter() {
    let mut lock = pamly::convert::Lock::new(true);
    assert_eq!(lock.name, "");
    assert!(lock.quiet);
    lock.name("Reading".to_string());
    assert_eq!(lock.name, "Reading");
    lock.start(8);
    assert_eq!(lock.percent(), 0);
    assert!(lock.inc());
    assert_eq!(lock.percent(), 12);
    assert!(lock.inc());
    assert_eq!(lock.percent(), 25);
    lock.finish();
    assert_eq!((lock.current, lock.total), (8, 8));
    assert_eq!(lock.percent(), 100);
}
