use crypto_ticker::pages::{slug_of_path, Counter};

#[test]
fn counter_starts_at_zero() {
    assert_eq!(Counter::new().value, 0);
}

#[test]
fn counter_goes_up_and_down() {
    let counter = Counter::new().increment().increment().increment();
    assert_eq!(counter.value, 3);
    assert_eq!(counter.decrement().value, 2);
    assert_eq!(Counter { value: i32::MAX - 1 }.increment().value, i32::MAX);
    assert_eq!(Counter { value: i32::MAX }.decrement().value, i32::MAX - 1);
}

#[test]
fn counter_stays_at_zero() {
    assert_eq!(Counter::new().decrement(), Counter::new());
    assert_eq!(Counter::new().decrement().decrement().value, 0);
    assert_eq!(Counter::new().increment().decrement().decrement().value, 0);
}

#[test]
fn slug_is_the_path_without_its_first_slashes() {
    assert_eq!(slug_of_path("/example"), "example");
    assert_eq!(slug_of_path("example"), "example");
    assert_eq!(slug_of_path("///a/b/"), "a/b/");
    assert_eq!(slug_of_path("/"), "");
    assert_eq!(slug_of_path("////"), "");
    assert_eq!(slug_of_path(""), "");
    assert_eq!(slug_of_path("/é/ü"), "é/ü");
    assert_eq!(slug_of_path(" /x"), " /x");
}
