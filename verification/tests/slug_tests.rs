use rhodium::slug::parameterize;

#[test]
fn test_parameterize() {
    assert_eq!(parameterize("foo"), "foo");
    assert_eq!(parameterize("foo!!bar"), "foo-bar");
    assert_eq!(parameterize("foo!!bar!baz"), "foo-bar-baz");
    assert_eq!(parameterize("foo!!bar!baz:"), "foo-bar-baz");
}

#[test]
fn parameterize_lowercases_and_trims() {
    assert_eq!(parameterize("Foo Bar!"), "foo-bar");
    assert_eq!(parameterize("  Lead In"), "lead-in");
}

#[test]
fn parameterize_is_idempotent_on_samples() {
    let samples = ["Foo Bar!", "  Lead In", "foo!!bar!baz:", "", "--a--b--", "A B C 123"];
    for s in samples {
        let once = parameterize(s);
        let twice = parameterize(&once);
        assert_eq!(once, twice);
    }
}

#[test]
fn parameterize_empty_and_symbols_only() {
    assert_eq!(parameterize(""), "");
    assert_eq!(parameterize("!!!"), "");
    assert_eq!(parameterize("-"), "");
}

#[test]
fn parameterize_keeps_digits() {
    assert_eq!(parameterize("Chapter 12, part 3"), "chapter-12-part-3");
}
