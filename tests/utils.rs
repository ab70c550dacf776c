use utrakr::utils::trim_trailing_slash;

#[test]
fn utils_simple() {
    assert_eq!(
        trim_trailing_slash("http://example.com/"),
        "http://example.com"
    );
    assert_eq!(
        trim_trailing_slash("http://example.com/a"),
        "http://example.com/a"
    );
}

#[test]
fn multiple() {
    assert_eq!(
        trim_trailing_slash("http://example.com///"),
        "http://example.com"
    );
}

#[test]
fn none() {
    assert_eq!(
        trim_trailing_slash("http://example.com"),
        "http://example.com"
    );
}

#[test]
fn empty() {
    assert_eq!(trim_trailing_slash(""), "");
}

#[test]
fn only_slashes() {
    assert_eq!(trim_trailing_slash("///"), "");
}
