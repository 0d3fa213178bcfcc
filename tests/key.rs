use chokurei::key::{Key, Url};

fn check(source: &str, expected: &str) {
    let url = Url::parse(source).unwrap();
    assert_eq!(Key::from(url).0, expected);
}

#[test]
fn key_it_removes_schema() {
    check("http://example.com", "example.com");
}

#[test]
fn key_it_lowercases_all() {
    check("HTTP://Example.COM", "example.com");
    check("https://example.com/Test/Foo/bAr.HtMl", "example.com/test/foo/bar.html");
}

#[test]
fn key_it_removes_default_port() {
    check("http://example.com:80", "example.com");
    check("http://example.com:88", "example.com:88");
    check("https://example.com:443", "example.com");
    check("https://example.com:442", "example.com:442");
}

#[test]
fn key_it_removes_trailing_slash() {
    check("https://example.com/", "example.com");
    check("https://example.com/test/", "example.com/test");
}

#[test]
fn key_it_removes_www() {
    check("http://www.example.com", "example.com");
}

#[test]
fn key_it_resolves_pathes() {
    check("https://example.com/test//foo.html", "example.com/test/foo.html");
}

#[test]
fn key_it_remove_multiple_slashes() {
    check("http://example.com/one//two///three////four", "example.com/one/two/three/four");
}

#[test]
fn key_it_removes_hashes() {
    check("https://example.com#test", "example.com");
    check("https://example.com/test#test", "example.com/test");
    check("https://example.com/test.html/#test", "example.com/test.html");
}

#[test]
fn types_it_removes_schema() {
    check("http://example.com", "example.com");
}

#[test]
fn types_it_lowercases_all() {
    check("HTTP://Example.COM", "example.com");
    check("https://example.com/Test/Foo/bAr.HtMl", "example.com/test/foo/bar.html");
}

#[test]
fn types_it_removes_default_port() {
    check("http://example.com:80", "example.com");
    check("http://example.com:88", "example.com:88");
    check("https://example.com:443", "example.com");
    check("https://example.com:442", "example.com:442");
}

#[test]
fn types_it_removes_trailing_slash() {
    check("https://example.com/", "example.com");
    check("https://example.com/test/", "example.com/test");
}

#[test]
fn types_it_removes_www() {
    check("http://www.example.com", "example.com");
}

#[test]
fn types_it_resolves_pathes() {
    check("https://example.com/test//foo.html", "example.com/test/foo.html");
}

#[test]
fn types_it_remove_multiple_slashes() {
    check("http://example.com/one//two///three////four", "example.com/one/two/three/four");
}

#[test]
fn types_it_removes_hashes() {
    check("https://example.com#test", "example.com");
    check("https://example.com/test#test", "example.com/test");
    check("https://example.com/test.html/#test", "example.com/test.html");
}

#[test]
fn key_keeps_text_as_given() {
    let key = Key::from_string("Example.COM//x".to_string());
    assert_eq!(key.as_str(), "Example.COM//x");
}

#[test]
fn url_parse_rejects_text_that_is_no_url() {
    assert!(Url::parse("not a url").is_err());
    assert!(Url::parse("").is_err());
}

#[test]
fn url_parse_gives_parts() {
    let url = Url::parse("https://www.Example.com:8080/A//b/").unwrap();
    assert_eq!(url.host.as_deref(), Some("www.example.com"));
    assert_eq!(url.port, Some(8080));
    assert_eq!(url.path, "/A//b/");
    assert_eq!(url.as_str(), "https://www.example.com:8080/A//b/");
}

#[test]
fn key_strips_every_leading_www() {
    check("http://www.www.example.com/x", "example.com/x");
}

#[test]
fn key_of_url_without_host() {
    check("mailto:Someone@Example.com", "someone@example.com");
}
