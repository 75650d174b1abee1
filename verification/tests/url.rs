use saba_core::url::Url;

fn parts(url: &Url) -> [String; 5] {
    [url.url(), url.host(), url.port(), url.path(), url.searchpart()]
}

fn expected(url: &str, host: &str, port: &str, path: &str, searchpart: &str) -> [String; 5] {
    [
        url.to_string(),
        host.to_string(),
        port.to_string(),
        path.to_string(),
        searchpart.to_string(),
    ]
}

#[test]
fn test_url_host() {
    let url = "http://example.com".to_string();
    let expected = expected(&url, "example.com", "80", "", "");
    assert_eq!(expected, parts(&Url::new(url).unwrap()))
}

#[test]
fn test_url_port() {
    let url = "http://example.com:8888".to_string();
    let expected = expected(&url, "example.com", "8888", "", "");
    assert_eq!(expected, parts(&Url::new(url).unwrap()))
}

#[test]
fn test_url_host_port_path() {
    let url = "http://example.com:8888/index.html".to_string();
    let expected = expected(&url, "example.com", "8888", "index.html", "");
    assert_eq!(expected, parts(&Url::new(url).unwrap()))
}

#[test]
fn test_url_host_port_path_seachquery() {
    let url = "http://example.com:8888/index.html?a=123&b=456".to_string();
    let expected = expected(&url, "example.com", "8888", "index.html", "a=123&b=456");
    assert_eq!(expected, parts(&Url::new(url).unwrap()))
}

#[test]
fn test_no_scheme() {
    let url = "example.com".to_string();
    let expected = Err("Invalid scheme.".to_string());
    assert_eq!(expected, Url::new(url))
}

#[test]
fn test_unsupported_scheme() {
    let url = "https://example.com/".to_string();
    let expected = Err("Invalid scheme.".to_string());
    assert_eq!(expected, Url::new(url))
}

#[test]
fn scheme_is_matched_as_written() {
    assert!(Url::new("HTTP://example.com".to_string()).is_err());
    assert!(Url::new("http:/example.com".to_string()).is_err());
    assert!(Url::new(" http://example.com".to_string()).is_err());
    assert!(Url::new("".to_string()).is_err());
    assert!(Url::new("http://".to_string()).is_ok());
}

#[test]
fn colon_behind_the_path_is_no_port() {
    let url = "http://example.com/a:b?c:d".to_string();
    let expected = expected(&url, "example.com", "80", "a:b", "c:d");
    assert_eq!(expected, parts(&Url::new(url).unwrap()))
}

#[test]
fn empty_parts() {
    let url = "http://:/?".to_string();
    let expected = expected(&url, "", "", "", "");
    assert_eq!(expected, parts(&Url::new(url).unwrap()))
}

#[test]
fn path_runs_to_the_first_question_mark() {
    let url = "http://example.com:80/a/b/c?x=/y?z".to_string();
    let expected = expected(&url, "example.com", "80", "a/b/c", "x=/y?z");
    assert_eq!(expected, parts(&Url::new(url).unwrap()))
}

#[test]
fn question_mark_before_the_path() {
    let url = "http://example.com?a=1/b".to_string();
    let expected = expected(&url, "example.com?a=1", "80", "b", "a=1/b");
    assert_eq!(expected, parts(&Url::new(url).unwrap()))
}

#[test]
fn clone_keeps_the_parts() {
    let url = Url::new("http://example.com:8888/index.html?a=1".to_string()).unwrap();
    assert_eq!(url, url.clone());
}
