use utrakr::auth::bearer_token;
use utrakr::url_dao::{MicroUrlInfo, UrlDaoConfig};

#[test]
fn base_url_scheme() {
    let c = UrlDaoConfig::new("redis://127.0.0.1/", true, "example.com");
    assert_eq!(c.default_base_url, "https://example.com");
    assert_eq!(c.redis_urls_client_conn, "redis://127.0.0.1/");
    let c = UrlDaoConfig::new("redis://127.0.0.1/", false, "localhost:8080");
    assert_eq!(c.default_base_url, "http://localhost:8080");
}

#[test]
fn micro_url_joins_base_and_id() {
    let info = MicroUrlInfo::new("http://localhost:8080", "abcdefgh");
    assert_eq!(info.micro_url, "http://localhost:8080/abcdefgh");
    assert_eq!(info.base_url, "http://localhost:8080");
    assert_eq!(info.id, "abcdefgh");
}

#[test]
fn bearer_tokens() {
    assert_eq!(bearer_token("Bearer abc.def"), Some("abc.def".to_string()));
    assert_eq!(bearer_token("Bearer "), None);
    assert_eq!(bearer_token("Basic abc"), None);
    assert_eq!(bearer_token("bearer abc"), None);
}
