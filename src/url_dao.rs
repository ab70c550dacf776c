use vstd::prelude::*;

verus! {

/// Where short links are stored and the base URL they are served under.
pub struct UrlDaoConfig {
    pub redis_urls_client_conn: String,
    pub default_base_url: String,
}

impl UrlDaoConfig {
    /// The base URL is `https://host` when cookies are secure, else
    /// `http://host`.
    pub fn new(redis_urls_client_conn: &str, cookie_secure: bool, default_base_host: &str) -> (r:
        UrlDaoConfig)
        ensures
            r.redis_urls_client_conn@ == redis_urls_client_conn@,
            r.default_base_url@ == (if cookie_secure {
                "https"@
            } else {
                "http"@
            }) + "://"@ + default_base_host@,
    {
        let mut base = if cookie_secure {
            String::from_str("https")
        } else {
            String::from_str("http")
        };
        base.append("://");
        base.append(default_base_host);
        UrlDaoConfig {
            redis_urls_client_conn: String::from_str(redis_urls_client_conn),
            default_base_url: base,
        }
    }
}

/// A short link: the base URL, the short identifier, and the full link.
pub struct MicroUrlInfo {
    pub base_url: String,
    pub id: String,
    pub micro_url: String,
}

impl MicroUrlInfo {
    /// The link `base_url/id`.
    pub fn new(base_url: &str, id: &str) -> (r: MicroUrlInfo)
        ensures
            r.base_url@ == base_url@,
            r.id@ == id@,
            r.micro_url@ == base_url@ + "/"@ + id@,
    {
        let mut micro_url = String::from_str(base_url);
        micro_url.append("/");
        micro_url.append(id);
        MicroUrlInfo { base_url: String::from_str(base_url), id: String::from_str(id), micro_url }
    }
}

} // verus!
