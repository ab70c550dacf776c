use vstd::prelude::*;

verus! {

/// The claims of a verified identity token.
pub struct GoogleClaims {
    pub email: String,
    pub email_verified: bool,
    pub name: String,
    pub exp: usize,
}

/// The token of an `Authorization` header of the form `Bearer <token>`;
/// `None` when the scheme is not `Bearer ` or the token is empty.
pub fn bearer_token(header: &str) -> (r: Option<String>)
    ensures
        (header@.len() > 7 && header@.take(7) == "Bearer "@) ==> (r matches Some(t) && t@
            == header@.skip(7)),
        !(header@.len() > 7 && header@.take(7) == "Bearer "@) ==> r is None,
{
    let n = header.unicode_len();
    if n <= 7 {
        return None;
    }
    let prefix = header.substring_char(0, 7);
    let n_prefix = prefix.unicode_len();
    if !crate::record::span_is(prefix, 0, n_prefix, "Bearer ") {
        assert(prefix@.subrange(0, n_prefix as int) =~= prefix@);
        return None;
    }
    assert(prefix@.subrange(0, n_prefix as int) =~= prefix@);
    Some(String::from_str(header.substring_char(7, n)))
}

} // verus!
