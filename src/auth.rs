use vstd::prelude::*;

verus! {

/// A login request.
#[derive(Debug, Clone)]
pub struct UserAuth {
    pub username: String,
    pub password: String,
}

/// What a successful login hands the client: the access token and who it
/// belongs to.
#[derive(Debug, Clone)]
pub struct AuthBody {
    pub access_token: String,
    /// How the token is presented in the `Authorization` header.
    pub token_type: String,
    pub username: String,
    pub role: String,
    pub organisation: String,
}

impl AuthBody {
    /// A bearer-token body for `access_token`.
    pub fn new(access_token: String, username: String, role: String, organisation: String) -> (r: AuthBody)
        ensures
            r.access_token == access_token,
            r.token_type@ == "Bearer "@,
            r.username == username,
            r.role == role,
            r.organisation == organisation,
    {
        let token_type = String::from_str("Bearer ");
        proof {
            reveal_strlit("Bearer ");
        }
        AuthBody { access_token, token_type, username, role, organisation }
    }
}

} // verus!
