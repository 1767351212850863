//! Connection profiles and the client configuration derived from them.
use vstd::prelude::*;

verus! {

/// One connection target, as the user interface describes it.
#[derive(Clone, Debug)]
pub struct Profile {
    /// Selects the named credential set; must not be empty.
    pub name: String,
    pub region: String,
    /// Endpoint URL; empty to use the provider's standard endpoint.
    pub endpoint: String,
    /// Address buckets in the URL path instead of the host name.
    pub force_path_style: bool,
}

/// Everything a storage client is bound to.
#[derive(PartialEq, Eq, Clone, Debug)]
pub struct ClientSettings {
    /// The named credential set to resolve.
    pub credentials_profile: String,
    pub region: String,
    /// `None` leaves endpoint resolution to the provider.
    pub endpoint_url: Option<String>,
    pub force_path_style: bool,
}

/// Why no client can be built for a profile.
#[derive(PartialEq, Eq, Structural, Clone, Copy, Debug)]
pub enum ProfileError {
    EmptyName,
}

/// `c` binds exactly what profile `p` gives: its name as credential
/// selector, its region, its endpoint (none when empty), and its
/// addressing style.
pub open spec fn settings_match(c: ClientSettings, p: Profile) -> bool {
    &&& c.credentials_profile@ == p.name@
    &&& c.region@ == p.region@
    &&& (p.endpoint@.len() == 0 ==> c.endpoint_url is None)
    &&& (p.endpoint@.len() > 0 ==> (c.endpoint_url matches Some(u) && u@ == p.endpoint@))
    &&& c.force_path_style == p.force_path_style
}

/// The client configuration for a profile, or `EmptyName` when the profile
/// names no credential set.
pub fn client_settings(profile: &Profile) -> (r: Result<ClientSettings, ProfileError>)
    ensures
        r is Err <==> profile.name@.len() == 0,
        r matches Err(e) ==> e == ProfileError::EmptyName,
        r matches Ok(c) ==> settings_match(c, *profile),
{
    if profile.name.as_str().is_empty() {
        return Err(ProfileError::EmptyName);
    }
    let endpoint_url = if profile.endpoint.as_str().is_empty() {
        None
    } else {
        Some(profile.endpoint.clone())
    };
    Ok(
        ClientSettings {
            credentials_profile: profile.name.clone(),
            region: profile.region.clone(),
            endpoint_url,
            force_path_style: profile.force_path_style,
        },
    )
}

} // verus!
