use s3_explorer::profile::{client_settings, ClientSettings, Profile, ProfileError};

fn profile(name: &str, region: &str, endpoint: &str, path_style: bool) -> Profile {
    Profile {
        name: name.to_string(),
        region: region.to_string(),
        endpoint: endpoint.to_string(),
        force_path_style: path_style,
    }
}

#[test]
fn settings_bind_profile_values() {
    let p = profile("work", "eu-central-1", "http://localhost:9000", true);
    let expected = ClientSettings {
        credentials_profile: "work".to_string(),
        region: "eu-central-1".to_string(),
        endpoint_url: Some("http://localhost:9000".to_string()),
        force_path_style: true,
    };
    assert_eq!(client_settings(&p), Ok(expected));
}

#[test]
fn empty_endpoint_leaves_resolution_to_provider() {
    let p = profile("default", "us-east-1", "", false);
    let s = client_settings(&p).unwrap();
    assert_eq!(s.endpoint_url, None);
    assert!(!s.force_path_style);
    assert_eq!(s.region, "us-east-1");
}

#[test]
fn empty_profile_name_is_refused() {
    let p = profile("", "us-east-1", "", false);
    assert_eq!(client_settings(&p), Err(ProfileError::EmptyName));
}
