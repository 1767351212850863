use s3_explorer::credentials::{
    credentials_path, parse_credentials, Credential, CredentialField, CredentialsError,
};

fn cred(name: &str, id: &str, secret: &str) -> Credential {
    Credential {
        name: name.to_string(),
        aws_access_key_id: id.to_string(),
        aws_secret_access_key: secret.to_string(),
    }
}

#[test]
fn single_work_section() {
    let text = "[work]\naws_access_key_id = AKIAWORK\naws_secret_access_key = s3cr3t\n";
    assert_eq!(parse_credentials(text), Ok(vec![cred("work", "AKIAWORK", "s3cr3t")]));
}

#[test]
fn one_record_per_section() {
    let text = "# shared credentials\n[default]\naws_access_key_id=A1\naws_secret_access_key=S1\n\n\
                [dev]\r\naws_access_key_id = A2\r\naws_secret_access_key = S2\r\nregion = eu-west-1\r\n\
                ; staging\n[ staging ]\naws_secret_access_key=S3\naws_access_key_id=A3";
    let creds = parse_credentials(text).unwrap();
    assert_eq!(creds.len(), 3);
    assert_eq!(
        creds,
        vec![cred("default", "A1", "S1"), cred("dev", "A2", "S2"), cred("staging", "A3", "S3")]
    );
}

#[test]
fn missing_secret_fails_whole_parse() {
    let text = "[ok]\naws_access_key_id=A\naws_secret_access_key=S\n[broken]\naws_access_key_id=B\n";
    assert_eq!(
        parse_credentials(text),
        Err(CredentialsError::MissingField {
            profile: "broken".to_string(),
            field: CredentialField::SecretAccessKey,
        })
    );
}

#[test]
fn missing_access_key_is_reported_first() {
    let text = "[empty]\n";
    assert_eq!(
        parse_credentials(text),
        Err(CredentialsError::MissingField {
            profile: "empty".to_string(),
            field: CredentialField::AccessKeyId,
        })
    );
}

#[test]
fn empty_value_counts_as_missing() {
    let text = "[p]\naws_access_key_id=A\naws_secret_access_key =\n";
    assert_eq!(
        parse_credentials(text),
        Err(CredentialsError::MissingField {
            profile: "p".to_string(),
            field: CredentialField::SecretAccessKey,
        })
    );
}

#[test]
fn duplicate_section_keeps_last_values() {
    let text = "[default]\naws_access_key_id=OLD\naws_secret_access_key=OLDS\n\
                [default]\naws_access_key_id=NEW\naws_secret_access_key=NEWS\n";
    assert_eq!(parse_credentials(text), Ok(vec![cred("default", "NEW", "NEWS")]));
}

#[test]
fn duplicate_section_replaces_in_place() {
    let text = "[a]\naws_access_key_id=1\naws_secret_access_key=1\n\
                [b]\naws_access_key_id=2\naws_secret_access_key=2\n\
                [a]\naws_access_key_id=3\naws_secret_access_key=3\n";
    assert_eq!(parse_credentials(text), Ok(vec![cred("a", "3", "3"), cred("b", "2", "2")]));
}

#[test]
fn empty_text_has_no_credentials() {
    assert_eq!(parse_credentials(""), Ok(vec![]));
    assert_eq!(parse_credentials("; nothing here\n\n"), Ok(vec![]));
}

#[test]
fn entry_before_any_section_is_a_syntax_error() {
    let text = "\naws_access_key_id=A\n";
    assert_eq!(parse_credentials(text), Err(CredentialsError::Syntax(2)));
}

#[test]
fn unclosed_header_is_a_syntax_error() {
    let text = "[ok]\naws_access_key_id=A\naws_secret_access_key=S\n[bad\n";
    assert_eq!(parse_credentials(text), Err(CredentialsError::Syntax(4)));
}

#[test]
fn line_without_equals_is_a_syntax_error() {
    let text = "[p]\njust words\n";
    assert_eq!(parse_credentials(text), Err(CredentialsError::Syntax(2)));
}

#[test]
fn value_keeps_inner_equals_signs() {
    let text = "[p]\naws_access_key_id=A=B\naws_secret_access_key= x=y= \n";
    assert_eq!(parse_credentials(text), Ok(vec![cred("p", "A=B", "x=y=")]));
}

#[test]
fn given_path_is_used_as_is() {
    assert_eq!(
        credentials_path(Some("/etc/creds".to_string()), Some("/home/u".to_string())),
        Ok("/etc/creds".to_string())
    );
}

#[test]
fn default_path_under_home() {
    assert_eq!(
        credentials_path(None, Some("/home/u".to_string())),
        Ok("/home/u/.aws/credentials".to_string())
    );
    assert_eq!(
        credentials_path(None, Some("/home/u/".to_string())),
        Ok("/home/u/.aws/credentials".to_string())
    );
}

#[test]
fn no_home_directory_is_a_configuration_error() {
    assert_eq!(credentials_path(None, None), Err(CredentialsError::NoHomeDirectory));
}
