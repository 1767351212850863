use aws_sdk_s3::primitives::{DateTime, DateTimeFormat};
use s3_explorer::gateway::{
    bucket_from_acl_reply, buckets_from_reply, objects_from_reply, AclListing, BucketEntry,
    BucketListing, Fault, GatewayError, ObjectListing, RawBucket, RawGrant, RawObject,
    StorageObject,
};

fn secs(stamp: &str) -> i64 {
    DateTime::from_str(stamp, DateTimeFormat::DateTime).unwrap().secs()
}

fn bucket(name: &str, created: i64) -> RawBucket {
    RawBucket { name: Some(name.to_string()), creation_date: Some(created) }
}

fn object(key: &str, size: i64, modified: i64) -> RawObject {
    RawObject { key: Some(key.to_string()), size: Some(size), last_modified: Some(modified) }
}

fn grant(who: &str, perm: &str) -> RawGrant {
    RawGrant { grantee: Some(who.to_string()), permission: Some(perm.to_string()) }
}

const ALL_USERS: &str = "http://acs.amazonaws.com/groups/global/AllUsers";
const AUTH_USERS: &str = "http://acs.amazonaws.com/groups/global/AuthenticatedUsers";

#[test]
fn bucket_listing_round_trip_keeps_order() {
    let reply = Ok(BucketListing {
        buckets: Some(vec![
            bucket("a", secs("2021-01-01T00:00:00Z")),
            bucket("b", secs("2022-06-15T12:00:00Z")),
        ]),
    });
    let expected = vec![
        BucketEntry { name: "a".to_string(), creation_date: 1609459200, acl: None, grants: None },
        BucketEntry { name: "b".to_string(), creation_date: 1655294400, acl: None, grants: None },
    ];
    assert_eq!(buckets_from_reply(&reply), Ok(expected));
}

#[test]
fn bucket_listing_failure_is_upstream() {
    let reply: Result<BucketListing, String> = Err("connection refused".to_string());
    assert_eq!(
        buckets_from_reply(&reply),
        Err(GatewayError::Upstream("connection refused".to_string()))
    );
}

#[test]
fn bucket_listing_without_collection_is_malformed() {
    let reply = Ok(BucketListing { buckets: None });
    assert_eq!(buckets_from_reply(&reply), Err(GatewayError::Malformed(Fault::Buckets)));
}

#[test]
fn bucket_without_name_fails_whole_listing() {
    let reply = Ok(BucketListing {
        buckets: Some(vec![
            bucket("a", 1),
            RawBucket { name: None, creation_date: Some(2) },
            RawBucket { name: Some("c".to_string()), creation_date: None },
        ]),
    });
    assert_eq!(buckets_from_reply(&reply), Err(GatewayError::Malformed(Fault::BucketName)));
}

#[test]
fn bucket_without_creation_date_is_malformed() {
    let reply = Ok(BucketListing {
        buckets: Some(vec![RawBucket { name: Some("a".to_string()), creation_date: None }]),
    });
    assert_eq!(buckets_from_reply(&reply), Err(GatewayError::Malformed(Fault::CreationDate)));
}

#[test]
fn empty_bucket_without_contents_lists_nothing() {
    let reply = Ok(ObjectListing { contents: None });
    assert_eq!(objects_from_reply(&reply), Ok(vec![]));
}

#[test]
fn empty_bucket_with_empty_contents_lists_nothing() {
    let reply = Ok(ObjectListing { contents: Some(vec![]) });
    assert_eq!(objects_from_reply(&reply), Ok(vec![]));
}

#[test]
fn objects_keep_reply_order() {
    let reply = Ok(ObjectListing {
        contents: Some(vec![object("z.txt", 10, 100), object("a.txt", 0, 200)]),
    });
    let expected = vec![
        StorageObject { name: "z.txt".to_string(), size: 10, last_modified: 100 },
        StorageObject { name: "a.txt".to_string(), size: 0, last_modified: 200 },
    ];
    assert_eq!(objects_from_reply(&reply), Ok(expected));
}

#[test]
fn object_listing_failure_is_upstream() {
    let reply: Result<ObjectListing, String> = Err("access denied".to_string());
    assert_eq!(objects_from_reply(&reply), Err(GatewayError::Upstream("access denied".to_string())));
}

#[test]
fn object_faults_are_named() {
    let no_key = RawObject { key: None, size: Some(1), last_modified: Some(1) };
    let no_size = RawObject { key: Some("k".to_string()), size: None, last_modified: Some(1) };
    let negative = RawObject { key: Some("k".to_string()), size: Some(-1), last_modified: Some(1) };
    let no_time = RawObject { key: Some("k".to_string()), size: Some(1), last_modified: None };
    let cases = vec![
        (no_key, Fault::ObjectKey),
        (no_size, Fault::ObjectSize),
        (negative, Fault::NegativeObjectSize),
        (no_time, Fault::LastModified),
    ];
    for (raw, fault) in cases {
        let reply = Ok(ObjectListing { contents: Some(vec![object("ok", 1, 1), raw]) });
        assert_eq!(objects_from_reply(&reply), Err(GatewayError::Malformed(fault)));
    }
}

#[test]
fn private_acl_lists_grants() {
    let reply = Ok(AclListing { grants: Some(vec![grant("owner-id", "FULL_CONTROL")]) });
    let expected = BucketEntry {
        name: "photos".to_string(),
        creation_date: 0,
        acl: Some("private".to_string()),
        grants: Some(vec!["owner-id:FULL_CONTROL".to_string()]),
    };
    assert_eq!(bucket_from_acl_reply("photos", &reply), Ok(expected));
}

#[test]
fn public_read_acl() {
    let reply = Ok(AclListing {
        grants: Some(vec![grant("owner-id", "FULL_CONTROL"), grant(ALL_USERS, "READ")]),
    });
    let entry = bucket_from_acl_reply("site", &reply).unwrap();
    assert_eq!(entry.acl, Some("public-read".to_string()));
    assert_eq!(
        entry.grants,
        Some(vec!["owner-id:FULL_CONTROL".to_string(), format!("{ALL_USERS}:READ")])
    );
}

#[test]
fn public_read_write_acl() {
    let reply = Ok(AclListing {
        grants: Some(vec![grant(ALL_USERS, "READ"), grant(ALL_USERS, "WRITE")]),
    });
    let entry = bucket_from_acl_reply("open", &reply).unwrap();
    assert_eq!(entry.acl, Some("public-read-write".to_string()));
}

#[test]
fn full_control_for_everyone_is_public_read_write() {
    let reply = Ok(AclListing { grants: Some(vec![grant(ALL_USERS, "FULL_CONTROL")]) });
    let entry = bucket_from_acl_reply("open", &reply).unwrap();
    assert_eq!(entry.acl, Some("public-read-write".to_string()));
}

#[test]
fn authenticated_read_acl() {
    let reply = Ok(AclListing { grants: Some(vec![grant(AUTH_USERS, "READ")]) });
    let entry = bucket_from_acl_reply("team", &reply).unwrap();
    assert_eq!(entry.acl, Some("authenticated-read".to_string()));
}

#[test]
fn acl_without_grants_is_private() {
    let reply = Ok(AclListing { grants: None });
    let entry = bucket_from_acl_reply("b", &reply).unwrap();
    assert_eq!(entry.acl, Some("private".to_string()));
    assert_eq!(entry.grants, Some(vec![]));
    assert_eq!(entry.name, "b");
}

#[test]
fn acl_failure_is_upstream() {
    let reply: Result<AclListing, String> = Err("no such bucket".to_string());
    assert_eq!(
        bucket_from_acl_reply("b", &reply),
        Err(GatewayError::Upstream("no such bucket".to_string()))
    );
}

#[test]
fn incomplete_grants_are_malformed() {
    let no_grantee = Ok(AclListing {
        grants: Some(vec![RawGrant { grantee: None, permission: Some("READ".to_string()) }]),
    });
    assert_eq!(
        bucket_from_acl_reply("b", &no_grantee),
        Err(GatewayError::Malformed(Fault::Grantee))
    );
    let no_permission = Ok(AclListing {
        grants: Some(vec![RawGrant { grantee: Some("id".to_string()), permission: None }]),
    });
    assert_eq!(
        bucket_from_acl_reply("b", &no_permission),
        Err(GatewayError::Malformed(Fault::Permission))
    );
}
