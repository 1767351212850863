//! Normalisation of storage API responses into stable records.
//!
//! The transport hands over each response as plain values (`Raw*` records
//! whose fields may be absent). The functions here validate every field the
//! output needs and either build the whole output or report why not: no
//! partial result ever leaves on error.
use vstd::prelude::*;
use crate::text::text_is;

verus! {

/// Which required part of a successful response was absent or unusable.
#[derive(PartialEq, Eq, Structural, Clone, Copy, Debug)]
pub enum Fault {
    /// The bucket listing had no bucket collection at all.
    Buckets,
    BucketName,
    CreationDate,
    ObjectKey,
    ObjectSize,
    /// An object size below zero.
    NegativeObjectSize,
    LastModified,
    Grantee,
    Permission,
}

/// Why a storage operation produced no result.
#[derive(PartialEq, Eq, Clone, Debug)]
pub enum GatewayError {
    /// The call itself failed; the transport's message is kept verbatim.
    Upstream(String),
    /// The call succeeded but the response lacks what the mapping needs.
    Malformed(Fault),
}

/// One bucket as the listing call reported it.
#[derive(Clone, Debug)]
pub struct RawBucket {
    pub name: Option<String>,
    /// Creation time in seconds since the Unix epoch.
    pub creation_date: Option<i64>,
}

/// A successful bucket-listing response.
#[derive(Clone, Debug)]
pub struct BucketListing {
    pub buckets: Option<Vec<RawBucket>>,
}

/// A bucket as handed to the user interface.
#[derive(PartialEq, Eq, Clone, Debug)]
pub struct BucketEntry {
    pub name: String,
    /// Creation time in seconds since the Unix epoch.
    pub creation_date: i64,
    /// Canonical access-control label, when it was looked up.
    pub acl: Option<String>,
    /// `grantee:permission` texts in response order, when they were looked up.
    pub grants: Option<Vec<String>>,
}

/// The first field a bucket record lacks, if any.
pub open spec fn bucket_fault(b: RawBucket) -> Option<Fault> {
    if b.name is None {
        Some(Fault::BucketName)
    } else if b.creation_date is None {
        Some(Fault::CreationDate)
    } else {
        None
    }
}

/// `e` is the entry built from the complete bucket record `b`.
pub open spec fn entry_of_bucket(e: BucketEntry, b: RawBucket) -> bool {
    &&& b.name matches Some(n) && e.name@ == n@
    &&& b.creation_date == Some(e.creation_date)
    &&& e.acl is None
    &&& e.grants is None
}

/// Outcome of a bucket listing whose reply carried a bucket collection.
pub open spec fn buckets_mapped(
    bs: Seq<RawBucket>,
    r: Result<Vec<BucketEntry>, GatewayError>,
) -> bool {
    match r {
        Ok(v) => {
            &&& forall|i: int| 0 <= i < bs.len() ==> bucket_fault(#[trigger] bs[i]) is None
            &&& v@.len() == bs.len()
            &&& forall|i: int| 0 <= i < bs.len() ==> entry_of_bucket(#[trigger] v@[i], bs[i])
        },
        Err(e) => exists|i: int|
            {
                &&& 0 <= i < bs.len()
                &&& forall|j: int| 0 <= j < i ==> bucket_fault(#[trigger] bs[j]) is None
                &&& e matches GatewayError::Malformed(f) && #[trigger] bucket_fault(bs[i]) == Some(f)
            },
    }
}

/// Maps a bucket-listing reply: a transport failure becomes `Upstream`, a
/// reply without a bucket collection or with an incomplete bucket becomes
/// `Malformed`, and otherwise every bucket is kept, in reply order, with its
/// access-control fields unset.
pub fn buckets_from_reply(reply: &Result<BucketListing, String>) -> (r: Result<
    Vec<BucketEntry>,
    GatewayError,
>)
    ensures
        reply matches Err(m) ==> (r matches Err(GatewayError::Upstream(t)) && t@ == m@),
        reply matches Ok(l) ==> match l.buckets {
            None => r == Err::<Vec<BucketEntry>, GatewayError>(GatewayError::Malformed(Fault::Buckets)),
            Some(bs) => buckets_mapped(bs@, r),
        },
{
    match reply {
        Err(m) => Err(GatewayError::Upstream(m.clone())),
        Ok(l) => match &l.buckets {
            None => Err(GatewayError::Malformed(Fault::Buckets)),
            Some(bs) => map_buckets(bs),
        },
    }
}

fn map_buckets(bs: &Vec<RawBucket>) -> (r: Result<Vec<BucketEntry>, GatewayError>)
    ensures
        buckets_mapped(bs@, r),
{
    let mut out: Vec<BucketEntry> = Vec::new();
    let mut i: usize = 0;
    while i < bs.len()
        invariant
            i <= bs@.len(),
            out@.len() == i,
            forall|j: int| 0 <= j < i ==> bucket_fault(#[trigger] bs@[j]) is None,
            forall|j: int| 0 <= j < i ==> entry_of_bucket(#[trigger] out@[j], bs@[j]),
        decreases bs@.len() - i,
    {
        let b = &bs[i];
        let name = match &b.name {
            Some(n) => n.clone(),
            None => {
                assert(bucket_fault(bs@[i as int]) == Some(Fault::BucketName));
                return Err(GatewayError::Malformed(Fault::BucketName));
            },
        };
        let creation_date = match b.creation_date {
            Some(d) => d,
            None => {
                assert(bucket_fault(bs@[i as int]) == Some(Fault::CreationDate));
                return Err(GatewayError::Malformed(Fault::CreationDate));
            },
        };
        out.push(BucketEntry { name, creation_date, acl: None, grants: None });
        i += 1;
    }
    Ok(out)
}

/// One object as the listing call reported it.
#[derive(Clone, Debug)]
pub struct RawObject {
    pub key: Option<String>,
    pub size: Option<i64>,
    /// Last modification time in seconds since the Unix epoch.
    pub last_modified: Option<i64>,
}

/// A successful object-listing response. An empty bucket's reply may omit
/// the contents altogether.
#[derive(Clone, Debug)]
pub struct ObjectListing {
    pub contents: Option<Vec<RawObject>>,
}

/// An object as handed to the user interface.
#[derive(PartialEq, Eq, Clone, Debug)]
pub struct StorageObject {
    /// The object key.
    pub name: String,
    pub size: u64,
    /// Last modification time in seconds since the Unix epoch.
    pub last_modified: i64,
}

/// The first field an object record lacks or holds out of range, if any.
pub open spec fn object_fault(o: RawObject) -> Option<Fault> {
    if o.key is None {
        Some(Fault::ObjectKey)
    } else if o.size is None {
        Some(Fault::ObjectSize)
    } else if o.size->0 < 0 {
        Some(Fault::NegativeObjectSize)
    } else if o.last_modified is None {
        Some(Fault::LastModified)
    } else {
        None
    }
}

/// `s` is the record built from the complete object record `o`.
pub open spec fn entry_of_object(s: StorageObject, o: RawObject) -> bool {
    &&& o.key matches Some(k) && s.name@ == k@
    &&& o.size == Some(s.size as i64)
    &&& o.last_modified == Some(s.last_modified)
}

/// Outcome of an object listing over the reported records `os`.
pub open spec fn objects_mapped(
    os: Seq<RawObject>,
    r: Result<Vec<StorageObject>, GatewayError>,
) -> bool {
    match r {
        Ok(v) => {
            &&& forall|i: int| 0 <= i < os.len() ==> object_fault(#[trigger] os[i]) is None
            &&& v@.len() == os.len()
            &&& forall|i: int| 0 <= i < os.len() ==> entry_of_object(#[trigger] v@[i], os[i])
        },
        Err(e) => exists|i: int|
            {
                &&& 0 <= i < os.len()
                &&& forall|j: int| 0 <= j < i ==> object_fault(#[trigger] os[j]) is None
                &&& e matches GatewayError::Malformed(f) && #[trigger] object_fault(os[i]) == Some(f)
            },
    }
}

/// Maps an object-listing reply: a transport failure becomes `Upstream`; a
/// reply without contents is an empty bucket and gives an empty list; an
/// incomplete record gives `Malformed`; otherwise every object is kept in
/// reply order.
pub fn objects_from_reply(reply: &Result<ObjectListing, String>) -> (r: Result<
    Vec<StorageObject>,
    GatewayError,
>)
    ensures
        reply matches Err(m) ==> (r matches Err(GatewayError::Upstream(t)) && t@ == m@),
        reply matches Ok(l) ==> match l.contents {
            None => r matches Ok(v) && v@.len() == 0,
            Some(os) => objects_mapped(os@, r),
        },
{
    match reply {
        Err(m) => Err(GatewayError::Upstream(m.clone())),
        Ok(l) => match &l.contents {
            None => Ok(Vec::new()),
            Some(os) => map_objects(os),
        },
    }
}

/// A reply whose object list is empty maps to an empty list, never to an
/// error.
pub proof fn lemma_empty_listing_is_ok(r: Result<Vec<StorageObject>, GatewayError>)
    requires
        objects_mapped(Seq::empty(), r),
    ensures
        r matches Ok(v) && v@.len() == 0,
{
}

fn map_objects(os: &Vec<RawObject>) -> (r: Result<Vec<StorageObject>, GatewayError>)
    ensures
        objects_mapped(os@, r),
{
    let mut out: Vec<StorageObject> = Vec::new();
    let mut i: usize = 0;
    while i < os.len()
        invariant
            i <= os@.len(),
            out@.len() == i,
            forall|j: int| 0 <= j < i ==> object_fault(#[trigger] os@[j]) is None,
            forall|j: int| 0 <= j < i ==> entry_of_object(#[trigger] out@[j], os@[j]),
        decreases os@.len() - i,
    {
        let o = &os[i];
        let name = match &o.key {
            Some(k) => k.clone(),
            None => {
                assert(object_fault(os@[i as int]) == Some(Fault::ObjectKey));
                return Err(GatewayError::Malformed(Fault::ObjectKey));
            },
        };
        let size = match o.size {
            Some(n) => {
                if n < 0 {
                    assert(object_fault(os@[i as int]) == Some(Fault::NegativeObjectSize));
                    return Err(GatewayError::Malformed(Fault::NegativeObjectSize));
                }
                n as u64
            },
            None => {
                assert(object_fault(os@[i as int]) == Some(Fault::ObjectSize));
                return Err(GatewayError::Malformed(Fault::ObjectSize));
            },
        };
        let last_modified = match o.last_modified {
            Some(t) => t,
            None => {
                assert(object_fault(os@[i as int]) == Some(Fault::LastModified));
                return Err(GatewayError::Malformed(Fault::LastModified));
            },
        };
        out.push(StorageObject { name, size, last_modified });
        i += 1;
    }
    Ok(out)
}

/// One access grant as the access-control call reported it. The grantee is
/// its identifier: a canonical user id, a group URI, or an e-mail address.
#[derive(Clone, Debug)]
pub struct RawGrant {
    pub grantee: Option<String>,
    pub permission: Option<String>,
}

/// A successful bucket access-control response.
#[derive(Clone, Debug)]
pub struct AclListing {
    pub grants: Option<Vec<RawGrant>>,
}

/// Group that stands for everyone.
pub open spec fn all_users() -> Seq<char> {
    "http://acs.amazonaws.com/groups/global/AllUsers"@
}

/// Group that stands for every authenticated account.
pub open spec fn authenticated_users() -> Seq<char> {
    "http://acs.amazonaws.com/groups/global/AuthenticatedUsers"@
}

/// The grants of a reply; an absent list is an empty one.
pub open spec fn grants_of(l: AclListing) -> Seq<RawGrant> {
    match l.grants {
        Some(gs) => gs@,
        None => Seq::empty(),
    }
}

/// The first field a grant record lacks, if any.
pub open spec fn grant_fault(g: RawGrant) -> Option<Fault> {
    if g.grantee is None {
        Some(Fault::Grantee)
    } else if g.permission is None {
        Some(Fault::Permission)
    } else {
        None
    }
}

/// `grantee:permission` for a complete grant.
pub open spec fn grant_text(g: RawGrant) -> Seq<char> {
    g.grantee->0@ + ":"@ + g.permission->0@
}

/// Whether grant `g` gives `who` the permission `perm`, directly or through
/// full control.
pub open spec fn grant_allows(g: RawGrant, who: Seq<char>, perm: Seq<char>) -> bool {
    &&& g.grantee matches Some(n) && n@ == who
    &&& g.permission matches Some(p) && (p@ == perm || p@ == "FULL_CONTROL"@)
}

pub open spec fn some_grant_allows(gs: Seq<RawGrant>, who: Seq<char>, perm: Seq<char>) -> bool {
    exists|i: int| 0 <= i < gs.len() && grant_allows(#[trigger] gs[i], who, perm)
}

/// The canned ACL that the grants amount to, from the most open down.
pub open spec fn acl_label(gs: Seq<RawGrant>) -> Seq<char> {
    if some_grant_allows(gs, all_users(), "WRITE"@) {
        "public-read-write"@
    } else if some_grant_allows(gs, all_users(), "READ"@) {
        "public-read"@
    } else if some_grant_allows(gs, authenticated_users(), "READ"@) {
        "authenticated-read"@
    } else {
        "private"@
    }
}

/// Outcome of translating the grants `gs` of bucket `bucket`.
pub open spec fn acl_mapped(
    bucket: Seq<char>,
    gs: Seq<RawGrant>,
    r: Result<BucketEntry, GatewayError>,
) -> bool {
    match r {
        Ok(e) => {
            &&& forall|i: int| 0 <= i < gs.len() ==> grant_fault(#[trigger] gs[i]) is None
            &&& e.name@ == bucket
            &&& e.creation_date == 0
            &&& e.acl matches Some(a) && a@ == acl_label(gs)
            &&& e.grants matches Some(ts) && ts@.len() == gs.len() && forall|i: int|
                0 <= i < gs.len() ==> (#[trigger] ts@[i])@ == grant_text(gs[i])
        },
        Err(e) => exists|i: int|
            {
                &&& 0 <= i < gs.len()
                &&& forall|j: int| 0 <= j < i ==> grant_fault(#[trigger] gs[j]) is None
                &&& e matches GatewayError::Malformed(f) && #[trigger] grant_fault(gs[i]) == Some(f)
            },
    }
}

/// Maps an access-control reply for `bucket` into its metadata record: a
/// transport failure becomes `Upstream`, an incomplete grant `Malformed`;
/// otherwise the record carries the canned ACL label and every grant as
/// `grantee:permission`, in reply order. The creation time is not part of
/// this reply and is left at zero.
pub fn bucket_from_acl_reply(bucket: &str, reply: &Result<AclListing, String>) -> (r: Result<
    BucketEntry,
    GatewayError,
>)
    ensures
        reply matches Err(m) ==> (r matches Err(GatewayError::Upstream(t)) && t@ == m@),
        reply matches Ok(l) ==> acl_mapped(bucket@, grants_of(*l), r),
{
    match reply {
        Err(m) => Err(GatewayError::Upstream(m.clone())),
        Ok(l) => match &l.grants {
            Some(gs) => map_grants(bucket, gs),
            None => {
                let empty: Vec<RawGrant> = Vec::new();
                map_grants(bucket, &empty)
            },
        },
    }
}

fn allows(g: &RawGrant, who: &str, perm: &str) -> (r: bool)
    ensures
        r == grant_allows(*g, who@, perm@),
{
    match (&g.grantee, &g.permission) {
        (Some(n), Some(p)) => text_is(n, who) && (text_is(p, perm) || text_is(p, "FULL_CONTROL")),
        _ => false,
    }
}

fn map_grants(bucket: &str, gs: &Vec<RawGrant>) -> (r: Result<BucketEntry, GatewayError>)
    ensures
        acl_mapped(bucket@, gs@, r),
{
    let mut texts: Vec<String> = Vec::new();
    let mut public_write = false;
    let mut public_read = false;
    let mut authenticated_read = false;
    let mut i: usize = 0;
    while i < gs.len()
        invariant
            i <= gs@.len(),
            texts@.len() == i,
            forall|j: int| 0 <= j < i ==> grant_fault(#[trigger] gs@[j]) is None,
            forall|j: int| 0 <= j < i ==> (#[trigger] texts@[j])@ == grant_text(gs@[j]),
            public_write == some_grant_allows(gs@.take(i as int), all_users(), "WRITE"@),
            public_read == some_grant_allows(gs@.take(i as int), all_users(), "READ"@),
            authenticated_read == some_grant_allows(
                gs@.take(i as int),
                authenticated_users(),
                "READ"@,
            ),
        decreases gs@.len() - i,
    {
        let g = &gs[i];
        let grantee = match &g.grantee {
            Some(n) => n,
            None => {
                assert(grant_fault(gs@[i as int]) == Some(Fault::Grantee));
                return Err(GatewayError::Malformed(Fault::Grantee));
            },
        };
        let permission = match &g.permission {
            Some(p) => p,
            None => {
                assert(grant_fault(gs@[i as int]) == Some(Fault::Permission));
                return Err(GatewayError::Malformed(Fault::Permission));
            },
        };
        let text = grantee.clone().concat(":").concat(permission.as_str());
        let w = allows(g, "http://acs.amazonaws.com/groups/global/AllUsers", "WRITE");
        let rd = allows(g, "http://acs.amazonaws.com/groups/global/AllUsers", "READ");
        let ar = allows(g, "http://acs.amazonaws.com/groups/global/AuthenticatedUsers", "READ");
        proof {
            let pre = gs@.take(i as int);
            let post = gs@.take(i + 1);
            assert(post == pre.push(gs@[i as int]));
            assert forall|who: Seq<char>, perm: Seq<char>|
                some_grant_allows(post, who, perm) == (some_grant_allows(pre, who, perm)
                    || grant_allows(gs@[i as int], who, perm)) by {
                if some_grant_allows(pre, who, perm) {
                    let k = choose|k: int| 0 <= k < pre.len() && grant_allows(pre[k], who, perm);
                    assert(post[k] == pre[k]);
                }
                if grant_allows(gs@[i as int], who, perm) {
                    assert(post[i as int] == gs@[i as int]);
                }
                if some_grant_allows(post, who, perm) {
                    let k = choose|k: int| 0 <= k < post.len() && grant_allows(post[k], who, perm);
                    if k < i {
                        assert(pre[k] == post[k]);
                    }
                }
            }
        }
        public_write = public_write || w;
        public_read = public_read || rd;
        authenticated_read = authenticated_read || ar;
        texts.push(text);
        i += 1;
    }
    assert(gs@.take(gs@.len() as int) == gs@);
    let acl = if public_write {
        String::from_str("public-read-write")
    } else if public_read {
        String::from_str("public-read")
    } else if authenticated_read {
        String::from_str("authenticated-read")
    } else {
        String::from_str("private")
    };
    Ok(
        BucketEntry {
            name: String::from_str(bucket),
            creation_date: 0,
            acl: Some(acl),
            grants: Some(texts),
        },
    )
}

} // verus!
