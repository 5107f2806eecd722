//! Decisions of the management interface: which handler a request path
//! names, and what a reload request does.

use std::borrow::Cow;
use vstd::prelude::*;
use vstd::slice::slice_subrange;
use vstd::string::StringSliceAdditionalSpecFns;
use vstd::std_specs::convert::FromSpecImpl;
use crate::codec::bytes_equal;
use crate::text::{find, find_from, nth_piece, piece};

verus! {

/// What the management interface reports when a request cannot be served.
pub enum ManagementApiError {
    FieldAlreadyExists { field: Cow<'static, str>, value: Cow<'static, str> },
    FieldMissing { field: Cow<'static, str> },
    NotFound { item: Cow<'static, str> },
    Unsupported { details: Cow<'static, str> },
    AssertFailed,
    Other { details: Cow<'static, str> },
    UnsupportedDirectoryOperation { class: Cow<'static, str> },
}

impl From<Cow<'static, str>> for ManagementApiError {
    fn from(details: Cow<'static, str>) -> (r: ManagementApiError) {
        ManagementApiError::Other { details }
    }
}

impl FromSpecImpl<Cow<'static, str>> for ManagementApiError {
    open spec fn obeys_from_spec() -> bool {
        true
    }

    open spec fn from_spec(details: Cow<'static, str>) -> ManagementApiError {
        ManagementApiError::Other { details }
    }
}

impl From<String> for ManagementApiError {
    fn from(details: String) -> (r: ManagementApiError) {
        ManagementApiError::Other { details: Cow::Owned(details) }
    }
}

impl FromSpecImpl<String> for ManagementApiError {
    open spec fn obeys_from_spec() -> bool {
        true
    }

    open spec fn from_spec(details: String) -> ManagementApiError {
        ManagementApiError::Other { details: Cow::Owned(details) }
    }
}

/// The byte that parts the segments of a path.
pub const SLASH: u8 = 0x2F;

/// The byte that parts the parameters of a query.
pub const AMPERSAND: u8 = 0x26;

/// The byte that parts a parameter's name from its value.
pub const EQUALS: u8 = 0x3D;

/// A request method, as far as the management interface tells them apart.
#[derive(Debug, Clone, Copy, PartialEq, Eq, Structural)]
pub enum HttpMethod {
    Get,
    Post,
    Other,
}

/// The handler that a management request goes to.
#[derive(Debug, Clone, Copy, PartialEq, Eq, Structural)]
pub enum ManageRoute {
    Principal,
    Domain,
    Store,
    Reload,
    Settings,
    Queue,
    Reports,
    OAuth,
    CryptoPost,
    CryptoGet,
    ChangePassword,
    NotFound,
}

/// What a reload request asks to be read again.
#[derive(Debug, Clone, Copy, PartialEq, Eq, Structural)]
pub enum ReloadAction {
    Lookups,
    Certificates,
    BlockedIps,
    Everything,
    NotFound,
}

/// The `n`-th segment of a path, counted from zero, where the text before
/// the first slash is segment zero; empty where the path has no such segment.
pub open spec fn segment(path: Seq<u8>, n: nat) -> Seq<u8> {
    match piece(path, SLASH, n) {
        Some(p) => p,
        None => Seq::empty(),
    }
}

/// The handler for a path, by the segment after the interface's own prefix
/// (segment two). The administrative sections are open to a superuser only;
/// to anyone else they do not exist.
pub open spec fn manage_route(
    path: Seq<u8>,
    is_superuser: bool,
    method: HttpMethod,
) -> ManageRoute {
    let section = segment(path, 2);
    if is_superuser && section == "principal".spec_bytes() {
        ManageRoute::Principal
    } else if is_superuser && section == "domain".spec_bytes() {
        ManageRoute::Domain
    } else if is_superuser && section == "store".spec_bytes() {
        ManageRoute::Store
    } else if is_superuser && section == "reload".spec_bytes() {
        ManageRoute::Reload
    } else if is_superuser && section == "settings".spec_bytes() {
        ManageRoute::Settings
    } else if is_superuser && section == "queue".spec_bytes() {
        ManageRoute::Queue
    } else if is_superuser && section == "reports".spec_bytes() {
        ManageRoute::Reports
    } else if section == "oauth".spec_bytes() {
        ManageRoute::OAuth
    } else if section == "crypto".spec_bytes() {
        match method {
            HttpMethod::Post => ManageRoute::CryptoPost,
            HttpMethod::Get => ManageRoute::CryptoGet,
            HttpMethod::Other => ManageRoute::NotFound,
        }
    } else if section == "password".spec_bytes() {
        match method {
            HttpMethod::Post => ManageRoute::ChangePassword,
            _ => ManageRoute::NotFound,
        }
    } else {
        ManageRoute::NotFound
    }
}

/// What a reload request asks for, by the segment after `reload` (segment
/// three). Only `GET` is served; any other segment reloads everything.
pub open spec fn reload_action(path: Seq<u8>, method: HttpMethod) -> ReloadAction {
    let what = segment(path, 3);
    if method != HttpMethod::Get {
        ReloadAction::NotFound
    } else if what == "lookup".spec_bytes() {
        ReloadAction::Lookups
    } else if what == "certificate".spec_bytes() {
        ReloadAction::Certificates
    } else if what == "server.blocked-ip".spec_bytes() {
        ReloadAction::BlockedIps
    } else {
        ReloadAction::Everything
    }
}

/// Whether one of the parameters of `query` is named `key`. Parameters are
/// parted by `&`, the name ends at the first `=`, and a parameter without
/// any text is none.
pub open spec fn has_key(query: Seq<u8>, key: Seq<u8>) -> bool
    decreases query.len(),
{
    let cut = find(query, AMPERSAND);
    let head = query.subrange(0, cut);
    (head.len() > 0 && head.subrange(0, find(head, EQUALS)) == key) || (0 <= cut < query.len()
        && has_key(query.skip(cut + 1), key))
}

/// The bytes of the `n`-th segment of `path`.
fn path_segment(path: &[u8], n: usize) -> (s: &[u8])
    ensures
        s@ == segment(path@, n as nat),
{
    match nth_piece(path, SLASH, n) {
        Some((from, to)) => slice_subrange(path, from, to),
        None => {
            assert(path@.subrange(0, 0) =~= Seq::<u8>::empty());
            slice_subrange(path, 0, 0)
        },
    }
}

/// Picks the handler for a management request.
pub fn route_manage_request(path: &str, is_superuser: bool, method: HttpMethod) -> (r: ManageRoute)
    ensures
        r == manage_route(path.spec_bytes(), is_superuser, method),
{
    let section = path_segment(path.as_bytes(), 2);
    if is_superuser && bytes_equal(section, "principal".as_bytes()) {
        ManageRoute::Principal
    } else if is_superuser && bytes_equal(section, "domain".as_bytes()) {
        ManageRoute::Domain
    } else if is_superuser && bytes_equal(section, "store".as_bytes()) {
        ManageRoute::Store
    } else if is_superuser && bytes_equal(section, "reload".as_bytes()) {
        ManageRoute::Reload
    } else if is_superuser && bytes_equal(section, "settings".as_bytes()) {
        ManageRoute::Settings
    } else if is_superuser && bytes_equal(section, "queue".as_bytes()) {
        ManageRoute::Queue
    } else if is_superuser && bytes_equal(section, "reports".as_bytes()) {
        ManageRoute::Reports
    } else if bytes_equal(section, "oauth".as_bytes()) {
        ManageRoute::OAuth
    } else if bytes_equal(section, "crypto".as_bytes()) {
        match method {
            HttpMethod::Post => ManageRoute::CryptoPost,
            HttpMethod::Get => ManageRoute::CryptoGet,
            HttpMethod::Other => ManageRoute::NotFound,
        }
    } else if bytes_equal(section, "password".as_bytes()) {
        match method {
            HttpMethod::Post => ManageRoute::ChangePassword,
            _ => ManageRoute::NotFound,
        }
    } else {
        ManageRoute::NotFound
    }
}

/// Picks what a reload request reads again.
pub fn route_reload(path: &str, method: HttpMethod) -> (r: ReloadAction)
    ensures
        r == reload_action(path.spec_bytes(), method),
{
    let what = path_segment(path.as_bytes(), 3);
    match method {
        HttpMethod::Get => {
            if bytes_equal(what, "lookup".as_bytes()) {
                ReloadAction::Lookups
            } else if bytes_equal(what, "certificate".as_bytes()) {
                ReloadAction::Certificates
            } else if bytes_equal(what, "server.blocked-ip".as_bytes()) {
                ReloadAction::BlockedIps
            } else {
                ReloadAction::Everything
            }
        },
        _ => ReloadAction::NotFound,
    }
}

/// Whether a reload that produced a new core puts it in place: a reload of
/// the lookups always does, a reload of everything unless it is a dry run,
/// the others never.
pub fn swaps_core(action: ReloadAction, dry_run: bool) -> (r: bool)
    ensures
        r == match action {
            ReloadAction::Lookups => true,
            ReloadAction::Everything => !dry_run,
            _ => false,
        },
{
    match action {
        ReloadAction::Lookups => true,
        ReloadAction::Everything => !dry_run,
        _ => false,
    }
}

/// Whether the query of a request names the parameter `key`.
pub fn query_has_key(query: &str, key: &str) -> (r: bool)
    ensures
        r == has_key(query.spec_bytes(), key.spec_bytes()),
{
    let bytes = query.as_bytes();
    let name = key.as_bytes();
    let mut start: usize = 0;
    assert(bytes@.skip(0) =~= bytes@);
    loop
        invariant
            start <= bytes@.len(),
            bytes@ == query.spec_bytes(),
            name@ == key.spec_bytes(),
            has_key(bytes@, name@) == has_key(bytes@.skip(start as int), name@),
        decreases bytes@.len() - start,
    {
        let cut = find_from(bytes, start, AMPERSAND);
        let head = slice_subrange(bytes, start, cut);
        assert(head@ =~= bytes@.skip(start as int).subrange(0, cut - start));
        if cut > start {
            let eq = find_from(head, 0, EQUALS);
            assert(head@.skip(0) =~= head@);
            if bytes_equal(slice_subrange(head, 0, eq), name) {
                return true;
            }
        }
        if cut >= bytes.len() {
            return false;
        }
        assert(bytes@.skip(start as int).skip(cut - start + 1) =~= bytes@.skip(cut + 1));
        start = cut + 1;
    }
}

} // verus!
