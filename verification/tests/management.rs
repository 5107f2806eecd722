use docstore::management::{
    query_has_key, route_manage_request, route_reload, swaps_core, HttpMethod, ManageRoute,
    ManagementApiError, ReloadAction,
};
use docstore::text::{find_from, nth_piece};

#[test]
fn superuser_reaches_administrative_sections() {
    let cases = vec![
        ("/api/principal/john", ManageRoute::Principal),
        ("/api/domain", ManageRoute::Domain),
        ("/api/store/blobs", ManageRoute::Store),
        ("/api/reload", ManageRoute::Reload),
        ("/api/settings/list", ManageRoute::Settings),
        ("/api/queue/messages", ManageRoute::Queue),
        ("/api/reports", ManageRoute::Reports),
    ];
    for (path, route) in cases {
        assert_eq!(route_manage_request(path, true, HttpMethod::Get), route);
        assert_eq!(route_manage_request(path, false, HttpMethod::Get), ManageRoute::NotFound);
    }
}

#[test]
fn account_sections_are_open_to_everyone() {
    for su in [true, false] {
        assert_eq!(route_manage_request("/api/oauth", su, HttpMethod::Other), ManageRoute::OAuth);
        assert_eq!(route_manage_request("/api/crypto", su, HttpMethod::Post), ManageRoute::CryptoPost);
        assert_eq!(route_manage_request("/api/crypto", su, HttpMethod::Get), ManageRoute::CryptoGet);
        assert_eq!(route_manage_request("/api/crypto", su, HttpMethod::Other), ManageRoute::NotFound);
        assert_eq!(route_manage_request("/api/password", su, HttpMethod::Post), ManageRoute::ChangePassword);
        assert_eq!(route_manage_request("/api/password", su, HttpMethod::Get), ManageRoute::NotFound);
    }
}

#[test]
fn unknown_or_missing_section_is_not_found() {
    assert_eq!(route_manage_request("", true, HttpMethod::Get), ManageRoute::NotFound);
    assert_eq!(route_manage_request("/api", true, HttpMethod::Get), ManageRoute::NotFound);
    assert_eq!(route_manage_request("/api/", true, HttpMethod::Get), ManageRoute::NotFound);
    assert_eq!(route_manage_request("/api/principals", true, HttpMethod::Get), ManageRoute::NotFound);
    assert_eq!(route_manage_request("/principal", true, HttpMethod::Get), ManageRoute::NotFound);
    assert_eq!(route_manage_request("/api/x/principal", true, HttpMethod::Get), ManageRoute::NotFound);
}

#[test]
fn reload_picks_what_to_read_again() {
    assert_eq!(route_reload("/api/reload/lookup", HttpMethod::Get), ReloadAction::Lookups);
    assert_eq!(route_reload("/api/reload/certificate", HttpMethod::Get), ReloadAction::Certificates);
    assert_eq!(route_reload("/api/reload/server.blocked-ip", HttpMethod::Get), ReloadAction::BlockedIps);
    assert_eq!(route_reload("/api/reload", HttpMethod::Get), ReloadAction::Everything);
    assert_eq!(route_reload("/api/reload/other", HttpMethod::Get), ReloadAction::Everything);
    assert_eq!(route_reload("/api/reload/lookup", HttpMethod::Post), ReloadAction::NotFound);
    assert_eq!(route_reload("/api/reload", HttpMethod::Other), ReloadAction::NotFound);
}

#[test]
fn dry_run_keeps_the_old_core() {
    assert!(swaps_core(ReloadAction::Lookups, false));
    assert!(swaps_core(ReloadAction::Lookups, true));
    assert!(swaps_core(ReloadAction::Everything, false));
    assert!(!swaps_core(ReloadAction::Everything, true));
    assert!(!swaps_core(ReloadAction::Certificates, false));
    assert!(!swaps_core(ReloadAction::BlockedIps, false));
    assert!(!swaps_core(ReloadAction::NotFound, false));
}

#[test]
fn query_parameters_are_found_by_name() {
    assert!(query_has_key("dry-run", "dry-run"));
    assert!(query_has_key("dry-run=true", "dry-run"));
    assert!(query_has_key("a=1&dry-run&b=2", "dry-run"));
    assert!(query_has_key("a=1&b=2&dry-run=", "dry-run"));
    assert!(!query_has_key("", "dry-run"));
    assert!(!query_has_key("dry-runs=1", "dry-run"));
    assert!(!query_has_key("a=dry-run", "dry-run"));
    assert!(!query_has_key("dry=run", "dry-run"));
    assert!(!query_has_key("&&", ""));
}

#[test]
fn pieces_are_cut_at_the_separator() {
    let s = b"/api/reload/lookup";
    assert_eq!(nth_piece(s, b'/', 0), Some((0, 0)));
    assert_eq!(nth_piece(s, b'/', 1), Some((1, 4)));
    assert_eq!(nth_piece(s, b'/', 2), Some((5, 11)));
    assert_eq!(nth_piece(s, b'/', 3), Some((12, 18)));
    assert_eq!(nth_piece(s, b'/', 4), None);
    assert_eq!(nth_piece(b"a//b", b'/', 1), Some((2, 2)));
    assert_eq!(nth_piece(b"", b'/', 0), Some((0, 0)));
    assert_eq!(find_from(s, 1, b'/'), 4);
    assert_eq!(find_from(s, 12, b'/'), 18);
}

#[test]
fn a_message_becomes_an_error_of_kind_other() {
    let e = ManagementApiError::from("boom".to_string());
    assert!(matches!(e, ManagementApiError::Other { details } if details == "boom"));
    let e = ManagementApiError::from(std::borrow::Cow::Borrowed("bang"));
    assert!(matches!(e, ManagementApiError::Other { details } if details == "bang"));
}
