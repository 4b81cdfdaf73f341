use forum_core::auth::{check_cache_switch, is_admin, may_edit_section,
    permission_need_be_admin, permission_need_login, AuthError};
use forum_core::gate::{partition_key, CacheGate, Route};

fn s(x: &str) -> String {
    x.to_string()
}

#[test]
fn partition_key_joins_id_and_page() {
    assert_eq!(partition_key(&s("s1"), 1), "s1:1");
    assert_eq!(partition_key(&s("abc"), 42), "abc:42");
    assert_eq!(partition_key(&s("x"), 1234567890), "x:1234567890");
}

#[test]
fn partition_key_handles_negative_pages() {
    assert_eq!(partition_key(&s("s"), -3), "s:-3");
    assert_eq!(partition_key(&s("s"), 0), "s:0");
}

#[test]
fn gate_miss_then_populate_then_hit() {
    let mut gate = CacheGate::new(true);
    let route = Route::SectionView { section_id: s("s1"), page: 1 };
    assert_eq!(gate.before(&route, None), None);
    gate.after(&route, &b"<html>rendered</html>".to_vec());
    assert_eq!(gate.before(&route, None), Some(b"<html>rendered</html>".to_vec()));
}

#[test]
fn gate_never_overwrites_a_hit() {
    let mut gate = CacheGate::new(true);
    let route = Route::SectionView { section_id: s("s1"), page: 1 };
    gate.after(&route, &b"first".to_vec());
    gate.after(&route, &b"second".to_vec());
    assert_eq!(gate.before(&route, None), Some(b"first".to_vec()));
}

#[test]
fn gate_disabled_never_serves() {
    let mut gate = CacheGate::new(false);
    let route = Route::SectionView { section_id: s("s1"), page: 1 };
    gate.after(&route, &b"stored anyway".to_vec());
    assert_eq!(gate.before(&route, None), None);
}

#[test]
fn gate_pages_are_separate_partitions() {
    let mut gate = CacheGate::new(true);
    let page1 = Route::SectionView { section_id: s("s1"), page: 1 };
    let page2 = Route::SectionView { section_id: s("s1"), page: 2 };
    gate.after(&page1, &b"page one".to_vec());
    assert_eq!(gate.before(&page2, None), None);
    assert_eq!(gate.before(&page1, None), Some(b"page one".to_vec()));
}

#[test]
fn gate_create_invalidates_front_page() {
    let mut gate = CacheGate::new(true);
    gate.store_body(&s("index"), &s("index"), b"home".to_vec());
    assert_eq!(gate.lookup(&s("index"), &s("index")), Some(b"home".to_vec()));
    gate.after(&Route::SectionCreate, &b"redirect".to_vec());
    assert_eq!(gate.lookup(&s("index"), &s("index")), None);
}

#[test]
fn gate_edit_invalidates_every_partition_of_the_section() {
    let mut gate = CacheGate::new(true);
    gate.store_body(&s("index"), &s("index"), b"home".to_vec());
    gate.store_body(&s("section"), &s("s1"), b"raw".to_vec());
    let page1 = Route::SectionView { section_id: s("s1"), page: 1 };
    let page2 = Route::SectionView { section_id: s("s1"), page: 2 };
    let other = Route::SectionView { section_id: s("s12"), page: 1 };
    gate.after(&page1, &b"page one".to_vec());
    gate.after(&page2, &b"page two".to_vec());
    gate.after(&other, &b"other section".to_vec());
    gate.after(&Route::SectionEdit { section_id: s("s1") }, &b"redirect".to_vec());
    assert_eq!(gate.lookup(&s("index"), &s("index")), None);
    assert_eq!(gate.lookup(&s("section"), &s("s1")), None);
    // Every paginated partition of the edited section goes stale too.
    assert_eq!(gate.lookup(&s("section"), &s("s1:1")), None);
    assert_eq!(gate.lookup(&s("section"), &s("s1:2")), None);
    assert_eq!(gate.before(&page1, None), None);
    // A section whose identifier merely extends the edited one is
    // untouched: the invalidated prefix ends in the colon.
    assert_eq!(gate.lookup(&s("section"), &s("s12:1")), Some(b"other section".to_vec()));
}

#[test]
fn gate_admins_always_see_live_content() {
    let mut gate = CacheGate::new(true);
    let route = Route::SectionView { section_id: s("s1"), page: 1 };
    gate.after(&route, &b"cached body".to_vec());
    assert_eq!(gate.before(&route, Some(9)), None);
    assert_eq!(gate.before(&route, Some(2)), Some(b"cached body".to_vec()));
    assert_eq!(gate.before(&route, None), Some(b"cached body".to_vec()));
}

#[test]
fn gate_rearrange_invalidates_front_page() {
    let mut gate = CacheGate::new(true);
    gate.store_body(&s("index"), &s("index"), b"home".to_vec());
    gate.after(&Route::SectionRearrange, &b"redirect".to_vec());
    assert_eq!(gate.lookup(&s("index"), &s("index")), None);
}

#[test]
fn login_needed_on_protected_paths_only() {
    assert_eq!(permission_need_login(b"/s/section/create", false),
        Err(AuthError::NeedLogin));
    assert_eq!(permission_need_login(b"/p/section/edit", false), Err(AuthError::NeedLogin));
    assert_eq!(permission_need_login(b"/s/section/create", true), Ok(()));
    assert_eq!(permission_need_login(b"/section", false), Ok(()));
    assert_eq!(permission_need_login(b"/", false), Ok(()));
}

#[test]
fn admin_needed_on_protected_paths() {
    assert_eq!(permission_need_be_admin(b"/s/section/create", Some(9)), Ok(()));
    assert_eq!(permission_need_be_admin(b"/s/section/create", Some(10)), Ok(()));
    assert_eq!(permission_need_be_admin(b"/s/section/create", Some(3)),
        Err(AuthError::NeedAdmin));
    assert_eq!(permission_need_be_admin(b"/s/section/create", None),
        Err(AuthError::NeedLogin));
    assert_eq!(permission_need_be_admin(b"/blog", None), Ok(()));
}

#[test]
fn admin_role_threshold_is_nine() {
    assert!(is_admin(Some(9)));
    assert!(is_admin(Some(12)));
    assert!(!is_admin(Some(8)));
    assert!(!is_admin(None));
}

#[test]
fn cache_switch_is_off_for_admins() {
    assert!(check_cache_switch(1, None));
    assert!(check_cache_switch(1, Some(2)));
    assert!(!check_cache_switch(1, Some(9)));
    assert!(!check_cache_switch(0, None));
    assert!(!check_cache_switch(2, None));
}

#[test]
fn edit_rights_admin_or_owner() {
    let own = b"s1".to_vec();
    assert!(may_edit_section(Some(9), None, b"s2"));
    assert!(may_edit_section(Some(1), Some(&own), b"s1"));
    assert!(!may_edit_section(Some(1), Some(&own), b"s2"));
    assert!(!may_edit_section(None, None, b"s1"));
}
