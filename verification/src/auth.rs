//! Request-permission decisions, computed from the request path and the
//! caller's session: who may pass, and for whom the cache is switched
//! off so they always see live content.

use vstd::prelude::*;

verus! {

/// Why a request was refused.
#[derive(Clone, Copy, Debug, PartialEq, Eq, Structural)]
pub enum AuthError {
    NeedLogin,
    NeedAdmin,
}

/// Paths under `/s/` or `/p/` require a session; everything else is
/// open.
pub open spec fn protected_path(p: Seq<u8>) -> bool {
    p.len() >= 3 && p[0] == 47 && (p[1] == 115 || p[1] == 112) && p[2] == 47
}

/// A caller is an administrator iff logged in with role 9 or above.
pub open spec fn is_admin_role(role: Option<i32>) -> bool {
    match role {
        Option::Some(r) => r >= 9,
        Option::None => false,
    }
}

/// Whether `path` (as UTF-8 bytes) is one of the protected prefixes.
fn path_is_protected(path: &[u8]) -> (r: bool)
    ensures
        r == protected_path(path@),
{
    path.len() >= 3 && path[0] == 47 && (path[1] == 115 || path[1] == 112) && path[2] == 47
}

/// Whether the caller (its role, `None` when not logged in) is an
/// administrator.
pub fn is_admin(role: Option<i32>) -> (r: bool)
    ensures
        r == is_admin_role(role),
{
    match role {
        Option::Some(x) => x >= 9,
        Option::None => false,
    }
}

/// A protected path demands a logged-in caller; any caller passes
/// elsewhere.
pub fn permission_need_login(path: &[u8], logged_in: bool) -> (r: Result<(), AuthError>)
    ensures
        r == (if protected_path(path@) && !logged_in {
            Result::<(), AuthError>::Err(AuthError::NeedLogin)
        } else {
            Result::<(), AuthError>::Ok(())
        }),
{
    if path_is_protected(path) && !logged_in {
        Err(AuthError::NeedLogin)
    } else {
        Ok(())
    }
}

/// A protected path demands an administrator: an anonymous caller is
/// told to log in, a logged-in non-administrator is refused.
pub fn permission_need_be_admin(path: &[u8], role: Option<i32>) -> (r: Result<(), AuthError>)
    ensures
        r == (if !protected_path(path@) {
            Result::<(), AuthError>::Ok(())
        } else {
            match role {
                Option::Some(x) => if x >= 9 {
                    Result::<(), AuthError>::Ok(())
                } else {
                    Result::<(), AuthError>::Err(AuthError::NeedAdmin)
                },
                Option::None => Result::<(), AuthError>::Err(AuthError::NeedLogin),
            }
        }),
{
    if !path_is_protected(path) {
        return Ok(());
    }
    match role {
        Option::Some(x) => {
            if x >= 9 {
                Ok(())
            } else {
                Err(AuthError::NeedAdmin)
            }
        },
        Option::None => Err(AuthError::NeedLogin),
    }
}

/// An administrator may edit any section; anyone else only the section
/// they own.
pub open spec fn may_edit(role: Option<i32>, owned: Option<Seq<u8>>, requested: Seq<u8>) -> bool {
    is_admin_role(role) || owned == Option::Some(requested)
}

/// Whether this caller may edit the requested section: administrators
/// may edit any, an owner only their own.
pub fn may_edit_section(role: Option<i32>, owned: Option<&Vec<u8>>, requested: &[u8]) -> (r:
    bool)
    ensures
        r == may_edit(
            role,
            match owned {
                Option::Some(o) => Option::Some(o@),
                Option::None => Option::None,
            },
            requested@,
        ),
{
    if is_admin(role) {
        return true;
    }
    match owned {
        Option::Some(o) => crate::text::bytes_eq(o.as_slice(), requested),
        Option::None => false,
    }
}

/// Caching is on for this caller iff the site's cache switch is set and
/// the caller is not an administrator: administrators always see live
/// content.
pub fn check_cache_switch(cache_cfg: i64, role: Option<i32>) -> (r: bool)
    ensures
        r == (cache_cfg == 1 && !is_admin_role(role)),
{
    cache_cfg == 1 && !is_admin(role)
}

} // verus!
