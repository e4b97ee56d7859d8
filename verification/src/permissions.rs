//! Permissions granted to roles, and the check callers run before a guarded
//! command.

use vstd::prelude::*;
use crate::error::Error;
use crate::ids::RoleId;

verus! {

/// What kind of principal a permission row is attached to.
#[derive(Debug, Clone, Copy, PartialEq, Eq, Structural)]
pub enum PermissionType {
    Role,
    User,
}

/// The permissions a role can hold. `All` grants everything.
#[derive(Debug, Clone, Copy, PartialEq, Eq, Structural)]
pub enum Permission {
    All,
    PermissionManage,
    ConfigManage,
    MessagePurge,
    MemberAdd,
    MemberPromote,
}

/// A permission a member effectively holds, together with the role that
/// grants it.
#[derive(Debug, Clone, Copy, PartialEq, Eq, Structural)]
pub struct EffectivePermission {
    pub role: RoleId,
    pub permission: Permission,
}

/// The first granted permission that covers `wanted`: either the exact
/// permission or `All`. Grants earlier in the sequence (higher roles) win.
pub open spec fn first_covering(
    granted: Seq<EffectivePermission>,
    wanted: Permission,
) -> Option<EffectivePermission>
    decreases granted.len(),
{
    if granted.len() == 0 {
        None
    } else if granted[0].permission == wanted || granted[0].permission == Permission::All {
        Some(granted[0])
    } else {
        first_covering(granted.drop_first(), wanted)
    }
}

/// A set of effective permissions that can answer "may this member do that?".
pub trait PermissionCheck {
    /// The permissions this value holds, in decreasing role order.
    spec fn granted(&self) -> Seq<EffectivePermission>;

    /// Returns the first effective permission covering `permission`, or
    /// `Error::PermissionDenied` exactly when none covers it.
    fn require_permission(&self, permission: Permission) -> (r: Result<
        EffectivePermission,
        Error,
    >)
        ensures
            match first_covering(self.granted(), permission) {
                Some(ep) => r matches Ok(found) && found == ep,
                None => r matches Err(e) && e == Error::PermissionDenied(permission),
            },
    ;
}

impl PermissionCheck for Vec<EffectivePermission> {
    open spec fn granted(&self) -> Seq<EffectivePermission> {
        self@
    }

    fn require_permission(&self, permission: Permission) -> (r: Result<
        EffectivePermission,
        Error,
    >)
        ensures
            match first_covering(self.granted(), permission) {
                Some(ep) => r matches Ok(found) && found == ep,
                None => r matches Err(e) && e == Error::PermissionDenied(permission),
            },
    {
        let n = self.len();
        proof {
            assert(self@.skip(0) =~= self@);
        }
        for i in 0..n
            invariant
                n == self@.len(),
                first_covering(self@, permission) == first_covering(
                    self@.skip(i as int),
                    permission,
                ),
        {
            let ep = self[i];
            proof {
                assert(self@.skip(i as int).drop_first() =~= self@.skip(i + 1));
            }
            if ep.permission == permission || ep.permission == Permission::All {
                return Ok(ep);
            }
        }
        proof {
            assert(self@.skip(n as int) =~= Seq::<EffectivePermission>::empty());
        }
        Err(Error::PermissionDenied(permission))
    }
}

} // verus!
