//! Access permissions carried by a leaf page-table entry.
use vstd::prelude::*;

verus! {

/// Semantic read/write/execute/user view of a leaf entry, plus the
/// software-defined copy-on-write marker.
///
/// A mappable entry is always readable: the descriptor encoding forces the
/// read bit whenever permissions are applied, so `read` records only what a
/// decoded descriptor reported.
#[derive(Clone, Copy, Debug, PartialEq, Eq, Structural)]
pub struct PtePermissions {
    pub read: bool,
    pub write: bool,
    pub execute: bool,
    pub user: bool,
    pub cow: bool,
}

impl PtePermissions {
    /// Builds a permission set from its individual bits.
    pub fn from_raw_bits(read: bool, write: bool, execute: bool, user: bool, cow: bool) -> (r:
        Self)
        ensures
            r == (PtePermissions { read, write, execute, user, cow }),
    {
        PtePermissions { read, write, execute, user, cow }
    }

    /// Read-only data permissions.
    pub fn ro(user: bool) -> (r: Self)
        ensures
            r == (PtePermissions { read: true, write: false, execute: false, user, cow: false }),
    {
        PtePermissions { read: true, write: false, execute: false, user, cow: false }
    }

    /// Read-write data permissions.
    pub fn rw(user: bool) -> (r: Self)
        ensures
            r == (PtePermissions { read: true, write: true, execute: false, user, cow: false }),
    {
        PtePermissions { read: true, write: true, execute: false, user, cow: false }
    }

    /// Read-write-execute permissions.
    pub fn rwx(user: bool) -> (r: Self)
        ensures
            r == (PtePermissions { read: true, write: true, execute: true, user, cow: false }),
    {
        PtePermissions { read: true, write: true, execute: true, user, cow: false }
    }

    /// Permissions that deny every kind of access.
    pub fn none() -> (r: Self)
        ensures
            r == (PtePermissions {
                read: false,
                write: false,
                execute: false,
                user: false,
                cow: false,
            }),
    {
        PtePermissions { read: false, write: false, execute: false, user: false, cow: false }
    }

    pub fn is_read(&self) -> (r: bool)
        ensures
            r == self.read,
    {
        self.read
    }

    pub fn is_write(&self) -> (r: bool)
        ensures
            r == self.write,
    {
        self.write
    }

    pub fn is_execute(&self) -> (r: bool)
        ensures
            r == self.execute,
    {
        self.execute
    }

    pub fn is_user(&self) -> (r: bool)
        ensures
            r == self.user,
    {
        self.user
    }

    pub fn is_cow(&self) -> (r: bool)
        ensures
            r == self.cow,
    {
        self.cow
    }

    /// Whether this permission set grants no access at all; such a request is
    /// what turns a protected page into a swapped-out one.
    pub fn is_empty_access(&self) -> (r: bool)
        ensures
            r == (!self.read && !self.write && !self.execute),
    {
        !self.read && !self.write && !self.execute
    }
}

} // verus!
