//! Where the server keeps the replicated tree: the backing store beside the
//! mount path, and the steps that move an existing tree out of the way before
//! the file system is mounted over it.
use vstd::prelude::*;

verus! {

/// The prefix of an inferred backing store's file name, `.fsyncer-`.
pub open spec fn backing_prefix() -> Seq<u8> {
    seq![46u8, 102u8, 115u8, 121u8, 110u8, 99u8, 101u8, 114u8, 45u8]
}

/// The file name of the backing store inferred for a mount path whose file
/// name is `name`: it stands in the same directory as the mount path.
pub fn implicit_backing_name(name: &[u8]) -> (r: Vec<u8>)
    requires
        name@.len() + 9 <= usize::MAX,
    ensures
        r@ == backing_prefix() + name@,
{
    let mut r: Vec<u8> = vec![46u8, 102u8, 115u8, 121u8, 110u8, 99u8, 101u8, 114u8, 45u8];
    let mut i: usize = 0;
    while i < name.len()
        invariant
            i <= name@.len(),
            r@ == backing_prefix() + name@.subrange(0, i as int),
        decreases name@.len() - i,
    {
        r.push(name[i]);
        i = i + 1;
        assert(name@.subrange(0, i as int) == name@.subrange(0, i - 1).push(name@[i - 1]));
    }
    assert(name@.subrange(0, name@.len() as int) == name@);
    r
}

/// What happens to a tree already at the mount path.
#[derive(Clone, Copy, Debug, PartialEq, Eq, Structural)]
pub enum Relocation {
    /// Nothing needs to move.
    Keep,
    /// Whether the mount path is itself a mount point decides; ask, then
    /// decide again with the answer.
    CheckMountpoint,
    /// Move the mount at the mount path onto the backing store.
    MoveMount,
    /// Rename the directory at the mount path to the backing store.
    RenameDir,
}

pub open spec fn spec_relocation(backing_exists: bool, mount_exists: bool, mountpoint: Option<bool>) -> Relocation {
    if backing_exists || !mount_exists {
        Relocation::Keep
    } else {
        match mountpoint {
            None => Relocation::CheckMountpoint,
            Some(true) => Relocation::MoveMount,
            Some(false) => Relocation::RenameDir,
        }
    }
}

/// Decides how an existing tree at the mount path becomes the backing store:
/// only when the backing store is missing and the mount path exists does
/// anything move, by moving the mount where the mount path is a mount point
/// and by renaming the directory otherwise.
pub fn relocation(backing_exists: bool, mount_exists: bool, mountpoint: Option<bool>) -> (r: Relocation)
    ensures
        r == spec_relocation(backing_exists, mount_exists, mountpoint),
        (r is MoveMount || r is RenameDir) ==> !backing_exists && mount_exists,
        r is CheckMountpoint <==> (!backing_exists && mount_exists && mountpoint is None),
{
    if backing_exists || !mount_exists {
        Relocation::Keep
    } else {
        match mountpoint {
            None => Relocation::CheckMountpoint,
            Some(true) => Relocation::MoveMount,
            Some(false) => Relocation::RenameDir,
        }
    }
}

/// The last step before mounting.
#[derive(Clone, Copy, Debug, PartialEq, Eq, Structural)]
pub enum Finish {
    /// Create the mount path and give it the backing store's security.
    CreateMount,
    /// Both paths are in place.
    Ready,
}

/// Why the paths cannot be used.
#[derive(Clone, Copy, Debug, PartialEq, Eq, Structural)]
pub enum PathsError {
    /// Neither the backing store nor the mount path exists.
    MountMissing,
}

pub open spec fn spec_finish(backing_exists: bool, mount_existed: bool) -> Result<Finish, PathsError> {
    if mount_existed {
        Ok(Finish::Ready)
    } else if backing_exists {
        Ok(Finish::CreateMount)
    } else {
        Err(PathsError::MountMissing)
    }
}

/// Decides the last step from whether the backing store exists now and
/// whether the mount path existed when the paths were first looked at.
pub fn finish(backing_exists: bool, mount_existed: bool) -> (r: Result<Finish, PathsError>)
    ensures
        r == spec_finish(backing_exists, mount_existed),
{
    if backing_exists && !mount_existed {
        Ok(Finish::CreateMount)
    } else if !backing_exists && !mount_existed {
        Err(PathsError::MountMissing)
    } else {
        Ok(Finish::Ready)
    }
}

} // verus!
