//! A FUSE `setattr` request, split into the operations it stands for.
use vstd::prelude::*;

verus! {

/// The attributes a `setattr` request sets, as FUSE flags them.
pub const FUSE_SET_ATTR_MODE: u32 = 1;
pub const FUSE_SET_ATTR_UID: u32 = 2;
pub const FUSE_SET_ATTR_GID: u32 = 4;
pub const FUSE_SET_ATTR_SIZE: u32 = 8;
pub const FUSE_SET_ATTR_ATIME: u32 = 16;
pub const FUSE_SET_ATTR_MTIME: u32 = 32;
pub const FUSE_SET_ATTR_ATIME_NOW: u32 = 128;
pub const FUSE_SET_ATTR_MTIME_NOW: u32 = 256;

/// Time values that ask for the current time, and for the time to be left
/// as it is (Linux's values).
pub const UTIME_NOW: i64 = 1073741823;
pub const UTIME_OMIT: i64 = 1073741822;

/// The id that leaves an owner or group as it is.
pub const NO_ID: u32 = 0xffff_ffff;

/// An owner and a group.
#[derive(Clone, Copy, Debug, PartialEq, Eq, Structural)]
pub struct Owner {
    pub uid: u32,
    pub gid: u32,
}

/// The values put in the access and modification times' nanosecond fields.
#[derive(Clone, Copy, Debug, PartialEq, Eq, Structural)]
pub struct Times {
    pub atime: i64,
    pub mtime: i64,
}

/// The operations a `setattr` request stands for, in the order they are
/// done; the first that fails ends the request.
#[derive(Clone, Copy, Debug, PartialEq, Eq, Structural)]
pub struct SetattrPlan {
    pub mode: Option<u32>,
    pub owner: Option<Owner>,
    pub size: Option<i64>,
    pub times: Option<Times>,
}

pub open spec fn has(to_set: u32, flag: u32) -> bool {
    to_set & flag != 0
}

pub open spec fn time_value(to_set: u32, now: u32, set: u32, value: i64) -> i64 {
    if has(to_set, now) {
        UTIME_NOW
    } else if has(to_set, set) {
        value
    } else {
        UTIME_OMIT
    }
}

pub open spec fn spec_setattr_plan(
    to_set: u32,
    mode: u32,
    uid: u32,
    gid: u32,
    size: i64,
    atime: i64,
    mtime: i64,
) -> SetattrPlan {
    SetattrPlan {
        mode: if has(to_set, FUSE_SET_ATTR_MODE) {
            Some(mode)
        } else {
            None
        },
        owner: if has(to_set, FUSE_SET_ATTR_UID | FUSE_SET_ATTR_GID) {
            Some(
                Owner {
                    uid: if has(to_set, FUSE_SET_ATTR_UID) {
                        uid
                    } else {
                        NO_ID
                    },
                    gid: if has(to_set, FUSE_SET_ATTR_GID) {
                        gid
                    } else {
                        NO_ID
                    },
                },
            )
        } else {
            None
        },
        size: if has(to_set, FUSE_SET_ATTR_SIZE) {
            Some(size)
        } else {
            None
        },
        times: if has(to_set, FUSE_SET_ATTR_ATIME | FUSE_SET_ATTR_MTIME) {
            Some(
                Times {
                    atime: time_value(to_set, FUSE_SET_ATTR_ATIME_NOW, FUSE_SET_ATTR_ATIME, atime),
                    mtime: time_value(to_set, FUSE_SET_ATTR_MTIME_NOW, FUSE_SET_ATTR_MTIME, mtime),
                },
            )
        } else {
            None
        },
    }
}

fn time_of(to_set: u32, now: u32, set: u32, value: i64) -> (r: i64)
    ensures
        r == time_value(to_set, now, set, value),
{
    if to_set & now != 0 {
        UTIME_NOW
    } else if to_set & set != 0 {
        value
    } else {
        UTIME_OMIT
    }
}

/// Splits a request into a mode change, an ownership change (an unset
/// owner or group stays as it is), a resize, and a change of times (each
/// set to the current time, to the given value, or left as it is); only
/// the parts whose flags are set are done. The given times go into the
/// nanosecond fields, with the seconds left at zero.
pub fn setattr_plan(to_set: u32, mode: u32, uid: u32, gid: u32, size: i64, atime: i64, mtime: i64) -> (r:
    SetattrPlan)
    ensures
        r == spec_setattr_plan(to_set, mode, uid, gid, size, atime, mtime),
        (to_set & FUSE_SET_ATTR_UID != 0) ==> (r.owner matches Some(o) && o.uid == uid),
        (to_set & FUSE_SET_ATTR_GID != 0) ==> (r.owner matches Some(o) && o.gid == gid),
        (to_set & FUSE_SET_ATTR_UID == 0 && to_set & FUSE_SET_ATTR_GID == 0) ==> r.owner is None,
{
    proof {
        lemma_setattr_plan_follows_flags(to_set, mode, uid, gid, size, atime, mtime);
    }
    SetattrPlan {
        mode: if to_set & FUSE_SET_ATTR_MODE != 0 {
            Some(mode)
        } else {
            None
        },
        owner: if to_set & (FUSE_SET_ATTR_UID | FUSE_SET_ATTR_GID) != 0 {
            Some(
                Owner {
                    uid: if to_set & FUSE_SET_ATTR_UID != 0 {
                        uid
                    } else {
                        NO_ID
                    },
                    gid: if to_set & FUSE_SET_ATTR_GID != 0 {
                        gid
                    } else {
                        NO_ID
                    },
                },
            )
        } else {
            None
        },
        size: if to_set & FUSE_SET_ATTR_SIZE != 0 {
            Some(size)
        } else {
            None
        },
        times: if to_set & (FUSE_SET_ATTR_ATIME | FUSE_SET_ATTR_MTIME) != 0 {
            Some(
                Times {
                    atime: time_of(to_set, FUSE_SET_ATTR_ATIME_NOW, FUSE_SET_ATTR_ATIME, atime),
                    mtime: time_of(to_set, FUSE_SET_ATTR_MTIME_NOW, FUSE_SET_ATTR_MTIME, mtime),
                },
            )
        } else {
            None
        },
    }
}

/// One call a `setattr` request makes on the file system.
#[derive(Clone, Copy, Debug, PartialEq, Eq, Structural)]
pub enum SetattrStep {
    Chmod(u32),
    Chown(Owner),
    Truncate(i64),
    Utimens(Times),
    /// The attributes after the change, which answer the request.
    Getattr,
}

/// The calls of a plan, in the order they are made: the mode, the owner,
/// the size and the times, each when the plan sets it, then the attributes.
pub open spec fn spec_setattr_steps(p: SetattrPlan) -> Seq<SetattrStep> {
    (if p.mode is Some {
        seq![SetattrStep::Chmod(p.mode->0)]
    } else {
        seq![]
    }) + (if p.owner is Some {
        seq![SetattrStep::Chown(p.owner->0)]
    } else {
        seq![]
    }) + (if p.size is Some {
        seq![SetattrStep::Truncate(p.size->0)]
    } else {
        seq![]
    }) + (if p.times is Some {
        seq![SetattrStep::Utimens(p.times->0)]
    } else {
        seq![]
    }) + seq![SetattrStep::Getattr]
}

/// The calls a plan makes, in order, ending with the attributes.
pub fn setattr_steps(plan: &SetattrPlan) -> (r: Vec<SetattrStep>)
    ensures
        r@ == spec_setattr_steps(*plan),
{
    let mut r: Vec<SetattrStep> = Vec::new();
    if let Some(m) = plan.mode {
        r.push(SetattrStep::Chmod(m));
    }
    if let Some(o) = plan.owner {
        r.push(SetattrStep::Chown(o));
    }
    if let Some(z) = plan.size {
        r.push(SetattrStep::Truncate(z));
    }
    if let Some(t) = plan.times {
        r.push(SetattrStep::Utimens(t));
    }
    r.push(SetattrStep::Getattr);
    assert(r@ =~= spec_setattr_steps(*plan));
    r
}

/// What a `setattr` request does once a call has returned.
#[derive(Clone, Copy, Debug, PartialEq, Eq, Structural)]
pub enum SetattrNext {
    /// Make the call at this index of the steps.
    Call(usize),
    /// Answer the request with this error.
    Fail(i32),
    /// The last call's answer is the request's answer.
    Done,
}

/// After the call at index `done` of `steps` calls has answered (with an
/// error, or not): the first error of a call before the last ends the
/// request with that error; otherwise the next call is made, and the last
/// call's answer is the request's.
pub fn setattr_next(steps: usize, done: usize, error: Option<i32>) -> (r: SetattrNext)
    requires
        done < steps,
    ensures
        r == (if done + 1 == steps {
            SetattrNext::Done
        } else if error is Some {
            SetattrNext::Fail(error->0)
        } else {
            SetattrNext::Call((done + 1) as usize)
        }),
{
    if done + 1 == steps {
        SetattrNext::Done
    } else {
        match error {
            Some(e) => SetattrNext::Fail(e),
            None => SetattrNext::Call(done + 1),
        }
    }
}

/// A plan does what the flags ask, and only that: the mode is changed
/// exactly when its flag is set, to the given mode; the owner exactly when
/// the user or the group flag is set, each flagged id taken from the request
/// and each other id left as it is; the size exactly when its flag is set;
/// and the times exactly when a time flag is set, each flagged time set to
/// the current time when asked, else to the given value, and left as it is
/// when not flagged.
pub proof fn lemma_setattr_plan_follows_flags(
    to_set: u32,
    mode: u32,
    uid: u32,
    gid: u32,
    size: i64,
    atime: i64,
    mtime: i64,
)
    ensures
        ({
            let pl = spec_setattr_plan(to_set, mode, uid, gid, size, atime, mtime);
            &&& (pl.mode is Some <==> to_set & FUSE_SET_ATTR_MODE != 0)
            &&& (pl.mode matches Some(m) ==> m == mode)
            &&& (pl.owner is Some <==> (to_set & FUSE_SET_ATTR_UID != 0 || to_set & FUSE_SET_ATTR_GID != 0))
            &&& (pl.owner matches Some(o) ==> (o.uid == if to_set & FUSE_SET_ATTR_UID != 0 {
                uid
            } else {
                NO_ID
            }) && (o.gid == if to_set & FUSE_SET_ATTR_GID != 0 {
                gid
            } else {
                NO_ID
            }))
            &&& (pl.size is Some <==> to_set & FUSE_SET_ATTR_SIZE != 0)
            &&& (pl.size matches Some(z) ==> z == size)
            &&& (pl.times is Some <==> (to_set & FUSE_SET_ATTR_ATIME != 0 || to_set & FUSE_SET_ATTR_MTIME != 0))
            &&& (pl.times matches Some(t) ==> (t.atime == if to_set & FUSE_SET_ATTR_ATIME_NOW != 0 {
                UTIME_NOW
            } else if to_set & FUSE_SET_ATTR_ATIME != 0 {
                atime
            } else {
                UTIME_OMIT
            }) && (t.mtime == if to_set & FUSE_SET_ATTR_MTIME_NOW != 0 {
                UTIME_NOW
            } else if to_set & FUSE_SET_ATTR_MTIME != 0 {
                mtime
            } else {
                UTIME_OMIT
            }))
        }),
{
    assert((to_set & 6u32 != 0) <==> (to_set & 2u32 != 0 || to_set & 4u32 != 0)) by (bit_vector);
    assert((to_set & 48u32 != 0) <==> (to_set & 16u32 != 0 || to_set & 32u32 != 0)) by (bit_vector);
    assert(FUSE_SET_ATTR_UID | FUSE_SET_ATTR_GID == 6u32) by (bit_vector);
    assert(FUSE_SET_ATTR_ATIME | FUSE_SET_ATTR_MTIME == 48u32) by (bit_vector);
}

} // verus!
