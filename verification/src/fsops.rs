//! Decisions of the kernel-filesystem callbacks: attribute replies for
//! lookup and getattr, the open gate, directory listings, and the byte
//! slicing of read replies. The callback plumbing itself hands these
//! functions plain values and maps the error kinds onto errno values.
use vstd::prelude::*;

use crate::tree::{File, FileKey, FileTree, FileType, TimeBounds};

verus! {

/// How a callback fails: mapped by the adapter onto `ENOENT`,
/// `EACCES` and `EINVAL`.
#[derive(Clone, Copy, Debug, Eq, PartialEq, Structural)]
pub enum FsError {
    NoEnt,
    Access,
    Inval,
}

/// Seconds the kernel may cache an entry or attribute reply.
pub const ATTR_TTL_SECONDS: u64 = 1;

/// The attributes reported for a node. All timestamps are the epoch;
/// a file's size is a deliberate fiction (reads use direct I/O), so it
/// is the largest 32-bit value.
#[derive(Clone, Copy, Debug, Eq, PartialEq, Structural)]
pub struct ReplyAttrData {
    pub ino: u64,
    pub size: u64,
    pub blocks: u64,
    pub is_directory: bool,
    pub perm: u16,
    pub nlink: u32,
    pub uid: u32,
    pub gid: u32,
    pub rdev: u32,
    pub blksize: u32,
    pub flags: u32,
}

/// The attributes the adapter reports for `node` on behalf of the
/// calling kernel context.
pub open spec fn spec_attr_for(node: File, uid: u32, gid: u32) -> ReplyAttrData {
    ReplyAttrData {
        ino: node.inode,
        size: if node.file_type is Directory {
            0
        } else {
            0x7fff_ffff
        },
        blocks: if node.file_type is Directory {
            0
        } else {
            1
        },
        is_directory: node.file_type is Directory,
        perm: 0o777,
        nlink: if node.file_type is Directory {
            2
        } else {
            1
        },
        uid,
        gid,
        rdev: 0,
        blksize: 512,
        flags: 0,
    }
}

fn attr_for(file: &File, uid: u32, gid: u32) -> (r: ReplyAttrData)
    ensures
        r == spec_attr_for(*file, uid, gid),
{
    let is_directory = match file.file_type {
        FileType::Directory => true,
        FileType::File(_) => false,
    };
    ReplyAttrData {
        ino: file.inode,
        size: if is_directory {
            0
        } else {
            0x7fff_ffff
        },
        blocks: if is_directory {
            0
        } else {
            1
        },
        is_directory,
        perm: 0o777,
        nlink: if is_directory {
            2
        } else {
            1
        },
        uid,
        gid,
        rdev: 0,
        blksize: 512,
        flags: 0,
    }
}

/// The lookup callback's decision: resolve `(parent, name)` and report
/// the child's attributes, or `ENOENT`.
pub fn lookup_reply(tree: &FileTree, parent: u64, name: &str, uid: u32, gid: u32) -> (r: Result<
    ReplyAttrData,
    FsError,
>)
    requires
        tree.wf(),
    ensures
        ({
            if tree.has_inode(parent as int) {
                match tree.spec_child_key(parent as int, name@) {
                    Some(k) => r == Ok::<ReplyAttrData, FsError>(
                        spec_attr_for(tree.node(k), uid, gid),
                    ),
                    None => r == Err::<ReplyAttrData, FsError>(FsError::NoEnt),
                }
            } else {
                r == Err::<ReplyAttrData, FsError>(FsError::NoEnt)
            }
        }),
{
    match tree.get_child_for_inode(parent, name) {
        Some(child) => Ok(attr_for(child.file, uid, gid)),
        None => Err(FsError::NoEnt),
    }
}

/// The getattr callback's decision: resolve the inode and report its
/// attributes, or `ENOENT`.
pub fn getattr_reply(tree: &FileTree, ino: u64, uid: u32, gid: u32) -> (r: Result<
    ReplyAttrData,
    FsError,
>)
    requires
        tree.wf(),
    ensures
        tree.has_inode(ino as int) ==> r == Ok::<ReplyAttrData, FsError>(
            spec_attr_for(tree.node_at_inode(ino as int), uid, gid),
        ),
        !tree.has_inode(ino as int) ==> r == Err::<ReplyAttrData, FsError>(FsError::NoEnt),
{
    match tree.get_file_by_inode(ino) {
        Some(file) => Ok(attr_for(file.file, uid, gid)),
        None => Err(FsError::NoEnt),
    }
}

/// The time window a read of `ino` must fetch: only a regular file can
/// be read; anything else is `ENOENT`.
pub fn read_target(tree: &FileTree, ino: u64) -> (r: Result<TimeBounds, FsError>)
    requires
        tree.wf(),
    ensures
        ({
            if tree.has_inode(ino as int) {
                match tree.node_at_inode(ino as int).file_type {
                    FileType::File(tb) => r == Ok::<TimeBounds, FsError>(tb),
                    FileType::Directory => r == Err::<TimeBounds, FsError>(FsError::NoEnt),
                }
            } else {
                r == Err::<TimeBounds, FsError>(FsError::NoEnt)
            }
        }),
{
    match tree.get_file_by_inode(ino) {
        Some(file) => match file.file.file_type {
            FileType::File(time_bounds) => Ok(time_bounds),
            FileType::Directory => Err(FsError::NoEnt),
        },
        None => Err(FsError::NoEnt),
    }
}

/// POSIX access-mode bits of the open flags.
pub const O_ACCMODE: i32 = 3;

pub const O_RDONLY: i32 = 0;

pub const O_WRONLY: i32 = 1;

pub const O_RDWR: i32 = 2;

/// The truncate flag, as Linux encodes it.
pub const O_TRUNC: i32 = 512;

/// A successful open: an opaque nonzero handle, served with direct
/// I/O so the kernel trusts read lengths rather than reported sizes.
#[derive(Clone, Copy, Debug, Eq, PartialEq, Structural)]
pub struct OpenReply {
    pub fh: u64,
    pub direct_io: bool,
}

/// The open callback's decision. Write access of any kind is refused
/// with `EACCES`, as is truncation, a directory, or an unknown inode;
/// an access mode that is neither readable nor writable is `EINVAL`.
/// A regular file opens with a nonzero handle and direct I/O.
pub fn open_reply(tree: &FileTree, ino: u64, flags: i32) -> (r: Result<OpenReply, FsError>)
    requires
        tree.wf(),
    ensures
        ({
            let access = flags & O_ACCMODE;
            if access == O_WRONLY || access == O_RDWR {
                r == Err::<OpenReply, FsError>(FsError::Access)
            } else if access != O_RDONLY {
                r == Err::<OpenReply, FsError>(FsError::Inval)
            } else if flags & O_TRUNC != 0 {
                r == Err::<OpenReply, FsError>(FsError::Access)
            } else if tree.has_inode(ino as int) && tree.node_at_inode(ino as int).file_type
                is File {
                r == Ok::<OpenReply, FsError>(OpenReply { fh: 10, direct_io: true })
            } else {
                r == Err::<OpenReply, FsError>(FsError::Access)
            }
        }),
        r matches Ok(o) ==> o.fh != 0 && o.direct_io,
{
    let access = flags & O_ACCMODE;
    if access == O_WRONLY || access == O_RDWR {
        return Err(FsError::Access);
    }
    if access != O_RDONLY {
        return Err(FsError::Inval);
    }
    if flags & O_TRUNC != 0 {
        return Err(FsError::Access);
    }
    match tree.get_file_by_inode(ino) {
        Some(file) => match file.file.file_type {
            FileType::File(_) => Ok(OpenReply { fh: 10, direct_io: true }),
            FileType::Directory => Err(FsError::Access),
        },
        None => Err(FsError::Access),
    }
}

/// One directory entry of a readdir reply. `offset` is what the kernel
/// hands back to resume after this entry.
#[derive(Clone, Debug, PartialEq, Eq)]
pub struct DirEntryData {
    pub ino: u64,
    pub offset: i64,
    pub is_directory: bool,
    pub name: String,
}

/// The full listing of a directory: `.` and `..` (both naming the
/// node `parent_for_ls` yields) followed by the children in name
/// order.
pub open spec fn spec_dir_listing(tree: FileTree, idx: int) -> Seq<(u64, bool, Seq<char>)> {
    let node = tree.nodes@[idx];
    let parent_ino = match node.parent {
        Some(p) => tree.node(p).inode,
        None => tree.nodes@[0].inode,
    };
    seq![(parent_ino, true, "."@), (parent_ino, true, ".."@)] + node.children@.map(
        |c: int, e: crate::tree::ChildEntry|
            (
                tree.node(e.key).inode,
                tree.node(e.key).file_type is Directory,
                e.name@,
            ),
    )
}

/// The readdir callback's decision: the listing from `offset` on, each
/// entry carrying the resume offset the kernel expects (its index in
/// the full listing plus one). An unknown inode is `ENOENT`. The
/// machine limit on the child count keeps resume offsets inside `i64`.
pub fn readdir_entries(tree: &FileTree, ino: u64, offset: i64) -> (r: Result<
    Vec<DirEntryData>,
    FsError,
>)
    requires
        tree.wf(),
        offset >= 0,
        tree.has_inode(ino as int) ==> tree.node_at_inode(ino as int).children@.len() + 3
            < 0x7fff_ffff_ffff_ffff,
    ensures
        !tree.has_inode(ino as int) ==> r == Err::<Vec<DirEntryData>, FsError>(FsError::NoEnt),
        tree.has_inode(ino as int) ==> ({
            let full = spec_dir_listing(*tree, ino - 1);
            &&& r matches Ok(v)
            &&& v@.len() == (if offset <= full.len() {
                full.len() - offset
            } else {
                0
            })
            &&& (forall|j: int|
                0 <= j < v@.len() ==> {
                    let e = #[trigger] v@[j];
                    &&& e.ino == full[offset + j].0
                    &&& e.is_directory == full[offset + j].1
                    &&& e.name@ == full[offset + j].2
                    &&& e.offset == offset + j + 1
                })
        }),
{
    let file = match tree.get_file_by_inode(ino) {
        Some(file) => file,
        None => {
            return Err(FsError::NoEnt);
        },
    };
    let ghost idx = ino as int - 1;
    let ghost full = spec_dir_listing(*tree, idx);
    let parent = tree.get_parent_for_ls(file.file_key);
    let parent_ino = parent.file.inode;
    proof {
        assert(tree.wf_node(idx));
        assert(file.file_key.0 as int == idx);
        assert(parent_ino == (match tree.nodes@[idx].parent {
            Some(p) => tree.node(p).inode,
            None => tree.nodes@[0].inode,
        }));
        assert(full[0] == (parent_ino, true, "."@));
        assert(full[1] == (parent_ino, true, ".."@));
    }
    let mut out: Vec<DirEntryData> = Vec::new();
    proof {
        reveal_strlit(".");
        reveal_strlit("..");
    }
    if offset == 0 {
        let dot = String::from_str(".");
        out.push(DirEntryData { ino: parent_ino, offset: 1, is_directory: true, name: dot });
    }
    if offset <= 1 {
        let dotdot = String::from_str("..");
        out.push(DirEntryData { ino: parent_ino, offset: 2, is_directory: true, name: dotdot });
    }
    let children = &file.file.children;
    let n = children.len();
    proof {
        assert(full.len() == n + 2);
    }
    let mut c: usize = 0;
    if offset > 2 {
        if offset - 2 <= n as i64 {
            c = (offset - 2) as usize;
        } else {
            c = n;
        }
    }
    while c < n
        invariant
            tree.wf(),
            0 <= idx < tree.nodes@.len(),
            offset >= 0,
            full == spec_dir_listing(*tree, idx),
            children@ == tree.nodes@[idx].children@,
            n == children@.len(),
            n + 3 < 0x7fff_ffff_ffff_ffff,
            full.len() == n + 2,
            c <= n,
            out@.len() == (if offset <= c + 2 {
                c + 2 - offset
            } else {
                0int
            }),
            offset > c + 2 ==> c == n,
            forall|j: int|
                0 <= j < out@.len() ==> {
                    let e = #[trigger] out@[j];
                    &&& e.ino == full[offset + j].0
                    &&& e.is_directory == full[offset + j].1
                    &&& e.name@ == full[offset + j].2
                    &&& e.offset == offset + j + 1
                },
        decreases n - c,
    {
        proof {
            assert(tree.wf_node(idx));
            assert(full[c + 2] == (
                tree.node(children@[c as int].key).inode,
                tree.node(children@[c as int].key).file_type is Directory,
                children@[c as int].name@,
            ));
        }
        let entry_key = children[c].key;
        let child_is_dir = match tree.nodes[entry_key.0].file_type {
            FileType::Directory => true,
            FileType::File(_) => false,
        };
        let child_ino = tree.nodes[entry_key.0].inode;
        let entry_name = children[c].name.clone();
        let entry_offset: i64 = (c as i64) + 3;
        let ghost pre_len = out@.len() as int;
        out.push(
            DirEntryData {
                ino: child_ino,
                offset: entry_offset,
                is_directory: child_is_dir,
                name: entry_name,
            },
        );
        proof {
            assert(pre_len == c + 2 - offset);
            assert(out@[pre_len].offset == offset + pre_len + 1);
        }
        c = c + 1;
    }
    Ok(out)
}

/// The read callback's byte slice of a rendered blob: `size` bytes
/// from `offset`, clipped to the blob; empty past the end.
pub fn read_slice(blob: &Vec<u8>, offset: i64, size: u32) -> (r: Vec<u8>)
    requires
        offset >= 0,
    ensures
        offset >= blob@.len() ==> r@ == Seq::<u8>::empty(),
        offset < blob@.len() ==> r@ == blob@.subrange(
            offset as int,
            if offset + size <= blob@.len() {
                offset + size
            } else {
                blob@.len() as int
            },
        ),
{
    let len = blob.len();
    if (offset as u64) >= (len as u64) {
        let empty: Vec<u8> = Vec::new();
        proof {
            assert(empty@ =~= Seq::<u8>::empty());
        }
        return empty;
    }
    let start = offset as usize;
    let end = if (size as usize) <= len - start {
        start + (size as usize)
    } else {
        len
    };
    let mut out: Vec<u8> = Vec::new();
    let mut i: usize = start;
    while i < end
        invariant
            start <= i <= end <= blob@.len(),
            out@ =~= blob@.subrange(start as int, i as int),
        decreases end - i,
    {
        out.push(blob[i]);
        proof {
            assert(out@ =~= blob@.subrange(start as int, i + 1 as int));
        }
        i = i + 1;
    }
    out
}

} // verus!
