//! The time-indexed virtual directory tree: an arena of immutable file
//! nodes with dense inodes (root is inode 1), per-directory name-sorted
//! child lists, and lookup by inode or by `(parent inode, child name)`.
use vstd::prelude::*;

use crate::text::{lex_lt, str_lex_lt, str_seq_eq};
use crate::text::{lemma_lex_lt_irreflexive, lemma_lex_lt_total};

verus! {

/// A minute file's window: both ends in UTC milliseconds, inclusive.
#[derive(Clone, Copy, Debug, Eq, PartialEq, Hash, Structural)]
pub struct TimeBounds {
    pub start_time: i64,
    pub end_time: i64,
}

#[derive(Clone, Debug, Eq, PartialEq, Hash, Structural)]
pub enum FileType {
    Directory,
    File(TimeBounds),
}

/// A stable arena key: the node's position in the arena.
#[derive(Clone, Copy, Debug, Eq, PartialEq, Hash, Structural)]
pub struct FileKey(pub usize);

/// One entry of a directory's name-sorted child list.
#[derive(Clone, Debug)]
pub struct ChildEntry {
    pub name: String,
    pub key: FileKey,
}

#[derive(Clone, Debug)]
pub struct File {
    pub inode: u64,
    pub name: String,
    pub file_type: FileType,
    pub parent: Option<FileKey>,
    /// Children in strictly name-ascending order; names are unique
    /// within a directory.
    pub children: Vec<ChildEntry>,
}

impl File {
    pub fn new(inode: u64, name: String, file_type: FileType, parent: Option<FileKey>) -> (r: Self)
        ensures
            r.inode == inode,
            r.name == name,
            r.file_type == file_type,
            r.parent == parent,
            r.children@.len() == 0,
    {
        Self { inode, name, file_type, parent, children: Vec::new() }
    }

    pub fn is_root(&self) -> (r: bool)
        ensures
            r == (self.parent is None),
    {
        self.parent.is_none()
    }
}

/// A node reference paired with its arena key.
#[derive(Clone, Debug)]
pub struct FileWithFileKey<'a> {
    pub file: &'a File,
    pub file_key: FileKey,
}

impl<'a> FileWithFileKey<'a> {
    pub fn key(&self) -> (r: FileKey)
        ensures
            r == self.file_key,
    {
        self.file_key
    }
}

/// First child entry named `name`, scanning left to right.
pub open spec fn entries_lookup(s: Seq<ChildEntry>, name: Seq<char>) -> Option<FileKey>
    decreases s.len(),
{
    if s.len() == 0 {
        None
    } else if s[0].name@ == name {
        Some(s[0].key)
    } else {
        entries_lookup(s.drop_first(), name)
    }
}

/// Child names strictly ascend in `lex_lt` order.
pub open spec fn entries_sorted(s: Seq<ChildEntry>) -> bool {
    forall|a: int, b: int| 0 <= a < b < s.len() ==> lex_lt(#[trigger] s[a].name@, #[trigger] s[b].name@)
}

pub proof fn lemma_sorted_names_distinct(s: Seq<ChildEntry>, a: int, b: int)
    requires
        entries_sorted(s),
        0 <= a < s.len(),
        0 <= b < s.len(),
        a != b,
    ensures
        s[a].name@ != s[b].name@,
{
    if a < b {
        lemma_lex_lt_irreflexive(s[a].name@);
    } else {
        lemma_lex_lt_irreflexive(s[b].name@);
    }
}

/// In a sorted list, the entry holding `name` is what lookup returns.
pub proof fn lemma_lookup_finds(s: Seq<ChildEntry>, name: Seq<char>, j: int)
    requires
        entries_sorted(s),
        0 <= j < s.len(),
        s[j].name@ == name,
    ensures
        entries_lookup(s, name) == Some(s[j].key),
    decreases s.len(),
{
    if j == 0 {
    } else {
        lemma_sorted_names_distinct(s, 0, j);
        assert(entries_sorted(s.drop_first()));
        assert(s.drop_first()[j - 1] == s[j]);
        lemma_lookup_finds(s.drop_first(), name, j - 1);
    }
}

/// Lookup misses when no entry holds the name.
pub proof fn lemma_lookup_absent(s: Seq<ChildEntry>, name: Seq<char>)
    requires
        forall|c: int| 0 <= c < s.len() ==> (#[trigger] s[c].name@) != name,
    ensures
        entries_lookup(s, name) == None::<FileKey>,
    decreases s.len(),
{
    if s.len() > 0 {
        lemma_lookup_absent(s.drop_first(), name);
    }
}

/// Lookup hits exactly when some entry holds the name.
pub proof fn lemma_lookup_some_entry(s: Seq<ChildEntry>, name: Seq<char>)
    requires
        entries_lookup(s, name) is Some,
    ensures
        exists|c: int|
            0 <= c < s.len() && (#[trigger] s[c].name@) == name && s[c].key
                == entries_lookup(s, name)->Some_0,
    decreases s.len(),
{
    if s.len() > 0 && s[0].name@ != name {
        lemma_lookup_some_entry(s.drop_first(), name);
        let c = choose|c: int|
            0 <= c < s.drop_first().len() && (#[trigger] s.drop_first()[c].name@) == name
                && s.drop_first()[c].key == entries_lookup(s.drop_first(), name)->Some_0;
        assert(s[c + 1] == s.drop_first()[c]);
    }
}

/// `idx` is where a fresh `name` belongs in the sorted list `s`.
pub open spec fn insert_position_ok(s: Seq<ChildEntry>, name: Seq<char>, idx: int) -> bool {
    &&& 0 <= idx <= s.len()
    &&& (forall|j: int| 0 <= j < idx ==> lex_lt(#[trigger] s[j].name@, name))
    &&& (forall|j: int| idx <= j < s.len() ==> lex_lt(name, #[trigger] s[j].name@))
}

/// What creating a node named `name` under `parent` does to the tree:
/// either the name was taken and nothing changes, or the arena gains one
/// node, registered at its sorted position in the parent's child list,
/// with every other node untouched.
pub open spec fn created_node(
    prev: FileTree,
    cur: FileTree,
    name: Seq<char>,
    file_type: FileType,
    parent: FileKey,
    r: FileKey,
) -> bool {
    match entries_lookup(prev.node(parent).children@, name) {
        Some(k) => r == k && cur == prev,
        None => {
            &&& cur.node_count() == prev.node_count() + 1
            &&& r == FileKey(prev.node_count() as usize)
            &&& cur.valid_key(r)
            &&& cur.node(r).inode == prev.node_count() + 1
            &&& cur.node(r).name@ == name
            &&& cur.node(r).file_type == file_type
            &&& cur.node(r).parent == Some(parent)
            &&& cur.node(r).children@.len() == 0
            &&& (forall|i: int|
                0 <= i < prev.node_count() && i != parent.0 as int ==> cur.nodes@[i]
                    == prev.nodes@[i])
            &&& cur.node(parent).inode == prev.node(parent).inode
            &&& cur.node(parent).name@ == prev.node(parent).name@
            &&& cur.node(parent).file_type == prev.node(parent).file_type
            &&& cur.node(parent).parent == prev.node(parent).parent
            &&& (exists|ins: int|
                #![auto]
                {
                    &&& insert_position_ok(prev.node(parent).children@, name, ins)
                    &&& cur.node(parent).children@ == prev.node(parent).children@.insert(
                        ins,
                        cur.node(parent).children@[ins],
                    )
                    &&& cur.node(parent).children@[ins].name@ == name
                    &&& cur.node(parent).children@[ins].key == r
                })
            &&& cur.root == prev.root
        },
    }
}

pub struct FileTree {
    pub nodes: Vec<File>,
    pub root: Option<FileKey>,
}

impl FileTree {
    pub open spec fn spec_nodes(self) -> Seq<File> {
        self.nodes@
    }

    pub open spec fn node_count(self) -> nat {
        self.nodes@.len()
    }

    pub open spec fn valid_key(self, k: FileKey) -> bool {
        k.0 < self.nodes@.len()
    }

    pub open spec fn node(self, k: FileKey) -> File {
        self.nodes@[k.0 as int]
    }

    pub open spec fn spec_root(self) -> Option<FileKey> {
        self.root
    }

    /// Inodes are dense: 1 through the node count.
    pub open spec fn has_inode(self, ino: int) -> bool {
        1 <= ino <= self.nodes@.len()
    }

    /// The node an inode resolves to.
    pub open spec fn node_at_inode(self, ino: int) -> File {
        self.nodes@[ino - 1]
    }

    /// The child key that `(parent inode, name)` resolves to.
    pub open spec fn spec_child_key(self, parent_ino: int, name: Seq<char>) -> Option<FileKey> {
        entries_lookup(self.node_at_inode(parent_ino).children@, name)
    }

    /// Node `i` is registered under its parent's child list.
    pub open spec fn registered(self, p: int, i: int) -> bool {
        exists|c: int|
            0 <= c < self.nodes@[p].children@.len() && (#[trigger] self.nodes@[p].children@[c]).key
                == FileKey(i as usize) && self.nodes@[p].children@[c].name@ == self.nodes@[i].name@
    }

    pub open spec fn wf_node(self, i: int) -> bool {
        let f = self.nodes@[i];
        &&& f.inode == i + 1
        &&& (f.parent is None <==> i == 0)
        &&& (f.parent matches Some(p) ==> {
            &&& (p.0 as int) < i
            &&& self.nodes@[p.0 as int].file_type is Directory
            &&& self.registered(p.0 as int, i)
        })
        &&& entries_sorted(f.children@)
        &&& forall|c: int|
            0 <= c < f.children@.len() ==> {
                let e = #[trigger] f.children@[c];
                &&& i < e.key.0 < self.nodes@.len()
                &&& self.nodes@[e.key.0 as int].parent == Some(FileKey(i as usize))
                &&& self.nodes@[e.key.0 as int].name@ == e.name@
            }
    }

    /// The tree invariant: a rooted arena with dense inodes, parent
    /// pointers toward lower indices, and consistent sorted child lists.
    pub open spec fn wf(self) -> bool {
        &&& 1 <= self.nodes@.len()
        &&& self.root == Some(FileKey(0usize))
        &&& self.nodes@[0].file_type is Directory
        &&& forall|i: int| 0 <= i < self.nodes@.len() ==> self.wf_node(i)
    }

    /// A fresh tree holding only the root directory, inode 1.
    pub fn new(expected_number_of_files: usize) -> (r: Self)
        ensures
            r.wf(),
            r.node_count() == 1,
            r.node(FileKey(0usize)).name@ =~= Seq::<char>::empty(),
            r.node(FileKey(0usize)).file_type is Directory,
            r.node(FileKey(0usize)).children@.len() == 0,
    {
        let mut nodes: Vec<File> = Vec::with_capacity(expected_number_of_files);
        let root_name = String::new();
        nodes.push(File::new(1, root_name, FileType::Directory, None));
        let r = Self { nodes, root: Some(FileKey(0)) };
        proof {
            assert(r.wf_node(0));
        }
        r
    }

    pub fn get_root(&self) -> (r: Option<FileKey>)
        ensures
            r == self.spec_root(),
    {
        self.root
    }

    /// Resolve an inode; `None` outside the dense range.
    pub fn get_file_by_inode(&self, inode: u64) -> (r: Option<FileWithFileKey>)
        requires
            self.wf(),
        ensures
            match r {
                Some(fk) => {
                    &&& self.has_inode(inode as int)
                    &&& fk.file_key.0 + 1 == inode
                    &&& self.valid_key(fk.file_key)
                    &&& *fk.file == self.node_at_inode(inode as int)
                },
                None => !self.has_inode(inode as int),
            },
    {
        if inode >= 1 && inode <= self.nodes.len() as u64 {
            let idx = (inode - 1) as usize;
            Some(FileWithFileKey { file: &self.nodes[idx], file_key: FileKey(idx) })
        } else {
            None
        }
    }

    /// Resolve `(parent inode, child name)`.
    pub fn get_child_for_inode<'a>(&'a self, parent: u64, filename: &str) -> (r: Option<
        FileWithFileKey<'a>,
    >)
        requires
            self.wf(),
        ensures
            match r {
                Some(fk) => {
                    &&& self.has_inode(parent as int)
                    &&& self.spec_child_key(parent as int, filename@) == Some(fk.file_key)
                    &&& self.valid_key(fk.file_key)
                    &&& *fk.file == self.node(fk.file_key)
                },
                None => !self.has_inode(parent as int) || self.spec_child_key(
                    parent as int,
                    filename@,
                ) is None,
            },
    {
        let directory = self.get_file_by_inode(parent);
        match directory {
            None => None,
            Some(directory) => {
                let children = &directory.file.children;
                let mut c: usize = 0;
                loop
                    invariant
                        self.wf(),
                        self.has_inode(parent as int),
                        *directory.file == self.node_at_inode(parent as int),
                        c <= children@.len(),
                        children@ == self.node_at_inode(parent as int).children@,
                        forall|j: int| 0 <= j < c ==> (#[trigger] children@[j].name@) != filename@,
                    ensures
                        match entries_lookup(children@, filename@) {
                            Some(k) => c < children@.len() && children@[c as int].name@ == filename@
                                && children@[c as int].key == k,
                            None => c == children@.len(),
                        },
                    decreases children@.len() - c,
                {
                    if c == children.len() {
                        proof {
                            lemma_lookup_absent(children@, filename@);
                        }
                        break;
                    }
                    if str_seq_eq(children[c].name.as_str(), filename) {
                        proof {
                            assert(self.wf_node(parent as int - 1));
                            lemma_lookup_finds(children@, filename@, c as int);
                        }
                        break;
                    }
                    c = c + 1;
                }
                if c < children.len() {
                    let key = children[c].key;
                    proof {
                        assert(self.wf_node(parent as int - 1));
                    }
                    Some(FileWithFileKey { file: &self.nodes[key.0], file_key: key })
                } else {
                    None
                }
            },
        }
    }

    /// The children of `directory`, in name-ascending order.
    pub fn list_directory<'a>(&'a self, directory: FileKey) -> (r: Vec<FileWithFileKey<'a>>)
        requires
            self.wf(),
            self.valid_key(directory),
        ensures
            r@.len() == self.node(directory).children@.len(),
            forall|j: int|
                0 <= j < r@.len() ==> {
                    let e = self.node(directory).children@[j];
                    &&& (#[trigger] r@[j]).file_key == e.key
                    &&& self.valid_key(e.key)
                    &&& *r@[j].file == self.node(e.key)
                },
    {
        let dir_node = &self.nodes[directory.0];
        let mut out: Vec<FileWithFileKey<'a>> = Vec::new();
        let n = dir_node.children.len();
        let mut c: usize = 0;
        while c < n
            invariant
                self.wf(),
                self.valid_key(directory),
                n == self.node(directory).children@.len(),
                dir_node.children@ == self.node(directory).children@,
                c <= n,
                out@.len() == c,
                forall|j: int|
                    0 <= j < c ==> {
                        let e = self.node(directory).children@[j];
                        &&& (#[trigger] out@[j]).file_key == e.key
                        &&& self.valid_key(e.key)
                        &&& *out@[j].file == self.node(e.key)
                    },
            decreases n - c,
        {
            proof {
                assert(self.wf_node(directory.0 as int));
            }
            let key = dir_node.children[c].key;
            out.push(FileWithFileKey { file: &self.nodes[key.0], file_key: key });
            c = c + 1;
        }
        out
    }

    /// The children of the root directory.
    pub fn list_root(&self) -> (r: Vec<FileWithFileKey>)
        requires
            self.wf(),
        ensures
            r@.len() == self.node(FileKey(0usize)).children@.len(),
            forall|j: int|
                0 <= j < r@.len() ==> {
                    let e = self.node(FileKey(0usize)).children@[j];
                    &&& (#[trigger] r@[j]).file_key == e.key
                    &&& self.valid_key(e.key)
                    &&& *r@[j].file == self.node(e.key)
                },
    {
        self.list_directory(FileKey(0))
    }

    /// Create a minute file under `parent`; see `create_node`.
    pub fn create_file(&mut self, name: String, time_bounds: TimeBounds, parent: Option<FileKey>) -> (r:
        FileKey)
        requires
            old(self).wf(),
            parent matches Some(p) && old(self).valid_key(p) && old(self).node(p).file_type
                is Directory,
            old(self).node_count() < usize::MAX,
        ensures
            final(self).wf(),
            created_node(
                *old(self),
                *final(self),
                name@,
                FileType::File(time_bounds),
                parent->Some_0,
                r,
            ),
    {
        match parent {
            Some(p) => self.create_node(name, FileType::File(time_bounds), p),
            None => vstd::pervasive::unreached(),
        }
    }

    /// Create a directory under `parent`; see `create_node`.
    pub fn create_directory(&mut self, name: String, parent: Option<FileKey>) -> (r: FileKey)
        requires
            old(self).wf(),
            parent matches Some(p) && old(self).valid_key(p) && old(self).node(p).file_type
                is Directory,
            old(self).node_count() < usize::MAX,
        ensures
            final(self).wf(),
            created_node(*old(self), *final(self), name@, FileType::Directory, parent->Some_0, r),
    {
        match parent {
            Some(p) => self.create_node(name, FileType::Directory, p),
            None => vstd::pervasive::unreached(),
        }
    }

    /// Create a node named `name` under `parent`. If the directory already
    /// has a child of that name, that child's key is returned and the tree
    /// is left unchanged; otherwise the node is appended to the arena with
    /// the next dense inode and registered in the parent's sorted child
    /// list.
    fn create_node(&mut self, name: String, file_type: FileType, parent: FileKey) -> (r: FileKey)
        requires
            old(self).wf(),
            old(self).valid_key(parent),
            old(self).node(parent).file_type is Directory,
            old(self).node_count() < usize::MAX,
        ensures
            final(self).wf(),
            created_node(*old(self), *final(self), name@, file_type, parent, r),
    {
        let pidx = parent.0;
        let mut i: usize = self.nodes[pidx].children.len();
        let ghost old_children = self.nodes@[pidx as int].children@;
        loop
            invariant
                self.wf(),
                pidx < self.nodes@.len(),
                old_children == self.nodes@[pidx as int].children@,
                i <= old_children.len(),
                forall|j: int|
                    i <= j < old_children.len() ==> lex_lt(name@, #[trigger] old_children[j].name@),
            ensures
                i <= old_children.len(),
                forall|j: int|
                    i <= j < old_children.len() ==> lex_lt(name@, #[trigger] old_children[j].name@),
                i > 0 ==> !lex_lt(name@, old_children[i - 1].name@),
            decreases i,
        {
            if i == 0 {
                break;
            }
            let children = &self.nodes[pidx].children;
            if !str_lex_lt(name.as_str(), children[i - 1].name.as_str()) {
                break;
            }
            i = i - 1;
        }
        proof {
            assert(self.wf_node(pidx as int));
        }
        if i > 0 && str_seq_eq(self.nodes[pidx].children[i - 1].name.as_str(), name.as_str()) {
            let r = self.nodes[pidx].children[i - 1].key;
            proof {
                lemma_lookup_finds(old_children, name@, i - 1);
            }
            r
        } else {
            proof {
                assert forall|j: int| 0 <= j < i implies lex_lt(
                    #[trigger] old_children[j].name@,
                    name@,
                ) by {
                    lemma_lex_lt_total(old_children[i - 1].name@, name@);
                    lemma_lex_lt_irreflexive(name@);
                    if j < i - 1 {
                        crate::text::lemma_lex_lt_transitive(
                            old_children[j].name@,
                            old_children[i - 1].name@,
                            name@,
                        );
                    }
                }
                assert forall|c: int| 0 <= c < old_children.len() implies (
                #[trigger] old_children[c].name@) != name@ by {
                    lemma_lex_lt_irreflexive(name@);
                }
                lemma_lookup_absent(old_children, name@);
            }
            let new_idx = self.nodes.len();
            let r = FileKey(new_idx);
            let inode = (new_idx as u64) + 1;
            let entry_name = name.clone();
            self.nodes.push(File::new(inode, name, file_type, Some(parent)));
            self.nodes[pidx].children.insert(i, ChildEntry { name: entry_name, key: r });
            proof {
                let prevt = *old(self);
                let nf = self.nodes@[new_idx as int];
                assert(self.nodes@ =~= prevt.nodes@.push(nf).update(
                    parent.0 as int,
                    self.node(parent),
                ));
                self.lemma_create_node_wf(prevt, parent, i as int, r);
                let oldc2 = prevt.node(parent).children@;
                let newc2 = self.node(parent).children@;
                assert(newc2[i as int].name@ == name@ && newc2[i as int].key == r);
                assert(exists|ins: int|
                    #![auto]
                    {
                        &&& insert_position_ok(oldc2, name@, ins)
                        &&& newc2 == oldc2.insert(ins, newc2[ins])
                        &&& newc2[ins].name@ == name@
                        &&& newc2[ins].key == r
                    }) by {
                    assert(insert_position_ok(oldc2, name@, i as int) && newc2 == oldc2.insert(
                        i as int,
                        newc2[i as int],
                    ) && newc2[i as int].name@ == name@ && newc2[i as int].key == r);
                }
                assert(created_node(prevt, *self, name@, file_type, parent, r));
            }
            r
        }
    }

    /// After an append-and-register step, the tree invariant still holds.
    proof fn lemma_create_node_wf(self, prev: FileTree, parent: FileKey, ins: int, r: FileKey)
        requires
            prev.wf(),
            prev.valid_key(parent),
            prev.node(parent).file_type is Directory,
            prev.node_count() < usize::MAX,
            r == FileKey(prev.node_count() as usize),
            insert_position_ok(
                prev.node(parent).children@,
                self.node(r).name@,
                ins,
            ),
    // the arena gained exactly the new node, then the parent's child list
    // gained exactly the new entry:

            self.nodes@ == prev.nodes@.push(self.node(r)).update(
                parent.0 as int,
                self.node(parent),
            ),
            self.node(r).inode == prev.node_count() + 1,
            self.node(r).parent == Some(parent),
            self.node(r).children@.len() == 0,
            self.node(parent).inode == prev.node(parent).inode,
            self.node(parent).name == prev.node(parent).name,
            self.node(parent).file_type == prev.node(parent).file_type,
            self.node(parent).parent == prev.node(parent).parent,
            self.node(parent).children@ == prev.node(parent).children@.insert(
                ins,
                self.node(parent).children@[ins],
            ),
            self.node(parent).children@[ins].name@ == self.node(r).name@,
            self.node(parent).children@[ins].key == r,
            self.root == prev.root,
        ensures
            self.wf(),
    {
        let n = self.nodes@.len();
        let pi = parent.0 as int;
        let ri = r.0 as int;
        let newc = self.node(parent).children@;
        let oldc = prev.node(parent).children@;
        assert(n == prev.nodes@.len() + 1);
        assert(prev.wf_node(pi));
        assert(forall|j: int| 0 <= j < ins ==> newc[j] == oldc[j]);
        assert(forall|j: int| ins < j < newc.len() ==> newc[j] == oldc[j - 1]);
        assert(entries_sorted(newc)) by {
            assert forall|a: int, b: int| 0 <= a < b < newc.len() implies lex_lt(
                #[trigger] newc[a].name@,
                #[trigger] newc[b].name@,
            ) by {
                let rname = self.node(r).name@;
                if a < ins {
                    assert(newc[a].name@ == oldc[a].name@);
                } else if a > ins {
                    assert(newc[a].name@ == oldc[a - 1].name@);
                } else {
                    assert(newc[a].name@ == rname);
                }
                if b < ins {
                    assert(newc[b].name@ == oldc[b].name@);
                } else if b > ins {
                    assert(newc[b].name@ == oldc[b - 1].name@);
                } else {
                    assert(newc[b].name@ == rname);
                }
            }
        }
        assert forall|i: int| 0 <= i < n implies self.wf_node(i) by {
            if i == ri {
                assert(self.registered(pi, i)) by {
                    assert((#[trigger] self.nodes@[pi].children@[ins]).key == FileKey(
                        i as usize,
                    ));
                }
                assert(self.wf_node(i));
            } else {
                assert(prev.wf_node(i));
                let f = self.nodes@[i];
                if i == pi {
                    assert(f.children@ == newc);
                    assert forall|c: int| 0 <= c < f.children@.len() implies {
                        let e = #[trigger] f.children@[c];
                        &&& i < e.key.0 < self.nodes@.len()
                        &&& self.nodes@[e.key.0 as int].parent == Some(FileKey(i as usize))
                        &&& self.nodes@[e.key.0 as int].name@ == e.name@
                    } by {
                        if c < ins {
                            assert(f.children@[c] == oldc[c]);
                        } else if c > ins {
                            assert(f.children@[c] == oldc[c - 1]);
                        }
                    }
                } else {
                    assert(f == prev.nodes@[i]);
                    assert forall|c: int| 0 <= c < f.children@.len() implies {
                        let e = #[trigger] f.children@[c];
                        &&& i < e.key.0 < self.nodes@.len()
                        &&& self.nodes@[e.key.0 as int].parent == Some(FileKey(i as usize))
                        &&& self.nodes@[e.key.0 as int].name@ == e.name@
                    } by {
                        let e = f.children@[c];
                        assert(e.key.0 as int != ri);
                        if e.key.0 as int != pi {
                            assert(self.nodes@[e.key.0 as int] == prev.nodes@[e.key.0 as int]);
                        }
                    }
                }
                if i != 0 {
                    let p = self.nodes@[i].parent->Some_0;
                    if p.0 as int == pi {
                        let c = choose|c: int|
                            0 <= c < oldc.len() && (#[trigger] oldc[c]).key == FileKey(i as usize)
                                && oldc[c].name@ == prev.nodes@[i].name@;
                        if c < ins {
                            assert((#[trigger] newc[c]).key == FileKey(i as usize));
                        } else {
                            assert((#[trigger] newc[c + 1]).key == FileKey(i as usize));
                        }
                        assert(self.registered(pi, i));
                    } else {
                        assert(self.nodes@[p.0 as int] == prev.nodes@[p.0 as int]);
                        let c = choose|c: int|
                            0 <= c < prev.nodes@[p.0 as int].children@.len() && (
                            #[trigger] prev.nodes@[p.0 as int].children@[c]).key == FileKey(
                                i as usize,
                            ) && prev.nodes@[p.0 as int].children@[c].name@
                                == prev.nodes@[i].name@;
                        assert((#[trigger] self.nodes@[p.0 as int].children@[c]).key == FileKey(
                            i as usize,
                        ));
                        assert(self.registered(p.0 as int, i));
                    }
                }
                assert(self.wf_node(i));
            }
        }
    }

    /// Law of inode uniqueness: in a well-formed tree, two distinct inodes
    /// always resolve to distinct nodes.
    pub proof fn lemma_inode_uniqueness(self, i: int, j: int)
        requires
            self.wf(),
            self.has_inode(i),
            self.has_inode(j),
            i != j,
        ensures
            self.node_at_inode(i) != self.node_at_inode(j),
    {
        assert(self.wf_node(i - 1));
        assert(self.wf_node(j - 1));
    }

    /// Law of naming: in a well-formed tree, looking a directory's child
    /// name up under the directory's inode yields exactly that child.
    pub proof fn lemma_child_naming(self, d: int, c: int)
        requires
            self.wf(),
            0 <= d < self.node_count(),
            0 <= c < self.nodes@[d].children@.len(),
        ensures
            ({
                let e = self.nodes@[d].children@[c];
                &&& self.spec_child_key(d + 1, e.name@) == Some(e.key)
                &&& self.valid_key(e.key)
                &&& self.node(e.key).name@ == e.name@
                &&& self.node(e.key).parent == Some(FileKey(d as usize))
            }),
    {
        assert(self.wf_node(d));
        lemma_lookup_finds(self.nodes@[d].children@, self.nodes@[d].children@[c].name@, c);
    }

    /// For listing, a node's parent; the root's parent is the root itself.
    pub fn get_parent_for_ls(&self, file: FileKey) -> (r: FileWithFileKey)
        requires
            self.wf(),
            self.valid_key(file),
        ensures
            match self.node(file).parent {
                Some(p) => r.file_key == p && self.valid_key(p) && *r.file == self.node(p),
                None => r.file_key == FileKey(0usize) && *r.file == self.node(FileKey(0usize)),
            },
    {
        proof {
            assert(self.wf_node(file.0 as int));
        }
        match self.nodes[file.0].parent {
            Some(parent_key) => FileWithFileKey {
                file: &self.nodes[parent_key.0],
                file_key: parent_key,
            },
            None => FileWithFileKey { file: &self.nodes[0], file_key: FileKey(0) },
        }
    }
}

} // verus!
