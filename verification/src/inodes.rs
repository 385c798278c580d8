//! The bookkeeping of the device filesystem mount: inode numbers for device
//! paths, the attributes reported for them, directory listings, and the
//! handles of opened files (fetched whole on open, pushed back on the last
//! close if written).
use vstd::prelude::*;

use crate::files::{entry_views, DirEntry, EntryView};
use crate::text::{
    base_name, base_name_exec, chars_eq, chars_of, last_index, last_index_of, push_chars,
    string_of, trim_end_char, trim_end_chars,
};
use std::collections::HashMap;

verus! {

broadcast use vstd::std_specs::hash::group_hash_axioms;

/// The inode number of the mounted root directory.
pub const ROOT_INO: u64 = 1;

/// The block size reported for every file.
pub const BLOCK_SIZE: u32 = 512;

/// A device path known to the mount.
pub struct Node {
    pub path: String,
    pub is_dir: bool,
    pub size: u64,
    pub mtime: i64,
    /// Whether the path still leads to this inode (a rename or a delete
    /// unlinks it; the inode itself stays).
    pub linked: bool,
}

pub struct NodeView {
    pub path: Seq<char>,
    pub is_dir: bool,
    pub size: u64,
    pub mtime: i64,
    pub linked: bool,
}

pub open spec fn node_view(n: Node) -> NodeView {
    NodeView { path: n.path@, is_dir: n.is_dir, size: n.size, mtime: n.mtime, linked: n.linked }
}

/// The inode whose path is `p`, if the path still leads to one. Inode `i`
/// is the `i`-th node (numbering starts at 1).
pub open spec fn linked_ino(nodes: Seq<NodeView>, p: Seq<char>) -> Option<u64>
    decreases nodes.len(),
{
    if nodes.len() == 0 {
        None
    } else if nodes.last().linked && nodes.last().path == p {
        Some(nodes.len() as u64)
    } else {
        linked_ino(nodes.drop_last(), p)
    }
}

/// What recording a listed path does: the inode the path leads to gets the
/// listed facts; a path that leads nowhere gets a new inode, numbered after
/// the last.
pub open spec fn intern_spec(t: Seq<NodeView>, p: Seq<char>, is_dir: bool, size: u64, mtime: i64) -> (
    Seq<NodeView>,
    u64,
) {
    let n = NodeView { path: p, is_dir, size, mtime, linked: true };
    match linked_ino(t, p) {
        Some(i) => (t.update(i - 1, n), i),
        None => (t.push(n), (t.len() + 1) as u64),
    }
}

/// What a rename or a delete does to the table: the path no longer leads
/// to its inode.
pub open spec fn forget_spec(t: Seq<NodeView>, p: Seq<char>) -> Seq<NodeView> {
    match linked_ino(t, p) {
        Some(i) => t.update(i - 1, NodeView { linked: false, ..t[i - 1] }),
        None => t,
    }
}

/// Recording every entry of a listing, in order: the table after, and the
/// inode of each entry.
pub open spec fn intern_all(t: Seq<NodeView>, es: Seq<EntryView>) -> (Seq<NodeView>, Seq<u64>)
    decreases es.len(),
{
    if es.len() == 0 {
        (t, Seq::empty())
    } else {
        let (t1, ks) = intern_all(t, es.drop_last());
        let e = es.last();
        let (t2, k) = intern_spec(t1, e.path, e.is_dir, e.size, e.mtime);
        (t2, ks.push(k))
    }
}

/// No path leads to two inodes.
pub open spec fn paths_unique(nodes: Seq<NodeView>) -> bool {
    forall|i: int, j: int|
        0 <= i < j < nodes.len() && nodes[i].linked && nodes[j].linked ==> nodes[i].path != nodes[j].path
}

/// The inodes of the mount, numbered from 1; inode 1 is the root.
///
/// Inode numbers are handed out densely, so inode `i` is the node at index
/// `i - 1` of a vector, found in constant time. Paths are found by scanning
/// for the linked node that holds them; `linked` records whether a path
/// still leads to its inode. (Verus proves nothing about a hash map keyed
/// by `String`, so the path index is this scan rather than such a map.)
pub struct InodeTable {
    nodes: Vec<Node>,
}

impl View for InodeTable {
    type V = Seq<NodeView>;

    closed spec fn view(&self) -> Seq<NodeView> {
        self.nodes@.map_values(|n: Node| node_view(n))
    }
}

/// The attributes reported for an inode.
pub struct NodeAttr {
    pub ino: u64,
    pub size: u64,
    pub blocks: u64,
    pub mtime: i64,
    pub is_dir: bool,
    pub perm: u16,
    pub nlink: u32,
    pub uid: u32,
    pub gid: u32,
    pub blksize: u32,
}

/// The attributes of an inode: size in 512-byte blocks rounded up,
/// directories `rwxr-xr-x` with two links, files `rw-r--r--` with one.
pub open spec fn attr_spec(ino: u64, is_dir: bool, size: u64, mtime: i64, uid: u32, gid: u32) -> NodeAttr {
    NodeAttr {
        ino,
        size,
        blocks: ((size as nat + 511) / 512) as u64,
        mtime,
        is_dir,
        perm: if is_dir { 0o755u16 } else { 0o644u16 },
        nlink: if is_dir { 2u32 } else { 1u32 },
        uid,
        gid,
        blksize: 512u32,
    }
}

/// Law: the attributes of an inode report the byte size recorded for it,
/// and as many 512-byte blocks as hold that size (no block more); its
/// number, time, kind and owner are the ones given; directories are
/// `rwxr-xr-x` with two links, files `rw-r--r--` with one.
pub proof fn lemma_attr_reports_size(ino: u64, is_dir: bool, size: u64, mtime: i64, uid: u32, gid: u32)
    ensures
        ({
            let a = attr_spec(ino, is_dir, size, mtime, uid, gid);
            &&& a.size == size
            &&& a.blocks * 512 >= size
            &&& a.blocks * 512 < size + 512
            &&& a.ino == ino && a.mtime == mtime && a.is_dir == is_dir && a.uid == uid && a.gid == gid
            &&& a.blksize == 512
            &&& is_dir ==> a.perm == 0o755 && a.nlink == 2
            &&& !is_dir ==> a.perm == 0o644 && a.nlink == 1
        }),
{
    let b = (size as nat + 511) / 512;
    assert(b * 512 >= size && b * 512 < size + 512) by (nonlinear_arith)
        requires
            b == (size as nat + 511) / 512,
    ;
    assert(b < 0x1_0000_0000_0000_0000) by (nonlinear_arith)
        requires
            b == (size as nat + 511) / 512,
            size < 0x1_0000_0000_0000_0000,
    ;
}

/// Law: the attributes the table gives for an inode report the size its
/// node holds.
pub proof fn lemma_table_attr_size(t: Seq<NodeView>, ino: u64, uid: u32, gid: u32)
    requires
        1 <= ino <= t.len(),
    ensures
        attr_spec(ino, t[ino - 1].is_dir, t[ino - 1].size, t[ino - 1].mtime, uid, gid).size == t[ino - 1].size,
        attr_spec(ino, t[ino - 1].is_dir, t[ino - 1].size, t[ino - 1].mtime, uid, gid).is_dir == t[ino - 1].is_dir,
{
    lemma_attr_reports_size(ino, t[ino - 1].is_dir, t[ino - 1].size, t[ino - 1].mtime, uid, gid);
}

/// The attributes of an inode.
pub fn make_attr(ino: u64, is_dir: bool, size: u64, mtime: i64, uid: u32, gid: u32) -> (a: NodeAttr)
    ensures
        a == attr_spec(ino, is_dir, size, mtime, uid, gid),
{
    let blocks = size / 512 + if size % 512 == 0 {
        0
    } else {
        1
    };
    assert(blocks == (size as nat + 511) / 512) by (nonlinear_arith)
        requires
            blocks == size / 512 + if size % 512 == 0 {
                0int
            } else {
                1int
            },
    ;
    NodeAttr {
        ino,
        size,
        blocks,
        mtime,
        is_dir,
        perm: if is_dir {
            0o755
        } else {
            0o644
        },
        nlink: if is_dir {
            2
        } else {
            1
        },
        uid,
        gid,
        blksize: BLOCK_SIZE,
    }
}

/// One entry of a directory read: inode, whether it is a directory, name.
pub struct ListedChild {
    pub ino: u64,
    pub is_dir: bool,
    pub name: String,
}

pub open spec fn child_view(c: ListedChild) -> (u64, bool, Seq<char>) {
    (c.ino, c.is_dir, c.name@)
}

/// The children of a listing that the table knows, each with its name.
pub open spec fn known_children(nodes: Seq<NodeView>, kids: Seq<u64>) -> Seq<(u64, bool, Seq<char>)>
    decreases kids.len(),
{
    if kids.len() == 0 {
        Seq::empty()
    } else {
        let prev = known_children(nodes, kids.drop_last());
        let k = kids.last();
        if 1 <= k <= nodes.len() {
            prev.push((k, nodes[k - 1].is_dir, base_name(nodes[k - 1].path)))
        } else {
            prev
        }
    }
}

/// The path of a child: the parent's path without trailing `/`, a `/`, the
/// name.
pub open spec fn child_path_spec(parent: Seq<char>, name: Seq<char>) -> Seq<char> {
    trim_end_char(parent, '/') + "/"@ + name
}

/// The path of the directory that holds `p`: everything before its last
/// `/`, the root where that is empty; `None` for a path without `/`.
pub open spec fn parent_path(p: Seq<char>, root: Seq<char>) -> Option<Seq<char>> {
    match last_index_of(p, '/') {
        None => None,
        Some(k) => if k == 0 {
            Some(root)
        } else {
            Some(p.take(k))
        },
    }
}

impl InodeTable {
    /// Every table keeps this: its inode numbers fit, and no path leads to
    /// two inodes.
    #[verifier::type_invariant]
    spec fn wf(self) -> bool {
        &&& self.nodes@.len() < u64::MAX
        &&& paths_unique(self.nodes@.map_values(|n: Node| node_view(n)))
    }

    /// A table that knows only the root directory.
    pub fn new(root: &str, now: i64) -> (t: InodeTable)
        ensures
            t@ == seq![NodeView { path: root@, is_dir: true, size: 0, mtime: now, linked: true }],
    {
        let mut nodes: Vec<Node> = Vec::new();
        nodes.push(Node { path: String::from_str(root), is_dir: true, size: 0, mtime: now, linked: true });
        let t = InodeTable { nodes };
        assert(t@ =~= seq![NodeView { path: root@, is_dir: true, size: 0, mtime: now, linked: true }]);
        t
    }

    /// Number of inodes.
    pub fn len(&self) -> (n: u64)
        ensures
            n == self@.len(),
            n < u64::MAX,
    {
        proof {
            use_type_invariant(self);
        }
        self.nodes.len() as u64
    }

    proof fn lemma_view_index(&self, i: int)
        requires
            0 <= i < self.nodes@.len(),
        ensures
            self@[i] == node_view(self.nodes@[i]),
            self@.len() == self.nodes@.len(),
    {
    }

    /// The inode the path leads to.
    pub fn lookup_path(&self, p: &str) -> (r: Option<u64>)
        ensures
            r == linked_ino(self@, p@),
    {
        proof {
            use_type_invariant(self);
        }
        let pc = chars_of(p);
        let mut j: usize = self.nodes.len();
        assert(self@.take(j as int) == self@);
        while j > 0
            invariant
                j <= self.nodes@.len(),
                self@.len() == self.nodes@.len(),
                self.nodes@.len() < u64::MAX,
                pc@ == p@,
                linked_ino(self@, p@) == linked_ino(self@.take(j as int), p@),
            decreases j,
        {
            proof {
                self.lemma_view_index(j - 1);
                assert(self@.take(j as int).drop_last() == self@.take(j - 1));
                assert(self@.take(j as int).last() == self@[j - 1]);
            }
            let n = &self.nodes[j - 1];
            if n.linked && chars_eq(&chars_of(n.path.as_str()), &pc) {
                return Some(j as u64);
            }
            j = j - 1;
        }
        None
    }

    /// Records what a listing says of a path and returns its inode: the
    /// inode it already leads to (its attributes refreshed), else a new one.
    pub fn intern(&mut self, path: String, is_dir: bool, size: u64, mtime: i64) -> (ino: u64)
        requires
            old(self)@.len() + 1 < u64::MAX,
        ensures
            (final(self)@, ino) == intern_spec(old(self)@, path@, is_dir, size, mtime),
    {
        proof {
            use_type_invariant(&*self);
        }
        let found = self.lookup_path(path.as_str());
        let ghost before = self@;
        assert(before.len() == self.nodes@.len());
        let ghost raw = self.nodes@;
        proof {
            lemma_linked_ino_facts(before, path@);
        }
        let ghost pv = path@;
        let nlen = self.nodes.len();
        assert(before.len() == nlen);
        assert(found == linked_ino(before, pv));
        let node = Node { path, is_dir, size, mtime, linked: true };
        let ghost nodev = node_view(node);
        assert(nodev == NodeView { path: path@, is_dir, size, mtime, linked: true });
        match found {
            Some(i) => {
                assert(1 <= i <= before.len());
                assert(before[i - 1].linked && before[i - 1].path == pv);
                let idx = (i - 1) as usize;
                assert(idx as int == i - 1);
                let mut ns: Vec<Node> = Vec::new();
                std::mem::swap(&mut ns, &mut self.nodes);
                ns.set(idx, node);
                let ghost nodes = ns;
                proof {
                    let nv = nodes@.map_values(|n: Node| node_view(n));
                    assert(nodes@ == raw.update(idx as int, nodes@[idx as int]));
                    assert(nv =~= before.update(idx as int, node_view(nodes@[idx as int])));
                    assert(paths_unique(nv)) by {
                        assert forall|a: int, b: int|
                            0 <= a < b < nv.len() && nv[a].linked && nv[b].linked implies nv[a].path != nv[b].path by {
                            assert(paths_unique(before));
                            assert(before[idx as int].linked && before[idx as int].path == nodev.path);
                            if a == idx {
                                assert(nv[a] == nodev);
                                assert(nv[b] == before[b]);
                            } else if b == idx {
                                assert(nv[b] == nodev);
                                assert(nv[a] == before[a]);
                            } else {
                                assert(nv[a] == before[a]);
                                assert(nv[b] == before[b]);
                            }
                        }
                    }
                }
                self.nodes = ns;
                i
            },
            None => {
                let n = self.nodes.len() as u64;
                let mut ns: Vec<Node> = Vec::new();
                std::mem::swap(&mut ns, &mut self.nodes);
                ns.push(node);
                let ghost nodes = ns;
                proof {
                    let nv = nodes@.map_values(|n: Node| node_view(n));
                    assert(nodes@ == raw.push(nodes@.last()));
                    assert(nv =~= before.push(node_view(nodes@.last())));
                    assert(paths_unique(nv)) by {
                        assert forall|a: int, b: int|
                            0 <= a < b < nv.len() && nv[a].linked && nv[b].linked implies nv[a].path != nv[b].path by {
                            if b == nv.len() - 1 {
                                assert(nv[a] == before[a]);
                            }
                        }
                    }
                }
                self.nodes = ns;
                n + 1
            },
        }
    }

    /// The path no longer leads to an inode (after a rename or a delete).
    pub fn forget_path(&mut self, p: &str)
        ensures
            final(self)@ == forget_spec(old(self)@, p@),
    {
        proof {
            use_type_invariant(&*self);
        }
        let found = self.lookup_path(p);
        let ghost before = self@;
        assert(before.len() == self.nodes@.len());
        let ghost raw = self.nodes@;
        proof {
            lemma_linked_ino_facts(before, p@);
        }
        match found {
            Some(i) => {
                let idx = (i - 1) as usize;
                let old_node = &self.nodes[idx];
                assert(before[idx as int] == node_view(raw[idx as int]));
                let unlinked = Node {
                    path: old_node.path.clone(),
                    is_dir: old_node.is_dir,
                    size: old_node.size,
                    mtime: old_node.mtime,
                    linked: false,
                };
                let mut ns: Vec<Node> = Vec::new();
                std::mem::swap(&mut ns, &mut self.nodes);
                ns.set(idx, unlinked);
                let ghost nodes = ns;
                proof {
                    let nv = nodes@.map_values(|n: Node| node_view(n));
                    assert(nodes@ =~= raw.update(idx as int, nodes@[idx as int]));
                    assert(nv =~= before.update(idx as int, NodeView { linked: false, ..before[idx as int] }));
                    assert(idx as int == i - 1);
                    assert(paths_unique(nv)) by {
                        assert forall|a: int, b: int|
                            0 <= a < b < nv.len() && nv[a].linked && nv[b].linked implies nv[a].path != nv[b].path by {
                            assert(nv[a].linked ==> before[a].linked && nv[a].path == before[a].path);
                            assert(nv[b].linked ==> before[b].linked && nv[b].path == before[b].path);
                        }
                    }
                }
                self.nodes = ns;
                assert(self@ == before.update(i - 1, NodeView { linked: false, ..before[i - 1] }));
            },
            None => {},
        }
    }

    /// The recorded facts of an inode: whether it is a directory, its size
    /// and its modification time.
    pub fn info(&self, ino: u64) -> (r: Option<(bool, u64, i64)>)
        ensures
            match r {
                Some(x) => 1 <= ino <= self@.len() && x == (self@[ino - 1].is_dir, self@[ino - 1].size, self@[ino - 1].mtime),
                None => !(1 <= ino <= self@.len()),
            },
    {
        if ino == 0 || ino > self.nodes.len() as u64 {
            return None;
        }
        let n = &self.nodes[(ino - 1) as usize];
        proof {
            self.lemma_view_index(ino - 1);
        }
        Some((n.is_dir, n.size, n.mtime))
    }

    /// The attributes of an inode, if the table knows it.
    pub fn attr(&self, ino: u64, uid: u32, gid: u32) -> (r: Option<NodeAttr>)
        ensures
            match r {
                Some(a) => 1 <= ino <= self@.len() && a == attr_spec(
                    ino,
                    self@[ino - 1].is_dir,
                    self@[ino - 1].size,
                    self@[ino - 1].mtime,
                    uid,
                    gid,
                ),
                None => !(1 <= ino <= self@.len()),
            },
    {
        match self.info(ino) {
            Some((is_dir, size, mtime)) => Some(make_attr(ino, is_dir, size, mtime, uid, gid)),
            None => None,
        }
    }

    /// The path of an inode, if the table knows it.
    pub fn path_of(&self, ino: u64) -> (r: Option<String>)
        ensures
            match r {
                Some(p) => 1 <= ino <= self@.len() && p@ == self@[ino - 1].path,
                None => !(1 <= ino <= self@.len()),
            },
    {
        if ino == 0 || ino > self.nodes.len() as u64 {
            return None;
        }
        proof {
            self.lemma_view_index(ino - 1);
        }
        Some(self.nodes[(ino - 1) as usize].path.clone())
    }

    fn set_size_at(&mut self, ino: u64, size: u64)
        requires
            1 <= ino <= old(self)@.len(),
        ensures
            final(self)@ == old(self)@.update(ino - 1, NodeView { size, ..old(self)@[ino - 1] }),
    {
        proof {
            use_type_invariant(&*self);
        }
        let ghost before = self@;
        let ghost raw = self.nodes@;
        assert(before.len() == raw.len());
        let idx = (ino - 1) as usize;
        let old_node = &self.nodes[idx];
        assert(before[idx as int] == node_view(raw[idx as int]));
        let resized = Node {
            path: old_node.path.clone(),
            is_dir: old_node.is_dir,
            size,
            mtime: old_node.mtime,
            linked: old_node.linked,
        };
        let mut ns: Vec<Node> = Vec::new();
        std::mem::swap(&mut ns, &mut self.nodes);
        ns.set(idx, resized);
        let ghost nodes = ns;
        proof {
            let nv = nodes@.map_values(|n: Node| node_view(n));
            assert(nodes@ =~= raw.update(idx as int, nodes@[idx as int]));
            assert(nv =~= before.update(idx as int, NodeView { size, ..before[idx as int] }));
            assert(paths_unique(nv)) by {
                assert forall|a: int, b: int|
                    0 <= a < b < nv.len() && nv[a].linked && nv[b].linked implies nv[a].path != nv[b].path by {
                    assert(nv[a].path == before[a].path && nv[a].linked == before[a].linked);
                    assert(nv[b].path == before[b].path && nv[b].linked == before[b].linked);
                }
            }
        }
        self.nodes = ns;
    }

    /// Truncation: the inode's size becomes `size` (nothing for an unknown
    /// inode).
    pub fn set_size(&mut self, ino: u64, size: u64)
        ensures
            1 <= ino <= old(self)@.len() ==> final(self)@ == old(self)@.update(
                ino - 1,
                NodeView { size, ..old(self)@[ino - 1] },
            ),
            !(1 <= ino <= old(self)@.len()) ==> final(self)@ == old(self)@,
    {
        if ino >= 1 && ino <= self.len() {
            self.set_size_at(ino, size);
        }
    }

    /// A write that reached `end`: the inode's size grows to `end` if that
    /// is larger (nothing for an unknown inode).
    pub fn grow_to(&mut self, ino: u64, end: u64)
        ensures
            (1 <= ino <= old(self)@.len() && end > old(self)@[ino - 1].size) ==> final(self)@ == old(self)@.update(
                ino - 1,
                NodeView { size: end, ..old(self)@[ino - 1] },
            ),
            !(1 <= ino <= old(self)@.len() && end > old(self)@[ino - 1].size) ==> final(self)@ == old(self)@,
    {
        match self.info(ino) {
            Some((_, size, _)) => {
                if end > size {
                    self.set_size_at(ino, end);
                }
            },
            None => {},
        }
    }

    /// The path of a child of the directory `parent`.
    pub fn child_path(&self, parent: u64, name: &str) -> (r: Option<String>)
        ensures
            match r {
                Some(p) => 1 <= parent <= self@.len() && p@ == child_path_spec(self@[parent - 1].path, name@),
                None => !(1 <= parent <= self@.len()),
            },
    {
        match self.path_of(parent) {
            Some(p) => {
                let pc = chars_of(p.as_str());
                let mut out = string_of(&trim_end_chars(&pc, '/'));
                out.push('/');
                push_chars(&mut out, &chars_of(name));
                proof {
                    reveal_strlit("/");
                }
                Some(out)
            },
            None => None,
        }
    }

    /// The inode of the directory that holds the inode's path.
    pub fn parent_ino(&self, ino: u64) -> (r: Option<u64>)
        ensures
            (1 <= ino <= self@.len() && parent_path(self@[ino - 1].path, self@[0].path) is Some) ==> r
                == linked_ino(self@, parent_path(self@[ino - 1].path, self@[0].path).unwrap()),
            !(1 <= ino <= self@.len() && parent_path(self@[ino - 1].path, self@[0].path) is Some) ==> r is None,
    {
        let p = match self.path_of(ino) {
            Some(p) => p,
            None => return None,
        };
        let pc = chars_of(p.as_str());
        proof {
            crate::text::lemma_last_index_bound(pc@, '/');
            self.lemma_view_index(0);
        }
        let k = match last_index(&pc, '/') {
            Some(k) => k,
            None => return None,
        };
        if k == 0 {
            let root = self.nodes[0].path.as_str();
            self.lookup_path(root)
        } else {
            let head = string_of(&crate::text::slice_chars(&pc, 0, k));
            self.lookup_path(head.as_str())
        }
    }

    /// The entries of a directory read: `.` (the directory itself), `..`
    /// (the root), then each known child with its name.
    pub fn dir_entries(&self, ino: u64, kids: &Vec<u64>) -> (r: Vec<ListedChild>)
        ensures
            r@.map_values(|c: ListedChild| child_view(c)) == seq![(ino, true, "."@), (ROOT_INO, true, ".."@)]
                + known_children(self@, kids@),
    {
        let mut out: Vec<ListedChild> = Vec::new();
        out.push(ListedChild { ino, is_dir: true, name: String::from_str(".") });
        out.push(ListedChild { ino: ROOT_INO, is_dir: true, name: String::from_str("..") });
        let ghost head = seq![(ino, true, "."@), (ROOT_INO, true, ".."@)];
        assert(out@.map_values(|c: ListedChild| child_view(c)) =~= head + known_children(self@, kids@.take(0)));
        let mut i: usize = 0;
        while i < kids.len()
            invariant
                i <= kids.len(),
                head == seq![(ino, true, "."@), (ROOT_INO, true, ".."@)],
                out@.map_values(|c: ListedChild| child_view(c)) == head + known_children(self@, kids@.take(i as int)),
            decreases kids.len() - i,
        {
            proof {
                assert(kids@.take(i + 1).drop_last() == kids@.take(i as int));
                assert(kids@.take(i + 1).last() == kids@[i as int]);
            }
            let k = kids[i];
            match self.path_of(k) {
                Some(p) => {
                    let (is_dir, _, _) = self.info(k).unwrap();
                    let name = string_of(&base_name_exec(&chars_of(p.as_str())));
                    let ghost before = out@;
                    out.push(ListedChild { ino: k, is_dir, name });
                    assert(out@.map_values(|c: ListedChild| child_view(c)) =~= before.map_values(
                        |c: ListedChild| child_view(c),
                    ).push(child_view(out@.last())));
                },
                None => {},
            }
            i = i + 1;
        }
        assert(kids@.take(kids.len() as int) == kids@);
        out
    }

    /// The entries of a directory read from `offset` on, each with the
    /// offset of the entry after it (a negative offset skips everything, as
    /// its conversion to an index does; the offsets are the positions counted
    /// from 1, converted to `i64` as `as` does).
    pub fn dir_entries_from(&self, ino: u64, kids: &Vec<u64>, offset: i64) -> (r: Vec<(i64, ListedChild)>)
        ensures
            ({
                let all = seq![(ino, true, "."@), (ROOT_INO, true, ".."@)] + known_children(self@, kids@);
                let start: int = if offset < 0 { all.len() as int } else if offset > all.len() { all.len() as int } else { offset as int };
                &&& r@.len() == all.len() - start
                &&& forall|i: int| 0 <= i < r@.len() ==> (#[trigger] r@[i]).0 == (start + i + 1) as i64 && child_view(r@[i].1) == all[start + i]
            }),
    {
        let all = self.dir_entries(ino, kids);
        let ghost av = all@.map_values(|c: ListedChild| child_view(c));
        let n = all.len();
        let start: usize = if offset < 0 {
            n
        } else if offset as u64 > n as u64 {
            n
        } else {
            offset as usize
        };
        let mut rest = crate::sort::to_deque(all);
        let mut k: usize = 0;
        let ghost orig = rest@;
        while k < start && rest.len() > 0
            invariant
                k <= start <= n,
                orig.len() == n,
                rest@ == orig.skip(k as int),
            decreases start - k,
        {
            let _ = rest.pop_front();
            assert(rest@ =~= orig.skip(k + 1));
            k = k + 1;
        }
        let mut out: Vec<(i64, ListedChild)> = Vec::new();
        let mut i: usize = start;
        while rest.len() > 0
            invariant
                start <= i <= n,
                orig.len() == n,
                rest@ == orig.skip(i as int),
                out@.len() == i - start,
                forall|m: int| 0 <= m < out@.len() ==> (#[trigger] out@[m]).0 == (start + m + 1) as i64 && out@[m].1 == orig[start + m],
            decreases rest.len(),
        {
            let c = rest.pop_front().unwrap();
            assert(rest@ =~= orig.skip(i + 1));
            out.push(((i + 1) as i64, c));
            i = i + 1;
        }
        proof {
            assert forall|m: int| 0 <= m < out@.len() implies child_view(out@[m].1) == av[start + m] by {
                assert(out@[m].1 == orig[start + m]);
            }
        }
        out
    }

    /// The first child of a listing whose name is `name`.
    pub fn find_child(&self, kids: &Vec<u64>, name: &str) -> (r: Option<u64>)
        ensures
            match r {
                Some(k) => exists|i: int|
                    0 <= i < kids@.len() && kids@[i] == k && 1 <= k <= self@.len() && base_name(self@[k - 1].path)
                        == name@ && (forall|m: int|
                        0 <= m < i && 1 <= #[trigger] kids@[m] <= self@.len() ==> base_name(self@[kids@[m] - 1].path)
                            != name@),
                None => forall|i: int|
                    0 <= i < kids@.len() && 1 <= #[trigger] kids@[i] <= self@.len() ==> base_name(self@[kids@[i] - 1].path) != name@,
            },
    {
        let nc = chars_of(name);
        let mut i: usize = 0;
        while i < kids.len()
            invariant
                i <= kids.len(),
                nc@ == name@,
                forall|m: int|
                    0 <= m < i && 1 <= #[trigger] kids@[m] <= self@.len() ==> base_name(self@[kids@[m] - 1].path) != name@,
            decreases kids.len() - i,
        {
            let k = kids[i];
            match self.path_of(k) {
                Some(p) => {
                    if chars_eq(&base_name_exec(&chars_of(p.as_str())), &nc) {
                        assert(kids@[i as int] == k);
                        return Some(k);
                    }
                },
                None => {},
            }
            i = i + 1;
        }
        None
    }

    /// Records every entry of a fresh device listing; returns their inodes
    /// in listing order.
    pub fn intern_listing(&mut self, entries: &Vec<DirEntry>) -> (kids: Vec<u64>)
        requires
            old(self)@.len() + entries@.len() + 1 < u64::MAX,
        ensures
            (final(self)@, kids@) == intern_all(old(self)@, entry_views(entries@)),
    {
        let ghost es = entry_views(entries@);
        let mut kids: Vec<u64> = Vec::new();
        let mut i: usize = 0;
        assert(es.take(0) == Seq::<EntryView>::empty());
        while i < entries.len()
            invariant
                i <= entries.len(),
                es == entry_views(entries@),
                (self@, kids@) == intern_all(old(self)@, es.take(i as int)),
                self@.len() <= old(self)@.len() + i,
                old(self)@.len() + entries@.len() + 1 < u64::MAX,
            decreases entries.len() - i,
        {
            proof {
                assert(es.take(i + 1).drop_last() == es.take(i as int));
                assert(es.take(i + 1).last() == entries@[i as int]@);
            }
            let e = &entries[i];
            let ghost mid = self@;
            let p = e.path.clone();
            let ghost pv = p@;
            let k = self.intern(p, e.is_dir, e.size, e.mtime);
            proof {
                match linked_ino(mid, pv) {
                    Some(j) => {
                        lemma_linked_ino_facts(mid, pv);
                        assert(self@.len() == mid.len());
                    },
                    None => {
                        assert(self@.len() == mid.len() + 1);
                    },
                }
            }
            kids.push(k);
            i = i + 1;
        }
        assert(es.take(entries.len() as int) == es);
        kids
    }
}

proof fn lemma_linked_ino_facts(nodes: Seq<NodeView>, p: Seq<char>)
    requires
        nodes.len() <= u64::MAX,
    ensures
        linked_ino(nodes, p) matches Some(i) ==> 1 <= i <= nodes.len() && nodes[i - 1].linked && nodes[i - 1].path == p,
        linked_ino(nodes, p) is None ==> forall|j: int| 0 <= j < nodes.len() && nodes[j].linked ==> nodes[j].path != p,
    decreases nodes.len(),
{
    if nodes.len() > 0 {
        lemma_linked_ino_facts(nodes.drop_last(), p);
        assert forall|j: int| 0 <= j < nodes.len() - 1 implies nodes.drop_last()[j] == nodes[j] by {}
    }
}

proof fn lemma_linked_ino_is_last(nodes: Seq<NodeView>, p: Seq<char>)
    requires
        nodes.len() <= u64::MAX,
    ensures
        linked_ino(nodes, p) matches Some(i) ==> forall|j: int|
            i <= j < nodes.len() ==> !(#[trigger] nodes[j].linked && nodes[j].path == p),
    decreases nodes.len(),
{
    if nodes.len() > 0 {
        lemma_linked_ino_is_last(nodes.drop_last(), p);
        if let Some(i) = linked_ino(nodes, p) {
            if !(nodes.last().linked && nodes.last().path == p) {
                assert forall|j: int| i <= j < nodes.len() implies !(#[trigger] nodes[j].linked && nodes[j].path == p) by {
                    if j < nodes.len() - 1 {
                        assert(nodes.drop_last()[j] == nodes[j]);
                    }
                }
            }
        }
    }
}

proof fn lemma_linked_ino_found(nodes: Seq<NodeView>, p: Seq<char>, i: int)
    requires
        nodes.len() <= u64::MAX,
        1 <= i <= nodes.len(),
        nodes[i - 1].linked && nodes[i - 1].path == p,
        forall|j: int| i <= j < nodes.len() ==> !(#[trigger] nodes[j].linked && nodes[j].path == p),
    ensures
        linked_ino(nodes, p) == Some(i as u64),
    decreases nodes.len(),
{
    if nodes.len() > i {
        assert(!(nodes[nodes.len() - 1].linked && nodes[nodes.len() - 1].path == p));
        lemma_linked_ino_found(nodes.drop_last(), p, i);
    }
}

/// Law: recording a path gives the inode it then leads to; recording it
/// again gives the same inode and adds none.
pub proof fn lemma_intern_idempotent(
    t: Seq<NodeView>,
    p: Seq<char>,
    d1: bool,
    s1: u64,
    m1: i64,
    d2: bool,
    s2: u64,
    m2: i64,
)
    requires
        t.len() < u64::MAX,
    ensures
        ({
            let (t1, i1) = intern_spec(t, p, d1, s1, m1);
            let (t2, i2) = intern_spec(t1, p, d2, s2, m2);
            &&& linked_ino(t1, p) == Some(i1)
            &&& i2 == i1
            &&& t2.len() == t1.len()
        }),
{
    let (t1, i1) = intern_spec(t, p, d1, s1, m1);
    lemma_linked_ino_facts(t, p);
    lemma_linked_ino_is_last(t, p);
    match linked_ino(t, p) {
        Some(i) => {
            let n = NodeView { path: p, is_dir: d1, size: s1, mtime: m1, linked: true };
            assert forall|j: int| i <= j < t1.len() implies !(#[trigger] t1[j].linked && t1[j].path == p) by {
                assert(t1[j] == t[j]);
            }
            lemma_linked_ino_found(t1, p, i as int);
        },
        None => {
            assert(t1.drop_last() == t);
        },
    }
}

/// Law: recording a path hands out a new inode, numbered after every known
/// one, only where no inode has that path; otherwise it gives the inode the
/// path leads to. Either way that inode holds the listed facts, every other
/// inode is left as it was, and no path comes to lead to two inodes.
pub proof fn lemma_intern_fresh_or_same(t: Seq<NodeView>, p: Seq<char>, d: bool, s: u64, m: i64)
    requires
        t.len() < u64::MAX,
    ensures
        ({
            let (t1, i) = intern_spec(t, p, d, s, m);
            &&& 1 <= i <= t1.len()
            &&& t1[i - 1] == NodeView { path: p, is_dir: d, size: s, mtime: m, linked: true }
            &&& forall|k: int| 0 <= k < t.len() && k != i - 1 ==> #[trigger] t1[k] == t[k]
            &&& (linked_ino(t, p) matches Some(j) ==> i == j && t1.len() == t.len())
            &&& (linked_ino(t, p) is None ==> i == t.len() + 1 && t1.len() == t.len() + 1)
            &&& (paths_unique(t) ==> paths_unique(t1))
        }),
{
    lemma_linked_ino_facts(t, p);
    let (t1, i) = intern_spec(t, p, d, s, m);
    if paths_unique(t) {
        assert forall|a: int, b: int| 0 <= a < b < t1.len() && t1[a].linked && t1[b].linked implies t1[a].path != t1[b].path by {
            if a != i - 1 && b != i - 1 {
                assert(t1[a] == t[a] && t1[b] == t[b]);
            } else if a == i - 1 {
                assert(t1[b] == t[b]);
            } else {
                assert(t1[a] == t[a]);
            }
        }
    }
}

/// Law: once a path has been forgotten (renamed away or deleted), recording
/// it again gives a new inode; the forgotten one keeps its number.
pub proof fn lemma_forget_then_intern(t: Seq<NodeView>, p: Seq<char>, d: bool, s: u64, m: i64)
    requires
        t.len() < u64::MAX,
        paths_unique(t),
    ensures
        linked_ino(forget_spec(t, p), p) is None,
        intern_spec(forget_spec(t, p), p, d, s, m).1 == t.len() + 1,
{
    lemma_linked_ino_facts(t, p);
    let f = forget_spec(t, p);
    lemma_linked_ino_facts(f, p);
    if let Some(i) = linked_ino(t, p) {
        if let Some(k) = linked_ino(f, p) {
            if k != i {
                assert(f[k - 1] == t[k - 1]);
                assert(t[i - 1].path == t[k - 1].path);
                if k < i {
                    assert(t[k - 1].path != t[i - 1].path);
                } else {
                    assert(t[i - 1].path != t[k - 1].path);
                }
            }
        }
    }
}

// ---------------------------------------------------------------------------
// Open files
// ---------------------------------------------------------------------------

/// An opened file: whether it was written, how many opens hold it.
#[derive(Clone, Copy)]
pub struct OpenState {
    pub dirty: bool,
    pub refcount: u32,
}

/// The opened files of the mount, by inode.
pub struct OpenFiles {
    handles: HashMap<u64, OpenState>,
}

impl View for OpenFiles {
    type V = Map<u64, OpenState>;

    closed spec fn view(&self) -> Map<u64, OpenState> {
        self.handles@
    }
}

/// Another `open` of a file: where it is open, its count goes up by one
/// (wrapping, as the release build's `+=` does).
pub open spec fn reopen_spec(m: Map<u64, OpenState>, ino: u64) -> (Map<u64, OpenState>, bool) {
    if m.contains_key(ino) {
        (m.insert(ino, OpenState { dirty: m[ino].dirty, refcount: m[ino].refcount.wrapping_add(1) }), true)
    } else {
        (m, false)
    }
}

/// A write or truncation of an open file marks it for pushing back.
pub open spec fn mark_dirty_spec(m: Map<u64, OpenState>, ino: u64) -> (Map<u64, OpenState>, bool) {
    if m.contains_key(ino) {
        (m.insert(ino, OpenState { dirty: true, refcount: m[ino].refcount }), true)
    } else {
        (m, false)
    }
}

/// One open of a file is released: its count goes down (not below 0); at
/// 0 the handle is dropped, and a written file must be pushed.
pub open spec fn release_spec(m: Map<u64, OpenState>, ino: u64) -> (Map<u64, OpenState>, bool) {
    if !m.contains_key(ino) {
        (m, false)
    } else {
        let s = m[ino];
        let left: u32 = if s.refcount == 0 { 0 } else { (s.refcount - 1) as u32 };
        if left == 0 {
            (m.remove(ino), s.dirty)
        } else {
            (m.insert(ino, OpenState { dirty: s.dirty, refcount: left }), false)
        }
    }
}

impl OpenFiles {
    pub fn new() -> (o: OpenFiles)
        ensures
            o@ == Map::<u64, OpenState>::empty(),
    {
        OpenFiles { handles: HashMap::new() }
    }

    /// Is the file open?
    pub fn is_open(&self, ino: u64) -> (r: bool)
        ensures
            r == self@.contains_key(ino),
    {
        self.handles.contains_key(&ino)
    }

    /// Another `open` of a file. `true` where it was already open (its
    /// count went up); `false` where it was not (the file must then be
    /// fetched and `opened` recorded).
    pub fn reopen(&mut self, ino: u64) -> (r: bool)
        ensures
            (final(self)@, r) == reopen_spec(old(self)@, ino),
    {
        match self.handles.get(&ino) {
            Some(h) => {
                let s = *h;
                self.handles.insert(ino, OpenState { dirty: s.dirty, refcount: s.refcount.wrapping_add(1) });
                true
            },
            None => false,
        }
    }

    /// A file was fetched (or created) and is now open once; a created file
    /// starts written, so that it is pushed even if empty.
    pub fn opened(&mut self, ino: u64, dirty: bool)
        ensures
            final(self)@ == old(self)@.insert(ino, OpenState { dirty, refcount: 1 }),
    {
        self.handles.insert(ino, OpenState { dirty, refcount: 1 });
    }

    /// A write or a truncation went to the open copy: it must be pushed back.
    pub fn mark_dirty(&mut self, ino: u64) -> (r: bool)
        ensures
            (final(self)@, r) == mark_dirty_spec(old(self)@, ino),
    {
        match self.handles.get(&ino) {
            Some(h) => {
                let s = *h;
                self.handles.insert(ino, OpenState { dirty: true, refcount: s.refcount });
                true
            },
            None => false,
        }
    }

    /// One open of the file is released. Returns whether the local copy must
    /// now be pushed to the device: on the last release of a written file.
    pub fn release(&mut self, ino: u64) -> (push: bool)
        ensures
            (final(self)@, push) == release_spec(old(self)@, ino),
    {
        match self.handles.get(&ino) {
            Some(h) => {
                let s = *h;
                let left = s.refcount.saturating_sub(1);
                let push = left == 0 && s.dirty;
                if left == 0 {
                    self.handles.remove(&ino);
                } else {
                    self.handles.insert(ino, OpenState { dirty: s.dirty, refcount: left });
                }
                push
            },
            None => false,
        }
    }
}

/// Law: a file opened once and released once leaves no handle behind, and
/// is pushed exactly when it was written (a created file always is).
pub proof fn lemma_open_release(m: Map<u64, OpenState>, ino: u64, dirty: bool)
    ensures
        release_spec(m.insert(ino, OpenState { dirty, refcount: 1 }), ino) == (m.remove(ino), dirty),
{
    assert(m.insert(ino, OpenState { dirty, refcount: 1 }).remove(ino) =~= m.remove(ino));
}

/// Law: opening an open file once more and releasing it once gives back the
/// handles as they were, with nothing pushed.
pub proof fn lemma_reopen_release(m: Map<u64, OpenState>, ino: u64)
    requires
        m.contains_key(ino),
        1 <= m[ino].refcount < u32::MAX,
    ensures
        release_spec(reopen_spec(m, ino).0, ino) == (m, false),
{
    let s = m[ino];
    let m1 = reopen_spec(m, ino).0;
    assert(s.refcount.wrapping_add(1) == s.refcount + 1);
    assert(m1[ino].refcount == s.refcount + 1);
    assert(m1.insert(ino, OpenState { dirty: s.dirty, refcount: s.refcount }) =~= m);
}

/// Law: a written file stays marked until its last release, which pushes
/// it.
pub proof fn lemma_dirty_pushed_on_last_release(m: Map<u64, OpenState>, ino: u64)
    requires
        m.contains_key(ino),
        m[ino].refcount <= 1,
    ensures
        release_spec(mark_dirty_spec(m, ino).0, ino).1,
        !release_spec(mark_dirty_spec(m, ino).0, ino).0.contains_key(ino),
{
}

/// What an `open` of an inode comes to.
pub enum OpenStep {
    /// The inode is unknown.
    NotFound,
    /// Directories are not opened as files.
    IsDirectory,
    /// The file was already open; its count went up.
    Reopened,
    /// The file must be fetched from the device, then recorded as opened.
    Fetch,
}

/// Decides an `open`: unknown inodes and directories are refused, an open
/// file is shared, any other file must be fetched.
pub fn begin_open(table: &InodeTable, files: &mut OpenFiles, ino: u64) -> (step: OpenStep)
    ensures
        !(1 <= ino <= table@.len()) ==> (step is NotFound && final(files)@ == old(files)@),
        (1 <= ino <= table@.len() && table@[ino - 1].is_dir) ==> (step is IsDirectory && final(files)@
            == old(files)@),
        (1 <= ino <= table@.len() && !table@[ino - 1].is_dir) ==> ((final(files)@, step is Reopened)
            == reopen_spec(old(files)@, ino) && (step is Reopened || step is Fetch)),
{
    match table.info(ino) {
        None => OpenStep::NotFound,
        Some((is_dir, _, _)) => {
            if is_dir {
                OpenStep::IsDirectory
            } else if files.reopen(ino) {
                OpenStep::Reopened
            } else {
                OpenStep::Fetch
            }
        },
    }
}

/// How long a directory listing is trusted, in nanoseconds (5 s).
pub const CACHE_TTL_NANOS: u64 = 5_000_000_000;

/// Directory listings fetched from the device: for each directory inode,
/// when it was fetched (nanoseconds on a monotonic clock) and its children
/// in listing order.
pub struct DirCache {
    listings: HashMap<u64, (u64, Vec<u64>)>,
}

impl View for DirCache {
    type V = Map<u64, (u64, Seq<u64>)>;

    closed spec fn view(&self) -> Map<u64, (u64, Seq<u64>)> {
        self.listings@.map_values(|v: (u64, Vec<u64>)| (v.0, v.1@))
    }
}

/// The children of a cached listing that is younger than the time to live.
pub open spec fn fresh_listing(c: Map<u64, (u64, Seq<u64>)>, ino: u64, now: u64) -> Option<Seq<u64>> {
    if c.contains_key(ino) && (if now >= c[ino].0 { now - c[ino].0 } else { 0 }) < CACHE_TTL_NANOS {
        Some(c[ino].1)
    } else {
        None
    }
}

impl DirCache {
    pub fn new() -> (c: DirCache)
        ensures
            c@ == Map::<u64, (u64, Seq<u64>)>::empty(),
    {
        let c = DirCache { listings: HashMap::new() };
        assert(c@ =~= Map::<u64, (u64, Seq<u64>)>::empty());
        c
    }

    /// The cached children of a directory, if its listing is still fresh
    /// at time `now`.
    pub fn fresh(&self, ino: u64, now: u64) -> (r: Option<Vec<u64>>)
        ensures
            match fresh_listing(self@, ino, now) {
                Some(kids) => r matches Some(v) && v@ == kids,
                None => r is None,
            },
    {
        match self.listings.get(&ino) {
            Some(entry) => {
                let at = entry.0;
                let elapsed = now.saturating_sub(at);
                if elapsed < CACHE_TTL_NANOS {
                    let kids = entry.1.clone();
                    assert(kids@ =~= entry.1@);
                    Some(kids)
                } else {
                    None
                }
            },
            None => None,
        }
    }

    /// Records a fresh listing fetched at time `now`.
    pub fn store(&mut self, ino: u64, now: u64, kids: Vec<u64>)
        ensures
            final(self)@ == old(self)@.insert(ino, (now, kids@)),
    {
        let ghost kv = kids@;
        self.listings.insert(ino, (now, kids));
        assert(self@ =~= old(self)@.insert(ino, (now, kv)));
    }

    /// Forgets a listing (after a change in that directory).
    pub fn invalidate(&mut self, ino: u64)
        ensures
            final(self)@ == old(self)@.remove(ino),
    {
        self.listings.remove(&ino);
        assert(self@ =~= old(self)@.remove(ino));
    }
}

/// Law: a listing just stored is fresh, and invalidating it makes the next
/// read go to the device.
pub proof fn lemma_cache_store_invalidate(c: Map<u64, (u64, Seq<u64>)>, ino: u64, now: u64, kids: Seq<u64>)
    ensures
        fresh_listing(c.insert(ino, (now, kids)), ino, now) == Some(kids),
        fresh_listing(c.insert(ino, (now, kids)).remove(ino), ino, now) is None,
{
}

// ---------------------------------------------------------------------------
// Small helpers of the mount
// ---------------------------------------------------------------------------

/// A name safe to use as one path component: `/` and `:` become `_`.
pub open spec fn sanitized(s: Seq<char>) -> Seq<char> {
    s.map_values(|c: char| if c == '/' || c == ':' { '_' } else { c })
}

/// Replaces `/` and `:` by `_`.
pub fn sanitize(s: &str) -> (r: String)
    ensures
        r@ == sanitized(s@),
{
    let cs = chars_of(s);
    let mut out = String::new();
    let mut i: usize = 0;
    while i < cs.len()
        invariant
            i <= cs.len(),
            cs@ == s@,
            out@ == sanitized(cs@.take(i as int)),
        decreases cs.len() - i,
    {
        let c = cs[i];
        let d = if c == '/' || c == ':' {
            '_'
        } else {
            c
        };
        out.push(d);
        i = i + 1;
        assert(sanitized(cs@.take(i as int)) =~= sanitized(cs@.take(i - 1)).push(d));
    }
    assert(cs@.take(cs.len() as int) == cs@);
    out
}

/// `Path::join` of a relative part: a `/` goes between them unless the
/// base is empty or already ends with one.
pub open spec fn path_join(a: Seq<char>, b: Seq<char>) -> Seq<char> {
    if a.len() == 0 || a.last() == '/' {
        a + b
    } else {
        a + "/"@ + b
    }
}

/// Joins a relative part to a base path.
pub fn join_path(a: &str, b: &str) -> (r: String)
    ensures
        r@ == path_join(a@, b@),
{
    let ac = chars_of(a);
    let mut out = String::from_str(a);
    if !(ac.len() == 0 || ac[ac.len() - 1] == '/') {
        out.push('/');
    }
    push_chars(&mut out, &chars_of(b));
    proof {
        reveal_strlit("/");
    }
    out
}

/// Where a device is mounted, where its files are cached, and the volume
/// name option handed to the mount.
pub struct MountPlan {
    pub mountpoint: String,
    pub cache_dir: String,
    pub volname_option: String,
}

/// The plan for mounting a device: refused while another device is
/// mounted, and where fuse-t is missing; else the mount point
/// `~/Freedroid/<name>` and the cache `~/Library/Caches/app.freedroid.desktop/<serial>`,
/// both with `/` and `:` made `_`.
pub fn mount_plan(already_mounted: bool, fuse_available: bool, home: &str, device_name: &str, serial: &str) -> (r: Result<MountPlan, crate::error::Error>)
    ensures
        already_mounted ==> (r matches Err(crate::error::Error::Other(m)) && m@ == "a device is already mounted"@),
        (!already_mounted && !fuse_available) ==> (r matches Err(crate::error::Error::Other(m)) && m@
            == "fuse-t is not installed — see https://www.fuse-t.org"@),
        (!already_mounted && fuse_available) ==> (r matches Ok(p) && p.mountpoint@ == path_join(
            path_join(home@, "Freedroid"@),
            sanitized(device_name@),
        ) && p.cache_dir@ == path_join(
            path_join(home@, "Library/Caches/app.freedroid.desktop"@),
            sanitized(serial@),
        ) && p.volname_option@ == "volname="@ + device_name@),
{
    if already_mounted {
        return Err(crate::error::Error::Other(String::from_str("a device is already mounted")));
    }
    if !fuse_available {
        return Err(crate::error::Error::Other(String::from_str("fuse-t is not installed — see https://www.fuse-t.org")));
    }
    let base = join_path(home, "Freedroid");
    let mountpoint = join_path(base.as_str(), sanitize(device_name).as_str());
    let caches = join_path(home, "Library/Caches/app.freedroid.desktop");
    let cache_dir = join_path(caches.as_str(), sanitize(serial).as_str());
    let volname_option = String::from_str("volname=").concat(device_name);
    Ok(MountPlan { mountpoint, cache_dir, volname_option })
}

/// The seconds after the Unix epoch that a device time stands for: negative
/// times are read as the epoch itself.
pub fn epoch_seconds(secs: i64) -> (r: u64)
    ensures
        r == (if secs >= 0 { secs as u64 } else { 0 }),
{
    if secs >= 0 {
        secs as u64
    } else {
        0
    }
}

} // verus!
