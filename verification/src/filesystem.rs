//! The hierarchical in-memory file store.
//!
//! The store is a tree of [`FSNode`]s under one root directory, and a cursor:
//! the sequence of names that leads from the root to the current directory.
//! Both are handed to every operation by the caller, who owns them.

use crate::names::{lemma_name_lt_strict, lemma_name_lt_transitive, name_lt, order_names, NameOrder};
use crate::path::{
    components, lemma_names_from_step, names_from, names_of, split_path,
};
use crate::tree::{lemma_make_dirs_in_new_dir, lemma_put_file_in_new_dir, Obstacle, Tree};
use vstd::prelude::*;

verus! {

/// One entry of a directory.
pub struct DirEntry {
    pub name: String,
    pub node: FSNode,
}

/// A node of the file store. A directory holds its entries in the order of
/// their names, each name once.
pub enum FSNode {
    File { content: Vec<u8>, created: u64, modified: u64 },
    Directory { entries: Vec<DirEntry>, created: u64, modified: u64 },
}

/// The names of `entries` stand in strictly increasing order.
pub open spec fn sorted_by_name(entries: Seq<DirEntry>) -> bool {
    forall|i: int, j: int|
        0 <= i < j < entries.len() ==> name_lt(#[trigger] entries[i].name@, #[trigger] entries[j].name@)
}

/// Some entry of `entries` has the name `name`.
pub open spec fn has_entry(entries: Seq<DirEntry>, name: Seq<char>) -> bool {
    exists|i: int| 0 <= i < entries.len() && #[trigger] entries[i].name@ == name
}

/// The position of an entry of the name `name`.
pub open spec fn entry_index(entries: Seq<DirEntry>, name: Seq<char>) -> int {
    choose|i: int| 0 <= i < entries.len() && #[trigger] entries[i].name@ == name
}

/// The map from names to nodes that a sequence of entries stands for.
pub open spec fn entries_map(entries: Seq<DirEntry>) -> Map<Seq<char>, Tree>
    decreases entries,
{
    Map::new(
        |name: Seq<char>| has_entry(entries, name),
        |name: Seq<char>|
            {
                let i = entry_index(entries, name);
                if 0 <= i < entries.len() {
                    entries[i].node.view()
                } else {
                    Tree::empty_dir()
                }
            },
    )
}

impl View for FSNode {
    type V = Tree;

    open spec fn view(&self) -> Tree
        decreases self,
    {
        match self {
            FSNode::File { content, created, modified } => Tree::File {
                content: content@,
                created: *created,
                modified: *modified,
            },
            FSNode::Directory { entries, created, modified } => Tree::Directory {
                entries: entries_map(entries@),
                created: *created,
                modified: *modified,
            },
        }
    }
}

impl FSNode {
    /// Every directory of this tree holds its entries sorted by name, each
    /// name once.
    pub open spec fn wf(self) -> bool
        decreases self,
    {
        match self {
            FSNode::File { .. } => true,
            FSNode::Directory { entries, .. } => {
                &&& sorted_by_name(entries@)
                &&& forall|i: int| 0 <= i < entries.len() ==> (#[trigger] entries[i]).node.wf()
            },
        }
    }

    /// All nodes of a directory are well formed.
    pub open spec fn all_wf(entries: Seq<DirEntry>) -> bool {
        forall|i: int| 0 <= i < entries.len() ==> (#[trigger] entries[i]).node.wf()
    }

    /// A directory without entries.
    pub fn new_directory() -> (node: FSNode)
        ensures
            node.wf(),
            node@ == Tree::empty_dir(),
    {
        let node = FSNode::Directory { entries: Vec::new(), created: 0, modified: 0 };
        assert(entries_map(Seq::<DirEntry>::empty()) =~= Map::<Seq<char>, Tree>::empty());
        node
    }
}

/// In a sorted directory no two entries share a name.
pub proof fn lemma_names_unique(entries: Seq<DirEntry>, i: int, j: int)
    requires
        sorted_by_name(entries),
        0 <= i < entries.len(),
        0 <= j < entries.len(),
        entries[i].name@ == entries[j].name@,
    ensures
        i == j,
{
    lemma_name_lt_strict(entries[i].name@, entries[j].name@);
}

/// In a sorted directory the map leads from each entry's name to its node.
pub proof fn lemma_entry_lookup(entries: Seq<DirEntry>, i: int)
    requires
        sorted_by_name(entries),
        0 <= i < entries.len(),
    ensures
        entries_map(entries).contains_key(entries[i].name@),
        entries_map(entries)[entries[i].name@] == entries[i].node@,
{
    lemma_names_unique(entries, i, entry_index(entries, entries[i].name@));
}

/// Putting a new name in its place in a sorted directory keeps the directory
/// sorted and adds that name to the map.
pub proof fn lemma_entries_insert(entries: Seq<DirEntry>, p: int, e: DirEntry)
    requires
        sorted_by_name(entries),
        0 <= p <= entries.len(),
        forall|j: int| 0 <= j < p ==> name_lt(#[trigger] entries[j].name@, e.name@),
        forall|j: int| p <= j < entries.len() ==> name_lt(e.name@, #[trigger] entries[j].name@),
    ensures
        sorted_by_name(entries.insert(p, e)),
        entries_map(entries.insert(p, e)) == entries_map(entries).insert(e.name@, e.node@),
        FSNode::all_wf(entries) && e.node.wf() ==> FSNode::all_wf(entries.insert(p, e)),
{
    let after = entries.insert(p, e);
    if FSNode::all_wf(entries) && e.node.wf() {
        assert forall|j: int| 0 <= j < after.len() implies (#[trigger] after[j]).node.wf() by {
            if j < p {
                assert(after[j] == entries[j]);
            } else if j > p {
                assert(after[j] == entries[j - 1]);
            }
        }
    }
    assert forall|i: int, j: int| 0 <= i < j < after.len() implies name_lt(
        #[trigger] after[i].name@,
        #[trigger] after[j].name@,
    ) by {
        let oi = if i < p { i } else { i - 1 };
        let oj = if j < p { j } else { j - 1 };
        if i != p && j != p {
            assert(after[i] == entries[oi]);
            assert(after[j] == entries[oj]);
        } else if i == p {
            assert(after[j] == entries[oj]);
        } else {
            assert(after[i] == entries[oi]);
        }
    }
    let lhs = entries_map(after);
    let rhs = entries_map(entries).insert(e.name@, e.node@);
    assert forall|name: Seq<char>| lhs.contains_key(name) <==> rhs.contains_key(name) by {
        if lhs.contains_key(name) {
            let i = entry_index(after, name);
            if i < p {
                assert(entries[i].name@ == name);
            } else if i > p {
                assert(entries[i - 1].name@ == name);
            }
        }
        if rhs.contains_key(name) {
            if name == e.name@ {
                assert(after[p].name@ == name);
            } else {
                let i = entry_index(entries, name);
                let ni = if i < p { i } else { i + 1 };
                assert(after[ni].name@ == name);
            }
        }
    }
    assert forall|name: Seq<char>| lhs.contains_key(name) implies lhs[name] == rhs[name] by {
        let i = entry_index(after, name);
        if i == p {
        } else {
            let oi = if i < p { i } else { i - 1 };
            assert(after[i] == entries[oi]);
            lemma_name_lt_strict(e.name@, entries[oi].name@);
            lemma_entry_lookup(entries, oi);
        }
    }
    assert(lhs =~= rhs);
}

/// Giving an entry of a sorted directory a new node, under its old name,
/// keeps the directory sorted and changes the map at that name only.
pub proof fn lemma_entries_update(entries: Seq<DirEntry>, i: int, e: DirEntry)
    requires
        sorted_by_name(entries),
        0 <= i < entries.len(),
        e.name@ == entries[i].name@,
    ensures
        sorted_by_name(entries.update(i, e)),
        entries_map(entries.update(i, e)) == entries_map(entries).insert(e.name@, e.node@),
        FSNode::all_wf(entries) && e.node.wf() ==> FSNode::all_wf(entries.update(i, e)),
{
    let after = entries.update(i, e);
    if FSNode::all_wf(entries) && e.node.wf() {
        assert forall|j: int| 0 <= j < after.len() implies (#[trigger] after[j]).node.wf() by {
            if j != i {
                assert(after[j] == entries[j]);
            }
        }
    }
    assert forall|a: int, b: int| 0 <= a < b < after.len() implies name_lt(
        #[trigger] after[a].name@,
        #[trigger] after[b].name@,
    ) by {
        assert(after[a].name@ == entries[a].name@);
        assert(after[b].name@ == entries[b].name@);
    }
    let lhs = entries_map(after);
    let rhs = entries_map(entries).insert(e.name@, e.node@);
    assert forall|name: Seq<char>| lhs.contains_key(name) <==> rhs.contains_key(name) by {
        if lhs.contains_key(name) {
            let k = entry_index(after, name);
            assert(entries[k].name@ == name);
        }
        if rhs.contains_key(name) {
            if name == e.name@ {
                assert(after[i].name@ == name);
            } else {
                let k = entry_index(entries, name);
                assert(after[k].name@ == name);
            }
        }
    }
    assert forall|name: Seq<char>| lhs.contains_key(name) implies lhs[name] == rhs[name] by {
        let k = entry_index(after, name);
        lemma_entry_lookup(after, k);
        if k != i {
            assert(after[k] == entries[k]);
            if name == e.name@ {
                lemma_names_unique(entries, i, k);
            }
            lemma_entry_lookup(entries, k);
        }
    }
    assert(lhs =~= rhs);
}

/// Looks `name` up in a sorted directory. Returns where its entry stands and
/// `true`, or where an entry of that name would have to stand and `false`.
pub fn find_entry(entries: &Vec<DirEntry>, name: &str) -> (r: (usize, bool))
    requires
        sorted_by_name(entries@),
    ensures
        r.0 <= entries.len(),
        r.1 == entries_map(entries@).contains_key(name@),
        r.1 ==> r.0 < entries.len() && entries[r.0 as int].name@ == name@,
        forall|j: int| 0 <= j < r.0 ==> name_lt(#[trigger] entries[j].name@, name@),
        !r.1 ==> forall|j: int|
            r.0 <= j < entries.len() ==> name_lt(name@, #[trigger] entries[j].name@),
{
    let mut i: usize = 0;
    while i < entries.len()
        invariant
            i <= entries.len(),
            sorted_by_name(entries@),
            forall|j: int| 0 <= j < i ==> name_lt(#[trigger] entries[j].name@, name@),
        decreases entries.len() - i,
    {
        match order_names(entries[i].name.as_str(), name) {
            NameOrder::Before => {
                i += 1;
            },
            NameOrder::Same => {
                return (i, true);
            },
            NameOrder::After => {
                proof {
                    assert forall|j: int| i <= j < entries.len() implies name_lt(
                        name@,
                        #[trigger] entries[j].name@,
                    ) by {
                        if j > i {
                            lemma_name_lt_transitive(name@, entries[i as int].name@, entries[j].name@);
                        }
                    }
                    lemma_absent(entries@, name@, i as int);
                }
                return (i, false);
            },
        }
    }
    proof {
        lemma_absent(entries@, name@, i as int);
    }
    (i, false)
}

/// A name that sorts strictly between two neighbours is no entry's name.
pub proof fn lemma_absent(entries: Seq<DirEntry>, name: Seq<char>, p: int)
    requires
        0 <= p <= entries.len(),
        forall|j: int| 0 <= j < p ==> name_lt(#[trigger] entries[j].name@, name),
        forall|j: int| p <= j < entries.len() ==> name_lt(name, #[trigger] entries[j].name@),
    ensures
        !entries_map(entries).contains_key(name),
{
    if has_entry(entries, name) {
        let i = entry_index(entries, name);
        lemma_name_lt_strict(name, name);
    }
}

/// What a listing says: for each entry its name, and whether it is a
/// directory.
pub open spec fn listing_view(listing: Seq<(String, bool)>) -> Seq<(Seq<char>, bool)> {
    Seq::new(listing.len(), |i: int| (listing[i].0@, listing[i].1))
}

/// `listing` is the listing of the directory `entries`: every entry once, in
/// the order of the names, each marked as a directory or not.
pub open spec fn is_listing(listing: Seq<(Seq<char>, bool)>, entries: Map<Seq<char>, Tree>) -> bool {
    &&& forall|i: int, j: int|
        0 <= i < j < listing.len() ==> name_lt(#[trigger] listing[i].0, #[trigger] listing[j].0)
    &&& forall|i: int|
        0 <= i < listing.len() ==> entries.contains_key(#[trigger] listing[i].0) && listing[i].1 == (
        entries[listing[i].0] is Directory)
    &&& forall|name: Seq<char>| #[trigger]
        entries.contains_key(name) ==> exists|i: int|
            0 <= i < listing.len() && #[trigger] listing[i].0 == name
}

/// A directory has one listing only.
pub proof fn lemma_listing_unique(
    a: Seq<(Seq<char>, bool)>,
    b: Seq<(Seq<char>, bool)>,
    entries: Map<Seq<char>, Tree>,
)
    requires
        is_listing(a, entries),
        is_listing(b, entries),
    ensures
        a == b,
    decreases a.len(),
{
    if a.len() == 0 {
        if b.len() > 0 {
            assert(entries.contains_key(b[0].0));
        }
        assert(a =~= b);
    } else {
        assert(entries.contains_key(a[0].0));
        let j = choose|j: int| 0 <= j < b.len() && #[trigger] b[j].0 == a[0].0;
        assert(entries.contains_key(b[0].0));
        let i = choose|i: int| 0 <= i < a.len() && #[trigger] a[i].0 == b[0].0;
        if j > 0 {
            lemma_name_lt_strict(b[0].0, b[j].0);
            if i > 0 {
                lemma_name_lt_strict(a[0].0, a[i].0);
            }
        }
        let first = a[0].0;
        let rest = entries.remove(first);
        let ta = a.drop_first();
        let tb = b.drop_first();
        assert(is_listing(ta, rest)) by {
            assert forall|k: int| 0 <= k < ta.len() implies rest.contains_key(#[trigger] ta[k].0)
                && ta[k].1 == (rest[ta[k].0] is Directory) by {
                assert(ta[k] == a[k + 1]);
                lemma_name_lt_strict(a[0].0, a[k + 1].0);
            }
            assert forall|name: Seq<char>| #[trigger] rest.contains_key(name) implies exists|k: int|
                0 <= k < ta.len() && #[trigger] ta[k].0 == name by {
                assert(entries.contains_key(name));
                let k = choose|k: int| 0 <= k < a.len() && #[trigger] a[k].0 == name;
                assert(ta[k - 1].0 == name);
            }
            assert forall|k: int, l: int| 0 <= k < l < ta.len() implies name_lt(
                #[trigger] ta[k].0,
                #[trigger] ta[l].0,
            ) by {
                assert(ta[k] == a[k + 1] && ta[l] == a[l + 1]);
            }
        }
        assert(is_listing(tb, rest)) by {
            assert forall|k: int| 0 <= k < tb.len() implies rest.contains_key(#[trigger] tb[k].0)
                && tb[k].1 == (rest[tb[k].0] is Directory) by {
                assert(tb[k] == b[k + 1]);
                lemma_name_lt_strict(b[0].0, b[k + 1].0);
            }
            assert forall|name: Seq<char>| #[trigger] rest.contains_key(name) implies exists|k: int|
                0 <= k < tb.len() && #[trigger] tb[k].0 == name by {
                assert(entries.contains_key(name));
                let k = choose|k: int| 0 <= k < b.len() && #[trigger] b[k].0 == name;
                assert(tb[k - 1].0 == name);
            }
            assert forall|k: int, l: int| 0 <= k < l < tb.len() implies name_lt(
                #[trigger] tb[k].0,
                #[trigger] tb[l].0,
            ) by {
                assert(tb[k] == b[k + 1] && tb[l] == b[l + 1]);
            }
        }
        lemma_listing_unique(ta, tb, rest);
        assert(a =~= seq![a[0]] + ta);
        assert(b =~= seq![b[0]] + tb);
    }
}

/// The listing of the node that a path led to: that of a directory, and
/// nothing for a file or for a path that leads nowhere.
pub open spec fn listing_of(target: Result<Tree, Obstacle>) -> Seq<(Seq<char>, bool)> {
    match target {
        Ok(Tree::Directory { entries, .. }) => choose|listing: Seq<(Seq<char>, bool)>|
            is_listing(listing, entries),
        _ => Seq::empty(),
    }
}

/// Lists a sorted directory.
fn list_entries(entries: &Vec<DirEntry>) -> (listing: Vec<(String, bool)>)
    requires
        sorted_by_name(entries@),
    ensures
        is_listing(listing_view(listing@), entries_map(entries@)),
        forall|created: u64, modified: u64|
            listing_view(listing@) == listing_of(
                Ok(Tree::Directory { entries: entries_map(entries@), created, modified }),
            ),
{
    let mut listing: Vec<(String, bool)> = Vec::new();
    let mut i: usize = 0;
    while i < entries.len()
        invariant
            i <= entries.len(),
            listing.len() == i,
            forall|j: int|
                0 <= j < i ==> (#[trigger] listing[j]).0@ == entries[j].name@ && listing[j].1 == (
                entries[j].node is Directory),
        decreases entries.len() - i,
    {
        let is_dir = match &entries[i].node {
            FSNode::Directory { .. } => true,
            FSNode::File { .. } => false,
        };
        listing.push((entries[i].name.clone(), is_dir));
        i += 1;
    }
    proof {
        let view = listing_view(listing@);
        let map = entries_map(entries@);
        assert forall|a: int, b: int| 0 <= a < b < view.len() implies name_lt(
            #[trigger] view[a].0,
            #[trigger] view[b].0,
        ) by {
            assert(view[a].0 == entries[a].name@);
            assert(view[b].0 == entries[b].name@);
        }
        assert forall|a: int| 0 <= a < view.len() implies map.contains_key(#[trigger] view[a].0)
            && view[a].1 == (map[view[a].0] is Directory) by {
            assert(view[a].0 == listing[a].0@);
            lemma_entry_lookup(entries@, a);
        }
        assert forall|name: Seq<char>| #[trigger] map.contains_key(name) implies exists|a: int|
            0 <= a < view.len() && #[trigger] view[a].0 == name by {
            let a = entry_index(entries@, name);
            assert(view[a].0 == name);
        }
        assert(is_listing(view, map));
        let chosen = choose|l: Seq<(Seq<char>, bool)>| is_listing(l, map);
        lemma_listing_unique(view, chosen, map);
    }
    listing
}

/// Lists the root directory: for each entry its name and whether it is a
/// directory, in the order of the names. The listing is empty if the root is
/// no directory.
pub fn list_directory(root: &FSNode) -> (listing: Vec<(String, bool)>)
    requires
        root.wf(),
    ensures
        listing_view(listing@) == listing_of(Ok(root@)),
{
    match root {
        FSNode::Directory { entries, .. } => list_entries(entries),
        FSNode::File { .. } => {
            let listing: Vec<(String, bool)> = Vec::new();
            assert(listing_view(listing@) =~= Seq::<(Seq<char>, bool)>::empty());
            listing
        },
    }
}

/// What `read_file` returns for the name `name` on the tree `root`.
pub open spec fn file_read(root: Tree, name: Seq<char>) -> Result<Seq<u8>, Seq<char>> {
    match root {
        Tree::File { .. } => Err("Root is not a directory"@),
        Tree::Directory { entries, .. } => {
            if entries.contains_key(name) && entries[name] is File {
                Ok(entries[name]->content)
            } else {
                Err("File not found"@)
            }
        },
    }
}

/// Reads the file that the root directory holds under the name `path`. The
/// name is looked up as it stands: a `/` in it separates nothing.
pub fn read_file(root: &FSNode, path: &str) -> (r: Result<Vec<u8>, &'static str>)
    requires
        root.wf(),
    ensures
        match file_read(root@, path@) {
            Ok(content) => r matches Ok(v) && v@ == content,
            Err(message) => r matches Err(e) && e@ == message,
        },
{
    match root {
        FSNode::Directory { entries, .. } => {
            let (idx, found) = find_entry(entries, path);
            if found {
                proof {
                    lemma_entry_lookup(entries@, idx as int);
                }
                match &entries[idx].node {
                    FSNode::File { content, .. } => Ok(content.clone()),
                    FSNode::Directory { .. } => Err("File not found"),
                }
            } else {
                Err("File not found")
            }
        },
        FSNode::File { .. } => Err("Root is not a directory"),
    }
}

/// The tree that `write_file` leaves, or the message it fails with.
pub open spec fn file_written(root: Tree, name: Seq<char>, data: Seq<u8>, append: bool) -> Result<
    Tree,
    Seq<char>,
> {
    match root {
        Tree::File { .. } => Err("Root is not a directory"@),
        Tree::Directory { entries, .. } => {
            if append && entries.contains_key(name) && entries[name] is File {
                Ok(
                    root.with_child(
                        name,
                        Tree::File {
                            content: entries[name]->content + data,
                            created: entries[name]->File_created,
                            modified: entries[name]->File_modified,
                        },
                    ),
                )
            } else {
                Ok(root.with_child(name, Tree::new_file(data)))
            }
        },
    }
}

/// Writes `content` to the file that the root directory holds under the name
/// `path`; the name is taken as it stands. With `append`, an existing file
/// grows by `content`; otherwise, and where no file of that name exists, the
/// entry becomes a new file holding `content`.
pub fn write_file(root: &mut FSNode, path: &str, content: &[u8], append: bool) -> (r: Result<
    (),
    &'static str,
>)
    requires
        old(root).wf(),
    ensures
        final(root).wf(),
        match file_written(old(root)@, path@, content@, append) {
            Ok(tree) => r is Ok && final(root)@ == tree,
            Err(message) => r matches Err(e) && e@ == message && final(root)@ == old(root)@,
        },
{
    match root {
        FSNode::Directory { entries, .. } => {
            let ghost before = entries@;
            let (idx, found) = find_entry(entries, path);
            if found {
                proof {
                    lemma_entry_lookup(before, idx as int);
                }
                let node = &mut entries[idx].node;
                let mut extended = false;
                if append {
                    match node {
                        FSNode::File { content: file_content, .. } => {
                            let ghost held = file_content@;
                            file_content.extend_from_slice(content);
                            assert(file_content@ =~= held + content@);
                            extended = true;
                        },
                        FSNode::Directory { .. } => {},
                    }
                }
                if !extended {
                    *node = FSNode::File {
                        content: vstd::slice::slice_to_vec(content),
                        created: 0,
                        modified: 0,
                    };
                }
                proof {
                    let e = entries@[idx as int];
                    assert(e.name == before[idx as int].name);
                    assert(entries@ =~= before.update(idx as int, e));
                    lemma_entries_update(before, idx as int, e);
                }
            } else {
                let entry = DirEntry {
                    name: path.to_owned(),
                    node: FSNode::File {
                        content: vstd::slice::slice_to_vec(content),
                        created: 0,
                        modified: 0,
                    },
                };
                proof {
                    lemma_entries_insert(before, idx as int, entry);
                }
                entries.insert(idx, entry);
            }
            Ok(())
        },
        FSNode::File { .. } => Err("Root is not a directory"),
    }
}

/// Makes the directory that `path` names from the root, and every directory
/// on the way to it that is missing. Directories that exist stay as they
/// are. Fails, and changes nothing, where a file has one of the names of
/// `path`, the last as well as one on the way: no file is overwritten.
#[verifier::loop_isolation(false)]
pub fn create_directory(root: &mut FSNode, path: &str) -> (r: Result<(), &'static str>)
    requires
        old(root).wf(),
    ensures
        final(root).wf(),
        match old(root)@.make_dirs(components(path@)) {
            Some(tree) => r is Ok && final(root)@ == tree,
            None => r matches Err(e) && e@ == "Not a directory"@ && final(root)@ == old(root)@,
        },
{
    let ghost end = *final(root);
    let ghost start = *old(root);
    let parts = split_path(path);
    let ghost all = names_of(parts@);
    let ghost mut created = false;
    let mut cur: &mut FSNode = root;
    let mut i: usize = 0;
    proof {
        assert(names_from(parts@, 0) =~= all);
    }
    while i < parts.len()
        invariant
            i <= parts.len(),
            cur.wf(),
            final(cur).wf() ==> end.wf(),
            !created ==> (final(cur)@ == cur@ ==> end@ == start@),
            created ==> cur@ == Tree::empty_dir(),
            start@.make_dirs(all) is Some <==> cur@.make_dirs(names_from(parts@, i as int)) is Some,
            start@.make_dirs(all) is Some && final(cur)@ == cur@.make_dirs(
                names_from(parts@, i as int),
            )->0 ==> end@ == start@.make_dirs(all)->0,
        decreases parts.len() - i,
    {
        let ghost c0 = *cur;
        let ghost c0_end = *final(cur);
        let ghost rest = names_from(parts@, i as int);
        proof {
            lemma_names_from_step(parts@, i as int);
        }
        match cur {
            FSNode::File { .. } => {
                return Err("Not a directory");
            },
            FSNode::Directory { entries, .. } => {
                let ghost before = entries@;
                let (idx, found) = find_entry(entries, parts[i].as_str());
                if !found {
                    let entry = DirEntry { name: parts[i].clone(), node: FSNode::new_directory() };
                    proof {
                        lemma_entries_insert(before, idx as int, entry);
                        created = true;
                    }
                    entries.insert(idx, entry);
                }
                let ghost mid = entries@;
                proof {
                    lemma_entry_lookup(mid, idx as int);
                    lemma_make_dirs_in_new_dir(names_from(parts@, i + 1));
                }
                cur = &mut entries[idx].node;
                let ghost e = DirEntry { name: mid[idx as int].name, node: *final(cur) };
                assert(c0_end is Directory);
                assert(c0_end->entries@ == mid.update(idx as int, e));
                assert(final(cur).wf() ==> c0_end.wf()) by {
                    lemma_entries_update(mid, idx as int, e);
                }
                assert(c0@.make_dirs(rest) is Some && final(cur)@ == cur@.make_dirs(
                    names_from(parts@, i + 1),
                )->0 ==> c0_end@ == c0@.make_dirs(rest)->0) by {
                    lemma_entries_update(mid, idx as int, e);
                    assert(entries_map(mid).insert(e.name@, e.node@) =~= entries_map(before).insert(
                        e.name@,
                        e.node@,
                    ));
                }
                assert(!created ==> (final(cur)@ == cur@ ==> c0_end@ == c0@)) by {
                    lemma_entries_update(mid, idx as int, e);
                    if e.node@ == mid[idx as int].node@ {
                        assert(entries_map(mid.update(idx as int, e)) =~= entries_map(mid));
                    }
                }
            },
        }
        i += 1;
    }
    match cur {
        FSNode::File { .. } => Err("Not a directory"),
        FSNode::Directory { .. } => Ok(()),
    }
}

/// The bytes that a new file starts with.
pub open spec fn initial_content(content: Option<Vec<u8>>) -> Seq<u8> {
    match content {
        Some(bytes) => bytes@,
        None => Seq::empty(),
    }
}

/// Makes a file at `path`, taken from the current directory: the last name
/// of `path` becomes a file holding `content` (nothing, if there is none), in
/// place of whatever had that name, and the names before it become
/// directories where they are missing. Fails, and changes nothing, where the
/// cursor leads to no directory, where `path` holds no name, and where a
/// file stands on the way.
#[verifier::loop_isolation(false)]
pub fn create_file(
    root: &mut FSNode,
    current_path: &Vec<String>,
    path: &str,
    content: Option<Vec<u8>>,
) -> (r: Result<(), &'static str>)
    requires
        old(root).wf(),
    ensures
        final(root).wf(),
        match old(root)@.put_file_at(
            names_of(current_path@),
            components(path@),
            initial_content(content),
        ) {
            Ok(tree) => r is Ok && final(root)@ == tree,
            Err(message) => r matches Err(e) && e@ == message && final(root)@ == old(root)@,
        },
{
    let ghost end = *final(root);
    let ghost start = *old(root);
    let ghost bytes = initial_content(content);
    let parts = split_path(path);
    let ghost names = names_of(parts@);
    let ghost goal = start@.put_file_at(names_of(current_path@), names, bytes);
    let mut cur: &mut FSNode = root;
    let mut i: usize = 0;
    proof {
        assert(names_from(current_path@, 0) =~= names_of(current_path@));
    }
    while i < current_path.len()
        invariant
            i <= current_path.len(),
            cur.wf(),
            final(cur).wf() ==> end.wf(),
            final(cur)@ == cur@ ==> end@ == start@,
            goal is Err ==> cur@.put_file_at(names_from(current_path@, i as int), names, bytes)
                == goal,
            goal is Ok ==> cur@.put_file_at(names_from(current_path@, i as int), names, bytes)
                is Ok,
            goal is Ok && final(cur)@ == cur@.put_file_at(
                names_from(current_path@, i as int),
                names,
                bytes,
            )->Ok_0 ==> end@ == goal->Ok_0,
        decreases current_path.len() - i,
    {
        let ghost c0 = *cur;
        let ghost c0_end = *final(cur);
        let ghost rest = names_from(current_path@, i as int);
        proof {
            lemma_names_from_step(current_path@, i as int);
        }
        match cur {
            FSNode::File { .. } => {
                return Err("Current path is not a directory");
            },
            FSNode::Directory { entries, .. } => {
                let ghost before = entries@;
                let (idx, found) = find_entry(entries, current_path[i].as_str());
                if !found {
                    return Err("Current directory not found");
                }
                proof {
                    lemma_entry_lookup(before, idx as int);
                }
                cur = &mut entries[idx].node;
                let ghost e = DirEntry { name: before[idx as int].name, node: *final(cur) };
                assert(c0_end is Directory);
                assert(c0_end->entries@ == before.update(idx as int, e));
                assert(final(cur).wf() ==> c0_end.wf()) by {
                    lemma_entries_update(before, idx as int, e);
                }
                assert(final(cur)@ == cur@ ==> c0_end@ == c0@) by {
                    lemma_entries_update(before, idx as int, e);
                    if e.node@ == before[idx as int].node@ {
                        assert(entries_map(before.update(idx as int, e)) =~= entries_map(before));
                    }
                }
                assert(c0@.put_file_at(rest, names, bytes) is Ok && final(cur)@ == cur@.put_file_at(
                    names_from(current_path@, i + 1),
                    names,
                    bytes,
                )->Ok_0 ==> c0_end@ == c0@.put_file_at(rest, names, bytes)->Ok_0) by {
                    lemma_entries_update(before, idx as int, e);
                }
            },
        }
        i += 1;
    }
    if parts.len() == 0 {
        return Err("Invalid path");
    }
    let ghost mut created = false;
    let mut j: usize = 0;
    proof {
        assert(names_from(parts@, 0) =~= names);
    }
    while j + 1 < parts.len()
        invariant
            j < parts.len(),
            cur.wf(),
            final(cur).wf() ==> end.wf(),
            !created ==> (final(cur)@ == cur@ ==> end@ == start@),
            created ==> cur@ == Tree::empty_dir(),
            goal is Err ==> cur@.put_file(names_from(parts@, j as int), bytes) == goal,
            goal is Ok ==> cur@.put_file(names_from(parts@, j as int), bytes) is Ok,
            goal is Ok && final(cur)@ == cur@.put_file(names_from(parts@, j as int), bytes)->Ok_0
                ==> end@ == goal->Ok_0,
        decreases parts.len() - j,
    {
        let ghost c0 = *cur;
        let ghost c0_end = *final(cur);
        let ghost rest = names_from(parts@, j as int);
        proof {
            lemma_names_from_step(parts@, j as int);
        }
        match cur {
            FSNode::File { .. } => {
                return Err("Path component is not a directory");
            },
            FSNode::Directory { entries, .. } => {
                let ghost before = entries@;
                let (idx, found) = find_entry(entries, parts[j].as_str());
                if !found {
                    let entry = DirEntry {
                        name: parts[j].clone(),
                        node: FSNode::new_directory(),
                    };
                    proof {
                        lemma_entries_insert(before, idx as int, entry);
                        created = true;
                    }
                    entries.insert(idx, entry);
                }
                let ghost mid = entries@;
                proof {
                    lemma_entry_lookup(mid, idx as int);
                    lemma_put_file_in_new_dir(names_from(parts@, j + 1), bytes);
                }
                cur = &mut entries[idx].node;
                let ghost e = DirEntry { name: mid[idx as int].name, node: *final(cur) };
                assert(c0_end is Directory);
                assert(c0_end->entries@ == mid.update(idx as int, e));
                assert(final(cur).wf() ==> c0_end.wf()) by {
                    lemma_entries_update(mid, idx as int, e);
                }
                assert(c0@.put_file(rest, bytes) is Ok && final(cur)@ == cur@.put_file(
                    names_from(parts@, j + 1),
                    bytes,
                )->Ok_0 ==> c0_end@ == c0@.put_file(rest, bytes)->Ok_0) by {
                    lemma_entries_update(mid, idx as int, e);
                    assert(entries_map(mid).insert(e.name@, e.node@) =~= entries_map(before).insert(
                        e.name@,
                        e.node@,
                    ));
                }
                assert(!created ==> (final(cur)@ == cur@ ==> c0_end@ == c0@)) by {
                    lemma_entries_update(mid, idx as int, e);
                    if e.node@ == mid[idx as int].node@ {
                        assert(entries_map(mid.update(idx as int, e)) =~= entries_map(mid));
                    }
                }
            },
        }
        j += 1;
    }
    proof {
        lemma_names_from_step(parts@, j as int);
    }
    match cur {
        FSNode::File { .. } => Err("Parent is not a directory"),
        FSNode::Directory { entries, .. } => {
            let ghost before = entries@;
            let (idx, found) = find_entry(entries, parts[j].as_str());
            let file = FSNode::File {
                content: match content {
                    Some(bytes) => bytes,
                    None => Vec::new(),
                },
                created: 0,
                modified: 0,
            };
            if found {
                entries[idx].node = file;
                proof {
                    let e = entries@[idx as int];
                    assert(e.name == before[idx as int].name);
                    assert(entries@ =~= before.update(idx as int, e));
                    lemma_entries_update(before, idx as int, e);
                }
            } else {
                let entry = DirEntry { name: parts[j].clone(), node: file };
                proof {
                    lemma_entries_insert(before, idx as int, entry);
                }
                entries.insert(idx, entry);
            }
            Ok(())
        },
    }
}

/// Follows `path` from `root`, one name per directory.
fn node_at<'a>(root: &'a FSNode, path: &Vec<String>) -> (r: Result<&'a FSNode, Obstacle>)
    requires
        root.wf(),
    ensures
        match root@.resolve(names_of(path@)) {
            Ok(tree) => r matches Ok(node) && node@ == tree && node.wf(),
            Err(obstacle) => r == Err::<&FSNode, Obstacle>(obstacle),
        },
{
    let mut node = root;
    let mut i: usize = 0;
    proof {
        assert(names_from(path@, 0) =~= names_of(path@));
    }
    while i < path.len()
        invariant
            i <= path.len(),
            node.wf(),
            root@.resolve(names_of(path@)) == node@.resolve(names_from(path@, i as int)),
        decreases path.len() - i,
    {
        proof {
            lemma_names_from_step(path@, i as int);
        }
        match node {
            FSNode::File { .. } => {
                return Err(Obstacle::NotADirectory);
            },
            FSNode::Directory { entries, .. } => {
                let (idx, found) = find_entry(entries, path[i].as_str());
                if !found {
                    return Err(Obstacle::Missing);
                }
                proof {
                    lemma_entry_lookup(entries@, idx as int);
                }
                node = &entries[idx].node;
            },
        }
        i += 1;
    }
    Ok(node)
}

/// Lists the current directory: for each entry its name and whether it is a
/// directory, in the order of the names. The listing is empty where the
/// cursor leads to a file or nowhere.
pub fn list_current_directory(root: &FSNode, current_path: &Vec<String>) -> (listing: Vec<
    (String, bool),
>)
    requires
        root.wf(),
    ensures
        listing_view(listing@) == listing_of(root@.resolve(names_of(current_path@))),
{
    match node_at(root, current_path) {
        Ok(FSNode::Directory { entries, .. }) => list_entries(entries),
        _ => {
            let listing: Vec<(String, bool)> = Vec::new();
            assert(listing_view(listing@) =~= Seq::<(Seq<char>, bool)>::empty());
            listing
        },
    }
}

/// Where `change_directory` leaves the cursor, or the message it fails with.
pub open spec fn directory_changed(root: Tree, cursor: Seq<Seq<char>>, path: Seq<char>) -> Result<
    Seq<Seq<char>>,
    Seq<char>,
> {
    if path == seq!['/'] {
        Ok(Seq::empty())
    } else if path == seq!['.', '.'] {
        if cursor.len() > 0 {
            Ok(cursor.drop_last())
        } else {
            Err("Already at root directory"@)
        }
    } else {
        match root.resolve(cursor) {
            Err(Obstacle::Missing) => Err("Path not found"@),
            Err(Obstacle::NotADirectory) => Err("Not a directory"@),
            Ok(Tree::File { .. }) => Err("Not a directory"@),
            Ok(Tree::Directory { entries, .. }) => {
                if entries.contains_key(path) && entries[path] is Directory {
                    Ok(cursor.push(path))
                } else {
                    Err("Directory not found"@)
                }
            },
        }
    }
}

/// Moves the cursor: `/` sets it to the root, `..` takes its last name off,
/// and any other `path` is taken as one name, which is added to the cursor
/// if the current directory holds a directory of that name. Fails, and
/// leaves the cursor as it is, on `..` at the root, where the cursor leads
/// to no directory, and where the current directory holds no directory of
/// that name.
pub fn change_directory(root: &FSNode, current_path: &mut Vec<String>, path: &str) -> (r: Result<
    (),
    &'static str,
>)
    requires
        root.wf(),
    ensures
        match directory_changed(root@, names_of(old(current_path)@), path@) {
            Ok(cursor) => r is Ok && names_of(final(current_path)@) == cursor,
            Err(message) => r matches Err(e) && e@ == message && final(current_path)@ == old(
                current_path,
            )@,
        },
{
    proof {
        reveal_strlit("/");
        reveal_strlit("..");
        assert("/"@ =~= seq!['/']);
        assert(".."@ =~= seq!['.', '.']);
    }
    if order_names(path, "/") == NameOrder::Same {
        current_path.clear();
        proof {
            assert(names_of(current_path@) =~= Seq::<Seq<char>>::empty());
        }
        return Ok(());
    }
    if order_names(path, "..") == NameOrder::Same {
        let ghost before = current_path@;
        return match current_path.pop() {
            Some(_) => {
                proof {
                    assert(names_of(current_path@) =~= names_of(before).drop_last());
                }
                Ok(())
            },
            None => Err("Already at root directory"),
        };
    }
    match node_at(root, current_path) {
        Err(Obstacle::Missing) => Err("Path not found"),
        Err(Obstacle::NotADirectory) => Err("Not a directory"),
        Ok(FSNode::File { .. }) => Err("Not a directory"),
        Ok(FSNode::Directory { entries, .. }) => {
            let (idx, found) = find_entry(entries, path);
            if found {
                proof {
                    lemma_entry_lookup(entries@, idx as int);
                }
                match &entries[idx].node {
                    FSNode::Directory { .. } => {
                        let ghost before = current_path@;
                        current_path.push(path.to_owned());
                        proof {
                            assert(names_of(current_path@) =~= names_of(before).push(path@));
                        }
                        Ok(())
                    },
                    FSNode::File { .. } => Err("Directory not found"),
                }
            } else {
                Err("Directory not found")
            }
        },
    }
}

/// A copy of the cursor.
pub fn get_current_path(current_path: &Vec<String>) -> (copy: Vec<String>)
    ensures
        copy@ == current_path@,
{
    current_path.clone()
}

/// Making a directory where the whole path exists, and leads to a
/// directory, succeeds and changes nothing.
pub proof fn lemma_make_dirs_existing(tree: Tree, parts: Seq<Seq<char>>)
    requires
        tree.resolve(parts) matches Ok(node) && node is Directory,
    ensures
        tree.make_dirs(parts) == Some(tree),
    decreases parts.len(),
{
    if parts.len() > 0 {
        let child = tree->entries[parts[0]];
        lemma_make_dirs_existing(child, parts.drop_first());
        assert(tree->entries.insert(parts[0], child) =~= tree->entries);
    }
}

/// A file is never made a directory: making a directory fails where the
/// path leads to a file.
pub proof fn lemma_make_dirs_keeps_files(tree: Tree, parts: Seq<Seq<char>>)
    requires
        tree.resolve(parts) matches Ok(node) && node is File,
    ensures
        tree.make_dirs(parts) is None,
    decreases parts.len(),
{
    if parts.len() > 0 {
        lemma_make_dirs_keeps_files(tree->entries[parts[0]], parts.drop_first());
    }
}

/// Making the same directory a second time changes nothing.
pub proof fn lemma_make_dirs_twice(tree: Tree, parts: Seq<Seq<char>>)
    requires
        tree.make_dirs(parts) is Some,
    ensures
        tree.make_dirs(parts)->0.make_dirs(parts) == tree.make_dirs(parts),
    decreases parts.len(),
{
    if parts.len() > 0 {
        let child = tree.child_or_new(parts[0]);
        let made = child.make_dirs(parts.drop_first())->0;
        lemma_make_dirs_twice(child, parts.drop_first());
        let after = tree.with_child(parts[0], made);
        assert(after.child_or_new(parts[0]) == made);
        assert(after->entries.insert(parts[0], made) =~= after->entries);
    }
}

/// A file that is written and then appended to with the same bytes holds
/// these bytes twice, one after the other, and nothing else.
pub proof fn lemma_write_then_append(root: Tree, name: Seq<char>, data: Seq<u8>)
    requires
        root is Directory,
    ensures
        file_written(root, name, data, false) is Ok,
        file_written(file_written(root, name, data, false)->Ok_0, name, data, true) is Ok,
        file_read(
            file_written(file_written(root, name, data, false)->Ok_0, name, data, true)->Ok_0,
            name,
        ) == Ok::<Seq<u8>, Seq<char>>(data + data),
{
}

/// At the root there is no way up: `..` fails, whatever the file store
/// holds, and `change_directory` leaves the cursor of a failed move as it is.
pub proof fn lemma_no_way_up_from_root(root: Tree)
    ensures
        directory_changed(root, Seq::empty(), seq!['.', '.']) == Err::<Seq<Seq<char>>, Seq<char>>(
            "Already at root directory"@,
        ),
{
    assert(seq!['.', '.'] != seq!['/']) by {
        assert(seq!['.', '.'].len() != seq!['/'].len());
    }
}

/// A file that was just made at a name of the root directory reads as the
/// bytes it was made with.
pub proof fn lemma_created_file_reads(root: Tree, name: Seq<char>, content: Seq<u8>)
    requires
        root is Directory,
    ensures
        root.put_file_at(Seq::empty(), seq![name], content) is Ok,
        file_read(root.put_file_at(Seq::empty(), seq![name], content)->Ok_0, name) == Ok::<
            Seq<u8>,
            Seq<char>,
        >(content),
{
}

} // verus!
