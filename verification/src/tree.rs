//! The mathematical model of the file store: a directory is a finite map
//! from names to nodes.

use vstd::prelude::*;

verus! {

/// What a node of the file store is, apart from how it is laid out in memory.
pub enum Tree {
    File { content: Seq<u8>, created: u64, modified: u64 },
    Directory { entries: Map<Seq<char>, Tree>, created: u64, modified: u64 },
}

/// Why a path does not lead to a node.
pub enum Obstacle {
    /// A directory on the way has no entry of the name asked for.
    Missing,
    /// A file stands where the path goes on.
    NotADirectory,
}

impl Tree {
    /// A directory without entries, as every newly made directory is.
    pub open spec fn empty_dir() -> Tree {
        Tree::Directory { entries: Map::empty(), created: 0, modified: 0 }
    }

    /// A newly written file.
    pub open spec fn new_file(content: Seq<u8>) -> Tree {
        Tree::File { content, created: 0, modified: 0 }
    }

    /// The entry `name` of this directory, or an empty directory where a path
    /// that is being created finds none.
    pub open spec fn child_or_new(self, name: Seq<char>) -> Tree {
        if self is Directory && self->entries.contains_key(name) {
            self->entries[name]
        } else {
            Tree::empty_dir()
        }
    }

    /// This directory with `child` as its entry `name`, in place of an
    /// earlier entry of that name if there was one.
    pub open spec fn with_child(self, name: Seq<char>, child: Tree) -> Tree {
        match self {
            Tree::Directory { entries, created, modified } => Tree::Directory {
                entries: entries.insert(name, child),
                created,
                modified,
            },
            Tree::File { .. } => self,
        }
    }

    /// The node that `path` leads to from here, one name per directory.
    pub open spec fn resolve(self, path: Seq<Seq<char>>) -> Result<Tree, Obstacle>
        decreases path.len(),
    {
        if path.len() == 0 {
            Ok(self)
        } else {
            match self {
                Tree::File { .. } => Err(Obstacle::NotADirectory),
                Tree::Directory { entries, .. } => {
                    if entries.contains_key(path[0]) {
                        entries[path[0]].resolve(path.drop_first())
                    } else {
                        Err(Obstacle::Missing)
                    }
                },
            }
        }
    }

    /// This tree once the directory at the end of `parts`, and every
    /// directory on the way to it, exists: directories that are there stay
    /// as they are, missing ones are made empty. `None` where a file has one
    /// of the names, the last as well as one on the way: no file is
    /// overwritten.
    pub open spec fn make_dirs(self, parts: Seq<Seq<char>>) -> Option<Tree>
        decreases parts.len(),
    {
        match self {
            Tree::File { .. } => None,
            Tree::Directory { .. } => {
                if parts.len() == 0 {
                    Some(self)
                } else {
                    match self.child_or_new(parts[0]).make_dirs(parts.drop_first()) {
                        Some(child) => Some(self.with_child(parts[0], child)),
                        None => None,
                    }
                }
            },
        }
    }

    /// This tree once a new file holding `content` stands at the end of
    /// `parts`: the last name becomes the file, in place of whatever had that
    /// name, and the names before it become directories as in `make_dirs`.
    /// Where that cannot be, the message that says why.
    pub open spec fn put_file(self, parts: Seq<Seq<char>>, content: Seq<u8>) -> Result<
        Tree,
        Seq<char>,
    >
        decreases parts.len(),
    {
        if parts.len() == 0 {
            Err("Invalid path"@)
        } else {
            match self {
                Tree::File { .. } => {
                    if parts.len() == 1 {
                        Err("Parent is not a directory"@)
                    } else {
                        Err("Path component is not a directory"@)
                    }
                },
                Tree::Directory { .. } => {
                    if parts.len() == 1 {
                        Ok(self.with_child(parts[0], Tree::new_file(content)))
                    } else {
                        match self.child_or_new(parts[0]).put_file(parts.drop_first(), content) {
                            Ok(child) => Ok(self.with_child(parts[0], child)),
                            Err(message) => Err(message),
                        }
                    }
                },
            }
        }
    }

    /// `put_file` applied to the directory that `cursor` leads to, which has
    /// to exist.
    pub open spec fn put_file_at(
        self,
        cursor: Seq<Seq<char>>,
        parts: Seq<Seq<char>>,
        content: Seq<u8>,
    ) -> Result<Tree, Seq<char>>
        decreases cursor.len(),
    {
        if cursor.len() == 0 {
            self.put_file(parts, content)
        } else {
            match self {
                Tree::File { .. } => Err("Current path is not a directory"@),
                Tree::Directory { entries, .. } => {
                    if entries.contains_key(cursor[0]) {
                        match entries[cursor[0]].put_file_at(cursor.drop_first(), parts, content) {
                            Ok(child) => Ok(self.with_child(cursor[0], child)),
                            Err(message) => Err(message),
                        }
                    } else {
                        Err("Current directory not found"@)
                    }
                },
            }
        }
    }
}

/// Under a directory that was just made, every directory can be made.
pub proof fn lemma_make_dirs_in_new_dir(parts: Seq<Seq<char>>)
    ensures
        Tree::empty_dir().make_dirs(parts) is Some,
    decreases parts.len(),
{
    if parts.len() > 0 {
        lemma_make_dirs_in_new_dir(parts.drop_first());
    }
}

/// Under a directory that was just made, a file can be put at every path
/// that names one.
pub proof fn lemma_put_file_in_new_dir(parts: Seq<Seq<char>>, content: Seq<u8>)
    requires
        parts.len() > 0,
    ensures
        Tree::empty_dir().put_file(parts, content) is Ok,
    decreases parts.len(),
{
    if parts.len() > 1 {
        lemma_put_file_in_new_dir(parts.drop_first(), content);
    }
}

} // verus!
