//! Stand-in names for the entries of a tree, so that a display can show
//! the shape of a tree without its names.
//!
//! The entries are numbered in pre-order, folders and files each on their
//! own, and the number is written in letters.

use vstd::prelude::*;
use vstd::string::*;
use crate::labels::{alphabet_code, alphabet_text};
use crate::model::{Node, Tree};

verus! {

/// What an alias stands for.
#[derive(Debug, Clone, Copy, PartialEq, Eq, Structural)]
pub enum AliasKind {
    File,
    Folder,
}

/// The alias of the entry at `path`.
#[derive(Debug)]
pub struct AliasEntry {
    pub path: String,
    pub code: String,
    pub kind: AliasKind,
}

impl Clone for AliasEntry {
    fn clone(&self) -> (copy: AliasEntry)
        ensures
            copy@ == self@,
    {
        AliasEntry { path: self.path.clone(), code: self.code.clone(), kind: self.kind }
    }
}

/// Mathematical value of an [`AliasEntry`].
pub ghost struct Alias {
    pub path: Seq<char>,
    pub code: Seq<char>,
    pub kind: AliasKind,
}

impl View for AliasEntry {
    type V = Alias;

    open spec fn view(&self) -> Alias {
        Alias { path: self.path@, code: self.code@, kind: self.kind }
    }
}

/// The mathematical values of a list of aliases.
pub open spec fn aliases_of(entries: Seq<AliasEntry>) -> Seq<Alias> {
    Seq::new(entries.len(), |i: int| entries[i]@)
}

/// The aliases given so far, with the numbers of the next file and of the
/// next folder.
pub ghost struct Given {
    pub aliases: Seq<Alias>,
    pub files: usize,
    pub folders: usize,
}

/// `n + 1`, or `n` at the top of the range.
pub open spec fn counted(n: usize) -> usize {
    if n == usize::MAX {
        n
    } else {
        (n + 1) as usize
    }
}

/// The aliases after the subtree `t` has got its own, in pre-order. The
/// root and every entry with children is a folder, every other entry a
/// file.
pub open spec fn alias_node(t: Tree, is_root: bool, given: Given) -> Given
    decreases t, 1int, 0int,
{
    if is_root || t.children.len() > 0 {
        alias_children(
            t,
            0,
            Given {
                aliases: given.aliases.push(
                    Alias {
                        path: t.path,
                        code: alphabet_text(given.folders as nat),
                        kind: AliasKind::Folder,
                    },
                ),
                files: given.files,
                folders: counted(given.folders),
            },
        )
    } else {
        Given {
            aliases: given.aliases.push(
                Alias {
                    path: t.path,
                    code: alphabet_text(given.files as nat),
                    kind: AliasKind::File,
                },
            ),
            files: counted(given.files),
            folders: given.folders,
        }
    }
}

/// The aliases after the children of `t` from position `from` on have got
/// theirs.
pub open spec fn alias_children(t: Tree, from: int, given: Given) -> Given
    decreases t, 0int, t.children.len() - from,
{
    if from < 0 || from >= t.children.len() {
        given
    } else {
        alias_children(t, from + 1, alias_node(t.children[from], false, given))
    }
}

/// Gives the entries of the subtree of `node` their aliases, in pre-order,
/// counting on from the numbers given.
pub fn assign_alias(
    node: &Node,
    is_root: bool,
    out: &mut Vec<AliasEntry>,
    file_counter: &mut usize,
    folder_counter: &mut usize,
)
    ensures
        (Given {
            aliases: aliases_of(final(out)@),
            files: *final(file_counter),
            folders: *final(folder_counter),
        }) == alias_node(
            node@,
            is_root,
            Given {
                aliases: aliases_of(old(out)@),
                files: *old(file_counter),
                folders: *old(folder_counter),
            },
        ),
    decreases node@,
{
    let ghost before = aliases_of(out@);
    proof {
        node.lemma_view_children();
    }
    let is_dir = is_root || node.children.len() > 0;
    if is_dir {
        let index = *folder_counter;
        *folder_counter = index.saturating_add(1);
        out.push(AliasEntry { path: node.path.clone(), code: alphabet_code(index), kind: AliasKind::Folder });
    } else {
        let index = *file_counter;
        *file_counter = index.saturating_add(1);
        out.push(AliasEntry { path: node.path.clone(), code: alphabet_code(index), kind: AliasKind::File });
    }
    proof {
        assert(aliases_of(out@) =~= before.push(out@.last()@));
    }
    let mut i: usize = 0;
    while i < node.children.len()
        invariant
            i <= node.children@.len(),
            node@.children == crate::model::views_of(node.children@),
            alias_children(
                node@,
                i as int,
                Given {
                    aliases: aliases_of(out@),
                    files: *file_counter,
                    folders: *folder_counter,
                },
            ) == alias_children(
                node@,
                0,
                Given {
                    aliases: before.push(
                        Alias {
                            path: node@.path,
                            code: alphabet_text(
                                (if is_dir {
                                    *old(folder_counter)
                                } else {
                                    *old(file_counter)
                                }) as nat,
                            ),
                            kind: if is_dir {
                                AliasKind::Folder
                            } else {
                                AliasKind::File
                            },
                        },
                    ),
                    files: if is_dir {
                        *old(file_counter)
                    } else {
                        counted(*old(file_counter))
                    },
                    folders: if is_dir {
                        counted(*old(folder_counter))
                    } else {
                        *old(folder_counter)
                    },
                },
            ),
        decreases node.children@.len() - i,
    {
        assign_alias(&node.children[i], false, out, file_counter, folder_counter);
        i += 1;
    }
}

/// The aliases of all the entries of the tree below `root`, in pre-order:
/// folders are `A`, `B`, ... in the order met, files likewise.
pub fn build_alias_map(root: &Node) -> (aliases: Vec<AliasEntry>)
    ensures
        aliases_of(aliases@) == alias_node(
            root@,
            true,
            Given { aliases: Seq::empty(), files: 0, folders: 0 },
        ).aliases,
{
    let mut aliases: Vec<AliasEntry> = Vec::new();
    let mut file_counter: usize = 0;
    let mut folder_counter: usize = 0;
    proof {
        assert(aliases_of(aliases@) =~= Seq::<Alias>::empty());
    }
    assign_alias(root, true, &mut aliases, &mut file_counter, &mut folder_counter);
    aliases
}

} // verus!
