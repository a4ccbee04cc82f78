//! Virtual folders: the slash-rooted names of the folders of a template tree,
//! where they lie under the root, and how all of them are found.

use vstd::prelude::*;

verus! {

broadcast use {
    vstd::std_specs::vec::axiom_vec_decreases_to_view,
    vstd::seq::axiom_seq_index_decreases,
};

/// Whether a string names a virtual folder: it starts with a slash.
pub open spec fn is_virtual_folder(folder: Seq<char>) -> bool {
    folder.len() > 0 && folder[0] == '/'
}

/// The name of the root folder.
pub open spec fn root_folder() -> Seq<char> {
    seq!['/']
}

/// Where a virtual folder lies under the root: `None` for the root itself,
/// else what follows the leading slash, taken as it is.
pub open spec fn relative_path(folder: Seq<char>) -> Option<Seq<char>> {
    if folder =~= root_folder() {
        None
    } else {
        Some(folder.subrange(1, folder.len() as int))
    }
}

/// Resolves a virtual folder against the root: `None` stands for the root
/// itself, `Some` holds the relative path to append to it.
pub fn resolve(folder: &str) -> (r: Option<String>)
    requires
        is_virtual_folder(folder@),
    ensures
        match r {
            None => relative_path(folder@) is None,
            Some(rel) => relative_path(folder@) == Some(rel@),
        },
{
    let n: usize = folder.unicode_len();
    if n == 1 {
        assert(folder@ =~= root_folder());
        None
    } else {
        assert(folder@.len() != root_folder().len());
        Some(String::from_str(folder.substring_char(1, n)))
    }
}

/// The views of a list of strings.
pub open spec fn views(v: Seq<String>) -> Seq<Seq<char>> {
    Seq::new(v.len(), |i: int| v[i]@)
}

/// A folder with the folders inside it, in the order of its listing.
#[derive(Debug)]
pub struct FolderTree {
    pub name: String,
    pub subfolders: Vec<FolderTree>,
}

/// The virtual folders of the first `n` of `kids` and of all that lies
/// below them, depth first: each folder stands before what it holds, and
/// all of that before the folder listed after it. `base` is the virtual
/// folder that holds `kids`, with a slash at its end.
pub open spec fn folders_below(kids: Seq<FolderTree>, base: Seq<char>, n: int) -> Seq<Seq<char>>
    decreases kids, n,
{
    if n <= 0 || n > kids.len() {
        Seq::empty()
    } else {
        let kid = kids[n - 1];
        let path = base + kid.name@;
        folders_below(kids, base, n - 1) + seq![path] + folders_below(
            kid.subfolders@,
            path + seq!['/'],
            kid.subfolders@.len() as int,
        )
    }
}

/// Adds the virtual folders below `node` to `folders`, depth first, each
/// made of `base` and the names on the way down.
pub fn list_folders(folders: &mut Vec<String>, node: &FolderTree, base: &str)
    ensures
        views(final(folders)@) == views(old(folders)@) + folders_below(
            node.subfolders@,
            base@,
            node.subfolders@.len() as int,
        ),
    decreases node,
{
    let mut i: usize = 0;
    assert(views(folders@) =~= views(old(folders)@) + folders_below(node.subfolders@, base@, 0));
    while i < node.subfolders.len()
        invariant
            i <= node.subfolders@.len(),
            views(folders@) == views(old(folders)@) + folders_below(
                node.subfolders@,
                base@,
                i as int,
            ),
        decreases node.subfolders@.len() - i,
    {
        let kid = &node.subfolders[i];
        let mut folder = String::from_str(base);
        folder.append(kid.name.as_str());
        let mut inner = folder.clone();
        proof {
            reveal_strlit("/");
        }
        inner.append("/");
        assert("/"@ =~= seq!['/']);
        let ghost before = views(folders@);
        folders.push(folder);
        assert(views(folders@) =~= before + seq![base@ + kid.name@]);
        list_folders(folders, kid, inner.as_str());
        assert(views(folders@) =~= views(old(folders)@) + folders_below(
            node.subfolders@,
            base@,
            i + 1,
        ));
        i += 1;
    }
}

/// All virtual folders of a tree: the root first, then every folder below
/// it, depth first in the order of the listings.
pub fn template_list_folders(tree: &FolderTree) -> (r: Vec<String>)
    ensures
        views(r@) == seq![root_folder()] + folders_below(
            tree.subfolders@,
            root_folder(),
            tree.subfolders@.len() as int,
        ),
        r@.len() > 0,
        r@[0]@ == root_folder(),
{
    proof {
        reveal_strlit("/");
    }
    let mut folders: Vec<String> = Vec::new();
    let root = String::from_str("/");
    assert(root@ =~= root_folder());
    folders.push(root);
    assert(views(folders@) =~= seq![root_folder()]);
    list_folders(&mut folders, tree, "/");
    assert("/"@ =~= root_folder());
    let ghost all = seq![root_folder()] + folders_below(
        tree.subfolders@,
        root_folder(),
        tree.subfolders@.len() as int,
    );
    assert(views(folders@) == all);
    assert(all.len() >= 1 && all[0] == root_folder());
    assert(views(folders@).len() == folders@.len());
    assert(views(folders@)[0] == folders@[0]@);
    folders
}

} // verus!
