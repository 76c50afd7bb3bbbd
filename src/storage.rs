use vstd::prelude::*;
use crate::concepts::ModStructure;
use crate::error::ModDataErr;

verus! {

/// The file name carries the archive extension: it ends in `.zip` and has a
/// non-empty stem.
pub open spec fn has_zip_extension(name: Seq<char>) -> bool {
    let n = name.len();
    n >= 5 && name[n - 4] == '.' && name[n - 3] == 'z' && name[n - 2] == 'i' && name[n - 1] == 'p'
}

impl ModStructure {
    /// Classifies a storage entry from its file name and metadata: an archive by
    /// extension first, then a symbolic link, then a directory holding a manifest.
    pub fn parse(file_name: &str, is_symlink: bool, has_info_json: bool) -> (r: Result<
        ModStructure,
        ModDataErr,
    >)
        ensures
            r == if has_zip_extension(file_name@) {
                Ok::<ModStructure, ModDataErr>(ModStructure::Zip)
            } else if is_symlink {
                Ok(ModStructure::Symlink)
            } else if has_info_json {
                Ok(ModStructure::Directory)
            } else {
                Err(ModDataErr::InvalidModStructure)
            },
    {
        let n = file_name.unicode_len();
        if n >= 5 && file_name.get_char(n - 4) == '.' && file_name.get_char(n - 3) == 'z'
            && file_name.get_char(n - 2) == 'i' && file_name.get_char(n - 1) == 'p' {
            Ok(ModStructure::Zip)
        } else if is_symlink {
            Ok(ModStructure::Symlink)
        } else if has_info_json {
            Ok(ModStructure::Directory)
        } else {
            Err(ModDataErr::InvalidModStructure)
        }
    }
}

/// An archive entry path names the file `rel`: either at the archive root, or
/// inside one top-level folder (a non-empty name without `/`).
pub open spec fn archive_entry_matches(entry: Seq<char>, rel: Seq<char>) -> bool {
    let cut = entry.len() - rel.len() - 1;
    entry == rel || (entry.len() > rel.len() + 1 && entry.subrange(cut + 1, entry.len() as int) == rel
        && entry[cut] == '/' && forall|k: int| 0 <= k < cut ==> entry[k] != '/')
}

/// Whether archive entry `entry` names the file `rel`.
pub fn entry_matches(entry: &str, rel: &str) -> (r: bool)
    ensures
        r == archive_entry_matches(entry@, rel@),
{
    let n = entry.unicode_len();
    let m = rel.unicode_len();
    if n < m {
        return false;
    }
    let mut same_suffix = true;
    let mut k: usize = 0;
    while k < m
        invariant
            n == entry@.len(),
            m == rel@.len(),
            m <= n,
            k <= m,
            same_suffix == forall|j: int| 0 <= j < k ==> entry@[n - m + j] == rel@[j],
        decreases m - k,
    {
        if entry.get_char(n - m + k) != rel.get_char(k) {
            same_suffix = false;
        }
        k += 1;
    }
    if !same_suffix {
        proof {
            if entry@.len() > rel@.len() + 1 && entry@.subrange(n - m, n as int) == rel@ {
                let j = choose|j: int| 0 <= j < m && entry@[n - m + j] != rel@[j];
                assert(entry@.subrange(n - m, n as int)[j] == entry@[n - m + j]);
            }
        }
        return false;
    }
    assert(entry@.subrange(n - m, n as int) =~= rel@);
    if n == m {
        assert(entry@ =~= rel@);
        return true;
    }
    if n == m + 1 {
        return false;
    }
    if entry.get_char(n - m - 1) != '/' {
        return false;
    }
    let mut no_slash = true;
    let mut k: usize = 0;
    while k < n - m - 1
        invariant
            n == entry@.len(),
            m + 1 < n,
            k <= n - m - 1,
            no_slash == forall|j: int| 0 <= j < k ==> entry@[j] != '/',
        decreases n - m - 1 - k,
    {
        if entry.get_char(k) == '/' {
            no_slash = false;
        }
        k += 1;
    }
    if !no_slash {
        assert(entry@ != rel@);
    }
    no_slash
}

/// Index of the first archive entry that names the file `rel`.
pub fn find_in_archive(names: &Vec<String>, rel: &str) -> (r: Option<usize>)
    ensures
        match r {
            Some(i) => i < names@.len() && archive_entry_matches(names@[i as int]@, rel@)
                && forall|j: int| 0 <= j < i ==> !archive_entry_matches(#[trigger] names@[j]@, rel@),
            None => forall|j: int|
                0 <= j < names@.len() ==> !archive_entry_matches(#[trigger] names@[j]@, rel@),
        },
{
    let mut i: usize = 0;
    while i < names.len()
        invariant
            i <= names@.len(),
            forall|j: int| 0 <= j < i ==> !archive_entry_matches(#[trigger] names@[j]@, rel@),
        decreases names@.len() - i,
    {
        if entry_matches(names[i].as_str(), rel) {
            return Some(i);
        }
        i += 1;
    }
    None
}

/// A file is found under the same relative name whether the archive holds it at
/// its root or inside a single top-level folder, as a directory entry would.
pub proof fn lemma_archive_layouts_agree(rel: Seq<char>, top: Seq<char>)
    requires
        top.len() > 0,
        forall|k: int| 0 <= k < top.len() ==> top[k] != '/',
    ensures
        archive_entry_matches(rel, rel),
        archive_entry_matches(top + seq!['/'] + rel, rel),
{
    let entry = top + seq!['/'] + rel;
    let cut = entry.len() - rel.len() - 1;
    assert(cut == top.len());
    assert(entry.subrange(cut + 1, entry.len() as int) =~= rel);
    assert(entry[cut] == '/');
    assert forall|k: int| 0 <= k < cut implies entry[k] != '/' by {
        assert(entry[k] == top[k]);
    }
}

} // verus!
