use vstd::prelude::*;

verus! {

/// Every failure the resolver can report.
#[derive(Debug, Clone, PartialEq, Eq)]
pub enum ModDataErr {
    /// Metadata of a storage entry could not be read.
    FilesystemError,
    /// A storage entry is neither an archive, a symbolic link nor a directory with a manifest.
    InvalidModStructure,
    /// A requested mod is not known.
    ModDoesNotExist,
    /// The first mod declares the second incompatible and both are enabled.
    IncompatibleMods(String, String),
    /// A file asked for by relative name is not present in a mod.
    FileNotFound(String),
    /// A manifest does not have the required shape.
    MalformedManifest,
    /// A dependency string does not follow the dependency grammar.
    MalformedDependency(String),
    /// A locale file is not a valid ini file.
    MalformedLocale,
    /// The ordering relations among the enabled mods contain a cycle; names one member.
    CyclicDependency(String),
}

} // verus!
