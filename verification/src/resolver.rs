//! Where imports of Solidity sources lead.
use crate::names::NameMap;
use crate::text::text_starts_with;
use vstd::prelude::*;
use vstd::string::StringExecFns;

verus! {

/// Resolves imports. Relative imports (`./`, `../`) are resolved against the
/// importer's directory; every other import path is looked up in a
/// caller-provided map of import source name to absolute path.
#[derive(Debug)]
pub struct ImportResolver {
    import_map: NameMap<String>,
}

/// Where an import leads, before the path is normalized.
#[derive(Debug)]
pub enum ImportTarget {
    /// To the import path, seen from the importer's directory.
    Relative,
    /// To this path.
    Mapped(String),
}

/// What [`ImportTarget`] says.
pub ghost enum TargetModel {
    Relative,
    Mapped(Seq<char>),
}

impl View for ImportTarget {
    type V = TargetModel;

    open spec fn view(&self) -> TargetModel {
        match self {
            ImportTarget::Relative => TargetModel::Relative,
            ImportTarget::Mapped(path) => TargetModel::Mapped(path@),
        }
    }
}

impl View for ImportResolver {
    type V = Map<Seq<char>, Seq<char>>;

    closed spec fn view(&self) -> Map<Seq<char>, Seq<char>> {
        self.import_map@
    }
}

/// Whether an import path is relative.
pub open spec fn is_relative(import_path: Seq<char>) -> bool {
    "./"@.is_prefix_of(import_path) || "../"@.is_prefix_of(import_path)
}

/// Where an import leads, or the message that it cannot be found.
pub open spec fn import_target(
    import_map: Map<Seq<char>, Seq<char>>,
    import_path: Seq<char>,
) -> Result<TargetModel, Seq<char>> {
    if is_relative(import_path) {
        Ok(TargetModel::Relative)
    } else if import_map.contains_key(import_path) {
        Ok(TargetModel::Mapped(import_map[import_path]))
    } else {
        Err("import '"@ + import_path + "' not found in import mappings"@)
    }
}

/// Whether an import path is relative (resolved against the importer) rather
/// than mapped (npm-style, resolved via the import map).
pub fn is_relative_import(import_path: &str) -> (r: bool)
    ensures
        r == is_relative(import_path@),
{
    text_starts_with(import_path, "./") || text_starts_with(import_path, "../")
}

impl ImportResolver {
    /// The resolver that looks up import paths in `import_map`.
    pub fn new(import_map: NameMap<String>) -> (r: Self)
        ensures
            r@ == import_map@,
    {
        ImportResolver { import_map }
    }

    /// Where the import `import_path` leads.
    pub fn resolve_import(&self, import_path: &str) -> (r: Result<ImportTarget, String>)
        ensures
            match r {
                Ok(target) => import_target(self@, import_path@) == Ok::<TargetModel, Seq<char>>(
                    target@,
                ),
                Err(message) => import_target(self@, import_path@) == Err::<TargetModel, Seq<char>>(
                    message@,
                ),
            },
    {
        if is_relative_import(import_path) {
            Ok(ImportTarget::Relative)
        } else {
            match self.import_map.get(import_path) {
                Some(path) => Ok(ImportTarget::Mapped(path.clone())),
                None => Err(
                    "import '".to_owned().concat(import_path).concat(
                        "' not found in import mappings",
                    ),
                ),
            }
        }
    }
}

impl Clone for ImportResolver {
    fn clone(&self) -> (r: Self)
        ensures
            r@ == self@,
    {
        ImportResolver { import_map: self.import_map.duplicate() }
    }
}

impl Default for ImportResolver {
    fn default() -> (r: Self)
        ensures
            r@ == Map::<Seq<char>, Seq<char>>::empty(),
    {
        ImportResolver { import_map: NameMap::new() }
    }
}

/// The import map has no say in relative imports.
pub proof fn law_relative_imports_are_not_mapped(
    import_map: Map<Seq<char>, Seq<char>>,
    import_path: Seq<char>,
)
    requires
        is_relative(import_path),
    ensures
        import_target(import_map, import_path) == import_target(Map::empty(), import_path),
{
}

} // verus!
