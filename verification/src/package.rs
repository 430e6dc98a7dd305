//! Packages: the three tables, and the lookups that the rest relies on.
use crate::export::{Export, ExportModel};
use crate::name::{text_at, texts, Name};
use crate::reference::Reference;
use crate::search::{first_match, lemma_first_match, lemma_first_match_at};
use vstd::prelude::*;

verus! {

/// An object defined in another package.
///
/// It is told apart from other imports by what its three names read, not by
/// where it stands in the table.
#[derive(Clone, Copy, Debug, PartialEq, Eq, Structural)]
pub struct Import {
    /// The package that defines the class of the object.
    pub class_package: Name,
    /// The class of the object.
    pub class_name: Name,
    /// What the object is called.
    pub object_name: Name,
    /// The object that owns this one: another import, or nothing.
    pub outer: Reference,
}

/// What the three names of an import read: for each the string and the
/// number. Two imports are the same object exactly where their keys are
/// equal.
pub struct ImportKey {
    pub class_package: (Seq<char>, i32),
    pub class_name: (Seq<char>, i32),
    pub object_name: (Seq<char>, i32),
}

/// What a name reads in a name table.
pub open spec fn reading(names: Seq<Seq<char>>, name: Name) -> (Seq<char>, i32) {
    (text_at(names, name.index as int), name.number)
}

/// The key of an import whose names point into `names`.
pub open spec fn key_of(names: Seq<Seq<char>>, import: Import) -> ImportKey {
    ImportKey {
        class_package: reading(names, import.class_package),
        class_name: reading(names, import.class_name),
        object_name: reading(names, import.object_name),
    }
}

/// The condition of reading, in `names`, as the key `key`.
pub open spec fn has_key(names: Seq<Seq<char>>, key: ImportKey) -> spec_fn(Import) -> bool {
    |i: Import| key_of(names, i) == key
}

/// The condition of holding objects together.
pub open spec fn holds_objects() -> spec_fn(ExportModel) -> bool {
    |e: ExportModel| e.contained.is_some()
}

/// The first position at which `imports`, read in `names`, holds an import
/// with the key `key`.
pub open spec fn find_key(imports: Seq<Import>, names: Seq<Seq<char>>, key: ImportKey) -> Option<
    int,
> {
    first_match(imports, has_key(names, key))
}

/// A unit of serialized objects.
#[derive(Debug, PartialEq, Eq)]
pub struct Package {
    /// The objects that the package defines.
    pub exports: Vec<Export>,
    /// The objects of other packages that the package refers to.
    pub imports: Vec<Import>,
    /// The strings that names point at.
    pub names: Vec<String>,
}

/// The mathematical model of a [`Package`].
pub struct PackageModel {
    pub exports: Seq<ExportModel>,
    pub imports: Seq<Import>,
    pub names: Seq<Seq<char>>,
}

/// The models of a list of exports.
pub open spec fn export_views(list: Seq<Export>) -> Seq<ExportModel> {
    Seq::new(list.len(), |i: int| list[i]@)
}

impl View for Package {
    type V = PackageModel;

    open spec fn view(&self) -> PackageModel {
        PackageModel {
            exports: export_views(self.exports@),
            imports: self.imports@,
            names: texts(self.names@),
        }
    }
}

impl PackageModel {
    /// What the import at `position` reads.
    pub open spec fn key(self, position: int) -> ImportKey {
        key_of(self.names, self.imports[position])
    }

    /// Whether `r` claims to select an import that the package does not have.
    pub open spec fn dangling(self, r: Reference) -> bool {
        r.is_import() && r.position() >= self.imports.len()
    }

    /// The position of the container: the first export that holds objects
    /// together.
    pub open spec fn container(self) -> Option<int> {
        first_match(self.exports, holds_objects())
    }

    /// Whether an import resolves within the package.
    pub open spec fn import_resolves(self, import: Import) -> bool {
        &&& import.outer.resolves(self.exports.len(), self.imports.len())
        &&& import.class_package.index < self.names.len()
        &&& import.class_name.index < self.names.len()
        &&& import.object_name.index < self.names.len()
    }

    /// The invariant of a package: a reference can select each slot of the two
    /// object tables, and every reference and every name held by an object of
    /// the package is null or selects a slot of the package's own tables.
    pub open spec fn valid(self) -> bool {
        &&& self.exports.len() <= i32::MAX
        &&& self.imports.len() <= i32::MAX
        &&& forall|i: int|
            0 <= i < self.exports.len() ==> (#[trigger] self.exports[i]).resolves(
                self.exports.len(),
                self.imports.len(),
                self.names.len(),
            )
        &&& forall|i: int|
            0 <= i < self.imports.len() ==> self.import_resolves(#[trigger] self.imports[i])
    }
}

/// Whether two names, each read in its own table, read the same.
pub fn reads_same(names: &Vec<String>, name: Name, other_names: &Vec<String>, other: Name) -> (same:
    bool)
    ensures
        same == (reading(texts(names@), name) == reading(texts(other_names@), other)),
{
    if name.number != other.number {
        return false;
    }
    if name.index < names.len() {
        if other.index < other_names.len() {
            names[name.index] == other_names[other.index]
        } else {
            let empty = String::new();
            names[name.index] == empty
        }
    } else {
        if other.index < other_names.len() {
            let empty = String::new();
            empty == other_names[other.index]
        } else {
            true
        }
    }
}

/// Whether two imports, each read in its own table, are the same object.
pub fn same_object(names: &Vec<String>, import: &Import, other_names: &Vec<String>, other: &Import) -> (same:
    bool)
    ensures
        same == (key_of(texts(names@), *import) == key_of(texts(other_names@), *other)),
{
    reads_same(names, import.class_package, other_names, other.class_package) && reads_same(
        names,
        import.class_name,
        other_names,
        other.class_name,
    ) && reads_same(names, import.object_name, other_names, other.object_name)
}

impl Package {
    /// A package with nothing in it.
    pub fn new() -> (package: Package)
        ensures
            package@.exports.len() == 0,
            package@.imports.len() == 0,
            package@.names.len() == 0,
            package@.valid(),
    {
        Package { exports: Vec::new(), imports: Vec::new(), names: Vec::new() }
    }

    /// The import that `r` selects, if it selects one that the package has.
    pub fn get_import(&self, r: Reference) -> (found: Option<&Import>)
        ensures
            found.is_some() <==> r.is_import() && !self@.dangling(r),
            found.is_some() ==> *found.unwrap() == self.imports[r.position()],
    {
        if r.index < 0 {
            let position = (-(r.index + 1)) as usize;
            if position < self.imports.len() {
                return Some(&self.imports[position]);
            }
        }
        None
    }

    /// The export that `r` selects, if it selects one that the package has.
    pub fn get_export(&self, r: Reference) -> (found: Option<&Export>)
        ensures
            found.is_some() <==> r.is_export() && r.position() < self.exports.len(),
            found.is_some() ==> *found.unwrap() == self.exports[r.position()],
    {
        if r.index > 0 {
            let position = (r.index - 1) as usize;
            if position < self.exports.len() {
                return Some(&self.exports[position]);
            }
        }
        None
    }

    /// Looks up an import by what it reads: the position of the first import
    /// of this package that is the same object as `import`, whose names
    /// point into `names`.
    pub fn find_import_by_content(&self, names: &Vec<String>, import: &Import) -> (found: Option<
        usize,
    >)
        ensures
            match found {
                Some(i) => find_key(self@.imports, self@.names, key_of(texts(names@), *import))
                    == Some(i as int),
                None => find_key(
                    self@.imports,
                    self@.names,
                    key_of(texts(names@), *import),
                ).is_none(),
            },
    {
        let ghost key = key_of(texts(names@), *import);
        let ghost p = has_key(self@.names, key);
        let mut i: usize = 0;
        while i < self.imports.len()
            invariant
                i <= self.imports.len(),
                key == key_of(texts(names@), *import),
                p == has_key(self@.names, key),
                forall|j: int| 0 <= j < i ==> !p(#[trigger] self.imports[j]),
            decreases self.imports.len() - i,
        {
            if same_object(&self.names, &self.imports[i], names, import) {
                proof {
                    lemma_first_match_at(self.imports@, p, i as int);
                }
                return Some(i);
            }
            i += 1;
        }
        proof {
            lemma_first_match(self.imports@, p);
        }
        None
    }

    /// The position of the container: the first export that holds objects
    /// together.
    pub fn container(&self) -> (found: Option<usize>)
        ensures
            match found {
                Some(i) => self@.container() == Some(i as int) && i < self.exports.len(),
                None => self@.container().is_none(),
            },
    {
        let ghost p = holds_objects();
        let mut i: usize = 0;
        while i < self.exports.len()
            invariant
                i <= self.exports.len(),
                p == holds_objects(),
                forall|j: int| 0 <= j < i ==> !p(#[trigger] self@.exports[j]),
            decreases self.exports.len() - i,
        {
            if self.exports[i].contained.is_some() {
                proof {
                    lemma_first_match_at(self@.exports, p, i as int);
                }
                return Some(i);
            }
            i += 1;
        }
        proof {
            lemma_first_match(self@.exports, p);
        }
        None
    }
}

impl Package {
    /// Whether the package keeps its invariant: see [`PackageModel::valid`].
    pub fn is_valid(&self) -> (valid: bool)
        ensures
            valid == self@.valid(),
    {
        let exports = self.exports.len();
        let imports = self.imports.len();
        let names = self.names.len();
        if exports > i32::MAX as usize || imports > i32::MAX as usize {
            return false;
        }
        let mut i: usize = 0;
        while i < exports
            invariant
                i <= exports,
                exports == self.exports.len(),
                imports == self.imports.len(),
                names == self.names.len(),
                forall|j: int|
                    0 <= j < i ==> (#[trigger] self@.exports[j]).resolves(
                        exports as nat,
                        imports as nat,
                        names as nat,
                    ),
            decreases exports - i,
        {
            if !self.exports[i].resolves(exports, imports, names) {
                assert(!self@.exports[i as int].resolves(
                    self@.exports.len(),
                    self@.imports.len(),
                    self@.names.len(),
                ));
                return false;
            }
            i += 1;
        }
        let mut k: usize = 0;
        while k < imports
            invariant
                k <= imports,
                exports == self.exports.len(),
                imports == self.imports.len(),
                names == self.names.len(),
                forall|j: int| 0 <= j < k ==> self@.import_resolves(#[trigger] self.imports[j]),
            decreases imports - k,
        {
            let import = self.imports[k];
            if !(import.outer.resolves_in(exports, imports) && import.class_package.index
                < names && import.class_name.index < names && import.object_name.index < names) {
                assert(!self@.import_resolves(self@.imports[k as int]));
                return false;
            }
            k += 1;
        }
        true
    }
}

} // verus!
