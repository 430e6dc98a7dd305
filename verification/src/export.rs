//! Exports: the objects that a package defines, and the walk over the
//! references that one holds.
use crate::name::Name;
use crate::property::{
    all_names, all_references, collect_names, collect_references, duplicate_all,
    lemma_mapped_all_twice, lemma_mapped_prefix_holds, lemma_renamed_all_is_mapped, lemma_rewired_all_is_mapped,
    mapped_all, rename_all, renamed_all, rewire_all, rewired_all, views, Property, PropertyModel,
};
use crate::reference::Reference;
use vstd::prelude::*;

verus! {

/// An object defined in a package.
#[derive(Debug, PartialEq, Eq)]
pub struct Export {
    /// What the object is called.
    pub object_name: Name,
    /// The object that owns this one.
    pub outer: Reference,
    /// The class of the object.
    pub class: Reference,
    /// The object whose values this one starts from, if any.
    pub template: Reference,
    /// What must exist before this object is constructed.
    pub before_construction: Vec<Reference>,
    /// What must exist before this object is serialized.
    pub before_serialization: Vec<Reference>,
    /// The properties, where the object is an ordinary one.
    pub properties: Option<Vec<Property>>,
    /// The objects that this one holds together, where it is a container.
    pub contained: Option<Vec<Reference>>,
}

/// The mathematical model of an [`Export`].
pub struct ExportModel {
    pub object_name: Name,
    pub outer: Reference,
    pub class: Reference,
    pub template: Reference,
    pub before_construction: Seq<Reference>,
    pub before_serialization: Seq<Reference>,
    pub properties: Option<Seq<PropertyModel>>,
    pub contained: Option<Seq<Reference>>,
}

impl View for Export {
    type V = ExportModel;

    open spec fn view(&self) -> ExportModel {
        ExportModel {
            object_name: self.object_name,
            outer: self.outer,
            class: self.class,
            template: self.template,
            before_construction: self.before_construction@,
            before_serialization: self.before_serialization@,
            properties: match self.properties {
                Some(list) => Some(views(list@)),
                None => None,
            },
            contained: match self.contained {
                Some(list) => Some(list@),
                None => None,
            },
        }
    }
}

/// Whether `to` is `from` with every reference replaced by a result of `f`.
pub open spec fn references_rewired<F: Fn(Reference) -> Reference>(
    from: Seq<Reference>,
    to: Seq<Reference>,
    f: F,
) -> bool {
    &&& to.len() == from.len()
    &&& forall|i: int| 0 <= i < from.len() ==> call_ensures(f, (#[trigger] from[i],), to[i])
}

impl ExportModel {
    /// The references of the properties, in order; none where the export has
    /// no properties.
    pub open spec fn property_references(self) -> Seq<Reference> {
        match self.properties {
            Some(list) => all_references(list),
            None => Seq::empty(),
        }
    }

    /// The references that the walk visits, in the order of the visits: those
    /// of the properties, the class, the template, and what must exist before
    /// serialization.
    pub open spec fn walked(self) -> Seq<Reference> {
        self.property_references() + seq![self.class, self.template] + self.before_serialization
    }

    /// The references that the walk passes by: the owner, what must exist
    /// before construction, and what a container holds together.
    pub open spec fn unwalked(self) -> Seq<Reference> {
        seq![self.outer] + self.before_construction + match self.contained {
            Some(list) => list,
            None => Seq::empty(),
        }
    }

    /// Every name that the export holds: its own, then those of its
    /// properties in order.
    pub open spec fn names(self) -> Seq<Name> {
        seq![self.object_name] + match self.properties {
            Some(list) => all_names(list),
            None => Seq::empty(),
        }
    }

    /// Whether every reference of the export is null or selects a slot of
    /// tables with `exports` exports and `imports` imports, and every name a
    /// string of a table with `names` strings.
    pub open spec fn resolves(self, exports: nat, imports: nat, names: nat) -> bool {
        &&& forall|i: int|
            0 <= i < self.walked().len() ==> (#[trigger] self.walked()[i]).resolves(exports, imports)
        &&& forall|i: int|
            0 <= i < self.unwalked().len() ==> (#[trigger] self.unwalked()[i]).resolves(
                exports,
                imports,
            )
        &&& forall|i: int| 0 <= i < self.names().len() ==> (#[trigger] self.names()[i]).index < names
    }

    /// Whether `to` is this export after a walk with `f`: every reference of
    /// the properties, the class, the template and every reference of what
    /// must exist before serialization replaced by a result of `f` on it, and
    /// nothing else changed.
    pub open spec fn rewired<F: Fn(Reference) -> Reference>(self, to: ExportModel, f: F) -> bool {
        &&& to.object_name == self.object_name
        &&& to.outer == self.outer
        &&& to.before_construction == self.before_construction
        &&& to.contained == self.contained
        &&& call_ensures(f, (self.class,), to.class)
        &&& call_ensures(f, (self.template,), to.template)
        &&& references_rewired(self.before_serialization, to.before_serialization, f)
        &&& match self.properties {
            Some(list) => to.properties.is_some() && rewired_all(list, to.properties.unwrap(), f),
            None => to.properties.is_none(),
        }
    }

    /// Whether `to` is this export with every name replaced by a result of
    /// `g` on it, and nothing else changed.
    pub open spec fn renamed<G: Fn(Name) -> Name>(self, to: ExportModel, g: G) -> bool {
        &&& call_ensures(g, (self.object_name,), to.object_name)
        &&& to.outer == self.outer
        &&& to.class == self.class
        &&& to.template == self.template
        &&& to.before_construction == self.before_construction
        &&& to.before_serialization == self.before_serialization
        &&& to.contained == self.contained
        &&& match self.properties {
            Some(list) => to.properties.is_some() && renamed_all(list, to.properties.unwrap(), g),
            None => to.properties.is_none(),
        }
    }

    /// The export with every walked reference sent through `f`, every other
    /// reference through `e`, and every name through `g`.
    pub open spec fn mapped(
        self,
        f: spec_fn(Reference) -> Reference,
        e: spec_fn(Reference) -> Reference,
        g: spec_fn(Name) -> Name,
    ) -> ExportModel {
        ExportModel {
            object_name: g(self.object_name),
            outer: e(self.outer),
            class: f(self.class),
            template: f(self.template),
            before_construction: self.before_construction.map_values(e),
            before_serialization: self.before_serialization.map_values(f),
            properties: match self.properties {
                Some(list) => Some(mapped_all(list, f, g)),
                None => None,
            },
            contained: match self.contained {
                Some(list) => Some(list.map_values(e)),
                None => None,
            },
        }
    }
}

/// A mapped export holds, slot by slot, what the functions make of the
/// references and names that the export held.
pub proof fn lemma_mapped_export_holds(
    export: ExportModel,
    f: spec_fn(Reference) -> Reference,
    e: spec_fn(Reference) -> Reference,
    g: spec_fn(Name) -> Name,
)
    ensures
        export.mapped(f, e, g).walked() == export.walked().map_values(f),
        export.mapped(f, e, g).unwalked() == export.unwalked().map_values(e),
        export.mapped(f, e, g).names() == export.names().map_values(g),
{
    let m = export.mapped(f, e, g);
    match export.properties {
        Some(list) => {
            lemma_mapped_prefix_holds(list, list.len(), f, g);
        },
        None => {},
    }
    assert(m.walked() =~= export.walked().map_values(f));
    assert(m.unwalked() =~= export.unwalked().map_values(e));
    assert(m.names() =~= export.names().map_values(g));
}

/// An export rewired by a function that has one result for each reference is
/// the export mapped by that result.
pub proof fn lemma_rewired_export_is_mapped<F: Fn(Reference) -> Reference>(
    from: ExportModel,
    to: ExportModel,
    f: F,
    result: spec_fn(Reference) -> Reference,
    same: spec_fn(Reference) -> Reference,
    same_name: spec_fn(Name) -> Name,
)
    requires
        from.rewired(to, f),
        forall|a: Reference, b: Reference| #[trigger] call_ensures(f, (a,), b) ==> b == result(a),
        forall|r: Reference| #[trigger] same(r) == r,
        forall|n: Name| #[trigger] same_name(n) == n,
    ensures
        to == from.mapped(result, same, same_name),
{
    let goal = from.mapped(result, same, same_name);
    match from.properties {
        Some(list) => {
            lemma_rewired_all_is_mapped(list, to.properties.unwrap(), f, result, same_name);
        },
        None => {},
    }
    assert(to.before_serialization =~= goal.before_serialization);
    assert(to.before_construction =~= goal.before_construction);
    match from.contained {
        Some(list) => {
            assert(to.contained.unwrap() =~= goal.contained.unwrap());
        },
        None => {},
    }
}

/// An export renamed by a function that has one result for each name is the
/// export mapped by that result.
pub proof fn lemma_renamed_export_is_mapped<G: Fn(Name) -> Name>(
    from: ExportModel,
    to: ExportModel,
    g: G,
    same: spec_fn(Reference) -> Reference,
    result: spec_fn(Name) -> Name,
)
    requires
        from.renamed(to, g),
        forall|a: Name, b: Name| #[trigger] call_ensures(g, (a,), b) ==> b == result(a),
        forall|r: Reference| #[trigger] same(r) == r,
    ensures
        to == from.mapped(same, same, result),
{
    let goal = from.mapped(same, same, result);
    match from.properties {
        Some(list) => {
            lemma_renamed_all_is_mapped(list, to.properties.unwrap(), g, same, result);
        },
        None => {},
    }
    assert(to.before_serialization =~= goal.before_serialization);
    assert(to.before_construction =~= goal.before_construction);
    match from.contained {
        Some(list) => {
            assert(to.contained.unwrap() =~= goal.contained.unwrap());
        },
        None => {},
    }
}

/// Mapping an export twice is mapping it once by the composed functions.
pub proof fn lemma_mapped_export_twice(
    export: ExportModel,
    f1: spec_fn(Reference) -> Reference,
    e1: spec_fn(Reference) -> Reference,
    g1: spec_fn(Name) -> Name,
    f2: spec_fn(Reference) -> Reference,
    e2: spec_fn(Reference) -> Reference,
    g2: spec_fn(Name) -> Name,
    f: spec_fn(Reference) -> Reference,
    e: spec_fn(Reference) -> Reference,
    g: spec_fn(Name) -> Name,
)
    requires
        forall|r: Reference| #![trigger f(r)] #![trigger f1(r)] f(r) == f2(f1(r)),
        forall|r: Reference| #![trigger e(r)] #![trigger e1(r)] e(r) == e2(e1(r)),
        forall|n: Name| #![trigger g(n)] #![trigger g1(n)] g(n) == g2(g1(n)),
    ensures
        export.mapped(f1, e1, g1).mapped(f2, e2, g2) == export.mapped(f, e, g),
{
    let twice = export.mapped(f1, e1, g1).mapped(f2, e2, g2);
    let goal = export.mapped(f, e, g);
    match export.properties {
        Some(list) => {
            lemma_mapped_all_twice(list, f1, g1, f2, g2, f, g);
        },
        None => {},
    }
    assert(twice.before_serialization =~= goal.before_serialization);
    assert(twice.before_construction =~= goal.before_construction);
    match export.contained {
        Some(list) => {
            assert(twice.contained.unwrap() =~= goal.contained.unwrap());
        },
        None => {},
    }
}

/// Copies a list of references.
pub fn duplicate_references(list: &Vec<Reference>) -> (copy: Vec<Reference>)
    ensures
        copy@ == list@,
{
    let mut copy: Vec<Reference> = Vec::new();
    let mut i: usize = 0;
    while i < list.len()
        invariant
            i <= list.len(),
            copy@ == list@.take(i as int),
        decreases list.len() - i,
    {
        copy.push(list[i]);
        assert(list@.take(i + 1) =~= list@.take(i as int).push(list[i as int]));
        i += 1;
    }
    assert(list@.take(list.len() as int) =~= list@);
    copy
}

/// Replaces every reference of `list` by what `f` makes of it.
pub fn rewire_references<F: Fn(Reference) -> Reference>(list: &mut Vec<Reference>, f: &F)
    requires
        forall|r: Reference| call_requires(*f, (r,)),
    ensures
        references_rewired(old(list)@, final(list)@, *f),
{
    let n = list.len();
    let mut i: usize = 0;
    while i < n
        invariant
            i <= n,
            list.len() == n,
            old(list).len() == n,
            forall|r: Reference| call_requires(*f, (r,)),
            forall|j: int| i <= j < n ==> #[trigger] list[j] == old(list)[j],
            forall|j: int| 0 <= j < i ==> call_ensures(*f, (#[trigger] old(list)[j],), list[j]),
        decreases n - i,
    {
        let r = f(list[i]);
        list[i] = r;
        i += 1;
    }
}

/// Walks the references of an export: visits, each once, every reference
/// held by its properties, its class, its template, and every reference of
/// what must exist before its serialization, and replaces each by what `func`
/// makes of it.
///
/// The owner, what must exist before construction, and what a container holds
/// together are not visited.
pub fn on_import_refs<F: Fn(Reference) -> Reference>(export: &mut Export, func: F)
    requires
        forall|r: Reference| call_requires(func, (r,)),
    ensures
        old(export)@.rewired(final(export)@, func),
{
    match &mut export.properties {
        Some(list) => {
            rewire_all(list, &func);
        },
        None => {},
    }
    export.class = func(export.class);
    export.template = func(export.template);
    rewire_references(&mut export.before_serialization, &func);
}

impl Export {
    /// A copy of the export and of everything it holds.
    pub fn duplicate(&self) -> (copy: Export)
        ensures
            copy@ == self@,
    {
        Export {
            object_name: self.object_name,
            outer: self.outer,
            class: self.class,
            template: self.template,
            before_construction: duplicate_references(&self.before_construction),
            before_serialization: duplicate_references(&self.before_serialization),
            properties: match &self.properties {
                Some(list) => Some(duplicate_all(list)),
                None => None,
            },
            contained: match &self.contained {
                Some(list) => Some(duplicate_references(list)),
                None => None,
            },
        }
    }

    /// The references that a walk of the export visits, in the order of the
    /// visits.
    pub fn walked_references(&self) -> (list: Vec<Reference>)
        ensures
            list@ == self@.walked(),
    {
        let mut list: Vec<Reference> = Vec::new();
        match &self.properties {
            Some(properties) => {
                collect_references(properties, &mut list);
            },
            None => {},
        }
        list.push(self.class);
        list.push(self.template);
        let mut i: usize = 0;
        while i < self.before_serialization.len()
            invariant
                i <= self.before_serialization.len(),
                list@ == self@.property_references() + seq![self.class, self.template]
                    + self.before_serialization@.take(i as int),
            decreases self.before_serialization.len() - i,
        {
            list.push(self.before_serialization[i]);
            assert(self.before_serialization@.take(i + 1) =~= self.before_serialization@.take(
                i as int,
            ).push(self.before_serialization[i as int]));
            i += 1;
        }
        assert(self.before_serialization@.take(self.before_serialization.len() as int)
            =~= self.before_serialization@);
        list
    }

    /// The names that the export holds: its own, then those of its
    /// properties in order.
    pub fn held_names(&self) -> (list: Vec<Name>)
        ensures
            list@ == self@.names(),
    {
        let mut list: Vec<Name> = Vec::new();
        list.push(self.object_name);
        match &self.properties {
            Some(properties) => {
                collect_names(properties, &mut list);
            },
            None => {},
        }
        list
    }

    /// Replaces every name that the export holds by what `g` makes of it.
    pub fn map_names<G: Fn(Name) -> Name>(&mut self, g: G)
        requires
            forall|n: Name| call_requires(g, (n,)),
        ensures
            old(self)@.renamed(final(self)@, g),
    {
        self.object_name = g(self.object_name);
        match &mut self.properties {
            Some(list) => {
                rename_all(list, &g);
            },
            None => {},
        }
    }
}

/// Whether every reference of a list is null or selects a slot of tables
/// with `exports` exports and `imports` imports.
pub fn all_resolve(list: &Vec<Reference>, exports: usize, imports: usize) -> (sound: bool)
    ensures
        sound == forall|i: int|
            0 <= i < list.len() ==> (#[trigger] list[i]).resolves(exports as nat, imports as nat),
{
    let mut i: usize = 0;
    while i < list.len()
        invariant
            i <= list.len(),
            forall|j: int| 0 <= j < i ==> (#[trigger] list[j]).resolves(exports as nat, imports as nat),
        decreases list.len() - i,
    {
        if !list[i].resolves_in(exports, imports) {
            return false;
        }
        i += 1;
    }
    true
}

impl Export {
    /// Whether every reference of the export is null or selects a slot of
    /// tables with `exports` exports and `imports` imports, and every name a
    /// string of a table with `names` strings.
    pub fn resolves(&self, exports: usize, imports: usize, names: usize) -> (sound: bool)
        ensures
            sound == self@.resolves(exports as nat, imports as nat, names as nat),
    {
        let walked = self.walked_references();
        if !all_resolve(&walked, exports, imports) {
            return false;
        }
        let mut unwalked: Vec<Reference> = Vec::new();
        unwalked.push(self.outer);
        let mut i: usize = 0;
        while i < self.before_construction.len()
            invariant
                i <= self.before_construction.len(),
                unwalked@ == seq![self.outer] + self.before_construction@.take(i as int),
            decreases self.before_construction.len() - i,
        {
            unwalked.push(self.before_construction[i]);
            assert(self.before_construction@.take(i + 1) =~= self.before_construction@.take(
                i as int,
            ).push(self.before_construction[i as int]));
            i += 1;
        }
        assert(self.before_construction@.take(self.before_construction.len() as int)
            =~= self.before_construction@);
        match &self.contained {
            Some(list) => {
                let mut j: usize = 0;
                while j < list.len()
                    invariant
                        j <= list.len(),
                        unwalked@ == seq![self.outer] + self.before_construction@ + list@.take(
                            j as int,
                        ),
                    decreases list.len() - j,
                {
                    unwalked.push(list[j]);
                    assert(list@.take(j + 1) =~= list@.take(j as int).push(list[j as int]));
                    j += 1;
                }
                assert(list@.take(list.len() as int) =~= list@);
            },
            None => {
                assert(unwalked@ =~= self@.unwalked());
            },
        }
        assert(unwalked@ == self@.unwalked());
        if !all_resolve(&unwalked, exports, imports) {
            return false;
        }
        let held = self.held_names();
        let mut k: usize = 0;
        while k < held.len()
            invariant
                k <= held.len(),
                held@ == self@.names(),
                forall|j: int| 0 <= j < k ==> (#[trigger] held[j]).index < names,
            decreases held.len() - k,
        {
            if held[k].index >= names {
                return false;
            }
            k += 1;
        }
        true
    }
}

} // verus!
