//! Properties: the typed values of an object, some of which hold references,
//! names and further properties.
use crate::name::Name;
use crate::reference::Reference;
use vstd::prelude::*;

verus! {

/// A value attached to an export.
///
/// Every property is named. Beyond its name a property holds, by kind, a
/// reference, a name, or properties of its own.
#[derive(Debug, PartialEq, Eq)]
pub enum Property {
    /// A value that holds neither a reference nor a name: a number, a
    /// string, a flag.
    Scalar { name: Name },
    /// A name used as a value.
    Label { name: Name, value: Name },
    /// A reference to an object.
    Object { name: Name, value: Reference },
    /// A function bound to an object.
    Delegate { name: Name, object: Reference, function: Name },
    /// A structure of the named kind, with its fields in order.
    Struct { name: Name, kind: Name, fields: Vec<Property> },
    /// An ordered list of values.
    Array { name: Name, items: Vec<Property> },
    /// A set of values, in the order in which they are stored.
    ItemSet { name: Name, items: Vec<Property> },
    /// Keys and the values they map to, each in the order of storage.
    KeyMap { name: Name, keys: Vec<Property>, values: Vec<Property> },
}

/// The mathematical model of a [`Property`].
pub enum PropertyModel {
    Scalar { name: Name },
    Label { name: Name, value: Name },
    Object { name: Name, value: Reference },
    Delegate { name: Name, object: Reference, function: Name },
    Struct { name: Name, kind: Name, fields: Seq<PropertyModel> },
    Array { name: Name, items: Seq<PropertyModel> },
    ItemSet { name: Name, items: Seq<PropertyModel> },
    KeyMap { name: Name, keys: Seq<PropertyModel>, values: Seq<PropertyModel> },
}

/// The model of a property, by descent into the properties it holds.
pub open spec fn model_of(p: Property) -> PropertyModel
    decreases p,
{
    match p {
        Property::Scalar { name } => PropertyModel::Scalar { name },
        Property::Label { name, value } => PropertyModel::Label { name, value },
        Property::Object { name, value } => PropertyModel::Object { name, value },
        Property::Delegate { name, object, function } => PropertyModel::Delegate {
            name,
            object,
            function,
        },
        Property::Struct { name, kind, fields } => PropertyModel::Struct {
            name,
            kind,
            fields: Seq::new(
                fields.len() as nat,
                |i: int|
                    if 0 <= i < fields.len() {
                        model_of(fields[i])
                    } else {
                        PropertyModel::Scalar { name }
                    },
            ),
        },
        Property::Array { name, items } => PropertyModel::Array {
            name,
            items: Seq::new(
                items.len() as nat,
                |i: int|
                    if 0 <= i < items.len() {
                        model_of(items[i])
                    } else {
                        PropertyModel::Scalar { name }
                    },
            ),
        },
        Property::ItemSet { name, items } => PropertyModel::ItemSet {
            name,
            items: Seq::new(
                items.len() as nat,
                |i: int|
                    if 0 <= i < items.len() {
                        model_of(items[i])
                    } else {
                        PropertyModel::Scalar { name }
                    },
            ),
        },
        Property::KeyMap { name, keys, values } => PropertyModel::KeyMap {
            name,
            keys: Seq::new(
                keys.len() as nat,
                |i: int|
                    if 0 <= i < keys.len() {
                        model_of(keys[i])
                    } else {
                        PropertyModel::Scalar { name }
                    },
            ),
            values: Seq::new(
                values.len() as nat,
                |i: int|
                    if 0 <= i < values.len() {
                        model_of(values[i])
                    } else {
                        PropertyModel::Scalar { name }
                    },
            ),
        },
    }
}

impl View for Property {
    type V = PropertyModel;

    open spec fn view(&self) -> PropertyModel {
        model_of(*self)
    }
}

/// The models of a list of properties.
pub open spec fn views(list: Seq<Property>) -> Seq<PropertyModel> {
    Seq::new(list.len(), |i: int| list[i]@)
}

/// The references held by the first `n` properties of `list`, in order.
pub open spec fn prefix_references(list: Seq<PropertyModel>, n: nat) -> Seq<Reference>
    decreases list, n,
{
    if n == 0 || n > list.len() {
        Seq::empty()
    } else {
        prefix_references(list, (n - 1) as nat) + list[n - 1].references()
    }
}

/// The references held by the properties of `list`, in order.
pub open spec fn all_references(list: Seq<PropertyModel>) -> Seq<Reference> {
    prefix_references(list, list.len())
}

/// The names held by the first `n` properties of `list`, in order.
pub open spec fn prefix_names(list: Seq<PropertyModel>, n: nat) -> Seq<Name>
    decreases list, n,
{
    if n == 0 || n > list.len() {
        Seq::empty()
    } else {
        prefix_names(list, (n - 1) as nat) + list[n - 1].names()
    }
}

/// The names held by the properties of `list`, in order.
pub open spec fn all_names(list: Seq<PropertyModel>) -> Seq<Name> {
    prefix_names(list, list.len())
}

/// Each property of `list` with its references sent through `f` and its
/// names through `g`.
pub open spec fn mapped_all(
    list: Seq<PropertyModel>,
    f: spec_fn(Reference) -> Reference,
    g: spec_fn(Name) -> Name,
) -> Seq<PropertyModel> {
    Seq::new(list.len(), |i: int| list[i].mapped(f, g))
}

/// Whether `to` is `from` with every reference replaced by a result of `f`.
pub open spec fn rewired_all<F: Fn(Reference) -> Reference>(
    from: Seq<PropertyModel>,
    to: Seq<PropertyModel>,
    f: F,
) -> bool {
    &&& to.len() == from.len()
    &&& forall|i: int| 0 <= i < from.len() ==> (#[trigger] from[i]).rewired(to[i], f)
}

/// Whether `to` is `from` with every name replaced by a result of `g`.
pub open spec fn renamed_all<G: Fn(Name) -> Name>(
    from: Seq<PropertyModel>,
    to: Seq<PropertyModel>,
    g: G,
) -> bool {
    &&& to.len() == from.len()
    &&& forall|i: int| 0 <= i < from.len() ==> (#[trigger] from[i]).renamed(to[i], g)
}

impl PropertyModel {
    /// The name of the property.
    pub open spec fn name(self) -> Name {
        match self {
            PropertyModel::Scalar { name } => name,
            PropertyModel::Label { name, .. } => name,
            PropertyModel::Object { name, .. } => name,
            PropertyModel::Delegate { name, .. } => name,
            PropertyModel::Struct { name, .. } => name,
            PropertyModel::Array { name, .. } => name,
            PropertyModel::ItemSet { name, .. } => name,
            PropertyModel::KeyMap { name, .. } => name,
        }
    }

    /// Every reference held by the property or by a property inside it, each
    /// once, in the order of a descent that takes fields as they are stored,
    /// and the keys of a map before its values.
    pub open spec fn references(self) -> Seq<Reference>
        decreases self, 0nat,
    {
        match self {
            PropertyModel::Scalar { .. } => Seq::empty(),
            PropertyModel::Label { .. } => Seq::empty(),
            PropertyModel::Object { value, .. } => seq![value],
            PropertyModel::Delegate { object, .. } => seq![object],
            PropertyModel::Struct { fields, .. } => prefix_references(fields, fields.len()),
            PropertyModel::Array { items, .. } => prefix_references(items, items.len()),
            PropertyModel::ItemSet { items, .. } => prefix_references(items, items.len()),
            PropertyModel::KeyMap { keys, values, .. } => prefix_references(keys, keys.len())
                + prefix_references(values, values.len()),
        }
    }

    /// Every name held by the property or by a property inside it, each once:
    /// the property's own name first, then the names of its value in the
    /// order of the same descent.
    pub open spec fn names(self) -> Seq<Name>
        decreases self, 0nat,
    {
        match self {
            PropertyModel::Scalar { name } => seq![name],
            PropertyModel::Label { name, value } => seq![name, value],
            PropertyModel::Object { name, .. } => seq![name],
            PropertyModel::Delegate { name, function, .. } => seq![name, function],
            PropertyModel::Struct { name, kind, fields } => seq![name, kind] + prefix_names(
                fields,
                fields.len(),
            ),
            PropertyModel::Array { name, items } => seq![name] + prefix_names(items, items.len()),
            PropertyModel::ItemSet { name, items } => seq![name] + prefix_names(items, items.len()),
            PropertyModel::KeyMap { name, keys, values } => seq![name] + prefix_names(keys, keys.len())
                + prefix_names(values, values.len()),
        }
    }

    /// The property with every reference sent through `f` and every name
    /// through `g`, and nothing else changed.
    pub open spec fn mapped(
        self,
        f: spec_fn(Reference) -> Reference,
        g: spec_fn(Name) -> Name,
    ) -> PropertyModel
        decreases self,
    {
        match self {
            PropertyModel::Scalar { name } => PropertyModel::Scalar { name: g(name) },
            PropertyModel::Label { name, value } => PropertyModel::Label {
                name: g(name),
                value: g(value),
            },
            PropertyModel::Object { name, value } => PropertyModel::Object {
                name: g(name),
                value: f(value),
            },
            PropertyModel::Delegate { name, object, function } => PropertyModel::Delegate {
                name: g(name),
                object: f(object),
                function: g(function),
            },
            PropertyModel::Struct { name, kind, fields } => PropertyModel::Struct {
                name: g(name),
                kind: g(kind),
                fields: Seq::new(
                    fields.len(),
                    |i: int|
                        if 0 <= i < fields.len() {
                            fields[i].mapped(f, g)
                        } else {
                            self
                        },
                ),
            },
            PropertyModel::Array { name, items } => PropertyModel::Array {
                name: g(name),
                items: Seq::new(
                    items.len(),
                    |i: int|
                        if 0 <= i < items.len() {
                            items[i].mapped(f, g)
                        } else {
                            self
                        },
                ),
            },
            PropertyModel::ItemSet { name, items } => PropertyModel::ItemSet {
                name: g(name),
                items: Seq::new(
                    items.len(),
                    |i: int|
                        if 0 <= i < items.len() {
                            items[i].mapped(f, g)
                        } else {
                            self
                        },
                ),
            },
            PropertyModel::KeyMap { name, keys, values } => PropertyModel::KeyMap {
                name: g(name),
                keys: Seq::new(
                    keys.len(),
                    |i: int|
                        if 0 <= i < keys.len() {
                            keys[i].mapped(f, g)
                        } else {
                            self
                        },
                ),
                values: Seq::new(
                    values.len(),
                    |i: int|
                        if 0 <= i < values.len() {
                            values[i].mapped(f, g)
                        } else {
                            self
                        },
                ),
            },
        }
    }

    /// Whether `to` is this property with every reference replaced by a
    /// result of `f` on it, and nothing else changed.
    pub open spec fn rewired<F: Fn(Reference) -> Reference>(self, to: PropertyModel, f: F) -> bool
        decreases self,
    {
        match self {
            PropertyModel::Scalar { .. } => to == self,
            PropertyModel::Label { .. } => to == self,
            PropertyModel::Object { name, value } => {
                &&& to matches PropertyModel::Object { name: n, value: v }
                &&& n == name
                &&& call_ensures(f, (value,), v)
            },
            PropertyModel::Delegate { name, object, function } => {
                &&& to matches PropertyModel::Delegate { name: n, object: o, function: u }
                &&& n == name
                &&& u == function
                &&& call_ensures(f, (object,), o)
            },
            PropertyModel::Struct { name, kind, fields } => {
                &&& to matches PropertyModel::Struct { name: n, kind: k, fields: t }
                &&& n == name
                &&& k == kind
                &&& t.len() == fields.len()
                &&& forall|i: int| 0 <= i < fields.len() ==> (#[trigger] fields[i]).rewired(t[i], f)
            },
            PropertyModel::Array { name, items } => {
                &&& to matches PropertyModel::Array { name: n, items: t }
                &&& n == name
                &&& t.len() == items.len()
                &&& forall|i: int| 0 <= i < items.len() ==> (#[trigger] items[i]).rewired(t[i], f)
            },
            PropertyModel::ItemSet { name, items } => {
                &&& to matches PropertyModel::ItemSet { name: n, items: t }
                &&& n == name
                &&& t.len() == items.len()
                &&& forall|i: int| 0 <= i < items.len() ==> (#[trigger] items[i]).rewired(t[i], f)
            },
            PropertyModel::KeyMap { name, keys, values } => {
                &&& to matches PropertyModel::KeyMap { name: n, keys: tk, values: tv }
                &&& n == name
                &&& tk.len() == keys.len()
                &&& tv.len() == values.len()
                &&& forall|i: int| 0 <= i < keys.len() ==> (#[trigger] keys[i]).rewired(tk[i], f)
                &&& forall|i: int| 0 <= i < values.len() ==> (#[trigger] values[i]).rewired(tv[i], f)
            },
        }
    }

    /// Whether `to` is this property with every name replaced by a result of
    /// `g` on it, and nothing else changed.
    pub open spec fn renamed<G: Fn(Name) -> Name>(self, to: PropertyModel, g: G) -> bool
        decreases self,
    {
        match self {
            PropertyModel::Scalar { name } => {
                &&& to matches PropertyModel::Scalar { name: n }
                &&& call_ensures(g, (name,), n)
            },
            PropertyModel::Label { name, value } => {
                &&& to matches PropertyModel::Label { name: n, value: v }
                &&& call_ensures(g, (name,), n)
                &&& call_ensures(g, (value,), v)
            },
            PropertyModel::Object { name, value } => {
                &&& to matches PropertyModel::Object { name: n, value: v }
                &&& call_ensures(g, (name,), n)
                &&& v == value
            },
            PropertyModel::Delegate { name, object, function } => {
                &&& to matches PropertyModel::Delegate { name: n, object: o, function: u }
                &&& call_ensures(g, (name,), n)
                &&& o == object
                &&& call_ensures(g, (function,), u)
            },
            PropertyModel::Struct { name, kind, fields } => {
                &&& to matches PropertyModel::Struct { name: n, kind: k, fields: t }
                &&& call_ensures(g, (name,), n)
                &&& call_ensures(g, (kind,), k)
                &&& t.len() == fields.len()
                &&& forall|i: int| 0 <= i < fields.len() ==> (#[trigger] fields[i]).renamed(t[i], g)
            },
            PropertyModel::Array { name, items } => {
                &&& to matches PropertyModel::Array { name: n, items: t }
                &&& call_ensures(g, (name,), n)
                &&& t.len() == items.len()
                &&& forall|i: int| 0 <= i < items.len() ==> (#[trigger] items[i]).renamed(t[i], g)
            },
            PropertyModel::ItemSet { name, items } => {
                &&& to matches PropertyModel::ItemSet { name: n, items: t }
                &&& call_ensures(g, (name,), n)
                &&& t.len() == items.len()
                &&& forall|i: int| 0 <= i < items.len() ==> (#[trigger] items[i]).renamed(t[i], g)
            },
            PropertyModel::KeyMap { name, keys, values } => {
                &&& to matches PropertyModel::KeyMap { name: n, keys: tk, values: tv }
                &&& call_ensures(g, (name,), n)
                &&& tk.len() == keys.len()
                &&& tv.len() == values.len()
                &&& forall|i: int| 0 <= i < keys.len() ==> (#[trigger] keys[i]).renamed(tk[i], g)
                &&& forall|i: int| 0 <= i < values.len() ==> (#[trigger] values[i]).renamed(tv[i], g)
            },
        }
    }
}

/// The model of a list held by a property is the list of its models.
proof fn lemma_views(list: Vec<Property>)
    ensures
        views(list@).len() == list.len(),
        forall|i: int| 0 <= i < list.len() ==> #[trigger] views(list@)[i] == list[i]@,
        forall|i: int| 0 <= i < list.len() ==> decreases_to!(list => #[trigger] list[i]),
{
    broadcast use vstd::std_specs::vec::axiom_vec_index_decreases;

}

/// How the model of a property that holds lists is made of the models of
/// those lists.
proof fn lemma_model_of_lists(p: Property)
    ensures
        match p {
            Property::Struct { name, kind, fields } => p@ == (PropertyModel::Struct {
                name,
                kind,
                fields: views(fields@),
            }),
            Property::Array { name, items } => p@ == (PropertyModel::Array {
                name,
                items: views(items@),
            }),
            Property::ItemSet { name, items } => p@ == (PropertyModel::ItemSet {
                name,
                items: views(items@),
            }),
            Property::KeyMap { name, keys, values } => p@ == (PropertyModel::KeyMap {
                name,
                keys: views(keys@),
                values: views(values@),
            }),
            _ => true,
        },
{
    match p {
        Property::Struct { name, kind, fields } => {
            assert(p@->Struct_fields =~= views(fields@));
        },
        Property::Array { name, items } => {
            assert(p@->Array_items =~= views(items@));
        },
        Property::ItemSet { name, items } => {
            assert(p@->ItemSet_items =~= views(items@));
        },
        Property::KeyMap { name, keys, values } => {
            assert(p@->keys =~= views(keys@));
            assert(p@->values =~= views(values@));
        },
        _ => {},
    }
}

/// Copies a list of properties.
pub fn duplicate_all(list: &Vec<Property>) -> (copy: Vec<Property>)
    ensures
        views(copy@) == views(list@),
    decreases list,
{
    let mut copy: Vec<Property> = Vec::new();
    let mut i: usize = 0;
    while i < list.len()
        invariant
            i <= list.len(),
            copy.len() == i,
            forall|j: int| 0 <= j < i ==> #[trigger] copy[j]@ == list[j]@,
        decreases list.len() - i,
    {
        proof {
            lemma_views(*list);
        }
        let item = list[i].duplicate();
        copy.push(item);
        i += 1;
    }
    assert(views(copy@) =~= views(list@));
    copy
}

/// Appends to `out` the references held by the properties of `list`.
pub fn collect_references(list: &Vec<Property>, out: &mut Vec<Reference>)
    ensures
        final(out)@ == old(out)@ + all_references(views(list@)),
    decreases list,
{
    let ghost models = views(list@);
    let mut i: usize = 0;
    while i < list.len()
        invariant
            i <= list.len(),
            models == views(list@),
            out@ == old(out)@ + prefix_references(models, i as nat),
        decreases list.len() - i,
    {
        proof {
            lemma_views(*list);
        }
        list[i].collect_references(out);
        i += 1;
    }
}

/// Appends to `out` the names held by the properties of `list`.
pub fn collect_names(list: &Vec<Property>, out: &mut Vec<Name>)
    ensures
        final(out)@ == old(out)@ + all_names(views(list@)),
    decreases list,
{
    let ghost models = views(list@);
    let mut i: usize = 0;
    while i < list.len()
        invariant
            i <= list.len(),
            models == views(list@),
            out@ == old(out)@ + prefix_names(models, i as nat),
        decreases list.len() - i,
    {
        proof {
            lemma_views(*list);
        }
        list[i].collect_names(out);
        i += 1;
    }
}

/// Replaces every reference held by the properties of `list` by what `f`
/// makes of it.
pub fn rewire_all<F: Fn(Reference) -> Reference>(list: &mut Vec<Property>, f: &F)
    requires
        forall|r: Reference| call_requires(*f, (r,)),
    ensures
        rewired_all(views(old(list)@), views(final(list)@), *f),
    decreases *old(list),
{
    let ghost before = *old(list);
    let n = list.len();
    let mut i: usize = 0;
    proof {
        lemma_views(before);
    }
    while i < n
        invariant
            i <= n,
            list.len() == n,
            before.len() == n,
            before == *old(list),
            forall|r: Reference| call_requires(*f, (r,)),
            forall|j: int| i <= j < n ==> #[trigger] list[j] == before[j],
            forall|j: int| 0 <= j < i ==> (#[trigger] before[j])@.rewired(list[j]@, *f),
            forall|j: int| 0 <= j < n ==> decreases_to!(before => #[trigger] before[j]),
        decreases n - i,
    {
        assert(list[i as int] == before[i as int]);
        assert(decreases_to!(before => before[i as int]));
        list[i].map_references(f);
        i += 1;
    }
    assert forall|j: int| 0 <= j < n implies (#[trigger] views(before@)[j]).rewired(
        views(list@)[j],
        *f,
    ) by {
        assert(before[j]@.rewired(list[j]@, *f));
    }
}

/// Replaces every name held by the properties of `list` by what `g` makes of
/// it.
pub fn rename_all<G: Fn(Name) -> Name>(list: &mut Vec<Property>, g: &G)
    requires
        forall|n: Name| call_requires(*g, (n,)),
    ensures
        renamed_all(views(old(list)@), views(final(list)@), *g),
    decreases *old(list),
{
    let ghost before = *old(list);
    let n = list.len();
    let mut i: usize = 0;
    proof {
        lemma_views(before);
    }
    while i < n
        invariant
            i <= n,
            list.len() == n,
            before.len() == n,
            before == *old(list),
            forall|m: Name| call_requires(*g, (m,)),
            forall|j: int| i <= j < n ==> #[trigger] list[j] == before[j],
            forall|j: int| 0 <= j < i ==> (#[trigger] before[j])@.renamed(list[j]@, *g),
            forall|j: int| 0 <= j < n ==> decreases_to!(before => #[trigger] before[j]),
        decreases n - i,
    {
        assert(list[i as int] == before[i as int]);
        assert(decreases_to!(before => before[i as int]));
        list[i].map_names(g);
        i += 1;
    }
    assert forall|j: int| 0 <= j < n implies (#[trigger] views(before@)[j]).renamed(
        views(list@)[j],
        *g,
    ) by {
        assert(before[j]@.renamed(list[j]@, *g));
    }
}

impl Property {
    /// A copy of the property and of everything it holds.
    pub fn duplicate(&self) -> (copy: Property)
        ensures
            copy@ == self@,
        decreases self,
    {
        let copy = match self {
            Property::Scalar { name } => Property::Scalar { name: *name },
            Property::Label { name, value } => Property::Label { name: *name, value: *value },
            Property::Object { name, value } => Property::Object { name: *name, value: *value },
            Property::Delegate { name, object, function } => Property::Delegate {
                name: *name,
                object: *object,
                function: *function,
            },
            Property::Struct { name, kind, fields } => Property::Struct {
                name: *name,
                kind: *kind,
                fields: duplicate_all(fields),
            },
            Property::Array { name, items } => Property::Array {
                name: *name,
                items: duplicate_all(items),
            },
            Property::ItemSet { name, items } => Property::ItemSet {
                name: *name,
                items: duplicate_all(items),
            },
            Property::KeyMap { name, keys, values } => Property::KeyMap {
                name: *name,
                keys: duplicate_all(keys),
                values: duplicate_all(values),
            },
        };
        proof {
            lemma_model_of_lists(*self);
            lemma_model_of_lists(copy);
        }
        copy
    }

    /// Appends to `out` every reference that the property holds, in the
    /// order of [`PropertyModel::references`].
    pub fn collect_references(&self, out: &mut Vec<Reference>)
        ensures
            final(out)@ == old(out)@ + self@.references(),
        decreases self,
    {
        proof {
            lemma_model_of_lists(*self);
        }
        match self {
            Property::Scalar { .. } => {},
            Property::Label { .. } => {},
            Property::Object { value, .. } => {
                out.push(*value);
            },
            Property::Delegate { object, .. } => {
                out.push(*object);
            },
            Property::Struct { fields, .. } => {
                collect_references(fields, out);
            },
            Property::Array { items, .. } => {
                collect_references(items, out);
            },
            Property::ItemSet { items, .. } => {
                collect_references(items, out);
            },
            Property::KeyMap { keys, values, .. } => {
                collect_references(keys, out);
                collect_references(values, out);
            },
        }
        assert(out@ =~= old(out)@ + self@.references());
    }

    /// Appends to `out` every name that the property holds, in the order of
    /// [`PropertyModel::names`].
    pub fn collect_names(&self, out: &mut Vec<Name>)
        ensures
            final(out)@ == old(out)@ + self@.names(),
        decreases self,
    {
        proof {
            lemma_model_of_lists(*self);
        }
        match self {
            Property::Scalar { name } => {
                out.push(*name);
            },
            Property::Label { name, value } => {
                out.push(*name);
                out.push(*value);
            },
            Property::Object { name, .. } => {
                out.push(*name);
            },
            Property::Delegate { name, function, .. } => {
                out.push(*name);
                out.push(*function);
            },
            Property::Struct { name, kind, fields } => {
                out.push(*name);
                out.push(*kind);
                collect_names(fields, out);
            },
            Property::Array { name, items } => {
                out.push(*name);
                collect_names(items, out);
            },
            Property::ItemSet { name, items } => {
                out.push(*name);
                collect_names(items, out);
            },
            Property::KeyMap { name, keys, values } => {
                out.push(*name);
                collect_names(keys, out);
                collect_names(values, out);
            },
        }
        assert(out@ =~= old(out)@ + self@.names());
    }

    /// Visits every reference that the property holds, each once, and
    /// replaces it by what `f` makes of it.
    pub fn map_references<F: Fn(Reference) -> Reference>(&mut self, f: &F)
        requires
            forall|r: Reference| call_requires(*f, (r,)),
        ensures
            old(self)@.rewired(final(self)@, *f),
        decreases *old(self),
    {
        match self {
            Property::Scalar { .. } => {},
            Property::Label { .. } => {},
            Property::Object { value, .. } => {
                *value = f(*value);
            },
            Property::Delegate { object, .. } => {
                *object = f(*object);
            },
            Property::Struct { fields, .. } => {
                rewire_all(fields, f);
            },
            Property::Array { items, .. } => {
                rewire_all(items, f);
            },
            Property::ItemSet { items, .. } => {
                rewire_all(items, f);
            },
            Property::KeyMap { keys, values, .. } => {
                rewire_all(keys, f);
                rewire_all(values, f);
            },
        }
        proof {
            lemma_model_of_lists(*old(self));
            lemma_model_of_lists(*self);
        }
    }

    /// Visits every name that the property holds, each once, and replaces it
    /// by what `g` makes of it.
    pub fn map_names<G: Fn(Name) -> Name>(&mut self, g: &G)
        requires
            forall|n: Name| call_requires(*g, (n,)),
        ensures
            old(self)@.renamed(final(self)@, *g),
        decreases *old(self),
    {
        match self {
            Property::Scalar { name } => {
                *name = g(*name);
            },
            Property::Label { name, value } => {
                *name = g(*name);
                *value = g(*value);
            },
            Property::Object { name, .. } => {
                *name = g(*name);
            },
            Property::Delegate { name, function, .. } => {
                *name = g(*name);
                *function = g(*function);
            },
            Property::Struct { name, kind, fields } => {
                *name = g(*name);
                *kind = g(*kind);
                rename_all(fields, g);
            },
            Property::Array { name, items } => {
                *name = g(*name);
                rename_all(items, g);
            },
            Property::ItemSet { name, items } => {
                *name = g(*name);
                rename_all(items, g);
            },
            Property::KeyMap { name, keys, values } => {
                *name = g(*name);
                rename_all(keys, g);
                rename_all(values, g);
            },
        }
        proof {
            lemma_model_of_lists(*old(self));
            lemma_model_of_lists(*self);
        }
    }
}

/// A property rewired by a function that has one result for each reference
/// is the property mapped by that result.
pub proof fn lemma_rewired_is_mapped<F: Fn(Reference) -> Reference>(
    from: PropertyModel,
    to: PropertyModel,
    f: F,
    result: spec_fn(Reference) -> Reference,
    same: spec_fn(Name) -> Name,
)
    requires
        from.rewired(to, f),
        forall|a: Reference, b: Reference| #[trigger] call_ensures(f, (a,), b) ==> b == result(a),
        forall|n: Name| #[trigger] same(n) == n,
    ensures
        to == from.mapped(result, same),
    decreases from,
{
    let goal = from.mapped(result, same);
    match from {
        PropertyModel::Struct { fields, .. } => {
            assert forall|i: int| 0 <= i < fields.len() implies to->Struct_fields[i]
                == goal->Struct_fields[i] by {
                lemma_rewired_is_mapped(fields[i], to->Struct_fields[i], f, result, same);
            }
            assert(to->Struct_fields =~= goal->Struct_fields);
        },
        PropertyModel::Array { items, .. } => {
            assert forall|i: int| 0 <= i < items.len() implies to->Array_items[i]
                == goal->Array_items[i] by {
                lemma_rewired_is_mapped(items[i], to->Array_items[i], f, result, same);
            }
            assert(to->Array_items =~= goal->Array_items);
        },
        PropertyModel::ItemSet { items, .. } => {
            assert forall|i: int| 0 <= i < items.len() implies to->ItemSet_items[i]
                == goal->ItemSet_items[i] by {
                lemma_rewired_is_mapped(items[i], to->ItemSet_items[i], f, result, same);
            }
            assert(to->ItemSet_items =~= goal->ItemSet_items);
        },
        PropertyModel::KeyMap { keys, values, .. } => {
            assert forall|i: int| 0 <= i < keys.len() implies to->keys[i] == goal->keys[i] by {
                lemma_rewired_is_mapped(keys[i], to->keys[i], f, result, same);
            }
            assert forall|i: int| 0 <= i < values.len() implies to->values[i] == goal->values[i] by {
                lemma_rewired_is_mapped(values[i], to->values[i], f, result, same);
            }
            assert(to->keys =~= goal->keys);
            assert(to->values =~= goal->values);
        },
        _ => {},
    }
}

/// The same, for a list of properties.
pub proof fn lemma_rewired_all_is_mapped<F: Fn(Reference) -> Reference>(
    from: Seq<PropertyModel>,
    to: Seq<PropertyModel>,
    f: F,
    result: spec_fn(Reference) -> Reference,
    same: spec_fn(Name) -> Name,
)
    requires
        rewired_all(from, to, f),
        forall|a: Reference, b: Reference| #[trigger] call_ensures(f, (a,), b) ==> b == result(a),
        forall|n: Name| #[trigger] same(n) == n,
    ensures
        to == mapped_all(from, result, same),
{
    assert forall|i: int| 0 <= i < from.len() implies to[i] == mapped_all(from, result, same)[i] by {
        lemma_rewired_is_mapped(from[i], to[i], f, result, same);
    }
    assert(to =~= mapped_all(from, result, same));
}

/// A property renamed by a function that has one result for each name is the
/// property mapped by that result.
pub proof fn lemma_renamed_is_mapped<G: Fn(Name) -> Name>(
    from: PropertyModel,
    to: PropertyModel,
    g: G,
    same: spec_fn(Reference) -> Reference,
    result: spec_fn(Name) -> Name,
)
    requires
        from.renamed(to, g),
        forall|a: Name, b: Name| #[trigger] call_ensures(g, (a,), b) ==> b == result(a),
        forall|r: Reference| #[trigger] same(r) == r,
    ensures
        to == from.mapped(same, result),
    decreases from,
{
    let goal = from.mapped(same, result);
    match from {
        PropertyModel::Struct { fields, .. } => {
            assert forall|i: int| 0 <= i < fields.len() implies to->Struct_fields[i]
                == goal->Struct_fields[i] by {
                lemma_renamed_is_mapped(fields[i], to->Struct_fields[i], g, same, result);
            }
            assert(to->Struct_fields =~= goal->Struct_fields);
        },
        PropertyModel::Array { items, .. } => {
            assert forall|i: int| 0 <= i < items.len() implies to->Array_items[i]
                == goal->Array_items[i] by {
                lemma_renamed_is_mapped(items[i], to->Array_items[i], g, same, result);
            }
            assert(to->Array_items =~= goal->Array_items);
        },
        PropertyModel::ItemSet { items, .. } => {
            assert forall|i: int| 0 <= i < items.len() implies to->ItemSet_items[i]
                == goal->ItemSet_items[i] by {
                lemma_renamed_is_mapped(items[i], to->ItemSet_items[i], g, same, result);
            }
            assert(to->ItemSet_items =~= goal->ItemSet_items);
        },
        PropertyModel::KeyMap { keys, values, .. } => {
            assert forall|i: int| 0 <= i < keys.len() implies to->keys[i] == goal->keys[i] by {
                lemma_renamed_is_mapped(keys[i], to->keys[i], g, same, result);
            }
            assert forall|i: int| 0 <= i < values.len() implies to->values[i] == goal->values[i] by {
                lemma_renamed_is_mapped(values[i], to->values[i], g, same, result);
            }
            assert(to->keys =~= goal->keys);
            assert(to->values =~= goal->values);
        },
        _ => {},
    }
}

/// The same, for a list of properties.
pub proof fn lemma_renamed_all_is_mapped<G: Fn(Name) -> Name>(
    from: Seq<PropertyModel>,
    to: Seq<PropertyModel>,
    g: G,
    same: spec_fn(Reference) -> Reference,
    result: spec_fn(Name) -> Name,
)
    requires
        renamed_all(from, to, g),
        forall|a: Name, b: Name| #[trigger] call_ensures(g, (a,), b) ==> b == result(a),
        forall|r: Reference| #[trigger] same(r) == r,
    ensures
        to == mapped_all(from, same, result),
{
    assert forall|i: int| 0 <= i < from.len() implies to[i] == mapped_all(from, same, result)[i] by {
        lemma_renamed_is_mapped(from[i], to[i], g, same, result);
    }
    assert(to =~= mapped_all(from, same, result));
}

/// Mapping twice is mapping once by the composed functions.
pub proof fn lemma_mapped_twice(
    p: PropertyModel,
    f1: spec_fn(Reference) -> Reference,
    g1: spec_fn(Name) -> Name,
    f2: spec_fn(Reference) -> Reference,
    g2: spec_fn(Name) -> Name,
    f: spec_fn(Reference) -> Reference,
    g: spec_fn(Name) -> Name,
)
    requires
        forall|r: Reference| #![trigger f(r)] #![trigger f1(r)] f(r) == f2(f1(r)),
        forall|n: Name| #![trigger g(n)] #![trigger g1(n)] g(n) == g2(g1(n)),
    ensures
        p.mapped(f1, g1).mapped(f2, g2) == p.mapped(f, g),
    decreases p,
{
    let once = p.mapped(f1, g1);
    let twice = once.mapped(f2, g2);
    let goal = p.mapped(f, g);
    match p {
        PropertyModel::Struct { fields, .. } => {
            assert forall|i: int| 0 <= i < fields.len() implies twice->Struct_fields[i]
                == goal->Struct_fields[i] by {
                lemma_mapped_twice(fields[i], f1, g1, f2, g2, f, g);
            }
            assert(twice->Struct_fields =~= goal->Struct_fields);
        },
        PropertyModel::Array { items, .. } => {
            assert forall|i: int| 0 <= i < items.len() implies twice->Array_items[i]
                == goal->Array_items[i] by {
                lemma_mapped_twice(items[i], f1, g1, f2, g2, f, g);
            }
            assert(twice->Array_items =~= goal->Array_items);
        },
        PropertyModel::ItemSet { items, .. } => {
            assert forall|i: int| 0 <= i < items.len() implies twice->ItemSet_items[i]
                == goal->ItemSet_items[i] by {
                lemma_mapped_twice(items[i], f1, g1, f2, g2, f, g);
            }
            assert(twice->ItemSet_items =~= goal->ItemSet_items);
        },
        PropertyModel::KeyMap { keys, values, .. } => {
            assert forall|i: int| 0 <= i < keys.len() implies twice->keys[i] == goal->keys[i] by {
                lemma_mapped_twice(keys[i], f1, g1, f2, g2, f, g);
            }
            assert forall|i: int| 0 <= i < values.len() implies twice->values[i]
                == goal->values[i] by {
                lemma_mapped_twice(values[i], f1, g1, f2, g2, f, g);
            }
            assert(twice->keys =~= goal->keys);
            assert(twice->values =~= goal->values);
        },
        _ => {},
    }
}

/// The same, for a list of properties.
pub proof fn lemma_mapped_all_twice(
    list: Seq<PropertyModel>,
    f1: spec_fn(Reference) -> Reference,
    g1: spec_fn(Name) -> Name,
    f2: spec_fn(Reference) -> Reference,
    g2: spec_fn(Name) -> Name,
    f: spec_fn(Reference) -> Reference,
    g: spec_fn(Name) -> Name,
)
    requires
        forall|r: Reference| #![trigger f(r)] #![trigger f1(r)] f(r) == f2(f1(r)),
        forall|n: Name| #![trigger g(n)] #![trigger g1(n)] g(n) == g2(g1(n)),
    ensures
        mapped_all(mapped_all(list, f1, g1), f2, g2) == mapped_all(list, f, g),
{
    assert forall|i: int| 0 <= i < list.len() implies mapped_all(mapped_all(list, f1, g1), f2, g2)[i]
        == mapped_all(list, f, g)[i] by {
        lemma_mapped_twice(list[i], f1, g1, f2, g2, f, g);
    }
    assert(mapped_all(mapped_all(list, f1, g1), f2, g2) =~= mapped_all(list, f, g));
}

/// A mapped property holds, slot by slot, what the functions make of the
/// references and names that the property held.
pub proof fn lemma_mapped_holds(
    p: PropertyModel,
    f: spec_fn(Reference) -> Reference,
    g: spec_fn(Name) -> Name,
)
    ensures
        p.mapped(f, g).references() == p.references().map_values(f),
        p.mapped(f, g).names() == p.names().map_values(g),
    decreases p, 0nat,
{
    let m = p.mapped(f, g);
    match p {
        PropertyModel::Struct { fields, .. } => {
            assert(m->Struct_fields =~= mapped_all(fields, f, g));
            lemma_mapped_prefix_holds(fields, fields.len(), f, g);
        },
        PropertyModel::Array { items, .. } => {
            assert(m->Array_items =~= mapped_all(items, f, g));
            lemma_mapped_prefix_holds(items, items.len(), f, g);
        },
        PropertyModel::ItemSet { items, .. } => {
            assert(m->ItemSet_items =~= mapped_all(items, f, g));
            lemma_mapped_prefix_holds(items, items.len(), f, g);
        },
        PropertyModel::KeyMap { keys, values, .. } => {
            assert(m->keys =~= mapped_all(keys, f, g));
            assert(m->values =~= mapped_all(values, f, g));
            lemma_mapped_prefix_holds(keys, keys.len(), f, g);
            lemma_mapped_prefix_holds(values, values.len(), f, g);
        },
        _ => {},
    }
    assert(m.references() =~= p.references().map_values(f));
    assert(m.names() =~= p.names().map_values(g));
}

/// The same, for the first `n` properties of a list.
pub proof fn lemma_mapped_prefix_holds(
    list: Seq<PropertyModel>,
    n: nat,
    f: spec_fn(Reference) -> Reference,
    g: spec_fn(Name) -> Name,
)
    requires
        n <= list.len(),
    ensures
        prefix_references(mapped_all(list, f, g), n) == prefix_references(list, n).map_values(f),
        prefix_names(mapped_all(list, f, g), n) == prefix_names(list, n).map_values(g),
    decreases list, n,
{
    let m = mapped_all(list, f, g);
    if n > 0 {
        lemma_mapped_prefix_holds(list, (n - 1) as nat, f, g);
        lemma_mapped_holds(list[n - 1], f, g);
        assert(m[n - 1] == list[n - 1].mapped(f, g));
    }
    assert(prefix_references(m, n) =~= prefix_references(list, n).map_values(f));
    assert(prefix_names(m, n) =~= prefix_names(list, n).map_values(g));
}

} // verus!
