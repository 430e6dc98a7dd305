//! Transplanting an actor: the export and everything it owns is copied from a
//! donor into a recipient, with every reference and every name rewritten for
//! the recipient's tables.
use crate::export::{
    Export, ExportModel, lemma_mapped_export_twice, lemma_renamed_export_is_mapped,
    lemma_rewired_export_is_mapped, on_import_refs, rewire_references,
};
use crate::name::{
    find_text, intern, interned_all, is_text, lemma_interned_all_concat,
    lemma_interned_all_extends, Name, position_of, read_text, text_at, texts,
};
use crate::package::{export_views, Import, Package, PackageModel};
use crate::reference::Reference;
use crate::resolve::{
    close, closed, lemma_noted_all, lemma_noted_all_concat, lemma_sound_bounded, note_all,
    noted_all, resolve, resolved, sound, within,
};
use crate::search::{lemma_first_match, lemma_first_match_prefix};
use crate::subtree::{collect_subtree, lemma_subtree, place, placed, subtree};
use crate::unique::{give_unique_name, unique_name};
use vstd::prelude::*;

verus! {

/// Why a transplant did not take place.
#[derive(Clone, Copy, Debug, PartialEq, Eq, Structural)]
pub enum TransplantError {
    /// The donor has no export at the position of the actor.
    MissingRoot,
    /// A reference that has to be carried over selects an import that the
    /// donor does not have.
    DanglingImport,
}

/// An object placed in a level, known by the position of its export.
#[derive(Clone, Copy, Debug, PartialEq, Eq, Structural)]
pub struct Actor {
    /// The position of the actor's export in the package it was read from.
    pub export: usize,
}

/// The references that the walks of the first `n` moved exports visit, in the
/// order of the visits.
pub open spec fn walked_by(donor: PackageModel, moved: Seq<usize>, n: nat) -> Seq<Reference>
    decreases n,
{
    if n == 0 || n > moved.len() {
        Seq::empty()
    } else {
        walked_by(donor, moved, (n - 1) as nat) + donor.exports[moved[n - 1] as int].walked()
    }
}

/// The imports of the donor that the recipient has to take over for the
/// moved exports, in the order in which it takes them over: those that the
/// walks of the moved exports come upon, then those that own them. There are
/// none to give where one of the references seen selects an import that the
/// donor does not have.
pub open spec fn queue_of(recipient: PackageModel, donor: PackageModel, moved: Seq<usize>) -> Option<
    Seq<usize>,
> {
    let refs = walked_by(donor, moved, moved.len());
    if exists|i: int| 0 <= i < refs.len() && donor.dangling(#[trigger] refs[i]) {
        None
    } else {
        closed(recipient, donor, noted_all(recipient, donor, Seq::empty(), refs), 0)
    }
}

/// Where a reference that a walk visits points after the transplant: a
/// reference to an import at the import of the recipient that is the same
/// object, one to a moved export at the new position of the export, and any
/// other nowhere.
pub open spec fn walked_map(
    recipient: PackageModel,
    donor: PackageModel,
    moved: Seq<usize>,
    queue: Seq<usize>,
) -> spec_fn(Reference) -> Reference {
    |r: Reference|
        if r.is_import() {
            resolved(recipient, donor, queue, r)
        } else {
            placed(moved, recipient.exports.len() as int, r)
        }
}

/// Where a reference that the walk passes by points after the transplant: one
/// to a moved export at the new position of the export, and any other
/// nowhere.
pub open spec fn unwalked_map(recipient: PackageModel, moved: Seq<usize>) -> spec_fn(
    Reference,
) -> Reference {
    |r: Reference| placed(moved, recipient.exports.len() as int, r)
}

/// The map that leaves every reference as it is.
pub open spec fn same_reference() -> spec_fn(Reference) -> Reference {
    |r: Reference| r
}

/// The map that leaves every name as it is.
pub open spec fn same_name() -> spec_fn(Name) -> Name {
    |n: Name| n
}

/// What the names of `list` read in `source`.
pub open spec fn texts_of(source: Seq<Seq<char>>, list: Seq<Name>) -> Seq<Seq<char>> {
    list.map_values(|n: Name| text_at(source, n.index as int))
}

/// What the names held by the first `n` moved exports read, in order.
pub open spec fn export_texts(donor: PackageModel, moved: Seq<usize>, n: nat) -> Seq<Seq<char>>
    decreases n,
{
    if n == 0 || n > moved.len() {
        Seq::empty()
    } else {
        export_texts(donor, moved, (n - 1) as nat) + texts_of(
            donor.names,
            donor.exports[moved[n - 1] as int].names(),
        )
    }
}

/// The three names of an import.
pub open spec fn import_names(import: Import) -> Seq<Name> {
    seq![import.class_package, import.class_name, import.object_name]
}

/// What the names of the first `n` queued imports read, in order.
pub open spec fn import_texts(donor: PackageModel, queue: Seq<usize>, n: nat) -> Seq<Seq<char>>
    decreases n,
{
    if n == 0 || n > queue.len() {
        Seq::empty()
    } else {
        import_texts(donor, queue, (n - 1) as nat) + texts_of(
            donor.names,
            import_names(donor.imports[queue[n - 1] as int]),
        )
    }
}

/// What the actor is called in the donor.
pub open spec fn root_text(donor: PackageModel, moved: Seq<usize>) -> Seq<char> {
    text_at(donor.names, donor.exports[moved[0] as int].object_name.index as int)
}

/// The name table `names` after the transplant: the strings it had, then the
/// name that the actor gets, then what the names of the moved exports and of
/// the queued imports read, each string where it first occurs and only where
/// the table does not hold it yet.
pub open spec fn grown_names(
    names: Seq<Seq<char>>,
    donor: PackageModel,
    moved: Seq<usize>,
    queue: Seq<usize>,
) -> Seq<Seq<char>> {
    interned_all(
        names,
        seq![unique_name(names, root_text(donor, moved))] + export_texts(donor, moved, moved.len())
            + import_texts(donor, queue, queue.len()),
    )
}

/// Where a name of the donor points after the transplant: at the string of
/// the recipient's table that reads the same.
pub open spec fn name_map(table: Seq<Seq<char>>, source: Seq<Seq<char>>) -> spec_fn(Name) -> Name {
    |n: Name|
        match position_of(table, text_at(source, n.index as int)) {
            Some(i) => Name { index: i as usize, number: n.number },
            None => n,
        }
}

/// The actor's export as it joins the recipient: under the name that the
/// actor gets and, where the recipient has a container, owned by the
/// container and made to wait for nothing but the container.
pub open spec fn rooted(
    export: ExportModel,
    table: Seq<Seq<char>>,
    name: Seq<char>,
    container: Option<int>,
) -> ExportModel {
    ExportModel {
        object_name: Name {
            index: match position_of(table, name) {
                Some(i) => i as usize,
                None => export.object_name.index,
            },
            number: export.object_name.number,
        },
        outer: match container {
            Some(c) => Reference::to_export(c),
            None => export.outer,
        },
        before_construction: match container {
            Some(c) => seq![Reference::to_export(c)],
            None => export.before_construction,
        },
        ..export
    }
}

/// The container after it has taken in the actor: the actor is the last
/// object it holds together, and the last that must exist before the
/// container is serialized.
pub open spec fn adopting(container: ExportModel, actor: Reference) -> ExportModel {
    ExportModel {
        before_serialization: container.before_serialization.push(actor),
        contained: match container.contained {
            Some(list) => Some(list.push(actor)),
            None => None,
        },
        ..container
    }
}

/// The export that stands at place `k` among the moved, as it joins the
/// recipient.
pub open spec fn moved_export(
    recipient: PackageModel,
    donor: PackageModel,
    moved: Seq<usize>,
    queue: Seq<usize>,
    k: int,
) -> ExportModel {
    let table = grown_names(recipient.names, donor, moved, queue);
    let export = donor.exports[moved[k] as int].mapped(
        walked_map(recipient, donor, moved, queue),
        unwalked_map(recipient, moved),
        name_map(table, donor.names),
    );
    if k == 0 {
        rooted(
            export,
            table,
            unique_name(recipient.names, root_text(donor, moved)),
            recipient.container(),
        )
    } else {
        export
    }
}

/// The import that stands at place `k` of the queue, as it joins the
/// recipient.
pub open spec fn moved_import(
    recipient: PackageModel,
    donor: PackageModel,
    moved: Seq<usize>,
    queue: Seq<usize>,
    k: int,
) -> Import {
    let table = grown_names(recipient.names, donor, moved, queue);
    let import = donor.imports[queue[k] as int];
    Import {
        class_package: name_map(table, donor.names)(import.class_package),
        class_name: name_map(table, donor.names)(import.class_name),
        object_name: name_map(table, donor.names)(import.object_name),
        outer: walked_map(recipient, donor, moved, queue)(import.outer),
    }
}

/// The exports that the recipient had, after the transplant: as they were,
/// but for the container, which has taken in the actor.
pub open spec fn kept_exports(recipient: PackageModel) -> Seq<ExportModel> {
    match recipient.container() {
        Some(c) => recipient.exports.update(
            c,
            adopting(recipient.exports[c], Reference::to_export(recipient.exports.len() as int)),
        ),
        None => recipient.exports,
    }
}

/// The recipient after the exports `moved` of the donor have joined it,
/// together with the imports `queue`.
pub open spec fn grown(
    recipient: PackageModel,
    donor: PackageModel,
    moved: Seq<usize>,
    queue: Seq<usize>,
) -> PackageModel {
    PackageModel {
        exports: kept_exports(recipient) + Seq::new(
            moved.len(),
            |k: int| moved_export(recipient, donor, moved, queue, k),
        ),
        imports: recipient.imports + Seq::new(
            queue.len(),
            |k: int| moved_import(recipient, donor, moved, queue, k),
        ),
        names: grown_names(recipient.names, donor, moved, queue),
    }
}

/// Why the actor at `root` of the donor cannot be transplanted, if it cannot.
pub open spec fn failure(recipient: PackageModel, donor: PackageModel, root: int) -> Option<
    TransplantError,
> {
    if !(0 <= root < donor.exports.len()) {
        Some(TransplantError::MissingRoot)
    } else if queue_of(recipient, donor, subtree(donor.exports, root)).is_none() {
        Some(TransplantError::DanglingImport)
    } else {
        None
    }
}

/// The recipient after the actor at `root` of the donor has been
/// transplanted into it. Meaningful where there is no [`failure`].
pub open spec fn transplanted(recipient: PackageModel, donor: PackageModel, root: int) -> PackageModel {
    let moved = subtree(donor.exports, root);
    grown(recipient, donor, moved, queue_of(recipient, donor, moved).unwrap())
}

/// Whether every moved position is one of the donor's export table.
pub open spec fn moved_within(donor: PackageModel, moved: Seq<usize>) -> bool {
    forall|k: int| 0 <= k < moved.len() ==> (#[trigger] moved[k]) < donor.exports.len()
}

/// What the walks of the first moved exports visit stays where it is as
/// further exports are walked.
proof fn lemma_walked_by_prefix(donor: PackageModel, moved: Seq<usize>, n: nat, m: nat)
    requires
        n <= m <= moved.len(),
    ensures
        walked_by(donor, moved, n).len() <= walked_by(donor, moved, m).len(),
        forall|i: int|
            0 <= i < walked_by(donor, moved, n).len() ==> walked_by(donor, moved, m)[i]
                == walked_by(donor, moved, n)[i],
    decreases m - n,
{
    if n < m {
        lemma_walked_by_prefix(donor, moved, n, (m - 1) as nat);
    }
}

/// Finds the imports that the recipient has to take over for the moved
/// exports.
fn build_queue(recipient: &Package, donor: &Package, moved: &Vec<usize>) -> (queue: Option<
    Vec<usize>,
>)
    requires
        moved_within(donor@, moved@),
    ensures
        match queue {
            Some(q) => queue_of(recipient@, donor@, moved@) == Some(q@) && sound(
                recipient@,
                donor@,
                q@,
            ),
            None => queue_of(recipient@, donor@, moved@).is_none(),
        },
{
    let mut queue: Vec<usize> = Vec::new();
    let mut k: usize = 0;
    while k < moved.len()
        invariant
            k <= moved.len(),
            moved_within(donor@, moved@),
            within(donor@, queue@),
            queue@ == noted_all(
                recipient@,
                donor@,
                Seq::empty(),
                walked_by(donor@, moved@, k as nat),
            ),
            forall|i: int|
                0 <= i < walked_by(donor@, moved@, k as nat).len() ==> !donor@.dangling(
                    #[trigger] walked_by(donor@, moved@, k as nat)[i],
                ),
        decreases moved.len() - k,
    {
        let refs = donor.exports[moved[k]].walked_references();
        let ghost seen = walked_by(donor@, moved@, k as nat);
        let ghost next = walked_by(donor@, moved@, (k + 1) as nat);
        assert(next == seen + refs@);
        let complete = note_all(recipient, donor, &mut queue, &refs);
        if !complete {
            proof {
                let i = choose|i: int| 0 <= i < refs.len() && donor@.dangling(#[trigger] refs[i]);
                let all = walked_by(donor@, moved@, moved.len() as nat);
                lemma_walked_by_prefix(donor@, moved@, (k + 1) as nat, moved.len() as nat);
                assert(next[seen.len() + i] == refs[i]);
                assert(donor@.dangling(all[seen.len() + i]));
            }
            return None;
        }
        proof {
            lemma_noted_all_concat(recipient@, donor@, Seq::empty(), seen, refs@);
            assert forall|i: int| 0 <= i < next.len() implies !donor@.dangling(#[trigger] next[i]) by {
                if i >= seen.len() {
                    assert(next[i] == refs[i - seen.len()]);
                }
            }
        }
        k += 1;
    }
    proof {
        lemma_noted_all(
            recipient@,
            donor@,
            Seq::empty(),
            walked_by(donor@, moved@, moved.len() as nat),
        );
    }
    if close(recipient, donor, &mut queue) {
        Some(queue)
    } else {
        None
    }
}

/// Rewrites a reference that a walk visits.
fn rewire(
    recipient: &Package,
    donor: &Package,
    moved: &Vec<usize>,
    queue: &Vec<usize>,
    r: Reference,
) -> (out: Reference)
    requires
        within(donor@, queue@),
        recipient.exports.len() + moved.len() <= i32::MAX,
        recipient.imports.len() + queue.len() <= i32::MAX,
    ensures
        out == walked_map(recipient@, donor@, moved@, queue@)(r),
{
    if r.index < 0 {
        resolve(recipient, donor, queue, r)
    } else {
        place(moved, recipient.exports.len(), r)
    }
}

/// Copies the export at place `k` among the moved and rewrites its
/// references. Its names still point into the donor's table.
fn carry_export(
    recipient: &Package,
    donor: &Package,
    moved: &Vec<usize>,
    queue: &Vec<usize>,
    k: usize,
) -> (export: Export)
    requires
        k < moved.len(),
        moved_within(donor@, moved@),
        within(donor@, queue@),
        recipient.exports.len() + moved.len() <= i32::MAX,
        recipient.imports.len() + queue.len() <= i32::MAX,
    ensures
        export@ == donor@.exports[moved[k as int] as int].mapped(
            walked_map(recipient@, donor@, moved@, queue@),
            unwalked_map(recipient@, moved@),
            same_name(),
        ),
{
    let mut export = donor.exports[moved[k]].duplicate();
    let ghost start = export@;
    let ghost f = walked_map(recipient@, donor@, moved@, queue@);
    let ghost e = unwalked_map(recipient@, moved@);
    let visit = |r: Reference| -> (out: Reference)
        ensures
            out == f(r),
        { rewire(recipient, donor, moved, queue, r) };
    on_import_refs(&mut export, &visit);
    let ghost walked = export@;
    proof {
        lemma_rewired_export_is_mapped(start, walked, &visit, f, same_reference(), same_name());
    }
    let pass = |r: Reference| -> (out: Reference)
        ensures
            out == e(r),
        { place(moved, recipient.exports.len(), r) };
    export.outer = pass(export.outer);
    rewire_references(&mut export.before_construction, &pass);
    match &mut export.contained {
        Some(list) => {
            rewire_references(list, &pass);
        },
        None => {},
    }
    proof {
        let goal = start.mapped(f, e, same_name());
        assert(export@.before_construction =~= goal.before_construction);
        assert(export@.before_serialization =~= goal.before_serialization);
        match start.contained {
            Some(list) => {
                assert(export@.contained.unwrap() =~= goal.contained.unwrap());
            },
            None => {},
        }
        assert(export@.properties == goal.properties);
    }
    export
}

/// Copies the moved exports and rewrites their references. Their names still
/// point into the donor's table.
fn carry_exports(recipient: &Package, donor: &Package, moved: &Vec<usize>, queue: &Vec<usize>) -> (exports:
    Vec<Export>)
    requires
        moved_within(donor@, moved@),
        within(donor@, queue@),
        recipient.exports.len() + moved.len() <= i32::MAX,
        recipient.imports.len() + queue.len() <= i32::MAX,
    ensures
        exports.len() == moved.len(),
        forall|k: int|
            0 <= k < moved.len() ==> (#[trigger] exports[k])@ == donor@.exports[moved[k] as int].mapped(
                walked_map(recipient@, donor@, moved@, queue@),
                unwalked_map(recipient@, moved@),
                same_name(),
            ),
{
    let mut exports: Vec<Export> = Vec::new();
    let mut k: usize = 0;
    while k < moved.len()
        invariant
            k <= moved.len(),
            exports.len() == k,
            moved_within(donor@, moved@),
            within(donor@, queue@),
            recipient.exports.len() + moved.len() <= i32::MAX,
            recipient.imports.len() + queue.len() <= i32::MAX,
            forall|j: int|
                0 <= j < k ==> (#[trigger] exports[j])@ == donor@.exports[moved[j] as int].mapped(
                    walked_map(recipient@, donor@, moved@, queue@),
                    unwalked_map(recipient@, moved@),
                    same_name(),
                ),
        decreases moved.len() - k,
    {
        let export = carry_export(recipient, donor, moved, queue, k);
        exports.push(export);
        k += 1;
    }
    exports
}

/// Copies the queued imports and rewrites the reference to the owner of
/// each. Their names still point into the donor's table.
fn carry_imports(recipient: &Package, donor: &Package, moved: &Vec<usize>, queue: &Vec<usize>) -> (imports:
    Vec<Import>)
    requires
        within(donor@, queue@),
        recipient.exports.len() + moved.len() <= i32::MAX,
        recipient.imports.len() + queue.len() <= i32::MAX,
    ensures
        imports.len() == queue.len(),
        forall|k: int|
            0 <= k < queue.len() ==> #[trigger] imports[k] == (Import {
                outer: walked_map(recipient@, donor@, moved@, queue@)(
                    donor@.imports[queue[k] as int].outer,
                ),
                ..donor@.imports[queue[k] as int]
            }),
{
    let mut imports: Vec<Import> = Vec::new();
    let mut k: usize = 0;
    while k < queue.len()
        invariant
            k <= queue.len(),
            imports.len() == k,
            within(donor@, queue@),
            recipient.exports.len() + moved.len() <= i32::MAX,
            recipient.imports.len() + queue.len() <= i32::MAX,
            forall|j: int|
                0 <= j < k ==> #[trigger] imports[j] == (Import {
                    outer: walked_map(recipient@, donor@, moved@, queue@)(
                        donor@.imports[queue[j] as int].outer,
                    ),
                    ..donor@.imports[queue[j] as int]
                }),
        decreases queue.len() - k,
    {
        let import = donor.imports[queue[k]];
        let outer = rewire(recipient, donor, moved, queue, import.outer);
        imports.push(
            Import {
                class_package: import.class_package,
                class_name: import.class_name,
                object_name: import.object_name,
                outer,
            },
        );
        k += 1;
    }
    imports
}

/// Interns what the names of `list` read in `source`.
fn intern_names(names: &mut Vec<String>, source: &Vec<String>, list: &Vec<Name>)
    ensures
        texts(final(names)@) == interned_all(
            texts(old(names)@),
            texts_of(texts(source@), list@),
        ),
{
    let ghost all = texts_of(texts(source@), list@);
    let mut i: usize = 0;
    while i < list.len()
        invariant
            i <= list.len(),
            all == texts_of(texts(source@), list@),
            texts(names@) == interned_all(texts(old(names)@), all.take(i as int)),
        decreases list.len() - i,
    {
        let text = read_text(source, list[i].index);
        proof {
            assert(all.take(i + 1).drop_last() =~= all.take(i as int));
            assert(all.take(i + 1).last() == text@);
        }
        intern(names, text);
        i += 1;
    }
    assert(all.take(list.len() as int) =~= all);
}

/// Interns what the names held by the moved exports read.
fn intern_export_names(names: &mut Vec<String>, donor: &Package, moved: &Vec<usize>)
    requires
        moved_within(donor@, moved@),
    ensures
        texts(final(names)@) == interned_all(
            texts(old(names)@),
            export_texts(donor@, moved@, moved.len() as nat),
        ),
{
    let mut k: usize = 0;
    while k < moved.len()
        invariant
            k <= moved.len(),
            moved_within(donor@, moved@),
            texts(names@) == interned_all(
                texts(old(names)@),
                export_texts(donor@, moved@, k as nat),
            ),
        decreases moved.len() - k,
    {
        let list = donor.exports[moved[k]].held_names();
        proof {
            lemma_interned_all_concat(
                texts(old(names)@),
                export_texts(donor@, moved@, k as nat),
                texts_of(donor@.names, list@),
            );
        }
        intern_names(names, &donor.names, &list);
        k += 1;
    }
}

/// Interns what the names of the queued imports read.
fn intern_import_names(names: &mut Vec<String>, donor: &Package, queue: &Vec<usize>)
    requires
        within(donor@, queue@),
    ensures
        texts(final(names)@) == interned_all(
            texts(old(names)@),
            import_texts(donor@, queue@, queue.len() as nat),
        ),
{
    let mut k: usize = 0;
    while k < queue.len()
        invariant
            k <= queue.len(),
            within(donor@, queue@),
            texts(names@) == interned_all(
                texts(old(names)@),
                import_texts(donor@, queue@, k as nat),
            ),
        decreases queue.len() - k,
    {
        let import = donor.imports[queue[k]];
        let mut list: Vec<Name> = Vec::new();
        list.push(import.class_package);
        list.push(import.class_name);
        list.push(import.object_name);
        proof {
            assert(list@ =~= import_names(import));
            lemma_interned_all_concat(
                texts(old(names)@),
                import_texts(donor@, queue@, k as nat),
                texts_of(donor@.names, list@),
            );
        }
        intern_names(names, &donor.names, &list);
        k += 1;
    }
}

/// Points a name of the donor at the string of `table` that reads the same.
fn relocate(table: &Vec<String>, source: &Vec<String>, n: Name) -> (out: Name)
    ensures
        out == name_map(texts(table@), texts(source@))(n),
{
    let text = read_text(source, n.index);
    match find_text(table, &text) {
        Some(i) => Name { index: i, number: n.number },
        None => n,
    }
}

/// Points the names of the carried exports at the recipient's table.
fn rename_exports(exports: &mut Vec<Export>, table: &Vec<String>, source: &Vec<String>)
    ensures
        final(exports).len() == old(exports).len(),
        forall|k: int|
            0 <= k < old(exports).len() ==> (#[trigger] final(exports)[k])@ == old(exports)[k]@.mapped(
                same_reference(),
                same_reference(),
                name_map(texts(table@), texts(source@)),
            ),
{
    let ghost g = name_map(texts(table@), texts(source@));
    let n = exports.len();
    let mut k: usize = 0;
    while k < n
        invariant
            k <= n,
            exports.len() == n,
            old(exports).len() == n,
            g == name_map(texts(table@), texts(source@)),
            forall|j: int| k <= j < n ==> #[trigger] exports[j] == old(exports)[j],
            forall|j: int|
                0 <= j < k ==> (#[trigger] exports[j])@ == old(exports)[j]@.mapped(
                    same_reference(),
                    same_reference(),
                    g,
                ),
        decreases n - k,
    {
        let ghost start = exports[k as int]@;
        let rename = |m: Name| -> (out: Name)
            ensures
                out == g(m),
            { relocate(table, source, m) };
        exports[k].map_names(&rename);
        proof {
            lemma_renamed_export_is_mapped(start, exports[k as int]@, &rename, same_reference(), g);
        }
        k += 1;
    }
}

/// Points the names of the carried imports at the recipient's table.
fn rename_imports(imports: &mut Vec<Import>, table: &Vec<String>, source: &Vec<String>)
    ensures
        final(imports).len() == old(imports).len(),
        forall|k: int|
            0 <= k < old(imports).len() ==> #[trigger] final(imports)[k] == (Import {
                class_package: name_map(texts(table@), texts(source@))(old(imports)[k].class_package),
                class_name: name_map(texts(table@), texts(source@))(old(imports)[k].class_name),
                object_name: name_map(texts(table@), texts(source@))(old(imports)[k].object_name),
                outer: old(imports)[k].outer,
            }),
{
    let n = imports.len();
    let mut k: usize = 0;
    while k < n
        invariant
            k <= n,
            imports.len() == n,
            old(imports).len() == n,
            forall|j: int| k <= j < n ==> #[trigger] imports[j] == old(imports)[j],
            forall|j: int|
                0 <= j < k ==> #[trigger] imports[j] == (Import {
                    class_package: name_map(texts(table@), texts(source@))(
                        old(imports)[j].class_package,
                    ),
                    class_name: name_map(texts(table@), texts(source@))(old(imports)[j].class_name),
                    object_name: name_map(texts(table@), texts(source@))(
                        old(imports)[j].object_name,
                    ),
                    outer: old(imports)[j].outer,
                }),
        decreases n - k,
    {
        let import = imports[k];
        imports[k] = Import {
            class_package: relocate(table, source, import.class_package),
            class_name: relocate(table, source, import.class_name),
            object_name: relocate(table, source, import.object_name),
            outer: import.outer,
        };
        k += 1;
    }
}

/// Interns the names that come with the transplant: the name that the actor
/// gets first, then those of the moved exports, then those of the queued
/// imports. Returns where the table holds the actor's name.
fn grow_names(names: &mut Vec<String>, donor: &Package, moved: &Vec<usize>, queue: &Vec<usize>) -> (root:
    usize)
    requires
        moved.len() > 0,
        moved_within(donor@, moved@),
        within(donor@, queue@),
    ensures
        texts(final(names)@) == grown_names(texts(old(names)@), donor@, moved@, queue@),
        position_of(
            texts(final(names)@),
            unique_name(texts(old(names)@), root_text(donor@, moved@)),
        ) == Some(root as int),
        root < final(names).len(),
{
    let ghost start = texts(names@);
    let text = read_text(&donor.names, donor.exports[moved[0]].object_name.index);
    let unique = give_unique_name(names, &text);
    let ghost name = unique@;
    let root = intern(names, unique);
    let ghost first = texts(names@);
    intern_export_names(names, donor, moved);
    let ghost second = texts(names@);
    intern_import_names(names, donor, queue);
    proof {
        let a = seq![name];
        let b = export_texts(donor@, moved@, moved.len() as nat);
        let c = import_texts(donor@, queue@, queue.len() as nat);
        assert(a.drop_last() =~= Seq::<Seq<char>>::empty());
        assert(interned_all(start, a.drop_last()) == start);
        assert(interned_all(start, a) == first);
        lemma_interned_all_concat(start, a, b);
        lemma_interned_all_concat(start, a + b, c);
        lemma_interned_all_extends(first, b);
        lemma_interned_all_extends(second, c);
        let last = texts(names@);
        assert forall|j: int| 0 <= j < first.len() implies first[j] == last[j] by {
            assert(second.take(first.len() as int)[j] == second[j]);
            assert(last.take(second.len() as int)[j] == last[j]);
        }
        lemma_first_match_prefix(first, last, is_text(name));
        lemma_first_match(last, is_text(name));
    }
    root
}

/// Makes the carried actor the root of what joins the recipient: gives it its
/// name and, where the recipient has a container, hands it to the container.
fn root_export(export: &mut Export, name: usize, container: Option<usize>)
    requires
        match container {
            Some(c) => c < i32::MAX,
            None => true,
        },
    ensures
        final(export)@ == (ExportModel {
            object_name: Name { index: name, number: old(export)@.object_name.number },
            outer: match container {
                Some(c) => Reference::to_export(c as int),
                None => old(export)@.outer,
            },
            before_construction: match container {
                Some(c) => seq![Reference::to_export(c as int)],
                None => old(export)@.before_construction,
            },
            ..old(export)@
        }),
{
    export.object_name = Name { index: name, number: export.object_name.number };
    match container {
        Some(c) => {
            let level = Reference { index: c as i32 + 1 };
            let mut wait: Vec<Reference> = Vec::new();
            wait.push(level);
            export.outer = level;
            export.before_construction = wait;
            assert(export@.before_construction =~= seq![Reference::to_export(c as int)]);
        },
        None => {},
    }
}

/// Has a container take in an actor.
fn adopt(container: &mut Export, actor: Reference)
    ensures
        final(container)@ == adopting(old(container)@, actor),
{
    container.before_serialization.push(actor);
    match &mut container.contained {
        Some(list) => {
            list.push(actor);
        },
        None => {},
    }
}

impl Actor {
    /// The actor whose export stands at `export`.
    pub fn new(export: usize) -> (actor: Actor)
        ensures
            actor.export == export,
    {
        Actor { export }
    }

    /// Copies the actor, with every export that it owns, from `donor` into
    /// `recipient`.
    ///
    /// The actor's export and the exports it owns are appended to the
    /// recipient's exports, the actor first. The actor gets a name that the
    /// recipient does not hold yet and, where the recipient has a container,
    /// becomes the container's. Every import of the donor that a moved export
    /// refers to, and every import that owns one of those, is found among the
    /// recipient's imports or appended to them, each object once. References
    /// and names are rewritten to select in the recipient what they selected
    /// in the donor; a reference to an export that does not move becomes null.
    ///
    /// Nothing is changed where the transplant fails.
    pub fn transplant(&self, recipient: &mut Package, donor: &Package) -> (result: Result<
        (),
        TransplantError,
    >)
        requires
            old(recipient).exports.len() + donor.exports.len() <= i32::MAX,
            old(recipient).imports.len() + donor.imports.len() <= i32::MAX,
        ensures
            match result {
                Ok(()) => {
                    &&& failure(old(recipient)@, donor@, self.export as int).is_none()
                    &&& final(recipient)@ == transplanted(old(recipient)@, donor@, self.export as int)
                },
                Err(e) => {
                    &&& failure(old(recipient)@, donor@, self.export as int) == Some(e)
                    &&& *final(recipient) == *old(recipient)
                },
            },
            result.is_ok() && old(recipient)@.valid() ==> final(recipient)@.valid(),
    {
        let root = self.export;
        if root >= donor.exports.len() {
            return Err(TransplantError::MissingRoot);
        }
        let moved = collect_subtree(&donor.exports, root);
        proof {
            lemma_subtree(donor@.exports, root as int);
        }
        let queue = match build_queue(recipient, donor, &moved) {
            Some(queue) => queue,
            None => {
                return Err(TransplantError::DanglingImport);
            },
        };
        proof {
            lemma_sound_bounded(recipient@, donor@, queue@);
        }
        let ghost before = recipient@;
        let ghost f = walked_map(before, donor@, moved@, queue@);
        let ghost e = unwalked_map(before, moved@);
        let base = recipient.exports.len();
        let container = recipient.container();
        let mut exports = carry_exports(recipient, donor, &moved, &queue);
        let mut imports = carry_imports(recipient, donor, &moved, &queue);
        let ghost carried = exports@;
        let name = grow_names(&mut recipient.names, donor, &moved, &queue);
        let ghost table = texts(recipient.names@);
        let ghost g = name_map(table, donor@.names);
        rename_exports(&mut exports, &recipient.names, &donor.names);
        rename_imports(&mut imports, &recipient.names, &donor.names);
        let ghost renamed = exports@;
        root_export(&mut exports[0], name, container);
        match container {
            Some(c) => {
                adopt(&mut recipient.exports[c], Reference { index: base as i32 + 1 });
            },
            None => {},
        }
        let ghost kept = export_views(recipient.exports@);
        let ghost joining = export_views(exports@);
        let ghost joining_imports = imports@;
        recipient.exports.append(&mut exports);
        recipient.imports.append(&mut imports);
        proof {
            let goal = transplanted(before, donor@, root as int);
            assert(goal == grown(before, donor@, moved@, queue@));
            assert(kept =~= kept_exports(before));
            assert forall|k: int| 0 <= k < moved.len() implies joining[k] == moved_export(
                before,
                donor@,
                moved@,
                queue@,
                k,
            ) by {
                lemma_mapped_export_twice(
                    donor@.exports[moved[k] as int],
                    f,
                    e,
                    same_name(),
                    same_reference(),
                    same_reference(),
                    g,
                    f,
                    e,
                    g,
                );
                assert(renamed[k]@ == carried[k]@.mapped(same_reference(), same_reference(), g));
            }
            let arrived = Seq::new(
                moved.len() as nat,
                |k: int| moved_export(before, donor@, moved@, queue@, k),
            );
            assert(joining.len() == moved.len());
            assert(joining =~= arrived);
            assert(recipient@.exports =~= kept + joining);
            assert(recipient@.exports =~= goal.exports);
            assert(recipient@.imports =~= goal.imports);
            if before.valid() {
                crate::laws::lemma_transplant_keeps_valid(before, donor@, root as int);
            }
        }
        Ok(())
    }
}

} // verus!
