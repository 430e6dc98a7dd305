//! What holds of every transplant.
use crate::export::lemma_mapped_export_holds;
use crate::name::{
    interned_all, is_text, lemma_interned_all_extends, lemma_interned_all_holds, Name, position_of,
    text_at,
};
use crate::package::{find_key, has_key, Import, key_of, PackageModel, reading};
use crate::reference::Reference;
use crate::resolve::{
    closed, lemma_closed, lemma_noted, lemma_noted_all, lemma_resolved, lemma_resolved_resolves,
    lemma_settled_stays, lemma_sound_bounded, noted, noted_all, resolved, settled, sound,
};
use crate::search::lemma_first_match;
use crate::subtree::{lemma_placed_resolves, lemma_subtree, owns, subtree};
use crate::transplant::{
    adopting, export_texts, failure, grown, grown_names, import_names, import_texts, kept_exports,
    moved_export, moved_import, name_map, queue_of, root_text, transplanted, unwalked_map,
    walked_by, walked_map,
};
use crate::unique::unique_name;
use vstd::prelude::*;

verus! {

/// The strings that the transplant interns, in order.
pub open spec fn arriving_texts(
    names: Seq<Seq<char>>,
    donor: PackageModel,
    moved: Seq<usize>,
    queue: Seq<usize>,
) -> Seq<Seq<char>> {
    seq![unique_name(names, root_text(donor, moved))] + export_texts(donor, moved, moved.len())
        + import_texts(donor, queue, queue.len())
}

/// What a name of one of the first `n` moved exports reads is among the
/// strings that are interned for them.
proof fn lemma_export_texts_hold(donor: PackageModel, moved: Seq<usize>, n: nat, k: int, i: int)
    requires
        0 <= k < n <= moved.len(),
        0 <= i < donor.exports[moved[k] as int].names().len(),
    ensures
        export_texts(donor, moved, n).contains(
            text_at(donor.names, donor.exports[moved[k] as int].names()[i].index as int),
        ),
    decreases n,
{
    let all = export_texts(donor, moved, n);
    let before = export_texts(donor, moved, (n - 1) as nat);
    let text = text_at(donor.names, donor.exports[moved[k] as int].names()[i].index as int);
    if k == n - 1 {
        assert(all[before.len() + i] == text);
    } else {
        lemma_export_texts_hold(donor, moved, (n - 1) as nat, k, i);
        let j = choose|j: int| 0 <= j < before.len() && before[j] == text;
        assert(all[j] == text);
    }
}

/// What a name of one of the first `n` queued imports reads is among the
/// strings that are interned for them.
proof fn lemma_import_texts_hold(donor: PackageModel, queue: Seq<usize>, n: nat, k: int, i: int)
    requires
        0 <= k < n <= queue.len(),
        0 <= i < 3,
    ensures
        import_texts(donor, queue, n).contains(
            text_at(donor.names, import_names(donor.imports[queue[k] as int])[i].index as int),
        ),
    decreases n,
{
    let all = import_texts(donor, queue, n);
    let before = import_texts(donor, queue, (n - 1) as nat);
    let text = text_at(donor.names, import_names(donor.imports[queue[k] as int])[i].index as int);
    if k == n - 1 {
        assert(all[before.len() + i] == text);
    } else {
        lemma_import_texts_hold(donor, queue, (n - 1) as nat, k, i);
        let j = choose|j: int| 0 <= j < before.len() && before[j] == text;
        assert(all[j] == text);
    }
}

/// A string that is interned has a place in the table afterwards, and the
/// table reads the string there.
proof fn lemma_interned_member(names: Seq<Seq<char>>, list: Seq<Seq<char>>, text: Seq<char>)
    requires
        list.contains(text),
    ensures
        position_of(interned_all(names, list), text).is_some(),
        0 <= position_of(interned_all(names, list), text).unwrap() < interned_all(names, list).len(),
        interned_all(names, list)[position_of(interned_all(names, list), text).unwrap()] == text,
{
    let i = choose|i: int| 0 <= i < list.len() && list[i] == text;
    lemma_interned_all_holds(names, list, i);
    lemma_first_match(interned_all(names, list), is_text(text));
}

/// A name that comes with the transplant points, afterwards, at a string of
/// the grown table that reads what the name read in the donor.
pub proof fn lemma_name_keeps_reading(
    names: Seq<Seq<char>>,
    donor: PackageModel,
    moved: Seq<usize>,
    queue: Seq<usize>,
    name: Name,
)
    requires
        arriving_texts(names, donor, moved, queue).contains(text_at(donor.names, name.index as int)),
        grown_names(names, donor, moved, queue).len() <= usize::MAX,
    ensures
        ({
            let table = grown_names(names, donor, moved, queue);
            let after = name_map(table, donor.names)(name);
            &&& after.index < table.len()
            &&& after.number == name.number
            &&& reading(table, after) == reading(donor.names, name)
        }),
{
    lemma_interned_member(
        names,
        arriving_texts(names, donor, moved, queue),
        text_at(donor.names, name.index as int),
    );
}

/// Each name of a moved export reads, in the grown table, what it read in the
/// donor.
pub proof fn lemma_export_names_arrive(
    names: Seq<Seq<char>>,
    donor: PackageModel,
    moved: Seq<usize>,
    queue: Seq<usize>,
    k: int,
    i: int,
)
    requires
        0 <= k < moved.len(),
        0 <= i < donor.exports[moved[k] as int].names().len(),
    ensures
        arriving_texts(names, donor, moved, queue).contains(
            text_at(donor.names, donor.exports[moved[k] as int].names()[i].index as int),
        ),
{
    let text = text_at(donor.names, donor.exports[moved[k] as int].names()[i].index as int);
    let a = seq![unique_name(names, root_text(donor, moved))];
    let b = export_texts(donor, moved, moved.len());
    lemma_export_texts_hold(donor, moved, moved.len(), k, i);
    let j = choose|j: int| 0 <= j < b.len() && b[j] == text;
    assert(arriving_texts(names, donor, moved, queue)[a.len() + j] == text);
}

/// Each name of a queued import reads, in the grown table, what it read in
/// the donor.
pub proof fn lemma_import_names_arrive(
    names: Seq<Seq<char>>,
    donor: PackageModel,
    moved: Seq<usize>,
    queue: Seq<usize>,
    k: int,
    i: int,
)
    requires
        0 <= k < queue.len(),
        0 <= i < 3,
    ensures
        arriving_texts(names, donor, moved, queue).contains(
            text_at(donor.names, import_names(donor.imports[queue[k] as int])[i].index as int),
        ),
{
    let text = text_at(donor.names, import_names(donor.imports[queue[k] as int])[i].index as int);
    let a = seq![unique_name(names, root_text(donor, moved))];
    let b = export_texts(donor, moved, moved.len());
    let c = import_texts(donor, queue, queue.len());
    lemma_import_texts_hold(donor, queue, queue.len(), k, i);
    let j = choose|j: int| 0 <= j < c.len() && c[j] == text;
    assert(arriving_texts(names, donor, moved, queue)[a.len() + b.len() + j] == text);
}

/// What holds of the queue of a transplant: it holds imports of the donor,
/// each object once and none that the recipient has; every reference that a
/// walk of a moved export visits selects an import that the donor has and
/// that has a place in the recipient or in the queue; and so does the owner
/// of every queued import.
pub proof fn lemma_queue_of(recipient: PackageModel, donor: PackageModel, moved: Seq<usize>)
    requires
        queue_of(recipient, donor, moved).is_some(),
    ensures
        ({
            let queue = queue_of(recipient, donor, moved).unwrap();
            let refs = walked_by(donor, moved, moved.len());
            &&& sound(recipient, donor, queue)
            &&& queue.len() <= donor.imports.len()
            &&& forall|i: int|
                0 <= i < refs.len() ==> !donor.dangling(#[trigger] refs[i]) && settled(
                    recipient,
                    donor,
                    queue,
                    refs[i],
                )
            &&& forall|k: int|
                0 <= k < queue.len() ==> !donor.dangling(
                    donor.imports[(#[trigger] queue[k]) as int].outer,
                ) && settled(recipient, donor, queue, donor.imports[queue[k] as int].outer)
        }),
{
    let queue = queue_of(recipient, donor, moved).unwrap();
    let refs = walked_by(donor, moved, moved.len());
    let first = noted_all(recipient, donor, Seq::empty(), refs);
    lemma_noted_all(recipient, donor, Seq::empty(), refs);
    lemma_closed(recipient, donor, first, 0);
    lemma_sound_bounded(recipient, donor, queue);
    assert forall|i: int| 0 <= i < refs.len() implies !donor.dangling(#[trigger] refs[i])
        && settled(recipient, donor, queue, refs[i]) by {
        lemma_settled_stays(recipient, donor, first, queue, refs[i]);
    }
}

/// Every reference that the walks rewrite, and every reference that they pass
/// by, is null afterwards or selects a slot of the grown tables.
pub proof fn lemma_maps_resolve(
    recipient: PackageModel,
    donor: PackageModel,
    moved: Seq<usize>,
    queue: Seq<usize>,
    r: Reference,
)
    requires
        recipient.exports.len() + moved.len() <= i32::MAX,
        recipient.imports.len() + queue.len() <= i32::MAX,
    ensures
        walked_map(recipient, donor, moved, queue)(r).resolves(
            recipient.exports.len() + moved.len(),
            recipient.imports.len() + queue.len(),
        ),
        unwalked_map(recipient, moved)(r).resolves(
            recipient.exports.len() + moved.len(),
            recipient.imports.len() + queue.len(),
        ),
{
    lemma_resolved_resolves(recipient, donor, queue, r);
    lemma_placed_resolves(moved, recipient.exports.len() as int, r);
}

/// An export of a valid recipient is still sound once the tables have
/// grown.
proof fn lemma_kept_export_resolves(
    recipient: PackageModel,
    i: int,
    exports: nat,
    imports: nat,
    names: nat,
)
    requires
        recipient.valid(),
        0 <= i < recipient.exports.len(),
        recipient.exports.len() < exports,
        recipient.imports.len() <= imports,
        recipient.names.len() <= names,
        recipient.exports.len() < i32::MAX,
    ensures
        kept_exports(recipient)[i].resolves(exports, imports, names),
{
    let old = recipient.exports[i];
    let new = kept_exports(recipient)[i];
    assert(old.resolves(
        recipient.exports.len(),
        recipient.imports.len(),
        recipient.names.len(),
    ));
    if recipient.container() == Some(i) {
        let actor = Reference::to_export(recipient.exports.len() as int);
        assert(new == adopting(old, actor));
        lemma_first_match(recipient.exports, crate::package::holds_objects());
        assert(old.contained.is_some());
        assert(new.walked() =~= old.walked().push(actor));
        assert(new.unwalked() =~= old.unwalked().push(actor));
        assert(new.names() =~= old.names());
        assert forall|j: int| 0 <= j < new.walked().len() implies (#[trigger] new.walked()[j]).resolves(
            exports,
            imports,
        ) by {
            if j < old.walked().len() {
                assert(old.walked()[j].resolves(
                    recipient.exports.len(),
                    recipient.imports.len(),
                ));
            }
        }
        assert forall|j: int|
            0 <= j < new.unwalked().len() implies (#[trigger] new.unwalked()[j]).resolves(
            exports,
            imports,
        ) by {
            if j < old.unwalked().len() {
                assert(old.unwalked()[j].resolves(
                    recipient.exports.len(),
                    recipient.imports.len(),
                ));
            }
        }
    } else {
        lemma_first_match(recipient.exports, crate::package::holds_objects());
        assert(new == old);
        assert forall|j: int| 0 <= j < new.walked().len() implies (#[trigger] new.walked()[j]).resolves(
            exports,
            imports,
        ) by {
            assert(old.walked()[j].resolves(
                recipient.exports.len(),
                recipient.imports.len(),
            ));
        }
        assert forall|j: int|
            0 <= j < new.unwalked().len() implies (#[trigger] new.unwalked()[j]).resolves(
            exports,
            imports,
        ) by {
            assert(old.unwalked()[j].resolves(
                recipient.exports.len(),
                recipient.imports.len(),
            ));
        }
    }
}

/// A moved export is sound where it arrives.
proof fn lemma_moved_export_resolves(
    recipient: PackageModel,
    donor: PackageModel,
    moved: Seq<usize>,
    queue: Seq<usize>,
    k: int,
)
    requires
        0 <= k < moved.len(),
        recipient.exports.len() + moved.len() <= i32::MAX,
        recipient.imports.len() + queue.len() <= i32::MAX,
        grown_names(recipient.names, donor, moved, queue).len() <= usize::MAX,
    ensures
        moved_export(recipient, donor, moved, queue, k).resolves(
            recipient.exports.len() + moved.len(),
            recipient.imports.len() + queue.len(),
            grown_names(recipient.names, donor, moved, queue).len(),
        ),
{
    let exports = recipient.exports.len() + moved.len();
    let imports = recipient.imports.len() + queue.len();
    let table = grown_names(recipient.names, donor, moved, queue);
    let f = walked_map(recipient, donor, moved, queue);
    let e = unwalked_map(recipient, moved);
    let g = name_map(table, donor.names);
    let from = donor.exports[moved[k] as int];
    let mapped = from.mapped(f, e, g);
    let arrived = moved_export(recipient, donor, moved, queue, k);
    lemma_mapped_export_holds(from, f, e, g);
    assert forall|j: int| 0 <= j < mapped.walked().len() implies (#[trigger] mapped.walked()[j]).resolves(
        exports,
        imports,
    ) by {
        lemma_maps_resolve(recipient, donor, moved, queue, from.walked()[j]);
    }
    assert forall|j: int|
        0 <= j < mapped.unwalked().len() implies (#[trigger] mapped.unwalked()[j]).resolves(
        exports,
        imports,
    ) by {
        lemma_maps_resolve(recipient, donor, moved, queue, from.unwalked()[j]);
    }
    assert forall|j: int| 0 <= j < mapped.names().len() implies (#[trigger] mapped.names()[j]).index
        < table.len() by {
        lemma_export_names_arrive(recipient.names, donor, moved, queue, k, j);
        lemma_name_keeps_reading(recipient.names, donor, moved, queue, from.names()[j]);
    }
    if k == 0 {
        let name = unique_name(recipient.names, root_text(donor, moved));
        let all = arriving_texts(recipient.names, donor, moved, queue);
        assert(all[0] == name);
        lemma_interned_member(recipient.names, all, name);
        lemma_first_match(recipient.exports, crate::package::holds_objects());
        assert(arrived.walked() =~= mapped.walked());
        assert(arrived.names() =~= mapped.names().update(0, arrived.object_name));
        match recipient.container() {
            Some(c) => {
                let level = Reference::to_export(c);
                let rest = match mapped.contained {
                    Some(list) => list,
                    None => Seq::empty(),
                };
                assert(arrived.unwalked() =~= seq![level, level] + rest);
                assert forall|j: int|
                    0 <= j < arrived.unwalked().len() implies (#[trigger] arrived.unwalked()[j]).resolves(
                    exports,
                    imports,
                ) by {
                    if j >= 2 {
                        assert(arrived.unwalked()[j] == mapped.unwalked()[j - 2 + 1
                            + mapped.before_construction.len()]);
                    }
                }
            },
            None => {
                assert(arrived.unwalked() =~= mapped.unwalked());
            },
        }
    }
}

/// A queued import is sound where it arrives.
proof fn lemma_moved_import_resolves(
    recipient: PackageModel,
    donor: PackageModel,
    moved: Seq<usize>,
    queue: Seq<usize>,
    k: int,
)
    requires
        0 <= k < queue.len(),
        recipient.exports.len() + moved.len() <= i32::MAX,
        recipient.imports.len() + queue.len() <= i32::MAX,
        grown_names(recipient.names, donor, moved, queue).len() <= usize::MAX,
    ensures
        ({
            let arrived = moved_import(recipient, donor, moved, queue, k);
            let table = grown_names(recipient.names, donor, moved, queue);
            &&& arrived.outer.resolves(
                recipient.exports.len() + moved.len(),
                recipient.imports.len() + queue.len(),
            )
            &&& arrived.class_package.index < table.len()
            &&& arrived.class_name.index < table.len()
            &&& arrived.object_name.index < table.len()
            &&& key_of(table, arrived) == donor.key(queue[k] as int)
        }),
{
    let from = donor.imports[queue[k] as int];
    lemma_maps_resolve(recipient, donor, moved, queue, from.outer);
    lemma_import_names_arrive(recipient.names, donor, moved, queue, k, 0);
    lemma_import_names_arrive(recipient.names, donor, moved, queue, k, 1);
    lemma_import_names_arrive(recipient.names, donor, moved, queue, k, 2);
    lemma_name_keeps_reading(recipient.names, donor, moved, queue, from.class_package);
    lemma_name_keeps_reading(recipient.names, donor, moved, queue, from.class_name);
    lemma_name_keeps_reading(recipient.names, donor, moved, queue, from.object_name);
}

/// Round-trip integrity. A transplant into a valid recipient leaves a valid
/// recipient: every reference and every name of every object, moved or not,
/// is null or selects a slot of the recipient's tables. What the recipient
/// had is still there: its imports and its names as they were, its exports
/// too but for the container, and everything new stands behind them.
pub proof fn lemma_transplant_keeps_valid(recipient: PackageModel, donor: PackageModel, root: int)
    requires
        recipient.valid(),
        failure(recipient, donor, root).is_none(),
        recipient.exports.len() + donor.exports.len() <= i32::MAX,
        recipient.imports.len() + donor.imports.len() <= i32::MAX,
        transplanted(recipient, donor, root).names.len() <= usize::MAX,
    ensures
        transplanted(recipient, donor, root).valid(),
        transplanted(recipient, donor, root).imports.take(recipient.imports.len() as int)
            == recipient.imports,
        transplanted(recipient, donor, root).names.take(recipient.names.len() as int)
            == recipient.names,
        transplanted(recipient, donor, root).exports.len() > recipient.exports.len(),
        forall|i: int|
            0 <= i < recipient.exports.len() && recipient.container() != Some(i) ==> transplanted(
                recipient,
                donor,
                root,
            ).exports[i] == recipient.exports[i],
{
    let moved = subtree(donor.exports, root);
    let queue = queue_of(recipient, donor, moved).unwrap();
    let after = transplanted(recipient, donor, root);
    let table = grown_names(recipient.names, donor, moved, queue);
    lemma_subtree(donor.exports, root);
    lemma_queue_of(recipient, donor, moved);
    lemma_interned_all_extends(recipient.names, arriving_texts(recipient.names, donor, moved, queue));
    lemma_first_match(recipient.exports, crate::package::holds_objects());
    assert(after.imports.take(recipient.imports.len() as int) =~= recipient.imports);
    let exports = recipient.exports.len() + moved.len();
    let imports = recipient.imports.len() + queue.len();
    assert(after.exports.len() == exports);
    assert(after.imports.len() == imports);
    assert forall|i: int| 0 <= i < after.exports.len() implies (#[trigger] after.exports[i]).resolves(
        after.exports.len(),
        after.imports.len(),
        after.names.len(),
    ) by {
        if i < recipient.exports.len() {
            lemma_kept_export_resolves(recipient, i, exports, imports, table.len());
            assert(after.exports[i] == kept_exports(recipient)[i]);
        } else {
            lemma_moved_export_resolves(recipient, donor, moved, queue, i - recipient.exports.len());
            assert(after.exports[i] == moved_export(
                recipient,
                donor,
                moved,
                queue,
                i - recipient.exports.len(),
            ));
        }
    }
    assert forall|i: int| 0 <= i < after.imports.len() implies after.import_resolves(
        #[trigger] after.imports[i],
    ) by {
        if i < recipient.imports.len() {
            assert(recipient.import_resolves(recipient.imports[i]));
            assert(after.imports[i] == recipient.imports[i]);
        } else {
            lemma_moved_import_resolves(recipient, donor, moved, queue, i - recipient.imports.len());
        }
    }
}

/// Import deduplication. A reference to an import of the donor that is the
/// same object as an import of the recipient is pointed at the first such
/// import of the recipient, whatever has been queued, and seeing it queues
/// nothing.
pub proof fn lemma_known_import_is_reused(
    recipient: PackageModel,
    donor: PackageModel,
    queue: Seq<usize>,
    r: Reference,
    j: int,
)
    requires
        r.is_import(),
        !donor.dangling(r),
        find_key(recipient.imports, recipient.names, donor.key(r.position())) == Some(j),
    ensures
        noted(recipient, donor, queue, r) == queue,
        resolved(recipient, donor, queue, r) == Reference::to_import(j),
        0 <= j < recipient.imports.len(),
        recipient.key(j) == donor.key(r.position()),
{
    lemma_first_match(recipient.imports, has_key(recipient.names, donor.key(r.position())));
}

/// Import deduplication, for a whole transplant: no import that joins the
/// recipient is the same object as one that the recipient had.
pub proof fn lemma_no_import_twice(recipient: PackageModel, donor: PackageModel, root: int, k: int)
    requires
        failure(recipient, donor, root).is_none(),
        0 <= k < queue_of(recipient, donor, subtree(donor.exports, root)).unwrap().len(),
    ensures
        ({
            let queue = queue_of(recipient, donor, subtree(donor.exports, root)).unwrap();
            &&& queue[k] < donor.imports.len()
            &&& find_key(recipient.imports, recipient.names, donor.key(queue[k] as int)).is_none()
            &&& forall|i: int|
                0 <= i < recipient.imports.len() ==> recipient.key(i) != donor.key(queue[k] as int)
            &&& forall|other: int|
                0 <= other < queue.len() && other != k ==> donor.key(queue[other] as int)
                    != donor.key(queue[k] as int)
        }),
{
    let moved = subtree(donor.exports, root);
    let queue = queue_of(recipient, donor, moved).unwrap();
    lemma_queue_of(recipient, donor, moved);
    let key = donor.key(queue[k] as int);
    lemma_first_match(recipient.imports, has_key(recipient.names, key));
    assert forall|i: int| 0 <= i < recipient.imports.len() implies recipient.key(i) != key by {
        assert(!has_key(recipient.names, key)(recipient.imports[i]));
    }
    assert forall|other: int| 0 <= other < queue.len() && other != k implies donor.key(
        queue[other] as int,
    ) != key by {
        if other < k {
            assert(donor.key(queue[other] as int) != donor.key(queue[k] as int));
        } else {
            assert(donor.key(queue[k] as int) != donor.key(queue[other] as int));
        }
    }
}

/// Deduplication within one transplant. Of two references to imports of the
/// donor that are the same object, the second queues nothing, and both are
/// pointed at the same place.
pub proof fn lemma_same_object_is_queued_once(
    recipient: PackageModel,
    donor: PackageModel,
    queue: Seq<usize>,
    first: Reference,
    second: Reference,
)
    requires
        sound(recipient, donor, queue),
        first.is_import(),
        second.is_import(),
        !donor.dangling(first),
        !donor.dangling(second),
        donor.key(first.position()) == donor.key(second.position()),
    ensures
        noted(recipient, donor, noted(recipient, donor, queue, first), second) == noted(
            recipient,
            donor,
            queue,
            first,
        ),
        noted(recipient, donor, queue, first).len() <= queue.len() + 1,
        forall|later: Seq<usize>|
            resolved(recipient, donor, later, first) == resolved(recipient, donor, later, second),
{
    lemma_noted(recipient, donor, queue, first);
}

/// Closure. The owner of an import that joins the recipient is looked up as
/// every other reference is: where the owner is an import, the import that
/// joins points at an import of the grown table that is the same object as
/// its owner was in the donor: at one of the recipient's own, or at one that
/// joins with it.
pub proof fn lemma_owner_follows(recipient: PackageModel, donor: PackageModel, root: int, k: int)
    requires
        failure(recipient, donor, root).is_none(),
        recipient.imports.len() + donor.imports.len() <= i32::MAX,
        0 <= k < queue_of(recipient, donor, subtree(donor.exports, root)).unwrap().len(),
        donor.imports[queue_of(recipient, donor, subtree(donor.exports, root)).unwrap()[k] as int].outer.is_import(),
    ensures
        ({
            let moved = subtree(donor.exports, root);
            let queue = queue_of(recipient, donor, moved).unwrap();
            let owner = donor.imports[queue[k] as int].outer;
            let arrived = moved_import(recipient, donor, moved, queue, k);
            let place = arrived.outer.position();
            &&& !donor.dangling(owner)
            &&& arrived.outer.is_import()
            &&& place < recipient.imports.len() + queue.len()
            &&& place < recipient.imports.len() ==> recipient.key(place) == donor.key(
                owner.position(),
            )
            &&& place >= recipient.imports.len() ==> donor.key(
                queue[place - recipient.imports.len()] as int,
            ) == donor.key(owner.position())
        }),
{
    let moved = subtree(donor.exports, root);
    let queue = queue_of(recipient, donor, moved).unwrap();
    lemma_queue_of(recipient, donor, moved);
    let owner = donor.imports[queue[k] as int].outer;
    lemma_resolved(recipient, donor, queue, owner);
}

/// A reference that a walk of a moved export visits, and that selects an
/// import of the donor, is pointed at an import of the grown table that is
/// the same object: at one of the recipient's own, or at one that joins.
pub proof fn lemma_walked_import_follows(
    recipient: PackageModel,
    donor: PackageModel,
    root: int,
    i: int,
)
    requires
        failure(recipient, donor, root).is_none(),
        recipient.imports.len() + donor.imports.len() <= i32::MAX,
        0 <= i < walked_by(
            donor,
            subtree(donor.exports, root),
            subtree(donor.exports, root).len(),
        ).len(),
        walked_by(donor, subtree(donor.exports, root), subtree(donor.exports, root).len())[i].is_import(),
    ensures
        ({
            let moved = subtree(donor.exports, root);
            let queue = queue_of(recipient, donor, moved).unwrap();
            let r = walked_by(donor, moved, moved.len())[i];
            let after = walked_map(recipient, donor, moved, queue)(r);
            let place = after.position();
            &&& !donor.dangling(r)
            &&& after.is_import()
            &&& place < recipient.imports.len() + queue.len()
            &&& place < recipient.imports.len() ==> recipient.key(place) == donor.key(r.position())
            &&& place >= recipient.imports.len() ==> donor.key(
                queue[place - recipient.imports.len()] as int,
            ) == donor.key(r.position())
        }),
{
    let moved = subtree(donor.exports, root);
    let queue = queue_of(recipient, donor, moved).unwrap();
    lemma_queue_of(recipient, donor, moved);
    let r = walked_by(donor, moved, moved.len())[i];
    lemma_resolved(recipient, donor, queue, r);
}

/// An import that joins the recipient reads there what it read in the donor.
pub proof fn lemma_import_keeps_key(recipient: PackageModel, donor: PackageModel, root: int, k: int)
    requires
        failure(recipient, donor, root).is_none(),
        recipient.exports.len() + donor.exports.len() <= i32::MAX,
        recipient.imports.len() + donor.imports.len() <= i32::MAX,
        transplanted(recipient, donor, root).names.len() <= usize::MAX,
        0 <= k < queue_of(recipient, donor, subtree(donor.exports, root)).unwrap().len(),
    ensures
        ({
            let queue = queue_of(recipient, donor, subtree(donor.exports, root)).unwrap();
            let after = transplanted(recipient, donor, root);
            after.key(recipient.imports.len() + k) == donor.key(queue[k] as int)
        }),
{
    let moved = subtree(donor.exports, root);
    let queue = queue_of(recipient, donor, moved).unwrap();
    lemma_subtree(donor.exports, root);
    lemma_queue_of(recipient, donor, moved);
    lemma_moved_import_resolves(recipient, donor, moved, queue, k);
}

/// Container bookkeeping. Where the recipient has a container, the actor
/// arrives as the container's: the container holds one object more, the
/// actor, and waits for one object more before it is serialized, the actor;
/// and the actor is owned by the container and waits for nothing but the
/// container before it is constructed.
pub proof fn lemma_container_adopts(recipient: PackageModel, donor: PackageModel, root: int, c: int)
    requires
        failure(recipient, donor, root).is_none(),
        recipient.container() == Some(c),
        recipient.exports.len() + donor.exports.len() <= i32::MAX,
    ensures
        ({
            let after = transplanted(recipient, donor, root);
            let actor = Reference::to_export(recipient.exports.len() as int);
            let container = recipient.exports[c];
            &&& 0 <= c < recipient.exports.len()
            &&& container.contained.is_some()
            &&& after.exports[c].contained == Some(container.contained.unwrap().push(actor))
            &&& after.exports[c].before_serialization == container.before_serialization.push(actor)
            &&& actor.is_export() && actor.position() == recipient.exports.len()
            &&& after.exports[actor.position()].outer == Reference::to_export(c)
            &&& after.exports[actor.position()].before_construction == seq![Reference::to_export(c)]
        }),
{
    let moved = subtree(donor.exports, root);
    let queue = queue_of(recipient, donor, moved).unwrap();
    lemma_subtree(donor.exports, root);
    lemma_first_match(recipient.exports, crate::package::holds_objects());
    let after = transplanted(recipient, donor, root);
    assert(after.exports[c] == kept_exports(recipient)[c]);
    assert(after.exports[recipient.exports.len() as int] == moved_export(
        recipient,
        donor,
        moved,
        queue,
        0,
    ));
}

/// Where the recipient has no container, its exports are as they were, and
/// the actor arrives owned by nothing, or by an export that moved with it.
pub proof fn lemma_without_container(recipient: PackageModel, donor: PackageModel, root: int)
    requires
        failure(recipient, donor, root).is_none(),
        recipient.container().is_none(),
        recipient.exports.len() + donor.exports.len() <= i32::MAX,
    ensures
        ({
            let after = transplanted(recipient, donor, root);
            let actor = after.exports[recipient.exports.len() as int];
            &&& after.exports.take(recipient.exports.len() as int) == recipient.exports
            &&& actor.outer.is_null() || (actor.outer.is_export() && recipient.exports.len()
                <= actor.outer.position() < after.exports.len())
        }),
{
    let moved = subtree(donor.exports, root);
    let queue = queue_of(recipient, donor, moved).unwrap();
    let after = transplanted(recipient, donor, root);
    lemma_subtree(donor.exports, root);
    lemma_placed_resolves(
        moved,
        recipient.exports.len() as int,
        donor.exports[moved[0] as int].outer,
    );
    assert(after.exports.take(recipient.exports.len() as int) =~= recipient.exports);
    assert(after.exports[recipient.exports.len() as int] == moved_export(
        recipient,
        donor,
        moved,
        queue,
        0,
    ));
}

/// Name uniqueness. The actor arrives under a name that the recipient did
/// not hold before: the name it had in the donor where that was free, and
/// otherwise that name with its number counted up.
pub proof fn lemma_actor_gets_new_name(recipient: PackageModel, donor: PackageModel, root: int)
    requires
        failure(recipient, donor, root).is_none(),
        recipient.exports.len() + donor.exports.len() <= i32::MAX,
        transplanted(recipient, donor, root).names.len() <= usize::MAX,
    ensures
        ({
            let after = transplanted(recipient, donor, root);
            let actor = after.exports[recipient.exports.len() as int];
            let name = unique_name(
                recipient.names,
                text_at(donor.names, donor.exports[root].object_name.index as int),
            );
            &&& position_of(recipient.names, name).is_none()
            &&& actor.object_name.index < after.names.len()
            &&& text_at(after.names, actor.object_name.index as int) == name
            &&& actor.object_name.number == donor.exports[root].object_name.number
        }),
{
    let moved = subtree(donor.exports, root);
    let queue = queue_of(recipient, donor, moved).unwrap();
    let after = transplanted(recipient, donor, root);
    let name = unique_name(recipient.names, root_text(donor, moved));
    let all = arriving_texts(recipient.names, donor, moved, queue);
    lemma_subtree(donor.exports, root);
    crate::unique::lemma_unique_name_is_new(recipient.names, root_text(donor, moved));
    lemma_first_match(recipient.exports, crate::package::holds_objects());
    assert(kept_exports(recipient).len() == recipient.exports.len());
    assert(all[0] == name);
    lemma_interned_member(recipient.names, all, name);
    assert(after.exports[recipient.exports.len() as int] == moved_export(
        recipient,
        donor,
        moved,
        queue,
        0,
    ));
}

/// Whether one of the references `refs` selects the import at `position`.
pub open spec fn selected_by(refs: Seq<Reference>, position: int) -> bool {
    exists|i: int|
        0 <= i < refs.len() && (#[trigger] refs[i]).is_import() && refs[i].position() == position
}

/// Whether the import at place `k` of the queue owns an import that stands
/// before it in the queue, at place `from` or behind.
pub open spec fn owner_of_queued(donor: PackageModel, queue: Seq<usize>, from: int, k: int) -> bool {
    exists|j: int|
        from <= j < k && donor.imports[(#[trigger] queue[j]) as int].outer.is_import()
            && donor.imports[queue[j] as int].outer.position() == queue[k]
}

/// What seeing references queues, one of the references selects.
proof fn lemma_noted_all_selected(
    recipient: PackageModel,
    donor: PackageModel,
    queue: Seq<usize>,
    refs: Seq<Reference>,
    k: int,
)
    requires
        queue.len() <= k < noted_all(recipient, donor, queue, refs).len(),
    ensures
        selected_by(refs, noted_all(recipient, donor, queue, refs)[k] as int),
    decreases refs.len(),
{
    if refs.len() > 0 {
        let before = noted_all(recipient, donor, queue, refs.drop_last());
        let after = noted_all(recipient, donor, queue, refs);
        if k < before.len() {
            lemma_noted_all_selected(recipient, donor, queue, refs.drop_last(), k);
            let i = choose|i: int|
                0 <= i < refs.drop_last().len() && (#[trigger] refs.drop_last()[i]).is_import()
                    && refs.drop_last()[i].position() == before[k];
            assert(refs[i] == refs.drop_last()[i]);
        } else {
            assert(refs[refs.len() - 1].is_import());
            assert(refs[refs.len() - 1].position() == after[k]);
        }
    }
}

/// What closing a queue adds, an import queued before it is owned by.
proof fn lemma_closed_owned(
    recipient: PackageModel,
    donor: PackageModel,
    queue: Seq<usize>,
    from: nat,
    k: int,
)
    requires
        sound(recipient, donor, queue),
        closed(recipient, donor, queue, from).is_some(),
        queue.len() <= k < closed(recipient, donor, queue, from).unwrap().len(),
    ensures
        owner_of_queued(donor, closed(recipient, donor, queue, from).unwrap(), from as int, k),
    decreases donor.imports.len() - from,
{
    lemma_sound_bounded(recipient, donor, queue);
    if from < queue.len() && from < donor.imports.len() {
        let outer = donor.imports[queue[from as int] as int].outer;
        let next = noted(recipient, donor, queue, outer);
        let end = closed(recipient, donor, queue, from).unwrap();
        lemma_noted(recipient, donor, queue, outer);
        lemma_closed(recipient, donor, next, from + 1);
        if k < next.len() {
            assert(end[k] == next[k]);
            assert(end[from as int] == next[from as int]);
            assert(next[from as int] == queue[from as int]);
            assert(from <= from < k && donor.imports[end[from as int] as int].outer.is_import());
        } else {
            lemma_closed_owned(recipient, donor, next, from + 1, k);
            let j = choose|j: int|
                from + 1 <= j < k && donor.imports[(#[trigger] end[j]) as int].outer.is_import()
                    && donor.imports[end[j] as int].outer.position() == end[k];
            assert(from <= j < k);
        }
    }
}

/// Closure, the other way round. No import joins the recipient without
/// cause: each that does is selected by a reference that a walk of a moved
/// export visits, or owns an import that joins before it.
pub proof fn lemma_queued_is_called_for(
    recipient: PackageModel,
    donor: PackageModel,
    root: int,
    k: int,
)
    requires
        failure(recipient, donor, root).is_none(),
        0 <= k < queue_of(recipient, donor, subtree(donor.exports, root)).unwrap().len(),
    ensures
        ({
            let moved = subtree(donor.exports, root);
            let queue = queue_of(recipient, donor, moved).unwrap();
            ||| selected_by(walked_by(donor, moved, moved.len()), queue[k] as int)
            ||| owner_of_queued(donor, queue, 0, k)
        }),
{
    let moved = subtree(donor.exports, root);
    let queue = queue_of(recipient, donor, moved).unwrap();
    let refs = walked_by(donor, moved, moved.len());
    let first = noted_all(recipient, donor, Seq::empty(), refs);
    lemma_noted_all(recipient, donor, Seq::empty(), refs);
    lemma_closed(recipient, donor, first, 0);
    if k < first.len() {
        lemma_noted_all_selected(recipient, donor, Seq::empty(), refs, k);
        assert(queue[k] == first[k]);
    } else {
        lemma_closed_owned(recipient, donor, first, 0, k);
    }
}

} // verus!
