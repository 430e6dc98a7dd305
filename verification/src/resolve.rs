//! Resolving references to the donor's imports against the recipient: which
//! imports the recipient has to take over, and where a reference points once
//! it has.
use crate::package::{find_key, has_key, Import, ImportKey, key_of, Package, PackageModel};
use crate::reference::Reference;
use crate::search::{
    first_match, lemma_distinct_bounded, lemma_first_match, lemma_first_match_at,
    lemma_first_match_prefix, lemma_first_match_push,
};
use vstd::prelude::*;

verus! {

/// The condition, on a position of the donor's import table, that the import
/// there reads as `key`.
pub open spec fn reads_as(donor: PackageModel, key: ImportKey) -> spec_fn(usize) -> bool {
    |d: usize| donor.key(d as int) == key
}

/// Where the queue holds an import of the donor that reads as `key`.
pub open spec fn queued_at(donor: PackageModel, queue: Seq<usize>, key: ImportKey) -> Option<int> {
    first_match(queue, reads_as(donor, key))
}

/// Whether `r` selects an import of the donor that the recipient does not
/// have and the queue does not hold.
pub open spec fn is_new(
    recipient: PackageModel,
    donor: PackageModel,
    queue: Seq<usize>,
    r: Reference,
) -> bool {
    &&& r.is_import()
    &&& !donor.dangling(r)
    &&& find_key(recipient.imports, recipient.names, donor.key(r.position())).is_none()
    &&& queued_at(donor, queue, donor.key(r.position())).is_none()
}

/// The queue after `r` has been seen: with the import that `r` selects at
/// its end where that import is new, and unchanged otherwise.
pub open spec fn noted(
    recipient: PackageModel,
    donor: PackageModel,
    queue: Seq<usize>,
    r: Reference,
) -> Seq<usize> {
    if is_new(recipient, donor, queue, r) {
        queue.push(r.position() as usize)
    } else {
        queue
    }
}

/// The queue after the references of `refs` have been seen one by one, from
/// the first to the last.
pub open spec fn noted_all(
    recipient: PackageModel,
    donor: PackageModel,
    queue: Seq<usize>,
    refs: Seq<Reference>,
) -> Seq<usize>
    decreases refs.len(),
{
    if refs.len() == 0 {
        queue
    } else {
        noted(recipient, donor, noted_all(recipient, donor, queue, refs.drop_last()), refs.last())
    }
}

/// The queue closed under ownership from position `from` on: the owner of
/// each queued import is seen in turn, those queued on the way included.
/// There is no such queue where an owner is an import that the donor does not
/// have.
///
/// A queue holds each import of the donor at most once, so the positions it
/// can have are bounded by the donor's table, which is what ends the descent.
pub open spec fn closed(
    recipient: PackageModel,
    donor: PackageModel,
    queue: Seq<usize>,
    from: nat,
) -> Option<Seq<usize>>
    decreases donor.imports.len() - from,
{
    if from < queue.len() && from < donor.imports.len() {
        let outer = donor.imports[queue[from as int] as int].outer;
        if donor.dangling(outer) {
            None
        } else {
            closed(recipient, donor, noted(recipient, donor, queue, outer), from + 1)
        }
    } else {
        Some(queue)
    }
}

/// Where a reference to an import of the donor points in the recipient, once
/// the queued imports stand behind the imports that the recipient has: at the
/// first import of the recipient that is the same object, else at the queued
/// import that is, else nowhere.
pub open spec fn resolved(
    recipient: PackageModel,
    donor: PackageModel,
    queue: Seq<usize>,
    r: Reference,
) -> Reference {
    if r.is_import() && !donor.dangling(r) {
        let key = donor.key(r.position());
        match find_key(recipient.imports, recipient.names, key) {
            Some(j) => Reference::to_import(j),
            None => match queued_at(donor, queue, key) {
                Some(k) => Reference::to_import(recipient.imports.len() + k),
                None => Reference { index: 0 },
            },
        }
    } else {
        Reference { index: 0 }
    }
}

/// What holds of every queue that is built by seeing references: it holds
/// imports that the donor has, no two of which are the same object, and none
/// of which the recipient has.
pub open spec fn sound(recipient: PackageModel, donor: PackageModel, queue: Seq<usize>) -> bool {
    &&& forall|k: int| 0 <= k < queue.len() ==> (#[trigger] queue[k]) < donor.imports.len()
    &&& forall|a: int, b: int|
        0 <= a < b < queue.len() ==> donor.key((#[trigger] queue[a]) as int) != donor.key(
            (#[trigger] queue[b]) as int,
        )
    &&& forall|k: int|
        0 <= k < queue.len() ==> find_key(
            recipient.imports,
            recipient.names,
            donor.key((#[trigger] queue[k]) as int),
        ).is_none()
}

/// Whether the import that `r` selects has a place in the recipient or in the
/// queue. A reference that selects no import of the donor counts as settled.
pub open spec fn settled(
    recipient: PackageModel,
    donor: PackageModel,
    queue: Seq<usize>,
    r: Reference,
) -> bool {
    r.is_import() && !donor.dangling(r) ==> {
        ||| find_key(recipient.imports, recipient.names, donor.key(r.position())).is_some()
        ||| queued_at(donor, queue, donor.key(r.position())).is_some()
    }
}

/// A sound queue is no longer than the donor's import table.
pub proof fn lemma_sound_bounded(recipient: PackageModel, donor: PackageModel, queue: Seq<usize>)
    requires
        sound(recipient, donor, queue),
    ensures
        queue.len() <= donor.imports.len(),
{
    let positions = queue.map_values(|d: usize| d as int);
    assert forall|a: int, b: int| 0 <= a < b < positions.len() implies positions[a]
        != positions[b] by {
        assert(donor.key(queue[a] as int) != donor.key(queue[b] as int));
    }
    lemma_distinct_bounded(positions, donor.imports.len());
}

/// Seeing a reference keeps a queue sound, keeps what it held where it was,
/// and settles the reference.
pub proof fn lemma_noted(
    recipient: PackageModel,
    donor: PackageModel,
    queue: Seq<usize>,
    r: Reference,
)
    requires
        sound(recipient, donor, queue),
    ensures
        sound(recipient, donor, noted(recipient, donor, queue, r)),
        queue.len() <= noted(recipient, donor, queue, r).len() <= queue.len() + 1,
        forall|k: int| 0 <= k < queue.len() ==> noted(recipient, donor, queue, r)[k] == queue[k],
        settled(recipient, donor, noted(recipient, donor, queue, r), r),
{
    let after = noted(recipient, donor, queue, r);
    if is_new(recipient, donor, queue, r) {
        let key = donor.key(r.position());
        lemma_first_match(queue, reads_as(donor, key));
        lemma_first_match_push(queue, reads_as(donor, key), r.position() as usize);
        assert forall|a: int, b: int| 0 <= a < b < after.len() implies donor.key(
            (#[trigger] after[a]) as int,
        ) != donor.key((#[trigger] after[b]) as int) by {
            if b == queue.len() {
                assert(!reads_as(donor, key)(queue[a]));
            } else {
                assert(after[a] == queue[a] && after[b] == queue[b]);
            }
        }
    }
}

/// A reference that is settled stays settled, and resolves to the same place,
/// however the queue grows.
pub proof fn lemma_settled_stays(
    recipient: PackageModel,
    donor: PackageModel,
    queue: Seq<usize>,
    longer: Seq<usize>,
    r: Reference,
)
    requires
        queue.len() <= longer.len(),
        forall|k: int| 0 <= k < queue.len() ==> queue[k] == longer[k],
        settled(recipient, donor, queue, r),
    ensures
        settled(recipient, donor, longer, r),
        resolved(recipient, donor, longer, r) == resolved(recipient, donor, queue, r),
{
    if r.is_import() && !donor.dangling(r) {
        let key = donor.key(r.position());
        if find_key(recipient.imports, recipient.names, key).is_none() {
            lemma_first_match_prefix(queue, longer, reads_as(donor, key));
        }
    }
}

/// Seeing a list of references keeps a queue sound, keeps what it held where
/// it was, and settles every reference of the list.
pub proof fn lemma_noted_all(
    recipient: PackageModel,
    donor: PackageModel,
    queue: Seq<usize>,
    refs: Seq<Reference>,
)
    requires
        sound(recipient, donor, queue),
    ensures
        sound(recipient, donor, noted_all(recipient, donor, queue, refs)),
        queue.len() <= noted_all(recipient, donor, queue, refs).len(),
        forall|k: int|
            0 <= k < queue.len() ==> noted_all(recipient, donor, queue, refs)[k] == queue[k],
        forall|i: int|
            0 <= i < refs.len() ==> settled(
                recipient,
                donor,
                noted_all(recipient, donor, queue, refs),
                #[trigger] refs[i],
            ),
    decreases refs.len(),
{
    if refs.len() > 0 {
        let before = noted_all(recipient, donor, queue, refs.drop_last());
        let after = noted_all(recipient, donor, queue, refs);
        lemma_noted_all(recipient, donor, queue, refs.drop_last());
        lemma_noted(recipient, donor, before, refs.last());
        assert forall|i: int| 0 <= i < refs.len() implies settled(
            recipient,
            donor,
            after,
            #[trigger] refs[i],
        ) by {
            if i < refs.len() - 1 {
                assert(refs.drop_last()[i] == refs[i]);
                lemma_settled_stays(recipient, donor, before, after, refs[i]);
            }
        }
    }
}

/// Seeing one list after another is seeing the two joined.
pub proof fn lemma_noted_all_concat(
    recipient: PackageModel,
    donor: PackageModel,
    queue: Seq<usize>,
    a: Seq<Reference>,
    b: Seq<Reference>,
)
    ensures
        noted_all(recipient, donor, queue, a + b) == noted_all(
            recipient,
            donor,
            noted_all(recipient, donor, queue, a),
            b,
        ),
    decreases b.len(),
{
    if b.len() == 0 {
        assert(a + b =~= a);
    } else {
        lemma_noted_all_concat(recipient, donor, queue, a, b.drop_last());
        assert((a + b).drop_last() =~= a + b.drop_last());
        assert((a + b).last() == b.last());
    }
}

/// Closing keeps a queue sound and keeps what it held where it was. In the
/// closed queue the owner of every import from `from` on is settled.
pub proof fn lemma_closed(
    recipient: PackageModel,
    donor: PackageModel,
    queue: Seq<usize>,
    from: nat,
)
    requires
        sound(recipient, donor, queue),
        closed(recipient, donor, queue, from).is_some(),
    ensures
        sound(recipient, donor, closed(recipient, donor, queue, from).unwrap()),
        queue.len() <= closed(recipient, donor, queue, from).unwrap().len(),
        forall|k: int|
            0 <= k < queue.len() ==> closed(recipient, donor, queue, from).unwrap()[k] == queue[k],
        forall|k: int|
            from <= k < closed(recipient, donor, queue, from).unwrap().len() ==> {
                let owner = donor.imports[(#[trigger] closed(
                    recipient,
                    donor,
                    queue,
                    from,
                ).unwrap()[k]) as int].outer;
                &&& !donor.dangling(owner)
                &&& settled(recipient, donor, closed(recipient, donor, queue, from).unwrap(), owner)
            },
    decreases donor.imports.len() - from,
{
    lemma_sound_bounded(recipient, donor, queue);
    if from < queue.len() && from < donor.imports.len() {
        let outer = donor.imports[queue[from as int] as int].outer;
        let next = noted(recipient, donor, queue, outer);
        let end = closed(recipient, donor, queue, from).unwrap();
        lemma_noted(recipient, donor, queue, outer);
        lemma_closed(recipient, donor, next, from + 1);
        assert forall|k: int| from <= k < end.len() implies {
            let owner = donor.imports[(#[trigger] end[k]) as int].outer;
            &&& !donor.dangling(owner)
            &&& settled(recipient, donor, end, owner)
        } by {
            if k == from {
                assert(end[k] == next[k]);
                assert(next[k] == queue[k]);
                lemma_settled_stays(recipient, donor, next, end, outer);
            }
        }
    }
}

/// A settled reference to an import resolves to an import that the grown
/// table has and that is the same object: to one of the recipient's own, or
/// to a queued one at the place that the queue gives it.
pub proof fn lemma_resolved(
    recipient: PackageModel,
    donor: PackageModel,
    queue: Seq<usize>,
    r: Reference,
)
    requires
        recipient.imports.len() + queue.len() <= i32::MAX,
        r.is_import(),
        !donor.dangling(r),
        settled(recipient, donor, queue, r),
    ensures
        resolved(recipient, donor, queue, r).is_import(),
        resolved(recipient, donor, queue, r).position() < recipient.imports.len() + queue.len(),
        resolved(recipient, donor, queue, r).position() < recipient.imports.len()
            ==> recipient.key(resolved(recipient, donor, queue, r).position()) == donor.key(
            r.position(),
        ),
        resolved(recipient, donor, queue, r).position() >= recipient.imports.len() ==> donor.key(
            queue[resolved(recipient, donor, queue, r).position() - recipient.imports.len()] as int,
        ) == donor.key(r.position()),
{
    let key = donor.key(r.position());
    lemma_first_match(recipient.imports, has_key(recipient.names, key));
    lemma_first_match(queue, reads_as(donor, key));
}

/// Every reference resolves to null or to a slot of the grown import table.
pub proof fn lemma_resolved_resolves(
    recipient: PackageModel,
    donor: PackageModel,
    queue: Seq<usize>,
    r: Reference,
)
    requires
        recipient.imports.len() + queue.len() <= i32::MAX,
    ensures
        resolved(recipient, donor, queue, r).is_null() || (resolved(
            recipient,
            donor,
            queue,
            r,
        ).is_import() && resolved(recipient, donor, queue, r).position() < recipient.imports.len()
            + queue.len()),
{
    if r.is_import() && !donor.dangling(r) {
        let key = donor.key(r.position());
        lemma_first_match(recipient.imports, has_key(recipient.names, key));
        lemma_first_match(queue, reads_as(donor, key));
    }
}

/// Whether every position that the queue holds is one of the donor's table.
pub open spec fn within(donor: PackageModel, queue: Seq<usize>) -> bool {
    forall|k: int| 0 <= k < queue.len() ==> (#[trigger] queue[k]) < donor.imports.len()
}

/// Looks up, among the queued imports, the one that is the same object as
/// `import`, an import of the donor.
pub(crate) fn find_queued(donor: &Package, queue: &Vec<usize>, import: &Import) -> (found: Option<usize>)
    requires
        within(donor@, queue@),
    ensures
        match found {
            Some(k) => queued_at(donor@, queue@, key_of(donor@.names, *import)) == Some(k as int)
                && k < queue.len(),
            None => queued_at(donor@, queue@, key_of(donor@.names, *import)).is_none(),
        },
{
    let ghost key = key_of(donor@.names, *import);
    let ghost p = reads_as(donor@, key);
    let mut k: usize = 0;
    while k < queue.len()
        invariant
            k <= queue.len(),
            within(donor@, queue@),
            key == key_of(donor@.names, *import),
            p == reads_as(donor@, key),
            forall|j: int| 0 <= j < k ==> !p(#[trigger] queue[j]),
        decreases queue.len() - k,
    {
        let d = queue[k];
        if crate::package::same_object(&donor.names, &donor.imports[d], &donor.names, import) {
            proof {
                lemma_first_match_at(queue@, p, k as int);
            }
            return Some(k);
        }
        k += 1;
    }
    proof {
        lemma_first_match(queue@, p);
    }
    None
}

/// Sees a reference: queues the import of the donor that it selects, where
/// neither the recipient nor the queue has that object yet.
pub(crate) fn note(recipient: &Package, donor: &Package, queue: &mut Vec<usize>, r: Reference)
    requires
        within(donor@, old(queue)@),
    ensures
        final(queue)@ == noted(recipient@, donor@, old(queue)@, r),
        within(donor@, final(queue)@),
{
    match donor.get_import(r) {
        Some(import) => {
            if recipient.find_import_by_content(&donor.names, import).is_none() && find_queued(
                donor,
                queue,
                import,
            ).is_none() {
                queue.push((-(r.index + 1)) as usize);
            }
        },
        None => {},
    }
}

/// Sees the references of a list one by one. Stops and says so where one of
/// them selects an import that the donor does not have.
pub(crate) fn note_all(recipient: &Package, donor: &Package, queue: &mut Vec<usize>, refs: &Vec<Reference>) -> (complete:
    bool)
    requires
        within(donor@, old(queue)@),
    ensures
        within(donor@, final(queue)@),
        complete <==> forall|i: int| 0 <= i < refs.len() ==> !donor@.dangling(#[trigger] refs[i]),
        complete ==> final(queue)@ == noted_all(recipient@, donor@, old(queue)@, refs@),
{
    let mut i: usize = 0;
    while i < refs.len()
        invariant
            i <= refs.len(),
            within(donor@, queue@),
            forall|j: int| 0 <= j < i ==> !donor@.dangling(#[trigger] refs[j]),
            queue@ == noted_all(recipient@, donor@, old(queue)@, refs@.take(i as int)),
        decreases refs.len() - i,
    {
        let r = refs[i];
        if r.index < 0 && donor.get_import(r).is_none() {
            return false;
        }
        note(recipient, donor, queue, r);
        proof {
            assert(refs@.take(i + 1).drop_last() =~= refs@.take(i as int));
        }
        i += 1;
    }
    assert(refs@.take(refs.len() as int) =~= refs@);
    true
}

/// Closes the queue under ownership: sees the owner of every queued import,
/// those queued on the way included. Stops and says so where an owner is an
/// import that the donor does not have.
pub(crate) fn close(recipient: &Package, donor: &Package, queue: &mut Vec<usize>) -> (complete: bool)
    requires
        sound(recipient@, donor@, old(queue)@),
    ensures
        complete <==> closed(recipient@, donor@, old(queue)@, 0).is_some(),
        complete ==> final(queue)@ == closed(recipient@, donor@, old(queue)@, 0).unwrap(),
        complete ==> sound(recipient@, donor@, final(queue)@),
{
    let mut i: usize = 0;
    while i < queue.len()
        invariant
            i <= queue.len(),
            sound(recipient@, donor@, queue@),
            closed(recipient@, donor@, old(queue)@, 0) == closed(recipient@, donor@, queue@, i as nat),
        decreases donor.imports.len() - i,
    {
        proof {
            lemma_sound_bounded(recipient@, donor@, queue@);
        }
        let outer = donor.imports[queue[i]].outer;
        if outer.index < 0 && donor.get_import(outer).is_none() {
            return false;
        }
        proof {
            lemma_noted(recipient@, donor@, queue@, outer);
        }
        note(recipient, donor, queue, outer);
        i += 1;
    }
    true
}

/// Points a reference to an import of the donor at the import of the
/// recipient that is the same object, or at the place behind the recipient's
/// imports that the queue gives it.
pub(crate) fn resolve(recipient: &Package, donor: &Package, queue: &Vec<usize>, r: Reference) -> (out:
    Reference)
    requires
        within(donor@, queue@),
        recipient.imports.len() + queue.len() <= i32::MAX,
    ensures
        out == resolved(recipient@, donor@, queue@, r),
{
    match donor.get_import(r) {
        Some(import) => {
            match recipient.find_import_by_content(&donor.names, import) {
                Some(j) => {
                    proof {
                        lemma_first_match(
                            recipient@.imports,
                            has_key(recipient@.names, key_of(donor@.names, *import)),
                        );
                    }
                    Reference { index: -(j as i32) - 1 }
                },
                None => match find_queued(donor, queue, import) {
                    Some(k) => Reference { index: -((recipient.imports.len() + k) as i32) - 1 },
                    None => Reference { index: 0 },
                },
            }
        },
        None => Reference { index: 0 },
    }
}

} // verus!
