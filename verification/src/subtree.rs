//! The subtree of an export: the export itself and every export it owns.
use crate::export::{Export, ExportModel};
use crate::package::export_views;
use crate::reference::Reference;
use crate::search::{first_match, lemma_first_match};
use vstd::prelude::*;

verus! {

/// The position of the export that owns the export at `i`, where the owner is
/// an export of the table.
pub open spec fn owner_of(exports: Seq<ExportModel>, i: int) -> Option<int> {
    if 0 <= i < exports.len() && exports[i].outer.is_export() && exports[i].outer.position()
        < exports.len() {
        Some(exports[i].outer.position())
    } else {
        None
    }
}

/// Whether going from the export at `i` to its owner, and on to the owner of
/// that, arrives at `root` after at most `steps` steps.
pub open spec fn reaches(exports: Seq<ExportModel>, i: int, root: int, steps: nat) -> bool
    decreases steps,
{
    i == root || (steps > 0 && owner_of(exports, i).is_some() && reaches(
        exports,
        owner_of(exports, i).unwrap(),
        root,
        (steps - 1) as nat,
    ))
}

/// Whether the export at `root` owns the export at `i`, directly or through
/// other exports. As many steps are followed as the table has exports: a chain
/// that has not arrived by then runs in a circle.
pub open spec fn owns(exports: Seq<ExportModel>, root: int, i: int) -> bool {
    reaches(exports, i, root, exports.len())
}

/// The positions below `n` of the exports that `root` owns, `root` itself left
/// out, in rising order.
pub open spec fn owned_below(exports: Seq<ExportModel>, root: int, n: nat) -> Seq<usize>
    decreases n,
{
    if n == 0 {
        Seq::empty()
    } else {
        let rest = owned_below(exports, root, (n - 1) as nat);
        if n - 1 != root && owns(exports, root, n - 1) {
            rest.push((n - 1) as usize)
        } else {
            rest
        }
    }
}

/// The positions of the exports that move with `root`: `root` first, then
/// every export that it owns, in the order of the table.
pub open spec fn subtree(exports: Seq<ExportModel>, root: int) -> Seq<usize> {
    seq![root as usize] + owned_below(exports, root, exports.len())
}

/// The condition of being `position`.
pub open spec fn stood_at(position: int) -> spec_fn(usize) -> bool {
    |p: usize| p == position
}

/// Where among the moved exports the export at `position` stands.
pub open spec fn place_of(moved: Seq<usize>, position: int) -> Option<int> {
    first_match(moved, stood_at(position))
}

/// Where a reference to an export of the donor points once the moved exports
/// stand behind the first `base` exports of the recipient: at the new
/// position of the export, where it is among the moved, and nowhere
/// otherwise.
pub open spec fn placed(moved: Seq<usize>, base: int, r: Reference) -> Reference {
    if r.is_export() && place_of(moved, r.position()).is_some() {
        Reference::to_export(base + place_of(moved, r.position()).unwrap())
    } else {
        Reference { index: 0 }
    }
}

/// The exports below `n` that `root` owns stand below `n`, are not `root`, and
/// are fewer than `n`, or than `n - 1` where `root` is below `n` too.
pub proof fn lemma_owned_below(exports: Seq<ExportModel>, root: int, n: nat)
    requires
        0 <= root,
        n <= usize::MAX,
    ensures
        owned_below(exports, root, n).len() <= n,
        root < n ==> owned_below(exports, root, n).len() < n,
        forall|k: int|
            0 <= k < owned_below(exports, root, n).len() ==> {
                &&& (#[trigger] owned_below(exports, root, n)[k]) < n
                &&& owned_below(exports, root, n)[k] != root
                &&& owns(exports, root, owned_below(exports, root, n)[k] as int)
            },
    decreases n,
{
    if n > 0 {
        lemma_owned_below(exports, root, (n - 1) as nat);
    }
}

/// Every moved export is an export of the table, the first is `root`, and no
/// more exports move than the table has.
pub proof fn lemma_subtree(exports: Seq<ExportModel>, root: int)
    requires
        0 <= root < exports.len(),
        exports.len() <= usize::MAX,
    ensures
        subtree(exports, root).len() <= exports.len(),
        subtree(exports, root).len() >= 1,
        subtree(exports, root)[0] == root,
        forall|k: int|
            0 <= k < subtree(exports, root).len() ==> (#[trigger] subtree(exports, root)[k])
                < exports.len(),
        forall|k: int|
            0 <= k < subtree(exports, root).len() ==> owns(
                exports,
                root,
                (#[trigger] subtree(exports, root)[k]) as int,
            ),
{
    lemma_owned_below(exports, root, exports.len());
    let rest = owned_below(exports, root, exports.len());
    assert forall|k: int| 0 <= k < subtree(exports, root).len() implies (#[trigger] subtree(
        exports,
        root,
    )[k]) < exports.len() && owns(exports, root, subtree(exports, root)[k] as int) by {
        if k > 0 {
            assert(subtree(exports, root)[k] == rest[k - 1]);
        }
    }
}

/// The exports below `n` that `root` owns are all listed, in rising order.
pub proof fn lemma_owned_below_complete(exports: Seq<ExportModel>, root: int, n: nat, i: int)
    requires
        0 <= i < n <= usize::MAX,
        i != root,
        owns(exports, root, i),
    ensures
        owned_below(exports, root, n).contains(i as usize),
        forall|a: int, b: int|
            0 <= a < b < owned_below(exports, root, n).len() ==> owned_below(exports, root, n)[a]
                < owned_below(exports, root, n)[b],
    decreases n,
{
    lemma_owned_below_rising(exports, root, n);
    let list = owned_below(exports, root, n);
    if i == n - 1 {
        assert(list[list.len() - 1] == i as usize);
    } else {
        lemma_owned_below_complete(exports, root, (n - 1) as nat, i);
        let rest = owned_below(exports, root, (n - 1) as nat);
        let k = choose|k: int| 0 <= k < rest.len() && rest[k] == i as usize;
        assert(list[k] == i as usize);
    }
}

/// The exports below `n` that `root` owns are listed in rising order.
pub proof fn lemma_owned_below_rising(exports: Seq<ExportModel>, root: int, n: nat)
    requires
        n <= usize::MAX,
    ensures
        forall|k: int|
            0 <= k < owned_below(exports, root, n).len() ==> (#[trigger] owned_below(
                exports,
                root,
                n,
            )[k]) < n,
        forall|a: int, b: int|
            0 <= a < b < owned_below(exports, root, n).len() ==> owned_below(exports, root, n)[a]
                < owned_below(exports, root, n)[b],
    decreases n,
{
    if n > 0 {
        lemma_owned_below_rising(exports, root, (n - 1) as nat);
        let rest = owned_below(exports, root, (n - 1) as nat);
        let list = owned_below(exports, root, n);
        assert forall|k: int| 0 <= k < list.len() implies (#[trigger] list[k]) < n by {
            if k < rest.len() {
                assert(list[k] == rest[k]);
            }
        }
        assert forall|a: int, b: int| 0 <= a < b < list.len() implies list[a] < list[b] by {
            assert(list[a] == rest[a]);
            if b < rest.len() {
                assert(list[b] == rest[b]);
            }
        }
    }
}

/// Exactly the exports that `root` owns move with it, each once: an export
/// stands among the moved if and only if it is `root` or owned by it, and no
/// two of the moved are the same export.
pub proof fn lemma_subtree_is_what_root_owns(exports: Seq<ExportModel>, root: int)
    requires
        0 <= root < exports.len(),
        exports.len() <= usize::MAX,
    ensures
        forall|i: int|
            0 <= i < exports.len() ==> (subtree(exports, root).contains(i as usize) <==> owns(
                exports,
                root,
                i,
            )),
        forall|a: int, b: int|
            0 <= a < b < subtree(exports, root).len() ==> subtree(exports, root)[a] != subtree(
                exports,
                root,
            )[b],
{
    let moved = subtree(exports, root);
    let rest = owned_below(exports, root, exports.len());
    lemma_subtree(exports, root);
    lemma_owned_below(exports, root, exports.len());
    lemma_owned_below_rising(exports, root, exports.len());
    assert forall|i: int| 0 <= i < exports.len() implies (moved.contains(i as usize) <==> owns(
        exports,
        root,
        i,
    )) by {
        if owns(exports, root, i) {
            if i == root {
                assert(moved[0] == i as usize);
            } else {
                lemma_owned_below_complete(exports, root, exports.len(), i);
                let k = choose|k: int| 0 <= k < rest.len() && rest[k] == i as usize;
                assert(moved[k + 1] == i as usize);
            }
        }
        if moved.contains(i as usize) {
            let k = choose|k: int| 0 <= k < moved.len() && moved[k] == i as usize;
            assert(owns(exports, root, moved[k] as int));
        }
    }
    assert forall|a: int, b: int| 0 <= a < b < moved.len() implies moved[a] != moved[b] by {
        assert(moved[b] == rest[b - 1]);
        if a > 0 {
            assert(moved[a] == rest[a - 1]);
        } else {
            assert(rest[b - 1] != root);
        }
    }
}

/// `place_of` finds the first of the moved exports that stood at `position`,
/// and finds nothing only where none of them did.
pub proof fn lemma_place_of(moved: Seq<usize>, position: int)
    ensures
        match place_of(moved, position) {
            Some(k) => 0 <= k < moved.len() && moved[k] == position && forall|j: int|
                0 <= j < k ==> #[trigger] moved[j] != position,
            None => forall|j: int| 0 <= j < moved.len() ==> #[trigger] moved[j] != position,
        },
{
    lemma_first_match(moved, stood_at(position));
}

/// A reference placed among `count` moved exports behind `base` others is
/// null or selects one of the moved.
pub proof fn lemma_placed_resolves(moved: Seq<usize>, base: int, r: Reference)
    requires
        0 <= base,
        base + moved.len() <= i32::MAX,
    ensures
        placed(moved, base, r).is_null() || (placed(moved, base, r).is_export() && base <= placed(
            moved,
            base,
            r,
        ).position() < base + moved.len()),
{
    lemma_place_of(moved, r.position());
}

/// Whether the export at `root` owns the export at `i`.
pub fn is_owned(exports: &Vec<Export>, root: usize, i: usize) -> (owned: bool)
    ensures
        owned == owns(export_views(exports@), root as int, i as int),
{
    let ghost table = export_views(exports@);
    let mut at: usize = i;
    let mut steps: usize = exports.len();
    loop
        invariant
            table == export_views(exports@),
            steps <= exports.len(),
            owns(table, root as int, i as int) == reaches(table, at as int, root as int, steps as nat),
        decreases steps,
    {
        if at == root {
            return true;
        }
        if steps == 0 || at >= exports.len() {
            return false;
        }
        let outer = exports[at].outer;
        assert(table[at as int].outer == outer);
        if outer.index <= 0 {
            return false;
        }
        let next = (outer.index - 1) as usize;
        if next >= exports.len() {
            return false;
        }
        at = next;
        steps -= 1;
    }
}

/// Gathers the exports that move with `root`: `root` first, then every export
/// that it owns, in the order of the table.
pub fn collect_subtree(exports: &Vec<Export>, root: usize) -> (moved: Vec<usize>)
    ensures
        moved@ == subtree(export_views(exports@), root as int),
{
    let ghost table = export_views(exports@);
    let mut moved: Vec<usize> = Vec::new();
    moved.push(root);
    let mut i: usize = 0;
    while i < exports.len()
        invariant
            i <= exports.len(),
            table == export_views(exports@),
            moved@ == seq![root] + owned_below(table, root as int, i as nat),
        decreases exports.len() - i,
    {
        if i != root && is_owned(exports, root, i) {
            moved.push(i);
        }
        assert(moved@ =~= seq![root] + owned_below(table, root as int, (i + 1) as nat));
        i += 1;
    }
    moved
}

/// Where `position` stands among the moved exports.
pub fn find_place(moved: &Vec<usize>, position: usize) -> (found: Option<usize>)
    ensures
        match found {
            Some(k) => place_of(moved@, position as int) == Some(k as int) && k < moved.len(),
            None => place_of(moved@, position as int).is_none(),
        },
{
    let mut k: usize = 0;
    while k < moved.len()
        invariant
            k <= moved.len(),
            forall|j: int| 0 <= j < k ==> #[trigger] moved[j] != position,
        decreases moved.len() - k,
    {
        if moved[k] == position {
            proof {
                lemma_place_of(moved@, position as int);
            }
            return Some(k);
        }
        k += 1;
    }
    proof {
        lemma_place_of(moved@, position as int);
    }
    None
}

/// Points a reference to an export of the donor at the new position of that
/// export, or nowhere where the export does not move.
pub fn place(moved: &Vec<usize>, base: usize, r: Reference) -> (out: Reference)
    requires
        base + moved.len() <= i32::MAX,
    ensures
        out == placed(moved@, base as int, r),
{
    if r.index > 0 {
        match find_place(moved, (r.index - 1) as usize) {
            Some(k) => Reference { index: (base + k) as i32 + 1 },
            None => Reference { index: 0 },
        }
    } else {
        Reference { index: 0 }
    }
}

} // verus!
