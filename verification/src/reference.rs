//! References: signed indices into the export and import tables.
use vstd::prelude::*;

verus! {

/// What a [`Reference`] selects, with the table named rather than encoded in
/// a sign.
#[derive(Clone, Copy, Debug, PartialEq, Eq, Structural)]
pub enum Target {
    /// Nothing.
    Null,
    /// The export at this position, counted from zero.
    Export(usize),
    /// The import at this position, counted from zero.
    Import(usize),
}

/// A signed index into the two object tables of a package.
///
/// Zero is null. A positive value `n` selects the export at position `n - 1`,
/// a negative value `n` the import at position `-n - 1`.
#[derive(Clone, Copy, Debug, PartialEq, Eq, Structural)]
pub struct Reference {
    pub index: i32,
}

impl Reference {
    pub open spec fn spec_is_null(self) -> bool {
        self.index == 0
    }

    pub open spec fn spec_is_export(self) -> bool {
        self.index > 0
    }

    pub open spec fn spec_is_import(self) -> bool {
        self.index < 0
    }

    /// The position, counted from zero, in the table that the reference
    /// selects. Meaningless for the null reference.
    pub open spec fn position(self) -> int {
        if self.index > 0 {
            self.index - 1
        } else {
            -self.index - 1
        }
    }

    pub open spec fn spec_target(self) -> Target {
        if self.index == 0 {
            Target::Null
        } else if self.index > 0 {
            Target::Export(self.position() as usize)
        } else {
            Target::Import(self.position() as usize)
        }
    }

    /// The reference to the export at `position`.
    pub open spec fn to_export(position: int) -> Reference {
        Reference { index: (position + 1) as i32 }
    }

    /// The reference to the import at `position`.
    pub open spec fn to_import(position: int) -> Reference {
        Reference { index: (-position - 1) as i32 }
    }

    /// Whether the reference is null or selects a slot of tables with
    /// `exports` exports and `imports` imports.
    pub open spec fn resolves(self, exports: nat, imports: nat) -> bool {
        &&& self.index > 0 ==> self.position() < exports
        &&& self.index < 0 ==> self.position() < imports
    }

    pub fn new(index: i32) -> (r: Reference)
        ensures
            r.index == index,
    {
        Reference { index }
    }

    pub fn null() -> (r: Reference)
        ensures
            r.index == 0,
    {
        Reference { index: 0 }
    }

    #[verifier::when_used_as_spec(spec_is_null)]
    pub fn is_null(self) -> (b: bool)
        ensures
            b == self.spec_is_null(),
    {
        self.index == 0
    }

    #[verifier::when_used_as_spec(spec_is_export)]
    pub fn is_export(self) -> (b: bool)
        ensures
            b == self.spec_is_export(),
    {
        self.index > 0
    }

    #[verifier::when_used_as_spec(spec_is_import)]
    pub fn is_import(self) -> (b: bool)
        ensures
            b == self.spec_is_import(),
    {
        self.index < 0
    }

    /// Reads the sign convention once, so that callers need not.
    #[verifier::when_used_as_spec(spec_target)]
    pub fn target(self) -> (t: Target)
        ensures
            t == self.spec_target(),
    {
        if self.index == 0 {
            Target::Null
        } else if self.index > 0 {
            Target::Export((self.index - 1) as usize)
        } else {
            Target::Import((-(self.index + 1)) as usize)
        }
    }

    /// The reference to the export at `position`, if a reference can hold it.
    pub fn export(position: usize) -> (r: Option<Reference>)
        ensures
            r.is_some() <==> position < i32::MAX,
            r.is_some() ==> r.unwrap() == Reference::to_export(position as int),
            r.is_some() ==> r.unwrap().target() == Target::Export(position),
    {
        if position < i32::MAX as usize {
            Some(Reference { index: position as i32 + 1 })
        } else {
            None
        }
    }

    /// The reference to the import at `position`, if a reference can hold it.
    pub fn import(position: usize) -> (r: Option<Reference>)
        ensures
            r.is_some() <==> position <= i32::MAX,
            r.is_some() ==> r.unwrap() == Reference::to_import(position as int),
            r.is_some() ==> r.unwrap().target() == Target::Import(position),
    {
        if position <= i32::MAX as usize {
            Some(Reference { index: -(position as i32) - 1 })
        } else {
            None
        }
    }

    /// Whether the reference is null or selects a slot of tables with
    /// `exports` exports and `imports` imports.
    pub fn resolves_in(self, exports: usize, imports: usize) -> (sound: bool)
        ensures
            sound == self.resolves(exports as nat, imports as nat),
    {
        if self.index > 0 {
            ((self.index - 1) as usize) < exports
        } else if self.index < 0 {
            ((-(self.index + 1)) as usize) < imports
        } else {
            true
        }
    }
}

/// Turning a position into a reference and reading the reference back gives
/// the position again, for every position a reference can hold.
pub proof fn lemma_reference_round_trip(position: int)
    requires
        0 <= position < i32::MAX,
    ensures
        Reference::to_export(position).is_export(),
        Reference::to_export(position).position() == position,
        Reference::to_import(position).is_import(),
        Reference::to_import(position).position() == position,
{
}

} // verus!
