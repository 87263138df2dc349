//! Kinds of containers and widths of the vectors they hold.
use vstd::prelude::*;

use crate::layout::{HEADER_WORDS, QUANTUM_WORDS};

verus! {

/// What a record contains.
///
/// The code under which a kind is stored is [`ContainerKind::to_u8`]; a cast
/// with `as` gives another number.
#[derive(Clone, Copy, Debug, PartialEq, Eq, Hash, Structural)]
pub enum ContainerKind {
    /// One quantum: pure XOR Hamming content. A record of a 16K vector is
    /// stored under this kind too; its content fills two quanta.
    Mono,
    /// Two quanta: XOR content and a dense embedding of 1024 signed bytes.
    Dense,
    /// Three quanta: the holographic dimensions X, Y and Z.
    Holo,
}

/// The width of the vector from which a record was made.
///
/// The tag under which a width is stored is [`WidthVariant::to_u8`].
#[derive(Clone, Copy, Debug, PartialEq, Eq, Hash, Structural)]
pub enum WidthVariant {
    /// 10K bits (157 words: one quantum and 29 words more).
    W10K,
    /// 16K bits (256 words: two quanta).
    W16K,
    /// 32K bits (512 words: four quanta).
    W32K,
}

impl ContainerKind {
    /// The discriminant under which the kind is stored.
    pub open spec fn code(self) -> u8 {
        match self {
            ContainerKind::Mono => 1,
            ContainerKind::Dense => 2,
            ContainerKind::Holo => 3,
        }
    }

    /// The kind stored under a discriminant, if there is one.
    pub open spec fn of_code(v: u8) -> Option<ContainerKind> {
        if v == 1 {
            Some(ContainerKind::Mono)
        } else if v == 2 {
            Some(ContainerKind::Dense)
        } else if v == 3 {
            Some(ContainerKind::Holo)
        } else {
            None
        }
    }

    /// Content quanta of a record of this kind.
    pub open spec fn spec_quanta(self) -> nat {
        match self {
            ContainerKind::Mono => 1,
            ContainerKind::Dense => 2,
            ContainerKind::Holo => 3,
        }
    }

    /// Content words of a record of this kind.
    pub open spec fn spec_content_words(self) -> nat {
        self.spec_quanta() * QUANTUM_WORDS as nat
    }

    /// Number of content quanta for this kind.
    pub fn quanta(self) -> (r: usize)
        ensures
            r == self.spec_quanta(),
    {
        match self {
            ContainerKind::Mono => 1,
            ContainerKind::Dense => 2,
            ContainerKind::Holo => 3,
        }
    }

    /// Content words, without the header.
    pub fn content_words(self) -> (r: usize)
        ensures
            r == self.spec_content_words(),
    {
        self.quanta() * QUANTUM_WORDS
    }

    /// Words of the whole record: header and content.
    pub fn total_words(self) -> (r: usize)
        ensures
            r == HEADER_WORDS + self.spec_content_words(),
    {
        HEADER_WORDS + self.content_words()
    }

    /// Bytes of the whole record.
    pub fn total_bytes(self) -> (r: usize)
        ensures
            r == 8 * (HEADER_WORDS + self.spec_content_words()),
    {
        self.total_words() * 8
    }

    /// The kind with this discriminant.
    pub fn from_u8(v: u8) -> (r: Option<Self>)
        ensures
            r == ContainerKind::of_code(v),
            r == Some(ContainerKind::Mono) <==> v == 1,
            r == Some(ContainerKind::Dense) <==> v == 2,
            r == Some(ContainerKind::Holo) <==> v == 3,
    {
        match v {
            1 => Some(ContainerKind::Mono),
            2 => Some(ContainerKind::Dense),
            3 => Some(ContainerKind::Holo),
            _ => None,
        }
    }

    /// The discriminant of the kind.
    pub fn to_u8(self) -> (r: u8)
        ensures
            r == self.code(),
    {
        match self {
            ContainerKind::Mono => 1,
            ContainerKind::Dense => 2,
            ContainerKind::Holo => 3,
        }
    }
}

impl WidthVariant {
    /// The tag under which the width is stored.
    pub open spec fn code(self) -> u8 {
        match self {
            WidthVariant::W10K => 0,
            WidthVariant::W16K => 1,
            WidthVariant::W32K => 2,
        }
    }

    /// The width stored under a tag, if there is one.
    pub open spec fn of_code(v: u8) -> Option<WidthVariant> {
        if v == 0 {
            Some(WidthVariant::W10K)
        } else if v == 1 {
            Some(WidthVariant::W16K)
        } else if v == 2 {
            Some(WidthVariant::W32K)
        } else {
            None
        }
    }

    /// The tag of the width.
    pub fn to_u8(self) -> (r: u8)
        ensures
            r == self.code(),
    {
        match self {
            WidthVariant::W10K => 0,
            WidthVariant::W16K => 1,
            WidthVariant::W32K => 2,
        }
    }
}

/// The discriminant of a kind is the number of its quanta, one to three, and
/// its content has 128 words for each.
pub proof fn law_kind_sizes(kind: ContainerKind)
    ensures
        kind is Mono <==> kind.code() == 1,
        kind is Dense <==> kind.code() == 2,
        kind is Holo <==> kind.code() == 3,
        kind.spec_quanta() == kind.code(),
        kind.spec_content_words() == 128 * kind.code(),
{
}

/// A discriminant stands for a kind exactly where it is that kind's own.
pub proof fn law_kind_code(v: u8, kind: ContainerKind)
    ensures
        ContainerKind::of_code(v) == Some(kind) <==> v == kind.code(),
{
}

/// The tags of the widths count up from zero in the order of the widths.
pub proof fn law_width_tags(width: WidthVariant)
    ensures
        width is W10K <==> width.code() == 0,
        width is W16K <==> width.code() == 1,
        width is W32K <==> width.code() == 2,
{
}

/// A tag stands for a width exactly where it is that width's own.
pub proof fn law_width_code(v: u8, width: WidthVariant)
    ensures
        WidthVariant::of_code(v) == Some(width) <==> v == width.code(),
{
}

} // verus!
