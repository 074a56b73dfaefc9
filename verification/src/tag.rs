//! The one-byte item tags of the preorder expression encoding.
//!
//! An encoded expression is a preorder walk in which every node starts with
//! one tag byte. The top two bits name the kind of item and the low six bits
//! carry its field, so symbol sizes, arities and variable references all fit
//! in 63.
use vstd::prelude::*;

verus! {

/// The six-bit `SymbolSize`/`Arity` fields cap symbol length and arity at 63.
pub const MAX_FIELD: usize = 63;

/// One item of the encoding.
#[derive(Clone, Copy, Debug, PartialEq, Eq, Structural)]
pub enum Tag {
    /// The first occurrence of a variable.
    NewVar,
    /// A later occurrence of the variable with the given introduction number.
    VarRef(u8),
    /// A symbol whose payload is the given number of bytes.
    SymbolSize(u8),
    /// An expression with the given number of children.
    Arity(u8),
}

impl Tag {
    /// Whether the tag's field fits its six bits. A symbol holds at least one
    /// byte: the all-zero symbol size is the code of `NewVar`.
    pub open spec fn fits(self) -> bool {
        match self {
            Tag::NewVar => true,
            Tag::VarRef(i) => i <= 63,
            Tag::SymbolSize(s) => 1 <= s <= 63,
            Tag::Arity(a) => a <= 63,
        }
    }
}

/// The byte of a tag.
pub open spec fn tag_byte(tag: Tag) -> u8 {
    match tag {
        Tag::NewVar => 0xc0,
        Tag::VarRef(i) => (0x80 + i) as u8,
        Tag::SymbolSize(s) => (0xc0 + s) as u8,
        Tag::Arity(a) => a,
    }
}

/// The tag of a byte; `None` for the reserved bytes `0x40..=0x7f`.
pub open spec fn byte_tag(b: u8) -> Option<Tag> {
    if b < 0x40 {
        Some(Tag::Arity(b))
    } else if b < 0x80 {
        None
    } else if b < 0xc0 {
        Some(Tag::VarRef((b - 0x80) as u8))
    } else if b == 0xc0 {
        Some(Tag::NewVar)
    } else {
        Some(Tag::SymbolSize((b - 0xc0) as u8))
    }
}

/// A tag whose field fits survives the trip through its byte.
pub proof fn tag_survives_its_byte(tag: Tag)
    requires
        tag.fits(),
    ensures
        byte_tag(tag_byte(tag)) == Some(tag),
{
}

/// A byte that carries a tag is the byte of that tag, and the tag's field fits.
pub proof fn byte_survives_its_tag(b: u8)
    requires
        byte_tag(b) is Some,
    ensures
        byte_tag(b)->0.fits(),
        tag_byte(byte_tag(b)->0) == b,
{
}

/// Encodes a tag.
pub fn item_byte(tag: Tag) -> (b: u8)
    requires
        tag.fits(),
    ensures
        b == tag_byte(tag),
{
    match tag {
        Tag::NewVar => 0xc0,
        Tag::VarRef(i) => 0x80 + i,
        Tag::SymbolSize(s) => 0xc0 + s,
        Tag::Arity(a) => a,
    }
}

/// Decodes a tag byte; a reserved byte has no tag.
pub fn maybe_byte_item(b: u8) -> (tag: Option<Tag>)
    ensures
        tag == byte_tag(b),
{
    if b < 0x40 {
        Some(Tag::Arity(b))
    } else if b < 0x80 {
        None
    } else if b < 0xc0 {
        Some(Tag::VarRef(b - 0x80))
    } else if b == 0xc0 {
        Some(Tag::NewVar)
    } else {
        Some(Tag::SymbolSize(b - 0xc0))
    }
}

/// The codes of the items: the top two bits name the kind, and the low six bits carry
/// the field. A byte whose top bits are `01` is no item.
pub proof fn items_have_their_codes(n: u8)
    ensures
        tag_byte(Tag::NewVar) == 0b1100_0000u8,
        n <= 63 ==> tag_byte(Tag::VarRef(n)) == 0b1000_0000u8 + n,
        1 <= n <= 63 ==> tag_byte(Tag::SymbolSize(n)) == 0b1100_0000u8 + n,
        n <= 63 ==> tag_byte(Tag::Arity(n)) == n,
        byte_tag(n) is None <==> 0b0100_0000u8 <= n <= 0b0111_1111u8,
{
}

} // verus!
