//! The head of a variable-length value: what its first bytes say of its
//! form and of its size.
//!
//! The head is read from memory elsewhere; here it is a number.
use vstd::prelude::*;

verus! {

/// The size that a four-byte head gives: its upper thirty bits.
pub fn varsize_4b(header: u32) -> (r: usize)
    ensures
        r == (header as int / 4) % 0x4000_0000,
{
    let size = (header >> 2) & 0x3FFF_FFFF;
    assert(size == (header / 4) % 0x4000_0000) by (bit_vector)
        requires
            size == (header >> 2) & 0x3FFF_FFFF,
    ;
    size as usize
}

/// The size that a one-byte head gives: its upper seven bits.
pub fn varsize_1b(header: u8) -> (r: usize)
    ensures
        r == header as int / 2,
{
    let size = (header >> 1) & 0x7F;
    assert(size == header / 2) by (bit_vector)
        requires
            size == (header >> 1) & 0x7F,
    ;
    size as usize
}

/// The size of a value with a four-byte head.
pub fn varsize(header: u32) -> (r: usize)
    ensures
        r == (header as int / 4) % 0x4000_0000,
{
    varsize_4b(header)
}

/// Whether the head is four bytes long: its lowest bit is clear.
pub fn varatt_is_4b(header: u8) -> (r: bool)
    ensures
        r == (header as int % 2 == 0),
{
    let low = header & 0x01;
    assert(low == header % 2) by (bit_vector)
        requires
            low == header & 0x01,
    ;
    low == 0x00
}

/// Whether the head is four bytes long and the value is not compressed:
/// its two lowest bits are clear.
pub fn varatt_is_4b_u(header: u8) -> (r: bool)
    ensures
        r == (header as int % 4 == 0),
{
    let low = header & 0x03;
    assert(low == header % 4) by (bit_vector)
        requires
            low == header & 0x03,
    ;
    low == 0x00
}

/// Whether the head is four bytes long and the value is compressed: of its
/// two lowest bits the upper one is set.
pub fn varatt_is_b8_c(header: u8) -> (r: bool)
    ensures
        r == (header as int % 4 == 2),
{
    let low = header & 0x03;
    assert(low == header % 4) by (bit_vector)
        requires
            low == header & 0x03,
    ;
    low == 0x02
}

/// Whether the head is one byte long: its lowest bit is set.
pub fn varatt_is_1b(header: u8) -> (r: bool)
    ensures
        r == (header as int % 2 == 1),
{
    let low = header & 0x01;
    assert(low == header % 2) by (bit_vector)
        requires
            low == header & 0x01,
    ;
    low == 0x01
}

/// Whether the value is kept elsewhere: the head is the number one.
pub fn varatt_is_1b_e(header: u8) -> (r: bool)
    ensures
        r == (header == 1),
{
    header == 0x01
}

/// The forms of a variable-length value.
#[derive(Debug, Clone, Copy, PartialEq, Eq)]
pub enum VarlenaForm {
    /// The value is kept elsewhere, and a tag follows the head.
    External,
    /// The head is one byte long.
    Short,
    /// The head is four bytes long.
    Long,
}

/// The form that the first byte of a value gives, which decides how its
/// size is read: for a value kept elsewhere from its tag, else from its
/// one-byte or its four-byte head.
pub fn varlena_form(first: u8) -> (r: VarlenaForm)
    ensures
        r == if first == 1 {
            VarlenaForm::External
        } else if first as int % 2 == 1 {
            VarlenaForm::Short
        } else {
            VarlenaForm::Long
        },
{
    if varatt_is_1b_e(first) {
        VarlenaForm::External
    } else if varatt_is_1b(first) {
        VarlenaForm::Short
    } else {
        VarlenaForm::Long
    }
}


/// The tags of values that are kept elsewhere, and for each what follows
/// it in size, as the host lays them out.
#[derive(Debug, Clone, Copy, PartialEq, Eq)]
pub struct VartagLayout {
    /// The tag of a value behind a pointer.
    pub indirect: u32,
    /// The tag of an expanded value that is only read. The tag of one that
    /// is written too is the next number.
    pub expanded_ro: u32,
    /// The tag of a value on disk.
    pub ondisk: u32,
    pub size_indirect: usize,
    pub size_expanded: usize,
    pub size_ondisk: usize,
}

/// The tag without its lowest bit is `expanded_ro`.
pub open spec fn is_expanded(tag: u32, expanded_ro: u32) -> bool {
    tag - tag % 2 == expanded_ro
}

/// The tag is one of those that the layout knows.
pub open spec fn is_known(tag: u32, layout: VartagLayout) -> bool {
    tag == layout.indirect || is_expanded(tag, layout.expanded_ro) || tag == layout.ondisk
}

/// Whether the tag is that of an expanded value, read or written.
pub fn vartag_is_expanded(tag: u32, expanded_ro: u32) -> (r: bool)
    ensures
        r == is_expanded(tag, expanded_ro),
{
    let even = tag & !1;
    assert(even == tag - tag % 2) by (bit_vector)
        requires
            even == tag & !1u32,
    ;
    even == expanded_ro
}

/// Whether the layout knows the tag.
pub fn vartag_is_known(tag: u32, layout: &VartagLayout) -> (r: bool)
    ensures
        r == is_known(tag, *layout),
{
    tag == layout.indirect || vartag_is_expanded(tag, layout.expanded_ro) || tag == layout.ondisk
}

/// The size of what follows the tag: that of a pointer for an indirect
/// value, else that of an expanded value, else that of a value on disk.
pub fn vartag_size(tag: u32, layout: &VartagLayout) -> (r: usize)
    requires
        is_known(tag, *layout),
    ensures
        r == if tag == layout.indirect {
            layout.size_indirect
        } else if is_expanded(tag, layout.expanded_ro) {
            layout.size_expanded
        } else {
            layout.size_ondisk
        },
{
    if tag == layout.indirect {
        layout.size_indirect
    } else if vartag_is_expanded(tag, layout.expanded_ro) {
        layout.size_expanded
    } else {
        layout.size_ondisk
    }
}

} // verus!
