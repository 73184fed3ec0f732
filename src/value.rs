use vstd::prelude::*;

verus! {

/// Tags at or above this one mark blocks whose fields are raw words that the
/// collector does not scan.
pub const NO_SCAN_TAG: u8 = 251;

/// Tag of a byte-string block.
pub const STRING_TAG: u8 = 252;

/// Tag of a boxed float block.
pub const DOUBLE_TAG: u8 = 253;

/// Tag of a custom block (field 0 is the address of its operations table).
pub const CUSTOM_TAG: u8 = 255;

/// Number of bytes in a word.
pub const WORD_BYTES: u64 = 8;

/// Largest field count that a header can hold.
pub const MAX_BLOCK_SIZE: u64 = 0x3f_ffff_ffff_ffff;

pub const TWO_POW_62: u64 = 0x4000_0000_0000_0000;

pub const TWO_POW_63: u64 = 0x8000_0000_0000_0000;

/// The integer that an immediate with these bits stands for: the bits read as
/// a signed word, shifted right by one.
pub open spec fn immediate_of(bits: u64) -> int {
    if bits < (TWO_POW_63 as int) {
        bits as int / 2
    } else {
        bits as int / 2 - (TWO_POW_63 as int)
    }
}

/// `i` brought into the immediate range [-2^62, 2^62) by dropping its most
/// significant bit, as the tagged representation does.
pub open spec fn wrap_immediate(i: int) -> int {
    let m = i % (TWO_POW_63 as int);
    if m < (TWO_POW_62 as int) {
        m
    } else {
        m - (TWO_POW_63 as int)
    }
}

pub open spec fn in_immediate_range(i: int) -> bool {
    -(TWO_POW_62 as int) <= i < (TWO_POW_62 as int)
}

/// One word of the foreign runtime's value representation: an immediate
/// integer when the lowest bit is set, otherwise a pointer to the first field
/// of a block, whose header is the word before it.
#[derive(Clone, Copy, PartialEq, Eq, Structural, Debug, Hash)]
pub struct Value(pub u64);

impl Value {
    pub open spec fn spec_is_int(self) -> bool {
        self.0 % 2 == 1
    }

    pub open spec fn spec_int_value(self) -> int {
        immediate_of(self.0)
    }

    /// The immediate integer `i`; outside [-2^62, 2^62) the most significant
    /// bit is lost.
    pub fn from_int(i: i64) -> (r: Value)
        ensures
            r.spec_is_int(),
            r.spec_int_value() == wrap_immediate(i as int),
    {
        let m: u64 = if i >= 0 {
            (i as u64) % 0x8000_0000_0000_0000
        } else {
            (i + 0x7fff_ffff_ffff_ffff + 1) as u64
        };
        assert(m < TWO_POW_63);
        proof {
            if i < 0 {
                assert((i as int + (TWO_POW_63 as int)) % (TWO_POW_63 as int) == (i as int) % (TWO_POW_63 as int)) by {
                    vstd::arithmetic::div_mod::lemma_mod_add_multiples_vanish(i as int, (TWO_POW_63 as int));
                }
                assert((i as int + (TWO_POW_63 as int)) % (TWO_POW_63 as int) == i as int + (TWO_POW_63 as int)) by {
                    vstd::arithmetic::div_mod::lemma_small_mod((i as int + (TWO_POW_63 as int)) as nat, TWO_POW_63 as nat);
                }
            }
        }
        Value(2 * m + 1)
    }

    pub fn is_int(self) -> (r: bool)
        ensures
            r == self.spec_is_int(),
    {
        self.0 % 2 == 1
    }

    pub fn is_block(self) -> (r: bool)
        ensures
            r == !self.spec_is_int(),
    {
        self.0 % 2 == 0
    }

    /// The immediate integer, or `None` for a pointer.
    pub fn as_int(self) -> (r: Option<i64>)
        ensures
            self.spec_is_int() ==> r == Some(self.spec_int_value() as i64),
            !self.spec_is_int() ==> r.is_none(),
            self.spec_is_int() ==> in_immediate_range(self.spec_int_value()),
    {
        if self.0 % 2 == 1 {
            if self.0 < 0x8000_0000_0000_0000 {
                Some((self.0 / 2) as i64)
            } else {
                Some((self.0 / 2) as i64 - 0x7fff_ffff_ffff_ffff - 1)
            }
        } else {
            None
        }
    }

    pub fn from_bits(bits: u64) -> (r: Value)
        ensures
            r.0 == bits,
    {
        Value(bits)
    }

    pub fn to_bits(self) -> (r: u64)
        ensures
            r == self.0,
    {
        self.0
    }
}

/// The header word of a block: its field count and its tag (color bits zero).
pub open spec fn header_bits(size: int, tag: u8) -> int {
    size * 1024 + tag
}

pub open spec fn header_size(h: u64) -> int {
    h as int / 1024
}

pub open spec fn header_tag(h: u64) -> u8 {
    (h as int % 256) as u8
}

pub fn make_header(size: u64, tag: u8) -> (r: u64)
    requires
        size <= MAX_BLOCK_SIZE,
    ensures
        r == header_bits(size as int, tag),
        header_size(r) == size,
        header_tag(r) == tag,
{
    proof {
        assert(size * 1024 <= MAX_BLOCK_SIZE * 1024) by (nonlinear_arith)
            requires
                size <= MAX_BLOCK_SIZE,
        ;
        let h = size * 1024 + tag;
        vstd::arithmetic::div_mod::lemma_fundamental_div_mod_converse(h, 1024, size as int, tag as int);
        vstd::arithmetic::div_mod::lemma_fundamental_div_mod_converse(h, 256, size * 4, tag as int);
    }
    size * 1024 + tag as u64
}

pub fn header_size_of(h: u64) -> (r: u64)
    ensures
        r == header_size(h),
{
    h / 1024
}

pub fn header_tag_of(h: u64) -> (r: u8)
    ensures
        r == header_tag(h),
{
    (h % 256) as u8
}

} // verus!

verus! {

/// Wrapping leaves an integer of the immediate range unchanged.
pub proof fn lemma_wrap_in_range(i: int)
    requires
        in_immediate_range(i),
    ensures
        wrap_immediate(i) == i,
{
    if i < 0 {
        vstd::arithmetic::div_mod::lemma_mod_add_multiples_vanish(i, TWO_POW_63 as int);
        vstd::arithmetic::div_mod::lemma_small_mod((i + TWO_POW_63 as int) as nat, TWO_POW_63 as nat);
    } else {
        vstd::arithmetic::div_mod::lemma_small_mod(i as nat, TWO_POW_63 as nat);
    }
}

} // verus!

