//! Address arithmetic of the SV39 memory checks: page numbers, offsets, and
//! the permission bits of a page-table entry that the page-table walk found.
use vstd::prelude::*;

verus! {

/// Bytes per page.
pub const PAGE_SIZE: u64 = 4096;

/// Entry bit: the entry is valid.
pub const PTE_V: u64 = 1;
/// Entry bit: the page is readable.
pub const PTE_R: u64 = 2;
/// Entry bit: the page is writable.
pub const PTE_W: u64 = 4;
/// Entry bit: the page is executable.
pub const PTE_X: u64 = 8;
/// Entry bit: the page is accessible from user mode.
pub const PTE_U: u64 = 16;

/// An SV39 page-table entry: permission bits in bits 0..8, the physical
/// page number in bits 10..54.
#[derive(Clone, Copy, PartialEq, Eq, Debug)]
pub struct PageTableEntry {
    pub bits: u64,
}

/// The physical page number held in the entry bits.
pub open spec fn ppn_of(bits: u64) -> nat {
    (bits as nat / 1024) % 0x1000_0000_0000
}

impl PageTableEntry {
    /// The physical page number of the entry.
    pub fn ppn(&self) -> (p: u64)
        ensures
            p == ppn_of(self.bits),
            p == (self.bits / 1024) % 0x1000_0000_0000,
            p < 0x1000_0000_0000,
    {
        let b = self.bits;
        let p = (b >> 10) & 0xfff_ffff_ffff;
        assert(p == (b / 1024) % 0x1000_0000_0000 && p < 0x1000_0000_0000) by (bit_vector)
            requires
                p == (b >> 10) & 0xfff_ffff_ffff,
        ;
        p
    }

    /// Whether every bit of `flag` is set in the entry.
    pub fn contains(&self, flag: u64) -> (c: bool)
        ensures
            c == (self.bits & flag == flag),
    {
        self.bits & flag == flag
    }
}

/// The virtual page number of `va`: the address cut to its 39 SV39 bits, divided by the page size.
pub open spec fn vpn_of(va: u64) -> nat {
    (va as nat % 0x80_0000_0000) / 4096
}

/// The virtual page number of `va`, the page that the page-table walk translates.
pub fn floor_vpn(va: u64) -> (vpn: u64)
    ensures
        vpn == vpn_of(va),
        vpn == (va % 0x80_0000_0000) / 4096,
{
    let r = (va & 0x7f_ffff_ffff) >> 12;
    assert(r == (va % 0x80_0000_0000) / 4096) by (bit_vector)
        requires
            r == (va & 0x7f_ffff_ffff) >> 12,
    ;
    r
}

/// The offset of `va` inside its page.
pub fn page_offset(va: u64) -> (off: u64)
    ensures
        off == va % 4096,
{
    let r = va & 0xfff;
    assert(r == va % 4096) by (bit_vector)
        requires
            r == va & 0xfff,
    ;
    r
}

/// A page number times the page size plus an offset inside the page splits
/// back into that page number and that offset.
proof fn lemma_page_split(ppn: int, off: int)
    requires
        0 <= ppn,
        0 <= off < 4096,
    ensures
        (ppn * 4096 + off) % 4096 == off,
        (ppn * 4096 + off) / 4096 == ppn,
{
    vstd::arithmetic::div_mod::lemma_fundamental_div_mod_converse(ppn * 4096 + off, 4096, ppn, off);
}

/// The physical address of `va`, given the page-table entry of its page:
/// the entry's page number times the page size, plus the offset of `va`.
pub fn translate_ptr(va: u64, pte: Option<PageTableEntry>) -> (pa: u64)
    requires
        pte is Some,
    ensures
        pa == ppn_of(pte->0.bits) * 4096 + va % 4096,
        pa % 4096 == va % 4096,
        pa / 4096 == (pte->0.bits / 1024) % 0x1000_0000_0000,
{
    let entry = pte.unwrap();
    let ppn = entry.ppn();
    let offset = page_offset(va);
    proof {
        lemma_page_split(ppn as int, offset as int);
    }
    ppn * PAGE_SIZE + offset
}

/// Whether the entry exists and allows reading.
pub fn is_readable(pte: Option<PageTableEntry>) -> (r: bool)
    ensures
        r == (pte matches Some(e) && e.bits & PTE_R == PTE_R),
        r == (pte is Some && pte->0.bits & 2 == 2),
{
    match pte {
        Some(e) => e.contains(PTE_R),
        None => false,
    }
}

/// Whether the entry exists and allows writing.
pub fn is_writable(pte: Option<PageTableEntry>) -> (r: bool)
    ensures
        r == (pte matches Some(e) && e.bits & PTE_W == PTE_W),
        r == (pte is Some && pte->0.bits & 4 == 4),
{
    match pte {
        Some(e) => e.contains(PTE_W),
        None => false,
    }
}

/// Whether the entry exists and allows access from user mode.
pub fn is_user_accessable(pte: Option<PageTableEntry>) -> (r: bool)
    ensures
        r == (pte matches Some(e) && e.bits & PTE_U == PTE_U),
        r == (pte is Some && pte->0.bits & 16 == 16),
{
    match pte {
        Some(e) => e.contains(PTE_U),
        None => false,
    }
}

} // verus!
