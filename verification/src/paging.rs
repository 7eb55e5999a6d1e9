//! AArch64 stage-1 descriptor construction and fixed mapping records.
use vstd::prelude::*;
use crate::memory::PAGE_SIZE;

verus! {

pub const ENTRIES_PER_TABLE: usize = 512;

pub const USER_TOP: u64 = 0x0000_0080_0000_0000;

pub const DESCRIPTOR_VALID: u64 = 1;

pub const DESCRIPTOR_PAGE: u64 = 1 << 1;

pub const ACCESS_FLAG: u64 = 1 << 10;

pub const SH_INNER: u64 = 0b11 << 8;

pub const AP_READ_ONLY: u64 = 1 << 7;

pub const AP_USER: u64 = 1 << 6;

pub const ATTR_NORMAL: u64 = 1 << 2;

pub const PXN: u64 = 1 << 53;

pub const UXN: u64 = 1 << 54;

pub const OUTPUT_ADDRESS_MASK: u64 = 0x0000_ffff_ffff_f000;

#[derive(Clone, Copy, Debug, PartialEq, Eq, Structural)]
pub struct PagePermissions {
    pub writable: bool,
    pub executable: bool,
    pub user: bool,
    pub device: bool,
}

impl PagePermissions {
    /// User read/write data, never executable.
    pub fn user_data() -> (p: PagePermissions)
        ensures
            p == (PagePermissions { writable: true, executable: false, user: true, device: false }),
    {
        PagePermissions { writable: true, executable: false, user: true, device: false }
    }

    /// User code: read-only and executable.
    pub fn user_code() -> (p: PagePermissions)
        ensures
            p == (PagePermissions { writable: false, executable: true, user: true, device: false }),
    {
        PagePermissions { writable: false, executable: true, user: true, device: false }
    }

    /// Kernel read/write data, never executable.
    pub fn kernel_data() -> (p: PagePermissions)
        ensures
            p == (PagePermissions { writable: true, executable: false, user: false, device: false }),
    {
        PagePermissions { writable: true, executable: false, user: false, device: false }
    }
}

#[derive(Clone, Copy, Debug, PartialEq, Eq, Structural)]
pub enum MapError {
    Unaligned,
    InvalidAddress,
    WriteExecute,
    AlreadyMapped,
    MapFull,
}

#[derive(Clone, Copy, Debug, PartialEq, Eq, Structural)]
pub struct Mapping {
    pub virtual_address: u64,
    pub physical_address: u64,
    pub permissions: PagePermissions,
}

/// Why a mapping is refused by the policy on its own, if it is.
pub open spec fn mapping_policy(mapping: Mapping) -> Result<(), MapError> {
    if mapping.virtual_address % 4096 != 0 || mapping.physical_address % 4096 != 0 {
        Err(MapError::Unaligned)
    } else if mapping.virtual_address >= USER_TOP && mapping.permissions.user {
        Err(MapError::InvalidAddress)
    } else if mapping.permissions.writable && mapping.permissions.executable {
        Err(MapError::WriteExecute)
    } else {
        Ok(())
    }
}

/// The mathematical state of an address space: its fixed table of mapping records.
#[verifier::ext_equal]
pub struct MapState {
    pub entries: Seq<Option<Mapping>>,
}

impl MapState {
    /// Entry `i` records a mapping of `virtual_address`.
    pub open spec fn maps_at(self, i: int, virtual_address: u64) -> bool {
        self.entries[i] is Some && self.entries[i].unwrap().virtual_address == virtual_address
    }

    /// Some entry records a mapping of `virtual_address`.
    pub open spec fn is_mapped(self, virtual_address: u64) -> bool {
        exists|i: int| 0 <= i < self.entries.len() && #[trigger] self.maps_at(i, virtual_address)
    }

    /// `i` is the first entry recording a mapping of `virtual_address`.
    pub open spec fn is_first_match(self, i: int, virtual_address: u64) -> bool {
        &&& 0 <= i < self.entries.len()
        &&& self.maps_at(i, virtual_address)
        &&& forall|j: int| 0 <= j < i ==> !#[trigger] self.maps_at(j, virtual_address)
    }

    /// The mapping recorded for `virtual_address`, taken from the first matching entry.
    pub open spec fn lookup(self, virtual_address: u64) -> Option<Mapping> {
        if self.is_mapped(virtual_address) {
            self.entries[choose|i: int| self.is_first_match(i, virtual_address)]
        } else {
            None
        }
    }

    /// `i` is the first empty entry.
    pub open spec fn is_first_empty(self, i: int) -> bool {
        &&& 0 <= i < self.entries.len()
        &&& self.entries[i] is None
        &&& forall|j: int| 0 <= j < i ==> #[trigger] self.entries[j] is Some
    }

    /// Some entry is empty.
    pub open spec fn has_empty(self) -> bool {
        exists|i: int| 0 <= i < self.entries.len() && #[trigger] self.entries[i] is None
    }

    /// Record a mapping that the policy accepts, for a virtual address not mapped yet, in
    /// the first empty entry.
    pub open spec fn map(self, mapping: Mapping) -> (MapState, Result<(), MapError>) {
        match mapping_policy(mapping) {
            Err(e) => (self, Err(e)),
            Ok(_) => if self.is_mapped(mapping.virtual_address) {
                (self, Err(MapError::AlreadyMapped))
            } else if !self.has_empty() {
                (self, Err(MapError::MapFull))
            } else {
                (
                    MapState {
                        entries: self.entries.update(
                            choose|i: int| self.is_first_empty(i),
                            Some(mapping),
                        ),
                    },
                    Ok(()),
                )
            },
        }
    }

    /// Every recorded mapping satisfies the policy (alignment, user range, W^X), and no
    /// virtual address is recorded twice.
    pub open spec fn well_formed(self) -> bool {
        &&& forall|i: int|
            0 <= i < self.entries.len() && (#[trigger] self.entries[i]) is Some ==> mapping_policy(
                self.entries[i].unwrap(),
            ) is Ok
        &&& forall|i: int, j: int|
            0 <= i < self.entries.len() && 0 <= j < self.entries.len() && i != j
                && (#[trigger] self.entries[i]) is Some && (#[trigger] self.entries[j]) is Some
                ==> self.entries[i].unwrap().virtual_address
                != self.entries[j].unwrap().virtual_address
    }
}

proof fn lemma_first_match_unique(s: MapState, i: int, virtual_address: u64)
    requires
        s.is_first_match(i, virtual_address),
    ensures
        s.is_mapped(virtual_address),
        (choose|k: int| s.is_first_match(k, virtual_address)) == i,
{
    let k = choose|k: int| s.is_first_match(k, virtual_address);
    assert(s.is_first_match(k, virtual_address));
    if k < i {
        assert(!s.maps_at(k, virtual_address));
    }
    if i < k {
        assert(!s.maps_at(i, virtual_address));
    }
}

proof fn lemma_first_empty_unique(s: MapState, i: int)
    requires
        s.is_first_empty(i),
    ensures
        s.has_empty(),
        (choose|k: int| s.is_first_empty(k)) == i,
{
    assert(s.entries[i] is None);
    let k = choose|k: int| s.is_first_empty(k);
    assert(s.is_first_empty(k));
    if k < i {
        assert(s.entries[k] is Some);
    }
    if i < k {
        assert(s.entries[i] is Some);
    }
}

/// Policy-level address-space map used before hardware-table materialization.
pub struct AddressSpace<const MAPPINGS: usize> {
    mappings: [Option<Mapping>; MAPPINGS],
}

impl<const MAPPINGS: usize> View for AddressSpace<MAPPINGS> {
    type V = MapState;

    closed spec fn view(&self) -> MapState {
        MapState { entries: self.mappings@ }
    }
}

impl<const MAPPINGS: usize> AddressSpace<MAPPINGS> {
    /// The recorded mappings are well formed.
    pub closed spec fn wf(&self) -> bool {
        self@.well_formed()
    }

    /// The model has `MAPPINGS` entries, and the internal invariant is exactly the model's
    /// well-formedness.
    pub proof fn lemma_view(&self)
        ensures
            self@.entries.len() == MAPPINGS,
            self.wf() == self@.well_formed(),
    {
    }

    pub fn new() -> (s: Self)
        ensures
            s.wf(),
            s@.entries.len() == MAPPINGS,
            forall|i: int| 0 <= i < MAPPINGS ==> (#[trigger] s@.entries[i]) is None,
    {
        Self { mappings: [None; MAPPINGS] }
    }

    pub fn map(&mut self, mapping: Mapping) -> (r: Result<(), MapError>)
        requires
            old(self).wf(),
        ensures
            final(self).wf(),
            final(self)@ == old(self)@.map(mapping).0,
            r == old(self)@.map(mapping).1,
    {
        if mapping.virtual_address % PAGE_SIZE != 0 || mapping.physical_address % PAGE_SIZE != 0 {
            return Err(MapError::Unaligned);
        }
        if mapping.virtual_address >= USER_TOP && mapping.permissions.user {
            return Err(MapError::InvalidAddress);
        }
        if mapping.permissions.writable && mapping.permissions.executable {
            return Err(MapError::WriteExecute);
        }
        let mut i: usize = 0;
        while i < MAPPINGS
            invariant
                i <= MAPPINGS,
                self == old(self),
                old(self).wf(),
                mapping_policy(mapping) is Ok,
                forall|j: int| 0 <= j < i ==> !#[trigger] self@.maps_at(j, mapping.virtual_address),
            decreases MAPPINGS - i,
        {
            if let Some(entry) = self.mappings[i] {
                if entry.virtual_address == mapping.virtual_address {
                    assert(self@.maps_at(i as int, mapping.virtual_address));
                    return Err(MapError::AlreadyMapped);
                }
            }
            i += 1;
        }
        assert(!self@.is_mapped(mapping.virtual_address));
        let mut k: usize = 0;
        while k < MAPPINGS
            invariant
                k <= MAPPINGS,
                self == old(self),
                old(self).wf(),
                mapping_policy(mapping) is Ok,
                !self@.is_mapped(mapping.virtual_address),
                forall|j: int| 0 <= j < k ==> #[trigger] self@.entries[j] is Some,
            decreases MAPPINGS - k,
        {
            if self.mappings[k].is_none() {
                proof {
                    lemma_first_empty_unique(self@, k as int);
                }
                self.mappings[k] = Some(mapping);
                proof {
                    assert(self@ =~= old(self)@.map(mapping).0);
                    let e = self@.entries;
                    assert forall|a: int, b: int|
                        0 <= a < e.len() && 0 <= b < e.len() && a != b && (#[trigger] e[a]) is Some
                            && (#[trigger] e[b]) is Some implies e[a].unwrap().virtual_address
                        != e[b].unwrap().virtual_address by {
                        if a == k {
                            assert(!old(self)@.maps_at(b, mapping.virtual_address));
                        } else if b == k {
                            assert(!old(self)@.maps_at(a, mapping.virtual_address));
                        }
                    }
                }
                return Ok(());
            }
            k += 1;
        }
        assert(!self@.has_empty());
        Err(MapError::MapFull)
    }

    pub fn mapping_at(&self, virtual_address: u64) -> (r: Option<Mapping>)
        ensures
            r == self@.lookup(virtual_address),
    {
        let mut i: usize = 0;
        while i < MAPPINGS
            invariant
                i <= MAPPINGS,
                forall|j: int| 0 <= j < i ==> !#[trigger] self@.maps_at(j, virtual_address),
            decreases MAPPINGS - i,
        {
            if let Some(entry) = self.mappings[i] {
                if entry.virtual_address == virtual_address {
                    proof {
                        lemma_first_match_unique(self@, i as int, virtual_address);
                    }
                    return Some(entry);
                }
            }
            i += 1;
        }
        None
    }
}

/// The right shift that selects a level's table index from a virtual address.
pub open spec fn level_shift(level: u8) -> u64 {
    (39 - 9 * (level as int)) as u64
}

/// The 9-bit table index of `virtual_address` at a level of the 4 KiB-granule walk
/// (level 0 uses bits 47..39, level 3 bits 20..12).
pub fn level_index(virtual_address: u64, level: u8) -> (r: Result<usize, MapError>)
    ensures
        level > 3 ==> r == Err::<usize, MapError>(MapError::InvalidAddress),
        level <= 3 ==> r == Ok::<usize, MapError>(
            ((virtual_address >> level_shift(level)) & 0x1ff) as usize,
        ),
        r is Ok ==> r.unwrap() < ENTRIES_PER_TABLE,
{
    let shift: u64 = match level {
        0 => 39,
        1 => 30,
        2 => 21,
        3 => 12,
        _ => return Err(MapError::InvalidAddress),
    };
    let index = (virtual_address >> shift) & 0x1ff;
    assert(index <= 0x1ff) by (bit_vector)
        requires
            index == (virtual_address >> shift) & 0x1ff,
    ;
    Ok(index as usize)
}

/// The attribute, access-permission and execute-never bits for a page's permissions.
pub open spec fn permission_bits(permissions: PagePermissions) -> u64 {
    permission_bits_of(
        permissions.writable,
        permissions.executable,
        permissions.user,
        permissions.device,
    )
}

/// The permission bits, taking each permission as a flag.
pub open spec fn permission_bits_of(writable: bool, executable: bool, user: bool, device: bool) -> u64 {
    (if device {
        0u64
    } else {
        ATTR_NORMAL | SH_INNER
    }) | (if writable {
        0u64
    } else {
        AP_READ_ONLY
    }) | (if user {
        AP_USER
    } else {
        0u64
    }) | (if !executable {
        PXN | UXN
    } else if user {
        PXN
    } else {
        UXN
    })
}

/// A valid level-3 page descriptor with the access flag set, the output address taken
/// from `physical_address`, and the bits for `permissions`.
pub open spec fn page_descriptor_bits(physical_address: u64, permissions: PagePermissions) -> u64 {
    (physical_address & OUTPUT_ADDRESS_MASK) | DESCRIPTOR_VALID | DESCRIPTOR_PAGE | ACCESS_FLAG
        | permission_bits(permissions)
}

pub fn page_descriptor(physical_address: u64, permissions: PagePermissions) -> (r: Result<
    u64,
    MapError,
>)
    ensures
        physical_address % 4096 != 0 ==> r == Err::<u64, MapError>(MapError::Unaligned),
        physical_address % 4096 == 0 && permissions.writable && permissions.executable ==> r
            == Err::<u64, MapError>(MapError::WriteExecute),
        physical_address % 4096 == 0 && !(permissions.writable && permissions.executable) ==> r
            == Ok::<u64, MapError>(page_descriptor_bits(physical_address, permissions)),
{
    if physical_address % PAGE_SIZE != 0 {
        return Err(MapError::Unaligned);
    }
    if permissions.writable && permissions.executable {
        return Err(MapError::WriteExecute);
    }
    let attributes = if permissions.device {
        0
    } else {
        ATTR_NORMAL | SH_INNER
    };
    let access = if permissions.writable {
        0
    } else {
        AP_READ_ONLY
    };
    let owner = if permissions.user {
        AP_USER
    } else {
        0
    };
    let execute = if !permissions.executable {
        PXN | UXN
    } else if permissions.user {
        PXN
    } else {
        UXN
    };
    Ok(
        (physical_address & OUTPUT_ADDRESS_MASK) | DESCRIPTOR_VALID | DESCRIPTOR_PAGE | ACCESS_FLAG
            | (attributes | access | owner | execute),
    )
}

/// When a virtual address is mapped, a first matching entry exists.
proof fn lemma_first_match_exists(s: MapState, i: int, virtual_address: u64)
    requires
        0 <= i < s.entries.len(),
        s.maps_at(i, virtual_address),
    ensures
        s.is_first_match(choose|k: int| s.is_first_match(k, virtual_address), virtual_address),
    decreases i,
{
    if forall|j: int| 0 <= j < i ==> !#[trigger] s.maps_at(j, virtual_address) {
        assert(s.is_first_match(i, virtual_address));
    } else {
        let j = choose|j: int| 0 <= j < i && #[trigger] s.maps_at(j, virtual_address);
        lemma_first_match_exists(s, j, virtual_address);
    }
}

proof fn lemma_first_empty_exists(s: MapState, i: int)
    requires
        0 <= i < s.entries.len(),
        s.entries[i] is None,
    ensures
        s.is_first_empty(choose|k: int| s.is_first_empty(k)),
    decreases i,
{
    if forall|j: int| 0 <= j < i ==> #[trigger] s.entries[j] is Some {
        assert(s.is_first_empty(i));
    } else {
        let j = choose|j: int| 0 <= j < i && #[trigger] s.entries[j] is None;
        lemma_first_empty_exists(s, j);
    }
}

/// The address space after mapping each of `mappings` in turn.
pub open spec fn map_all(s: MapState, mappings: Seq<Mapping>) -> MapState
    decreases mappings.len(),
{
    if mappings.len() == 0 {
        s
    } else {
        map_all(s.map(mappings[0]).0, mappings.drop_first())
    }
}

/// The mappings, of `mappings` mapped in turn from `s`, whose `map` succeeded, in order.
pub open spec fn accepted(s: MapState, mappings: Seq<Mapping>) -> Seq<Mapping>
    decreases mappings.len(),
{
    if mappings.len() == 0 {
        Seq::empty()
    } else {
        let rest = accepted(s.map(mappings[0]).0, mappings.drop_first());
        if s.map(mappings[0]).1 is Ok {
            seq![mappings[0]] + rest
        } else {
            rest
        }
    }
}

/// The first of `mappings` for `virtual_address`, if any.
pub open spec fn first_for(mappings: Seq<Mapping>, virtual_address: u64) -> Option<Mapping>
    decreases mappings.len(),
{
    if mappings.len() == 0 {
        None
    } else if mappings[0].virtual_address == virtual_address {
        Some(mappings[0])
    } else {
        first_for(mappings.drop_first(), virtual_address)
    }
}

/// Lookup over any history of `map` calls: after mapping a sequence of mappings in turn,
/// an address that was mapped before keeps its mapping, and any other address gives the
/// accepted mapping for it, or nothing. The accepted mappings are for distinct addresses
/// that were not mapped before, so each address has at most one, and the address space
/// stays well formed.
pub proof fn lemma_lookup_after_maps(s: MapState, mappings: Seq<Mapping>, virtual_address: u64)
    requires
        s.well_formed(),
    ensures
        map_all(s, mappings).well_formed(),
        map_all(s, mappings).entries.len() == s.entries.len(),
        map_all(s, mappings).lookup(virtual_address) == if s.lookup(virtual_address) is Some {
            s.lookup(virtual_address)
        } else {
            first_for(accepted(s, mappings), virtual_address)
        },
        forall|i: int|
            0 <= i < accepted(s, mappings).len() ==> s.lookup(
                (#[trigger] accepted(s, mappings)[i]).virtual_address,
            ) is None,
        forall|i: int, j: int|
            0 <= i < j < accepted(s, mappings).len() ==> (#[trigger] accepted(s, mappings)[i]).virtual_address
                != (#[trigger] accepted(s, mappings)[j]).virtual_address,
    decreases mappings.len(),
{
    if mappings.len() > 0 {
        let m0 = mappings[0];
        let rest = mappings.drop_first();
        let (s1, r) = s.map(m0);
        lemma_map_keeps_well_formed(s, m0);
        lemma_lookup_after_maps(s1, rest, virtual_address);
        let acc_rest = accepted(s1, rest);
        assert forall|a: u64| s1.lookup(a) is None implies #[trigger] s.lookup(a) is None by {
            lemma_lookup_after_maps(s1, rest, a);
            if r is Ok {
                lemma_map_then_lookup(s, m0, a);
            }
        }
        if r is Ok {
            let e = choose|i: int| 0 <= i < s.entries.len() && #[trigger] s.entries[i] is None;
            lemma_first_empty_exists(s, e);
            assert(!s.is_mapped(m0.virtual_address));
            assert(s.lookup(m0.virtual_address) is None);
            lemma_map_then_lookup(s, m0, virtual_address);
            let acc = accepted(s, mappings);
            assert(acc == seq![m0] + acc_rest);
            assert(acc.drop_first() =~= acc_rest);
            assert forall|i: int| 0 <= i < acc_rest.len() implies (#[trigger] acc_rest[i]).virtual_address
                != m0.virtual_address by {
                lemma_map_then_lookup(s, m0, acc_rest[i].virtual_address);
            }
            assert forall|i: int| 0 <= i < acc.len() implies s.lookup(
                (#[trigger] acc[i]).virtual_address,
            ) is None by {
                if i > 0 {
                    assert(acc[i] == acc_rest[i - 1]);
                    lemma_map_then_lookup(s, m0, acc_rest[i - 1].virtual_address);
                }
            }
            assert forall|i: int, j: int| 0 <= i < j < acc.len() implies (#[trigger] acc[i]).virtual_address
                != (#[trigger] acc[j]).virtual_address by {
                assert(acc[j] == acc_rest[j - 1]);
                if i > 0 {
                    assert(acc[i] == acc_rest[i - 1]);
                }
            }
        } else {
            assert(s1 == s);
        }
    }
}

/// In a well-formed address space an address has at most one recorded mapping, and its
/// lookup gives exactly that mapping.
pub proof fn lemma_lookup_is_the_recorded_mapping(s: MapState, virtual_address: u64, i: int)
    requires
        s.well_formed(),
        0 <= i < s.entries.len(),
        s.maps_at(i, virtual_address),
    ensures
        s.lookup(virtual_address) == s.entries[i],
        forall|j: int| 0 <= j < s.entries.len() && s.maps_at(j, virtual_address) ==> j == i,
{
    assert forall|j: int| 0 <= j < s.entries.len() && s.maps_at(j, virtual_address) implies j == i by {
        if j != i {
            assert(s.entries[i] is Some && s.entries[j] is Some);
        }
    }
    assert(s.is_first_match(i, virtual_address));
    lemma_first_match_unique(s, i, virtual_address);
}

/// What a lookup reads back after a successful map: the new mapping at its own virtual
/// address, and the old answer at every other virtual address.
pub proof fn lemma_map_then_lookup(s: MapState, mapping: Mapping, virtual_address: u64)
    requires
        s.well_formed(),
        s.map(mapping).1 is Ok,
    ensures
        s.map(mapping).0.lookup(mapping.virtual_address) == Some(mapping),
        virtual_address != mapping.virtual_address ==> s.map(mapping).0.lookup(virtual_address)
            == s.lookup(virtual_address),
{
    let e = choose|i: int| 0 <= i < s.entries.len() && #[trigger] s.entries[i] is None;
    lemma_first_empty_exists(s, e);
    let k = choose|i: int| s.is_first_empty(i);
    let t = s.map(mapping).0;
    assert(t.maps_at(k, mapping.virtual_address));
    assert forall|j: int| 0 <= j < k implies !#[trigger] t.maps_at(j, mapping.virtual_address) by {
        assert(!s.maps_at(j, mapping.virtual_address));
    }
    lemma_first_match_unique(t, k, mapping.virtual_address);
    if virtual_address != mapping.virtual_address {
        assert forall|j: int| 0 <= j < s.entries.len() implies #[trigger] t.maps_at(j, virtual_address)
            == s.maps_at(j, virtual_address) by {}
        if s.is_mapped(virtual_address) {
            let w = choose|i: int| 0 <= i < s.entries.len() && #[trigger] s.maps_at(i, virtual_address);
            lemma_first_match_exists(s, w, virtual_address);
            let f = choose|i: int| s.is_first_match(i, virtual_address);
            assert(t.is_first_match(f, virtual_address));
            lemma_first_match_unique(t, f, virtual_address);
        } else {
            assert(!t.is_mapped(virtual_address)) by {
                if t.is_mapped(virtual_address) {
                    let w = choose|i: int| 0 <= i < t.entries.len() && #[trigger] t.maps_at(i, virtual_address);
                    assert(s.maps_at(w, virtual_address));
                }
            }
        }
    }
}

/// Mapping keeps the address space well formed: every recorded mapping stays aligned,
/// user mappings stay below `USER_TOP`, no mapping is both writable and executable, and
/// no virtual address is recorded twice.
pub proof fn lemma_map_keeps_well_formed(s: MapState, mapping: Mapping)
    requires
        s.well_formed(),
    ensures
        s.map(mapping).0.well_formed(),
        forall|i: int|
            0 <= i < s.map(mapping).0.entries.len() && (#[trigger] s.map(mapping).0.entries[i]) is Some
                ==> !(s.map(mapping).0.entries[i].unwrap().permissions.writable && s.map(
                mapping,
            ).0.entries[i].unwrap().permissions.executable),
{
    if s.map(mapping).1 is Ok {
        let e = choose|i: int| 0 <= i < s.entries.len() && #[trigger] s.entries[i] is None;
        lemma_first_empty_exists(s, e);
        let k = choose|i: int| s.is_first_empty(i);
        let t = s.map(mapping).0;
        assert forall|a: int, b: int|
            0 <= a < t.entries.len() && 0 <= b < t.entries.len() && a != b && (#[trigger] t.entries[a]) is Some
                && (#[trigger] t.entries[b]) is Some implies t.entries[a].unwrap().virtual_address
            != t.entries[b].unwrap().virtual_address by {
            if a == k {
                assert(!s.maps_at(b, mapping.virtual_address));
            } else if b == k {
                assert(!s.maps_at(a, mapping.virtual_address));
            }
        }
    }
}

/// A page descriptor holds nothing outside its named fields: the output address, the
/// valid, page and access flags, the memory attribute and shareability, the access
/// permissions and the two execute-never bits. So its attribute-index field (bits 4:2)
/// selects the Normal-memory entry 1 for memory and entry 0 for devices, and its
/// shareability field (bits 9:8) is inner shareable for memory and zero for devices.
pub proof fn lemma_page_descriptor_has_no_other_bits(physical_address: u64, permissions: PagePermissions)
    ensures
        ({
            let d = page_descriptor_bits(physical_address, permissions);
            &&& d & !(OUTPUT_ADDRESS_MASK | DESCRIPTOR_VALID | DESCRIPTOR_PAGE | ACCESS_FLAG
                | ATTR_NORMAL | SH_INNER | AP_READ_ONLY | AP_USER | PXN | UXN) == 0
            &&& (d >> 2u64) & 7 == if permissions.device {
                0u64
            } else {
                1u64
            }
            &&& (d >> 8u64) & 3 == if permissions.device {
                0u64
            } else {
                3u64
            }
        }),
{
    let w = permissions.writable;
    let x = permissions.executable;
    let u = permissions.user;
    let v = permissions.device;
    let pa = physical_address;
    let d = page_descriptor_bits(physical_address, permissions);
    assert({
        &&& d & !(OUTPUT_ADDRESS_MASK | DESCRIPTOR_VALID | DESCRIPTOR_PAGE | ACCESS_FLAG | ATTR_NORMAL
            | SH_INNER | AP_READ_ONLY | AP_USER | PXN | UXN) == 0
        &&& (d >> 2u64) & 7 == if v {
            0u64
        } else {
            1u64
        }
        &&& (d >> 8u64) & 3 == if v {
            0u64
        } else {
            3u64
        }
    }) by (bit_vector)
        requires
            d == (pa & OUTPUT_ADDRESS_MASK) | DESCRIPTOR_VALID | DESCRIPTOR_PAGE | ACCESS_FLAG
                | permission_bits_of(w, x, u, v),
    ;
}

/// The mapping policy: a mapping is accepted only with a page-aligned virtual and physical
/// address, a user mapping only below the top of user space, and never both writable and
/// executable; an address space that satisfies the policy records only such mappings.
pub proof fn lemma_map_enforces_policy(s: MapState, mapping: Mapping)
    ensures
        mapping.virtual_address % 4096 != 0 ==> s.map(mapping).1 == Err::<(), MapError>(
            MapError::Unaligned,
        ),
        mapping.physical_address % 4096 != 0 ==> s.map(mapping).1 == Err::<(), MapError>(
            MapError::Unaligned,
        ),
        s.map(mapping).1 is Ok ==> {
            &&& mapping.virtual_address % 4096 == 0
            &&& mapping.physical_address % 4096 == 0
            &&& !(mapping.virtual_address >= USER_TOP && mapping.permissions.user)
            &&& !(mapping.permissions.writable && mapping.permissions.executable)
        },
        s.map(mapping).1 is Err ==> s.map(mapping).0 == s,
        s.well_formed() ==> forall|i: int|
            0 <= i < s.entries.len() && (#[trigger] s.entries[i]) is Some ==> {
                let m = s.entries[i].unwrap();
                &&& m.virtual_address % 4096 == 0
                &&& m.physical_address % 4096 == 0
                &&& !(m.virtual_address >= USER_TOP && m.permissions.user)
                &&& !(m.permissions.writable && m.permissions.executable)
            },
{
}

/// The layout of a page descriptor: the output address bits are the frame's, the entry is
/// a valid page with the access flag set, and each permission lands in its field. In
/// particular a writable page is never executable at either exception level (W^X).
pub proof fn lemma_page_descriptor_layout(physical_address: u64, permissions: PagePermissions)
    ensures
        ({
            let d = page_descriptor_bits(physical_address, permissions);
            &&& d & OUTPUT_ADDRESS_MASK == physical_address & OUTPUT_ADDRESS_MASK
            &&& d & DESCRIPTOR_VALID != 0
            &&& d & DESCRIPTOR_PAGE != 0
            &&& d & ACCESS_FLAG != 0
            &&& (d & AP_READ_ONLY != 0) == !permissions.writable
            &&& (d & AP_USER != 0) == permissions.user
            &&& (d & ATTR_NORMAL != 0) == !permissions.device
            &&& (d & SH_INNER == SH_INNER) == !permissions.device
            &&& (d & PXN != 0) == (!permissions.executable || permissions.user)
            &&& (d & UXN != 0) == (!permissions.executable || !permissions.user)
            &&& permissions.writable && !permissions.executable ==> d & PXN != 0 && d & UXN != 0
        }),
{
    let w = permissions.writable;
    let x = permissions.executable;
    let u = permissions.user;
    let v = permissions.device;
    let pa = physical_address;
    let d = page_descriptor_bits(physical_address, permissions);
    assert({
        &&& d & OUTPUT_ADDRESS_MASK == pa & OUTPUT_ADDRESS_MASK
        &&& d & DESCRIPTOR_VALID != 0
        &&& d & DESCRIPTOR_PAGE != 0
        &&& d & ACCESS_FLAG != 0
        &&& (d & AP_READ_ONLY != 0) == !w
        &&& (d & AP_USER != 0) == u
        &&& (d & ATTR_NORMAL != 0) == !v
        &&& (d & SH_INNER == SH_INNER) == !v
        &&& (d & PXN != 0) == (!x || u)
        &&& (d & UXN != 0) == (!x || !u)
    }) by (bit_vector)
        requires
            d == (pa & OUTPUT_ADDRESS_MASK) | DESCRIPTOR_VALID | DESCRIPTOR_PAGE | ACCESS_FLAG
                | permission_bits_of(w, x, u, v),
    ;
}

impl<const MAPPINGS: usize> Default for AddressSpace<MAPPINGS> {
    fn default() -> (s: Self)
        ensures
            s.wf(),
            s@.entries.len() == MAPPINGS,
            forall|i: int| 0 <= i < MAPPINGS ==> (#[trigger] s@.entries[i]) is None,
    {
        Self::new()
    }
}

} // verus!
