use aegis_microkernel::paging::{
    level_index, page_descriptor, AddressSpace, MapError, Mapping, PagePermissions, ACCESS_FLAG,
    AP_READ_ONLY, AP_USER, ATTR_NORMAL, DESCRIPTOR_PAGE, DESCRIPTOR_VALID, PXN, SH_INNER, USER_TOP,
    UXN,
};

#[test]
fn four_kibibyte_indices_match_arm_bit_slices() {
    let address = 0x0000_1234_5678_9000;
    assert_eq!(
        level_index(address, 0),
        Ok(((address >> 39) & 0x1ff) as usize)
    );
    assert_eq!(
        level_index(address, 3),
        Ok(((address >> 12) & 0x1ff) as usize)
    );
}

#[test]
fn user_code_is_read_only_and_unprivileged_execute_only() {
    let descriptor = page_descriptor(0x4000_0000, PagePermissions::user_code()).unwrap();
    assert_ne!(descriptor & AP_READ_ONLY, 0);
    assert_ne!(descriptor & AP_USER, 0);
    assert_ne!(descriptor & PXN, 0);
    assert_eq!(descriptor & UXN, 0);
}

#[test]
fn writable_executable_and_duplicate_maps_are_rejected() {
    let mut space = AddressSpace::<2>::new();
    let data = Mapping {
        virtual_address: 0x1000,
        physical_address: 0x4000_0000,
        permissions: PagePermissions::user_data(),
    };
    space.map(data).unwrap();
    assert_eq!(space.map(data), Err(MapError::AlreadyMapped));
    assert_eq!(
        page_descriptor(
            0x4000_1000,
            PagePermissions {
                writable: true,
                executable: true,
                user: true,
                device: false,
            }
        ),
        Err(MapError::WriteExecute)
    );
}

#[test]
fn level_index_covers_every_level_and_rejects_others() {
    let address: u64 = 0x0000_7fff_ffff_f000;
    assert_eq!(level_index(address, 1), Ok(0x1ff));
    assert_eq!(level_index(address, 2), Ok(0x1ff));
    assert_eq!(level_index(0x0000_0080_4020_1000, 0), Ok(1));
    assert_eq!(level_index(0x0000_0080_4020_1000, 1), Ok(1));
    assert_eq!(level_index(0x0000_0080_4020_1000, 2), Ok(1));
    assert_eq!(level_index(0x0000_0080_4020_1000, 3), Ok(1));
    assert_eq!(level_index(address, 4), Err(MapError::InvalidAddress));
}

#[test]
fn descriptor_layout_matches_each_permission() {
    let base = DESCRIPTOR_VALID | DESCRIPTOR_PAGE | ACCESS_FLAG;
    assert_eq!(
        page_descriptor(0x4000_2000, PagePermissions::user_data()),
        Ok(0x4000_2000 | base | ATTR_NORMAL | SH_INNER | AP_USER | PXN | UXN)
    );
    assert_eq!(
        page_descriptor(0x4000_3000, PagePermissions::kernel_data()),
        Ok(0x4000_3000 | base | ATTR_NORMAL | SH_INNER | PXN | UXN)
    );
    assert_eq!(
        page_descriptor(
            0x0900_0000,
            PagePermissions {
                writable: false,
                executable: true,
                user: false,
                device: true,
            }
        ),
        Ok(0x0900_0000 | base | AP_READ_ONLY | UXN)
    );
    assert_eq!(
        page_descriptor(0x4000_0800, PagePermissions::kernel_data()),
        Err(MapError::Unaligned)
    );
    // bits above the output-address field are not copied into the descriptor
    assert_eq!(
        page_descriptor(0xffff_0000_0000_0000, PagePermissions::kernel_data()),
        Ok(base | ATTR_NORMAL | SH_INNER | PXN | UXN)
    );
}

#[test]
fn map_then_lookup_reads_back_the_mapping() {
    let mut space = AddressSpace::<3>::new();
    let code = Mapping {
        virtual_address: 0x2000,
        physical_address: 0x4000_1000,
        permissions: PagePermissions::user_code(),
    };
    let stack = Mapping {
        virtual_address: 0x3000,
        physical_address: 0x4000_2000,
        permissions: PagePermissions::user_data(),
    };
    assert_eq!(space.mapping_at(0x2000), None);
    space.map(code).unwrap();
    space.map(stack).unwrap();
    assert_eq!(space.mapping_at(0x2000), Some(code));
    assert_eq!(space.mapping_at(0x3000), Some(stack));
    assert_eq!(space.mapping_at(0x4000), None);
}

#[test]
fn map_policy_errors_and_capacity() {
    let mut space = AddressSpace::<1>::new();
    let mut mapping = Mapping {
        virtual_address: 0x1001,
        physical_address: 0x4000_0000,
        permissions: PagePermissions::user_data(),
    };
    assert_eq!(space.map(mapping), Err(MapError::Unaligned));
    mapping.virtual_address = USER_TOP;
    assert_eq!(space.map(mapping), Err(MapError::InvalidAddress));
    mapping.permissions = PagePermissions::kernel_data();
    space.map(mapping).unwrap();
    mapping.virtual_address = 0x1000;
    mapping.permissions = PagePermissions {
        writable: true,
        executable: true,
        user: false,
        device: false,
    };
    assert_eq!(space.map(mapping), Err(MapError::WriteExecute));
    mapping.permissions = PagePermissions::user_code();
    assert_eq!(space.map(mapping), Err(MapError::MapFull));
}

#[test]
fn lookup_after_a_history_of_maps_gives_the_accepted_mapping() {
    let mut space = AddressSpace::<3>::new();
    let first = Mapping {
        virtual_address: 0x2000,
        physical_address: 0x4000_0000,
        permissions: PagePermissions::user_data(),
    };
    let duplicate = Mapping {
        virtual_address: 0x2000,
        physical_address: 0x5000_0000,
        permissions: PagePermissions::user_code(),
    };
    let other = Mapping {
        virtual_address: 0x3000,
        physical_address: 0x4000_1000,
        permissions: PagePermissions::user_code(),
    };
    assert_eq!(space.mapping_at(0x2000), None);
    space.map(first).unwrap();
    assert_eq!(space.map(duplicate), Err(MapError::AlreadyMapped));
    space.map(other).unwrap();
    assert_eq!(space.mapping_at(0x2000), Some(first));
    assert_eq!(space.mapping_at(0x3000), Some(other));
    assert_eq!(space.mapping_at(0x4000), None);
}
