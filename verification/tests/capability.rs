use aegis_microkernel::capability::{CapError, CapabilitySystem, Object, ResolvedCapability, Rights};

type Caps = CapabilitySystem<4, 8, 16>;

#[test]
fn task_cannot_resolve_a_capability_it_was_not_granted() {
    let mut caps = Caps::new();
    caps.create_root(
        0,
        0,
        Object::Mmio {
            base: 0x0900_0000,
            pages: 1,
        },
        Rights::all(),
    )
    .unwrap();

    assert_eq!(caps.resolve(1, 0, Rights::write()), Err(CapError::EmptySlot));
}

#[test]
fn mint_attenuates_rights() {
    let mut caps = Caps::new();
    caps.create_root(0, 0, Object::Endpoint(7), Rights::all()).unwrap();
    caps.mint(0, 0, 1, 2, Rights::read()).unwrap();

    assert!(caps.resolve(1, 2, Rights::read()).is_ok());
    assert_eq!(
        caps.resolve(1, 2, Rights::write()),
        Err(CapError::PermissionDenied)
    );
    assert_eq!(
        caps.mint(1, 2, 2, 0, Rights::read()),
        Err(CapError::PermissionDenied)
    );
}

#[test]
fn revocation_invalidates_the_whole_derivation_subtree() {
    let mut caps = Caps::new();
    caps.create_root(0, 0, Object::Frame(42), Rights::all()).unwrap();
    caps.mint(0, 0, 1, 0, Rights::read().union(Rights::grant())).unwrap();
    caps.mint(1, 0, 2, 0, Rights::read()).unwrap();

    assert_eq!(caps.revoke(0, 0), Ok(3));
    assert_eq!(caps.resolve(1, 0, Rights::read()), Err(CapError::EmptySlot));
    assert_eq!(caps.resolve(2, 0, Rights::read()), Err(CapError::EmptySlot));
}

#[test]
fn rights_union_and_inclusion() {
    let rw = Rights::read().union(Rights::write());
    assert!(rw.contains(Rights::read()));
    assert!(rw.contains(Rights::write()));
    assert!(!rw.contains(Rights::grant()));
    assert!(Rights::all().contains(rw));
    assert!(rw.contains(Rights::none()));
    assert_eq!(rw, Rights::write().union(Rights::read()));
    assert!(rw.contains(rw));
    assert_eq!(
        Rights::read()
            .union(Rights::write())
            .union(Rights::grant())
            .union(Rights::control()),
        Rights::all()
    );
}

#[test]
fn resolve_reports_bad_task_and_bad_slot() {
    let caps = Caps::new();
    assert_eq!(caps.resolve(4, 0, Rights::none()), Err(CapError::BadTask));
    assert_eq!(caps.resolve(0, 8, Rights::none()), Err(CapError::BadSlot));
    assert_eq!(caps.resolve(0, 0, Rights::none()), Err(CapError::EmptySlot));
}

#[test]
fn create_root_then_resolve_reads_back_the_capability() {
    let mut caps = Caps::new();
    let object = Object::Irq(5);
    caps.create_root(3, 7, object, Rights::read().union(Rights::control()))
        .unwrap();
    assert_eq!(
        caps.resolve(3, 7, Rights::control()),
        Ok(ResolvedCapability {
            object,
            rights: Rights::read().union(Rights::control()),
        })
    );
    assert_eq!(
        caps.resolve(3, 7, Rights::write()),
        Err(CapError::PermissionDenied)
    );
}

#[test]
fn occupied_destination_is_refused() {
    let mut caps = Caps::new();
    caps.create_root(0, 0, Object::Endpoint(1), Rights::all()).unwrap();
    assert_eq!(
        caps.create_root(0, 0, Object::Endpoint(2), Rights::all()),
        Err(CapError::DestinationOccupied)
    );
    assert_eq!(
        caps.mint(0, 0, 0, 0, Rights::read()),
        Err(CapError::DestinationOccupied)
    );
    assert_eq!(caps.create_root(9, 0, Object::Endpoint(2), Rights::all()), Err(CapError::BadTask));
    assert_eq!(caps.mint(0, 9, 1, 0, Rights::read()), Err(CapError::BadSlot));
    assert_eq!(caps.mint(0, 1, 1, 0, Rights::read()), Err(CapError::EmptySlot));
}

#[test]
fn minting_needs_grant_and_cannot_amplify() {
    let mut caps = Caps::new();
    caps.create_root(0, 0, Object::Frame(1), Rights::read().union(Rights::write()))
        .unwrap();
    assert_eq!(
        caps.mint(0, 0, 1, 0, Rights::read()),
        Err(CapError::PermissionDenied)
    );
    caps.create_root(0, 1, Object::Frame(2), Rights::read().union(Rights::grant()))
        .unwrap();
    assert_eq!(
        caps.mint(0, 1, 1, 0, Rights::write()),
        Err(CapError::PermissionDenied)
    );
    caps.mint(0, 1, 1, 0, Rights::read()).unwrap();
    assert_eq!(
        caps.resolve(1, 0, Rights::read()),
        Ok(ResolvedCapability {
            object: Object::Frame(2),
            rights: Rights::read(),
        })
    );
}

#[test]
fn node_exhaustion_is_reported() {
    let mut caps = CapabilitySystem::<1, 4, 2>::new();
    caps.create_root(0, 0, Object::Endpoint(0), Rights::all()).unwrap();
    caps.create_root(0, 1, Object::Endpoint(1), Rights::all()).unwrap();
    assert_eq!(
        caps.create_root(0, 2, Object::Endpoint(2), Rights::all()),
        Err(CapError::OutOfNodes)
    );
    assert_eq!(caps.mint(0, 0, 0, 2, Rights::read()), Err(CapError::OutOfNodes));
    assert_eq!(caps.resolve(0, 2, Rights::none()), Err(CapError::EmptySlot));
}

#[test]
fn revocation_keeps_capabilities_outside_the_subtree() {
    let mut caps = Caps::new();
    caps.create_root(0, 0, Object::Endpoint(1), Rights::all()).unwrap();
    caps.create_root(0, 1, Object::Endpoint(2), Rights::all()).unwrap();
    caps.mint(0, 0, 1, 0, Rights::all()).unwrap();
    caps.mint(1, 0, 2, 0, Rights::read()).unwrap();
    caps.mint(0, 1, 3, 0, Rights::write()).unwrap();
    // revoking the middle of a chain takes the child but not the parent
    assert_eq!(caps.revoke(1, 0), Ok(2));
    assert!(caps.resolve(0, 0, Rights::all()).is_ok());
    assert_eq!(caps.resolve(1, 0, Rights::none()), Err(CapError::EmptySlot));
    assert_eq!(caps.resolve(2, 0, Rights::none()), Err(CapError::EmptySlot));
    assert_eq!(
        caps.resolve(3, 0, Rights::write()),
        Ok(ResolvedCapability {
            object: Object::Endpoint(2),
            rights: Rights::write(),
        })
    );
    assert_eq!(caps.revoke(1, 0), Err(CapError::EmptySlot));
    assert_eq!(caps.revoke(5, 0), Err(CapError::BadTask));
}

#[test]
fn revoked_nodes_are_reused_without_reviving_old_capabilities() {
    let mut caps = CapabilitySystem::<2, 2, 2>::new();
    caps.create_root(0, 0, Object::Frame(1), Rights::all()).unwrap();
    caps.mint(0, 0, 1, 0, Rights::read()).unwrap();
    assert_eq!(caps.revoke(0, 0), Ok(2));
    // both nodes are free again and can be handed out anew
    caps.create_root(0, 0, Object::Frame(2), Rights::read()).unwrap();
    caps.create_root(0, 1, Object::Frame(3), Rights::read()).unwrap();
    assert_eq!(caps.resolve(1, 0, Rights::read()), Err(CapError::EmptySlot));
    assert_eq!(
        caps.resolve(0, 0, Rights::read()),
        Ok(ResolvedCapability {
            object: Object::Frame(2),
            rights: Rights::read(),
        })
    );
}
