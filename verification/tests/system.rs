use vm_device::address::AddressAllocator;
use vm_device::id::IdAllocator;
use vm_device::memory::GuestAddress;
use vm_device::resource;
use vm_device::resource::{Allocation, Request};
use vm_device::system::{Error, SystemAllocator};

fn address_request(address: Option<u64>, size: u64) -> Request {
    Request::Address { address: address.map(GuestAddress), size }
}

fn granted(address: u64, size: u64) -> Allocation {
    Allocation::Address { address: GuestAddress(address), size }
}

#[test]
fn test_allocate() {
    let mut sys = SystemAllocator::new();
    let id_allocator = IdAllocator::new(1, 100).unwrap();
    let id_name = "id".to_string();
    sys.add_id_allocator(id_name.clone(), id_allocator).unwrap();

    // Use sys to allocate an id
    let id = sys.allocate_id(id_name.clone()).unwrap();
    assert_eq!(id, 1);
}

#[test]
fn allocate_id_takes_the_lowest_free_id() {
    let mut sys = SystemAllocator::new();
    let id_name = "id".to_string();
    sys.add_id_allocator(id_name.clone(), IdAllocator::new(1, 100).unwrap()).unwrap();
    // The identifiers below ten are taken.
    for taken in 1..10 {
        assert_eq!(sys.allocate(&id_name, Request::Id(Some(taken))), Ok(Allocation::Id(taken)));
    }
    assert_eq!(sys.allocate_id(id_name.clone()), Ok(10));
    assert_eq!(sys.free(&id_name, Allocation::Id(4)), Ok(()));
    assert_eq!(sys.allocate_id(id_name.clone()), Ok(4));
}

#[test]
fn a_name_is_registered_once_per_kind() {
    let mut sys = SystemAllocator::new();
    assert_eq!(
        sys.add_addr_allocator(
            "mmio".to_string(),
            AddressAllocator::new(GuestAddress(0x1000), 0x1000, None).unwrap()
        ),
        Ok(())
    );
    assert_eq!(
        sys.add_addr_allocator(
            "mmio".to_string(),
            AddressAllocator::new(GuestAddress(0x8000), 0x1000, None).unwrap()
        ),
        Err(Error::Exist)
    );
    assert_eq!(sys.add_id_allocator("irq".to_string(), IdAllocator::new(0, 3).unwrap()), Ok(()));
    assert_eq!(
        sys.add_id_allocator("irq".to_string(), IdAllocator::new(5, 9).unwrap()),
        Err(Error::Exist)
    );
    // The pools that stayed are the first ones.
    assert_eq!(
        sys.allocate(&"mmio".to_string(), address_request(None, 0x100)),
        Ok(granted(0x1f00, 0x100))
    );
    assert_eq!(sys.allocate(&"irq".to_string(), Request::Id(None)), Ok(Allocation::Id(0)));
    // The two kinds have names of their own.
    assert_eq!(sys.add_id_allocator("mmio".to_string(), IdAllocator::new(7, 9).unwrap()), Ok(()));
    assert_eq!(sys.allocate(&"mmio".to_string(), Request::Id(None)), Ok(Allocation::Id(7)));
    assert_eq!(
        sys.allocate(&"mmio".to_string(), address_request(None, 0x100)),
        Ok(granted(0x1e00, 0x100))
    );
}

#[test]
fn requests_go_to_the_named_pool() {
    let mut sys = SystemAllocator::new();
    sys.add_addr_allocator(
        "low".to_string(),
        AddressAllocator::new(GuestAddress(0x1000), 0x1000, Some(0x100)).unwrap(),
    )
    .unwrap();
    sys.add_addr_allocator(
        "high".to_string(),
        AddressAllocator::new(GuestAddress(0x10000), 0x1000, Some(0x100)).unwrap(),
    )
    .unwrap();
    sys.add_id_allocator("irq".to_string(), IdAllocator::new(5, 6).unwrap()).unwrap();

    assert_eq!(
        sys.allocate(&"low".to_string(), address_request(None, 0x100)),
        Ok(granted(0x1f00, 0x100))
    );
    assert_eq!(
        sys.allocate(&"high".to_string(), address_request(None, 0x100)),
        Ok(granted(0x10f00, 0x100))
    );
    assert_eq!(
        sys.allocate(&"low".to_string(), address_request(Some(0x1000), 0x200)),
        Ok(granted(0x1000, 0x200))
    );
    // The pools are independent: the same address is foreign to the other.
    assert_eq!(
        sys.allocate(&"high".to_string(), address_request(Some(0x1000), 0x200)),
        Err(resource::Error::Overflow)
    );
    assert_eq!(sys.allocate(&"irq".to_string(), Request::Id(Some(6))), Ok(Allocation::Id(6)));
    assert_eq!(sys.allocate_id("irq".to_string()), Ok(5));
}

#[test]
fn each_failure_is_reported() {
    let mut sys = SystemAllocator::new();
    sys.add_addr_allocator(
        "mmio".to_string(),
        AddressAllocator::new(GuestAddress(0x1000), 0x1000, Some(0x100)).unwrap(),
    )
    .unwrap();
    sys.add_id_allocator("irq".to_string(), IdAllocator::new(5, 6).unwrap()).unwrap();
    let mmio = "mmio".to_string();
    let irq = "irq".to_string();
    let nobody = "nobody".to_string();

    // No pool of that name, and a pool of the other kind.
    assert_eq!(sys.allocate(&nobody, Request::Id(None)), Err(resource::Error::OutofScope));
    assert_eq!(sys.allocate(&nobody, address_request(None, 1)), Err(resource::Error::OutofScope));
    assert_eq!(sys.allocate(&mmio, Request::Id(None)), Err(resource::Error::Invalid));
    assert_eq!(sys.allocate(&irq, address_request(None, 1)), Err(resource::Error::Invalid));
    assert_eq!(sys.allocate_id(nobody.clone()), Err(resource::Error::OutofScope));
    assert_eq!(sys.allocate_id(mmio.clone()), Err(resource::Error::Invalid));

    // What the address pool says.
    assert_eq!(sys.allocate(&mmio, address_request(None, 0)), Err(resource::Error::NullRequest));
    assert_eq!(
        sys.allocate(&mmio, address_request(Some(0x1001), 1)),
        Err(resource::Error::UnalignedAddress)
    );
    assert_eq!(
        sys.allocate(&mmio, address_request(Some(0x4000), 1)),
        Err(resource::Error::Overflow)
    );
    assert_eq!(sys.allocate(&mmio, address_request(Some(0x1000), 1)), Ok(granted(0x1000, 1)));
    assert_eq!(
        sys.allocate(&mmio, address_request(Some(0x1000), 1)),
        Err(resource::Error::Overlap)
    );

    // What the identifier pool says.
    assert_eq!(sys.allocate(&irq, Request::Id(Some(4))), Err(resource::Error::Invalid));
    assert_eq!(sys.allocate(&irq, Request::Id(Some(5))), Ok(Allocation::Id(5)));
    assert_eq!(sys.allocate(&irq, Request::Id(Some(5))), Err(resource::Error::Duplicated));
    assert_eq!(sys.allocate(&irq, Request::Id(None)), Ok(Allocation::Id(6)));
    assert_eq!(sys.allocate(&irq, Request::Id(None)), Err(resource::Error::Overflow));
    assert_eq!(sys.allocate_id(irq.clone()), Err(resource::Error::Overflow));
}

#[test]
fn what_is_freed_can_be_allocated_again() {
    let mut sys = SystemAllocator::new();
    sys.add_addr_allocator(
        "mmio".to_string(),
        AddressAllocator::new(GuestAddress(0x1000), 0x1000, Some(0x100)).unwrap(),
    )
    .unwrap();
    sys.add_id_allocator("irq".to_string(), IdAllocator::new(5, 6).unwrap()).unwrap();
    let mmio = "mmio".to_string();
    let irq = "irq".to_string();

    assert_eq!(sys.allocate(&mmio, address_request(None, 0x800)), Ok(granted(0x1800, 0x800)));
    assert_eq!(sys.allocate(&mmio, address_request(None, 0x900)), Err(resource::Error::Overflow));
    // A free that does not match changes nothing.
    assert_eq!(sys.free(&mmio, granted(0x1800, 0x700)), Ok(()));
    assert_eq!(sys.allocate(&mmio, address_request(None, 0x900)), Err(resource::Error::Overflow));
    assert_eq!(sys.free(&mmio, granted(0x1800, 0x800)), Ok(()));
    assert_eq!(sys.allocate(&mmio, address_request(None, 0x900)), Ok(granted(0x1700, 0x900)));

    assert_eq!(sys.allocate(&irq, Request::Id(None)), Ok(Allocation::Id(5)));
    assert_eq!(sys.free(&irq, Allocation::Id(5)), Ok(()));
    assert_eq!(sys.allocate(&irq, Request::Id(None)), Ok(Allocation::Id(5)));

    // Giving back to the wrong pool.
    assert_eq!(sys.free(&irq, granted(0x1700, 0x900)), Err(resource::Error::Invalid));
    assert_eq!(sys.free(&mmio, Allocation::Id(5)), Err(resource::Error::Invalid));
    assert_eq!(sys.free(&"nobody".to_string(), Allocation::Id(5)), Err(resource::Error::OutofScope));
    assert_eq!(sys.allocate(&irq, Request::Id(Some(5))), Err(resource::Error::Duplicated));
    assert_eq!(sys.allocate(&mmio, address_request(None, 0x900)), Err(resource::Error::Overflow));
}

#[test]
fn pool_errors_keep_their_kind() {
    assert_eq!(
        resource::Error::from_address(vm_device::address::Error::Overflow),
        resource::Error::Overflow
    );
    assert_eq!(
        resource::Error::from_address(vm_device::address::Error::Overlap),
        resource::Error::Overlap
    );
    assert_eq!(
        resource::Error::from_address(vm_device::address::Error::UnalignedAddress),
        resource::Error::UnalignedAddress
    );
    assert_eq!(
        resource::Error::from_address(vm_device::address::Error::NullRequest),
        resource::Error::NullRequest
    );
    assert_eq!(resource::Error::from_id(vm_device::id::Error::Overflow), resource::Error::Overflow);
    assert_eq!(
        resource::Error::from_id(vm_device::id::Error::Duplicated),
        resource::Error::Duplicated
    );
    assert_eq!(resource::Error::from_id(vm_device::id::Error::Invalid), resource::Error::Invalid);
}

#[test]
fn resource_error_messages() {
    assert_eq!(resource::Error::OutofScope.message(), "Resource being allocated is out of scope");
    assert_eq!(resource::Error::Overflow.message(), "Resource being allocated is overflow");
    assert_eq!(resource::Error::Overlap.message(), "Resource being allocated is overlap");
    assert_eq!(resource::Error::UnalignedAddress.message(), "Resource being allocated is unaligned");
    assert_eq!(resource::Error::NullRequest.message(), "Resource being allocated is null");
    assert_eq!(resource::Error::Duplicated.message(), "Resource being allocated is duplicated");
    assert_eq!(resource::Error::Invalid.message(), "Resource request is invalid");
}

#[test]
fn a_default_allocator_has_no_pools() {
    let mut sys = SystemAllocator::default();
    assert_eq!(sys.allocate(&"mmio".to_string(), Request::Id(None)), Err(resource::Error::OutofScope));
    assert_eq!(sys.allocate_id("irq".to_string()), Err(resource::Error::OutofScope));
    assert_eq!(sys.add_id_allocator("irq".to_string(), IdAllocator::new(3, 4).unwrap()), Ok(()));
    assert_eq!(sys.allocate_id("irq".to_string()), Ok(3));
}
