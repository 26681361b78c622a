use std::sync::{Arc, Mutex};
use vm_device::address::AddressAllocator;
use vm_device::bus::{Bus, Range};
use vm_device::device::{Device, DeviceDescriptor, IoType, Resource};
use vm_device::device_manager::{DeviceManager, Error};
use vm_device::id::IdAllocator;
use vm_device::interrupt::{
    InterruptError, InterruptManager, InterruptRequest, InterruptSourceType,
};
use vm_device::memory::GuestAddress;
use vm_device::system::SystemAllocator;

/// A device that remembers what it was told.
struct Recorder {
    name: String,
    resources: Mutex<Vec<Resource>>,
    reads: Mutex<Vec<(u64, usize)>>,
    writes: Mutex<Vec<(u64, Vec<u8>)>>,
}

impl Recorder {
    fn named(name: &str) -> Arc<Recorder> {
        Arc::new(Recorder {
            name: name.to_string(),
            resources: Mutex::new(Vec::new()),
            reads: Mutex::new(Vec::new()),
            writes: Mutex::new(Vec::new()),
        })
    }

    fn given(&self) -> Vec<Resource> {
        self.resources.lock().unwrap().clone()
    }

    fn reads(&self) -> Vec<(u64, usize)> {
        self.reads.lock().unwrap().clone()
    }

    fn writes(&self) -> Vec<(u64, Vec<u8>)> {
        self.writes.lock().unwrap().clone()
    }
}

impl Device for Recorder {
    fn name(&self) -> String {
        self.name.clone()
    }

    fn read(&self, addr: GuestAddress, data: &mut [u8], _io_type: IoType) {
        self.reads.lock().unwrap().push((addr.0, data.len()));
        for byte in data.iter_mut() {
            *byte = 0xab;
        }
    }

    fn write(&self, addr: GuestAddress, data: &[u8], _io_type: IoType) {
        self.writes.lock().unwrap().push((addr.0, data.to_vec()));
    }

    fn set_resources(&self, res: &[Resource]) {
        *self.resources.lock().unwrap() = res.to_vec();
    }
}

/// The interrupt lines that the test manager hands out.
#[derive(Debug, PartialEq)]
struct Lines {
    base: u32,
    count: u32,
}

/// An interrupt manager that counts its calls and fails on demand.
struct Interrupts {
    fail: bool,
    calls: Mutex<Vec<(InterruptSourceType, u32, u32)>>,
}

impl Interrupts {
    fn working() -> Arc<Interrupts> {
        Arc::new(Interrupts { fail: false, calls: Mutex::new(Vec::new()) })
    }

    fn failing() -> Arc<Interrupts> {
        Arc::new(Interrupts { fail: true, calls: Mutex::new(Vec::new()) })
    }

    fn calls(&self) -> Vec<(InterruptSourceType, u32, u32)> {
        self.calls.lock().unwrap().clone()
    }
}

impl InterruptManager for Interrupts {
    type Group = Lines;

    fn create_group(
        &self,
        kind: InterruptSourceType,
        base: u32,
        count: u32,
    ) -> Result<Arc<Lines>, InterruptError> {
        self.calls.lock().unwrap().push((kind, base, count));
        if self.fail {
            Err(InterruptError)
        } else {
            Ok(Arc::new(Lines { base, count }))
        }
    }
}

type Manager = DeviceManager<dyn Device, Interrupts>;

/// Port I/O over `[0, 0x10000)` byte by byte, memory-mapped I/O over
/// `[0x1000_0000, 0x1010_0000)` in pages.
fn pools() -> SystemAllocator {
    let mut sys = SystemAllocator::new();
    sys.add_addr_allocator(
        "pio".to_string(),
        AddressAllocator::new(GuestAddress(0), 0x10000, Some(1)).unwrap(),
    )
    .unwrap();
    sys.add_addr_allocator(
        "mmio".to_string(),
        AddressAllocator::new(GuestAddress(0x1000_0000), 0x10_0000, Some(0x1000)).unwrap(),
    )
    .unwrap();
    sys.add_id_allocator("irq".to_string(), IdAllocator::new(5, 23).unwrap()).unwrap();
    sys
}

fn manager() -> Manager {
    DeviceManager::new(Interrupts::working(), pools())
}

fn pio(addr: Option<u64>, size: u64) -> Resource {
    Resource::new(addr.map(GuestAddress), size, IoType::Pio)
}

fn mmio(addr: Option<u64>, size: u64) -> Resource {
    Resource::new(addr.map(GuestAddress), size, IoType::Mmio)
}

fn physical(addr: Option<u64>, size: u64) -> Resource {
    Resource::new(addr.map(GuestAddress), size, IoType::PhysicalMmio)
}

fn as_device(dev: &Arc<Recorder>) -> Arc<dyn Device> {
    dev.clone()
}

fn owner(manager: &Manager, addr: u64, io_type: IoType) -> Option<String> {
    manager.get_device(GuestAddress(addr), io_type).map(|dev| dev.name())
}

#[test]
fn a_device_is_given_what_it_asked_for() {
    let mut manager = manager();
    let serial = Recorder::named("serial");
    let requests = vec![pio(Some(0x3f8), 8), mmio(None, 0x2000), physical(None, 0x1000)];
    assert_eq!(manager.register_device(as_device(&serial), None, &requests, None), Ok(()));
    assert_eq!(
        serial.given(),
        vec![
            pio(Some(0x3f8), 8),
            mmio(Some(0x100f_e000), 0x2000),
            physical(Some(0x100f_d000), 0x1000)
        ]
    );
    assert_eq!(owner(&manager, 0x3f8, IoType::Pio), Some("serial".to_string()));
    assert_eq!(owner(&manager, 0x100f_e000, IoType::Mmio), Some("serial".to_string()));
    // The range that never traps is allocated, but nobody is asked about it.
    assert_eq!(owner(&manager, 0x100f_d000, IoType::Mmio), None);
    assert_eq!(owner(&manager, 0x100f_d000, IoType::PhysicalMmio), None);
    assert_eq!(owner(&manager, 0x100f_e000, IoType::PhysicalMmio), None);
    // The two buses are apart.
    assert_eq!(owner(&manager, 0x3f8, IoType::Mmio), None);
    assert_eq!(owner(&manager, 0x100f_e000, IoType::Pio), None);
}

#[test]
fn registration_is_atomic() {
    let mut manager = manager();
    let first = Recorder::named("first");
    assert_eq!(manager.register_device(as_device(&first), None, &vec![pio(Some(0x60), 1)], None), Ok(()));

    // The port is taken, so the whole registration fails.
    let second = Recorder::named("second");
    let requests = vec![pio(Some(0x60), 1), mmio(None, 0x1000)];
    assert_eq!(
        manager.register_device(as_device(&second), None, &requests, None),
        Err(Error::Overlap)
    );
    assert_eq!(second.given(), vec![]);
    assert_eq!(owner(&manager, 0x60, IoType::Pio), Some("first".to_string()));
    assert_eq!(owner(&manager, 0x100f_f000, IoType::Mmio), None);
    assert_eq!(manager.unregister_device(as_device(&second)), Err(Error::NonExist));

    // The same with the ranges the other way round: the page that was
    // allocated first is given back.
    let requests = vec![mmio(None, 0x1000), pio(Some(0x60), 1)];
    assert_eq!(
        manager.register_device(as_device(&second), None, &requests, None),
        Err(Error::Overlap)
    );
    assert_eq!(second.given(), vec![]);
    assert_eq!(owner(&manager, 0x100f_f000, IoType::Mmio), None);

    // No page was granted: the next device gets the topmost one.
    let third = Recorder::named("third");
    assert_eq!(manager.register_device(as_device(&third), None, &vec![mmio(None, 0x1000)], None), Ok(()));
    assert_eq!(third.given(), vec![mmio(Some(0x100f_f000), 0x1000)]);
}

#[test]
fn a_failing_request_in_the_middle_rolls_back_what_came_before() {
    let mut manager = manager();
    let dev = Recorder::named("dev");
    let requests = vec![
        mmio(None, 0x1000),
        pio(Some(0x100), 4),
        mmio(Some(0x1000_0000), 0x1000),
        mmio(Some(0x1000_0800), 0x1000),
        pio(Some(0x200), 4),
    ];
    assert_eq!(manager.register_device(as_device(&dev), None, &requests, None), Err(Error::Overlap));
    assert_eq!(dev.given(), vec![]);
    let requests = vec![
        mmio(None, 0x1000),
        pio(Some(0x100), 4),
        mmio(Some(0x1000_0000), 0x1000),
        pio(Some(0x200), 4),
    ];
    assert_eq!(manager.register_device(as_device(&dev), None, &requests, None), Ok(()));
    assert_eq!(
        dev.given(),
        vec![
            mmio(Some(0x100f_f000), 0x1000),
            pio(Some(0x100), 4),
            mmio(Some(0x1000_0000), 0x1000),
            pio(Some(0x200), 4),
        ]
    );
}

#[test]
fn a_port_range_must_name_its_address() {
    let mut manager = manager();
    let dev = Recorder::named("dev");
    assert_eq!(
        manager.register_device(as_device(&dev), None, &vec![pio(None, 1)], None),
        Err(Error::NonePIORequest)
    );
    // Also after a range that could be allocated, which is given back.
    let requests = vec![mmio(None, 0x1000), pio(None, 1)];
    assert_eq!(
        manager.register_device(as_device(&dev), None, &requests, None),
        Err(Error::NonePIORequest)
    );
    assert_eq!(dev.given(), vec![]);
    assert_eq!(manager.register_device(as_device(&dev), None, &vec![mmio(None, 0x1000)], None), Ok(()));
    assert_eq!(dev.given(), vec![mmio(Some(0x100f_f000), 0x1000)]);
}

#[test]
fn a_failure_of_the_pool_is_an_overlap() {
    let mut manager = manager();
    let dev = Recorder::named("dev");
    // Not aligned, of size zero, outside the pool, too large.
    for request in [
        mmio(Some(0x1000_0010), 0x1000),
        mmio(None, 0),
        mmio(Some(0x2000_0000), 0x1000),
        mmio(None, 0x20_0000),
        physical(Some(0x1000_0010), 0x1000),
        pio(Some(0x1_0000), 1),
    ] {
        assert_eq!(
            manager.register_device(as_device(&dev), None, &vec![request], None),
            Err(Error::Overlap)
        );
    }
    assert_eq!(manager.unregister_device(as_device(&dev)), Err(Error::NonExist));
}

#[test]
fn a_pool_that_is_missing_is_an_overlap() {
    let mut sys = SystemAllocator::new();
    sys.add_addr_allocator(
        "mmio".to_string(),
        AddressAllocator::new(GuestAddress(0x1000), 0x1000, None).unwrap(),
    )
    .unwrap();
    let mut manager: Manager = DeviceManager::new(Interrupts::working(), sys);
    let dev = Recorder::named("dev");
    assert_eq!(
        manager.register_device(as_device(&dev), None, &vec![pio(Some(0x60), 1)], None),
        Err(Error::Overlap)
    );
    assert_eq!(manager.register_device(as_device(&dev), None, &vec![mmio(None, 0x10)], None), Ok(()));
}

#[test]
fn a_name_is_registered_once() {
    let mut manager = manager();
    let dev = Recorder::named("dev");
    let twin = Recorder::named("dev");
    assert_eq!(manager.register_device(as_device(&dev), None, &vec![mmio(None, 0x1000)], None), Ok(()));
    assert_eq!(
        manager.register_device(as_device(&twin), None, &vec![mmio(None, 0x1000)], None),
        Err(Error::Exist)
    );
    assert_eq!(twin.given(), vec![]);
    // Nothing was allocated for the twin: the next page is still free.
    let other = Recorder::named("other");
    assert_eq!(manager.register_device(as_device(&other), None, &vec![mmio(None, 0x1000)], None), Ok(()));
    assert_eq!(other.given(), vec![mmio(Some(0x100f_e000), 0x1000)]);
}

#[test]
fn register_unregister_round_trip() {
    let mut manager = manager();
    let neighbour = Recorder::named("neighbour");
    assert_eq!(
        manager.register_device(
            as_device(&neighbour),
            None,
            &vec![mmio(None, 0x3000), pio(Some(0x70), 2)],
            None
        ),
        Ok(())
    );

    let requests = vec![
        pio(Some(0x60), 1),
        mmio(None, 0x1000),
        physical(None, 0x2000),
        mmio(Some(0x1000_4000), 0x1000),
    ];
    let dev = Recorder::named("dev");
    assert_eq!(manager.register_device(as_device(&dev), None, &requests, None), Ok(()));
    let given = dev.given();
    assert_eq!(
        given,
        vec![
            pio(Some(0x60), 1),
            mmio(Some(0x100f_c000), 0x1000),
            physical(Some(0x100f_a000), 0x2000),
            mmio(Some(0x1000_4000), 0x1000),
        ]
    );

    assert_eq!(manager.unregister_device(as_device(&dev)), Ok(()));
    // Nothing of the device can be reached any more.
    assert_eq!(owner(&manager, 0x60, IoType::Pio), None);
    assert_eq!(owner(&manager, 0x100f_c000, IoType::Mmio), None);
    assert_eq!(owner(&manager, 0x1000_4000, IoType::Mmio), None);
    assert_eq!(manager.unregister_device(as_device(&dev)), Err(Error::NonExist));
    // The neighbour is untouched.
    assert_eq!(owner(&manager, 0x100f_d000, IoType::Mmio), Some("neighbour".to_string()));
    assert_eq!(owner(&manager, 0x71, IoType::Pio), Some("neighbour".to_string()));

    // A device like it is given the same ranges.
    let again = Recorder::named("dev");
    assert_eq!(manager.register_device(as_device(&again), None, &requests, None), Ok(()));
    assert_eq!(again.given(), given);
    assert_eq!(owner(&manager, 0x60, IoType::Pio), Some("dev".to_string()));
    assert_eq!(owner(&manager, 0x100f_c000, IoType::Mmio), Some("dev".to_string()));
}

#[test]
fn unregistering_an_unknown_device_fails() {
    let mut manager = manager();
    let dev = Recorder::named("dev");
    assert_eq!(manager.unregister_device(as_device(&dev)), Err(Error::NonExist));
    assert_eq!(manager.unregister_named(&"dev".to_string()), Err(Error::NonExist));
    assert_eq!(manager.register_device(as_device(&dev), None, &vec![], None), Ok(()));
    assert_eq!(manager.unregister_named(&"other".to_string()), Err(Error::NonExist));
    assert_eq!(manager.unregister_named(&"dev".to_string()), Ok(()));
    assert_eq!(manager.unregister_named(&"dev".to_string()), Err(Error::NonExist));
}

#[test]
fn dispatch_hits_inside_and_misses_outside() {
    let mut manager = manager();
    let dev = Recorder::named("dev");
    assert_eq!(
        manager.register_device(as_device(&dev), None, &vec![mmio(Some(0x1000_2000), 0x1000)], None),
        Ok(())
    );
    let mut data = [0u8; 4];
    // The first and the last byte of the range.
    assert_eq!(manager.read(GuestAddress(0x1000_2000), &mut data, IoType::Mmio), Ok(()));
    assert_eq!(data, [0xab; 4]);
    assert_eq!(manager.read(GuestAddress(0x1000_2fff), &mut data[..1], IoType::Mmio), Ok(()));
    assert_eq!(manager.write(GuestAddress(0x1000_2fff), &[1, 2], IoType::Mmio), Ok(()));
    // One byte past the end, and one byte before the start.
    let mut untouched = [7u8; 4];
    assert_eq!(
        manager.read(GuestAddress(0x1000_3000), &mut untouched, IoType::Mmio),
        Err(Error::NonExist)
    );
    assert_eq!(untouched, [7u8; 4]);
    assert_eq!(
        manager.read(GuestAddress(0x1000_1fff), &mut untouched, IoType::Mmio),
        Err(Error::NonExist)
    );
    assert_eq!(manager.write(GuestAddress(0x1000_3000), &[1], IoType::Mmio), Err(Error::NonExist));
    // The other bus, and the kind that never traps.
    assert_eq!(manager.write(GuestAddress(0x1000_2000), &[1], IoType::Pio), Err(Error::NonExist));
    assert_eq!(
        manager.write(GuestAddress(0x1000_2000), &[1], IoType::PhysicalMmio),
        Err(Error::NonExist)
    );
    assert_eq!(dev.reads(), vec![(0x1000_2000, 4), (0x1000_2fff, 1)]);
    assert_eq!(dev.writes(), vec![(0x1000_2fff, vec![1, 2])]);
}

#[test]
fn dispatch_finds_the_owner_among_many() {
    let mut manager = manager();
    let names = ["a", "b", "c", "d"];
    for (i, name) in names.iter().enumerate() {
        let dev = Recorder::named(name);
        let start = 0x100 + 0x10 * i as u64;
        // Adjacent ranges, the last one apart.
        let start = if i == 3 { 0x200 } else { start };
        assert_eq!(
            manager.register_device(as_device(&dev), None, &vec![pio(Some(start), 0x10)], None),
            Ok(())
        );
    }
    assert_eq!(owner(&manager, 0xff, IoType::Pio), None);
    assert_eq!(owner(&manager, 0x100, IoType::Pio), Some("a".to_string()));
    assert_eq!(owner(&manager, 0x10f, IoType::Pio), Some("a".to_string()));
    // One past the end of `a` is the first port of `b`.
    assert_eq!(owner(&manager, 0x110, IoType::Pio), Some("b".to_string()));
    assert_eq!(owner(&manager, 0x12f, IoType::Pio), Some("c".to_string()));
    assert_eq!(owner(&manager, 0x130, IoType::Pio), None);
    assert_eq!(owner(&manager, 0x1ff, IoType::Pio), None);
    assert_eq!(owner(&manager, 0x200, IoType::Pio), Some("d".to_string()));
    assert_eq!(owner(&manager, 0x20f, IoType::Pio), Some("d".to_string()));
    assert_eq!(owner(&manager, 0x210, IoType::Pio), None);
    assert_eq!(owner(&manager, u64::MAX, IoType::Pio), None);
    assert_eq!(manager.unregister_named(&"b".to_string()), Ok(()));
    assert_eq!(owner(&manager, 0x110, IoType::Pio), None);
    assert_eq!(owner(&manager, 0x10f, IoType::Pio), Some("a".to_string()));
    assert_eq!(owner(&manager, 0x120, IoType::Pio), Some("c".to_string()));
}

#[test]
fn interrupt_lines_are_set_up_on_request() {
    let interrupts = Interrupts::working();
    let mut manager: Manager = DeviceManager::new(interrupts.clone(), pools());
    let plain = Recorder::named("plain");
    assert_eq!(manager.register_device(as_device(&plain), None, &vec![pio(Some(0x60), 1)], None), Ok(()));
    assert_eq!(interrupts.calls(), vec![]);

    let dev = Recorder::named("dev");
    let request = InterruptRequest { kind: InterruptSourceType::MsiIrq, base: 8, count: 4 };
    assert_eq!(
        manager.register_device(as_device(&dev), None, &vec![mmio(None, 0x1000)], Some(request)),
        Ok(())
    );
    assert_eq!(interrupts.calls(), vec![(InterruptSourceType::MsiIrq, 8, 4)]);
    assert_eq!(dev.given(), vec![mmio(Some(0x100f_f000), 0x1000)]);

    // No lines are asked for where the ranges cannot be allocated.
    let late = Recorder::named("late");
    let request = InterruptRequest { kind: InterruptSourceType::LegacyIrq, base: 1, count: 1 };
    assert_eq!(
        manager.register_device(as_device(&late), None, &vec![pio(Some(0x60), 1)], Some(request)),
        Err(Error::Overlap)
    );
    assert_eq!(interrupts.calls().len(), 1);
}

#[test]
fn failing_interrupt_lines_roll_the_ranges_back() {
    let interrupts = Interrupts::failing();
    let mut manager: Manager = DeviceManager::new(interrupts.clone(), pools());
    let dev = Recorder::named("dev");
    let request = InterruptRequest { kind: InterruptSourceType::LegacyIrq, base: 5, count: 1 };
    let requests = vec![pio(Some(0x60), 1), mmio(None, 0x1000)];
    assert_eq!(
        manager.register_device(as_device(&dev), None, &requests, Some(request)),
        Err(Error::InterruptGroup)
    );
    assert_eq!(interrupts.calls(), vec![(InterruptSourceType::LegacyIrq, 5, 1)]);
    assert_eq!(dev.given(), vec![]);
    assert_eq!(owner(&manager, 0x60, IoType::Pio), None);
    assert_eq!(manager.unregister_device(as_device(&dev)), Err(Error::NonExist));
    // Without lines the same requests get the ranges that were given back.
    assert_eq!(manager.register_device(as_device(&dev), None, &requests, None), Ok(()));
    assert_eq!(dev.given(), vec![pio(Some(0x60), 1), mmio(Some(0x100f_f000), 0x1000)]);
}

#[test]
fn the_parent_bus_plays_no_part_in_routing() {
    let mut manager = manager();
    let bus = Recorder::named("pci");
    let dev = Recorder::named("dev");
    assert_eq!(manager.register_device(as_device(&bus), None, &vec![pio(Some(0xcf8), 8)], None), Ok(()));
    assert_eq!(
        manager.register_device(
            as_device(&dev),
            Some(as_device(&bus)),
            &vec![mmio(Some(0x1000_0000), 0x1000)],
            None
        ),
        Ok(())
    );
    assert_eq!(owner(&manager, 0x1000_0000, IoType::Mmio), Some("dev".to_string()));
    assert_eq!(owner(&manager, 0xcf8, IoType::Pio), Some("pci".to_string()));
    assert_eq!(manager.unregister_device(as_device(&bus)), Ok(()));
    assert_eq!(owner(&manager, 0x1000_0000, IoType::Mmio), Some("dev".to_string()));
}

#[test]
fn the_steps_of_a_registration_can_be_taken_one_by_one() {
    let mut manager = manager();
    let dev = Recorder::named("dev");
    let requests = vec![pio(Some(0x60), 1), mmio(None, 0x1000), physical(None, 0x1000)];
    let resolved = manager.allocate_io_resources(&requests).unwrap();
    assert_eq!(
        resolved,
        vec![
            pio(Some(0x60), 1),
            mmio(Some(0x100f_f000), 0x1000),
            physical(Some(0x100f_e000), 0x1000)
        ]
    );
    assert_eq!(owner(&manager, 0x60, IoType::Pio), None);
    assert_eq!(manager.register_io_resources(as_device(&dev), &resolved), Ok(()));
    assert_eq!(owner(&manager, 0x60, IoType::Pio), Some("dev".to_string()));
    assert_eq!(owner(&manager, 0x100f_f800, IoType::Mmio), Some("dev".to_string()));
    assert_eq!(owner(&manager, 0x100f_e000, IoType::Mmio), None);

    // What is on a bus cannot be put there again, and nothing of the second
    // attempt stays behind.
    let other = Recorder::named("other");
    let clash = vec![pio(Some(0x80), 1), mmio(Some(0x100f_f800), 0x100)];
    assert_eq!(manager.register_io_resources(as_device(&other), &clash), Err(Error::Overlap));
    assert_eq!(owner(&manager, 0x80, IoType::Pio), None);
    assert_eq!(owner(&manager, 0x100f_f800, IoType::Mmio), Some("dev".to_string()));

    manager.unregister_io_resources(&resolved);
    assert_eq!(owner(&manager, 0x60, IoType::Pio), None);
    assert_eq!(owner(&manager, 0x100f_f800, IoType::Mmio), None);
    // The ranges are still allocated until they are freed.
    assert_eq!(manager.allocate_io_resources(&vec![pio(Some(0x60), 1)]), Err(Error::Overlap));
    manager.free_io_resources(&resolved);
    assert_eq!(manager.allocate_io_resources(&requests), Ok(resolved));
}

#[test]
fn a_bus_takes_no_overlapping_ranges() {
    let mut bus: Bus<Recorder> = Bus::new();
    let a = Recorder::named("a");
    let b = Recorder::named("b");
    assert!(bus.insert(Range(GuestAddress(0x100), 0x10), a.clone()));
    // The same start, a start inside, an end inside, a range around.
    assert!(!bus.insert(Range(GuestAddress(0x100), 0x20), b.clone()));
    assert!(!bus.insert(Range(GuestAddress(0x108), 1), b.clone()));
    assert!(!bus.insert(Range(GuestAddress(0xf8), 9), b.clone()));
    assert!(!bus.insert(Range(GuestAddress(0xf0), 0x100), b.clone()));
    // A range that does not end within the address space.
    assert!(!bus.insert(Range(GuestAddress(u64::MAX), 1), b.clone()));
    assert!(!bus.is_vacant(Range(GuestAddress(0x10f), 1)));
    assert!(bus.is_vacant(Range(GuestAddress(0x110), 1)));
    // Adjacent ranges on both sides.
    assert!(bus.insert(Range(GuestAddress(0xf8), 8), b.clone()));
    assert!(bus.insert(Range(GuestAddress(0x110), 0x10), b.clone()));
    assert!(bus.insert(Range(GuestAddress(u64::MAX - 1), 1), b.clone()));

    let found = bus.lookup(GuestAddress(0x10f)).unwrap();
    assert_eq!(found.0, Range(GuestAddress(0x100), 0x10));
    assert_eq!(found.1.name(), "a");
    let found = bus.lookup(GuestAddress(0x110)).unwrap();
    assert_eq!(found.0, Range(GuestAddress(0x110), 0x10));
    assert_eq!(found.1.name(), "b");
    assert_eq!(bus.lookup(GuestAddress(0xff)).unwrap().0, Range(GuestAddress(0xf8), 8));
    assert!(bus.lookup(GuestAddress(0xf7)).is_none());
    assert!(bus.lookup(GuestAddress(0x120)).is_none());
    assert!(bus.lookup(GuestAddress(0)).is_none());
    assert_eq!(
        bus.lookup(GuestAddress(u64::MAX - 1)).unwrap().0,
        Range(GuestAddress(u64::MAX - 1), 1)
    );
    assert!(bus.lookup(GuestAddress(u64::MAX)).is_none());

    assert!(bus.remove(GuestAddress(0x100)));
    assert!(!bus.remove(GuestAddress(0x100)));
    assert!(!bus.remove(GuestAddress(0x108)));
    assert!(bus.lookup(GuestAddress(0x10f)).is_none());
    assert_eq!(bus.lookup(GuestAddress(0xff)).unwrap().1.name(), "b");
    assert!(bus.insert(Range(GuestAddress(0x100), 0x10), a.clone()));
}

#[test]
fn resources_and_descriptors() {
    let resource = Resource::new(Some(GuestAddress(0x1000)), 0x100, IoType::Mmio);
    assert_eq!(resource.addr, Some(GuestAddress(0x1000)));
    assert_eq!(resource.size, 0x100);
    assert_eq!(resource.res_type, IoType::Mmio);
    assert_eq!(resource.try_unwrap(), GuestAddress(0x1000));
    let wildcard = Resource::new(None, 8, IoType::Pio);
    assert_eq!(wildcard.addr, None);

    let dev = Recorder::named("dev");
    let bus = Recorder::named("bus");
    let descriptor: DeviceDescriptor<Recorder, Lines> = DeviceDescriptor::new(
        "dev".to_string(),
        dev.clone(),
        Some(bus.clone()),
        vec![resource],
        Some(Arc::new(Lines { base: 3, count: 2 })),
    );
    assert_eq!(descriptor.name, "dev");
    assert_eq!(descriptor.device.name(), "dev");
    assert_eq!(descriptor.parent_bus.as_ref().unwrap().name(), "bus");
    assert_eq!(descriptor.resources, vec![resource]);
    assert_eq!(descriptor.interrupt_group.as_deref(), Some(&Lines { base: 3, count: 2 }));
}

#[test]
fn a_device_is_registered_under_the_name_given() {
    let mut manager = manager();
    let dev = Recorder::named("reported");
    let requests = vec![pio(Some(0x60), 1), mmio(None, 0x1000)];
    assert_eq!(
        manager.register_named("given".to_string(), as_device(&dev), None, &requests, None),
        Ok(())
    );
    assert_eq!(dev.given(), vec![pio(Some(0x60), 1), mmio(Some(0x100f_f000), 0x1000)]);
    // The record is kept under the name given, not under the one reported.
    assert_eq!(manager.unregister_device(as_device(&dev)), Err(Error::NonExist));
    let twin = Recorder::named("twin");
    assert_eq!(
        manager.register_named("given".to_string(), as_device(&twin), None, &vec![], None),
        Err(Error::Exist)
    );
    // A taken name does not keep other devices out.
    assert_eq!(
        manager.register_named("other".to_string(), as_device(&twin), None, &vec![pio(Some(0x70), 1)], None),
        Ok(())
    );
    assert_eq!(twin.given(), vec![pio(Some(0x70), 1)]);
    assert_eq!(manager.unregister_named(&"given".to_string()), Ok(()));
    assert_eq!(owner(&manager, 0x60, IoType::Pio), None);
    assert_eq!(owner(&manager, 0x70, IoType::Pio), Some("twin".to_string()));
    assert_eq!(
        manager.register_named("given".to_string(), as_device(&dev), None, &requests, None),
        Ok(())
    );
    assert_eq!(dev.given(), vec![pio(Some(0x60), 1), mmio(Some(0x100f_f000), 0x1000)]);
}

#[test]
fn registering_under_a_name_fails_as_a_whole() {
    let interrupts = Interrupts::failing();
    let mut manager: Manager = DeviceManager::new(interrupts.clone(), pools());
    let dev = Recorder::named("dev");
    let request = InterruptRequest { kind: InterruptSourceType::MsiIrq, base: 2, count: 3 };
    let requests = vec![mmio(None, 0x1000), pio(Some(0x60), 1)];
    assert_eq!(
        manager.register_named("n".to_string(), as_device(&dev), None, &requests, Some(request)),
        Err(Error::InterruptGroup)
    );
    assert_eq!(interrupts.calls(), vec![(InterruptSourceType::MsiIrq, 2, 3)]);
    assert_eq!(
        manager.register_named("n".to_string(), as_device(&dev), None, &vec![pio(None, 1)], None),
        Err(Error::NonePIORequest)
    );
    assert_eq!(
        manager.register_named("n".to_string(), as_device(&dev), None, &vec![mmio(None, 0)], None),
        Err(Error::Overlap)
    );
    assert_eq!(dev.given(), vec![]);
    assert_eq!(manager.unregister_named(&"n".to_string()), Err(Error::NonExist));
    assert_eq!(manager.register_named("n".to_string(), as_device(&dev), None, &requests, None), Ok(()));
    assert_eq!(dev.given(), vec![mmio(Some(0x100f_f000), 0x1000), pio(Some(0x60), 1)]);
}

#[test]
fn attaching_records_the_device_with_its_ranges() {
    let mut manager = manager();
    let dev = Recorder::named("dev");
    let requests = vec![pio(Some(0x60), 1), mmio(None, 0x1000), physical(None, 0x1000)];
    let resolved = manager.allocate_io_resources(&requests).unwrap();
    let lines: Arc<Lines> = Arc::new(Lines { base: 1, count: 2 });
    assert_eq!(
        manager.attach("dev".to_string(), as_device(&dev), None, resolved.clone(), Some(Ok(lines))),
        Ok(())
    );
    assert_eq!(dev.given(), resolved);
    assert_eq!(owner(&manager, 0x60, IoType::Pio), Some("dev".to_string()));
    assert_eq!(owner(&manager, 0x100f_f000, IoType::Mmio), Some("dev".to_string()));
    assert_eq!(owner(&manager, 0x100f_e000, IoType::Mmio), None);
    assert_eq!(manager.unregister_named(&"dev".to_string()), Ok(()));
    assert_eq!(manager.allocate_io_resources(&requests), Ok(resolved));
}

#[test]
fn a_failed_attachment_gives_the_ranges_back() {
    let mut manager = manager();
    let first = Recorder::named("first");
    assert_eq!(manager.register_device(as_device(&first), None, &vec![pio(Some(0x80), 1)], None), Ok(()));
    let dev = Recorder::named("dev");
    let requests = vec![pio(Some(0x60), 1), mmio(None, 0x1000)];
    let expected = vec![pio(Some(0x60), 1), mmio(Some(0x100f_f000), 0x1000)];

    // The interrupt lines could not be set up.
    let resolved = manager.allocate_io_resources(&requests).unwrap();
    assert_eq!(resolved, expected);
    assert_eq!(
        manager.attach("dev".to_string(), as_device(&dev), None, resolved, Some(Err(InterruptError))),
        Err(Error::InterruptGroup)
    );
    assert_eq!(owner(&manager, 0x60, IoType::Pio), None);

    // The name is taken.
    let resolved = manager.allocate_io_resources(&requests).unwrap();
    assert_eq!(resolved, expected);
    assert_eq!(
        manager.attach("first".to_string(), as_device(&dev), None, resolved, None),
        Err(Error::Exist)
    );
    assert_eq!(owner(&manager, 0x60, IoType::Pio), None);

    // A range is taken on its bus: what went on a bus before it comes off.
    let resolved = manager.allocate_io_resources(&requests).unwrap();
    assert_eq!(resolved, expected);
    let clash = vec![pio(Some(0x60), 1), mmio(Some(0x100f_f000), 0x1000), pio(Some(0x80), 1)];
    assert_eq!(manager.attach("dev".to_string(), as_device(&dev), None, clash, None), Err(Error::Overlap));
    assert_eq!(owner(&manager, 0x60, IoType::Pio), None);
    assert_eq!(owner(&manager, 0x100f_f000, IoType::Mmio), None);
    assert_eq!(owner(&manager, 0x80, IoType::Pio), Some("first".to_string()));
    assert_eq!(dev.given(), vec![]);
    assert_eq!(manager.unregister_named(&"dev".to_string()), Err(Error::NonExist));

    // Each time the ranges went back to their pools. The last list named the
    // port of the first device too, which is free now.
    assert_eq!(manager.allocate_io_resources(&requests), Ok(expected));
    assert_eq!(manager.allocate_io_resources(&vec![pio(Some(0x80), 1)]), Ok(vec![pio(Some(0x80), 1)]));
}
