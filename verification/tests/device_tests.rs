use diskalloc::device::DeviceError;
use diskalloc::device::MemDevice;
use diskalloc::device::StorageDevice;

#[test]
fn write_then_read_round_trip() {
    let mut device = MemDevice::zeroed(64, 8, 16);
    let payload = vec![1u8, 2, 3, 4, 5];
    assert_eq!(device.write_at(10, payload.as_slice()), Ok(5));
    let mut buf = vec![0u8; 5];
    assert_eq!(device.read_at(10, &mut buf), Ok(5));
    assert_eq!(buf, payload);

    // neighbouring bytes are untouched
    let mut around = vec![9u8; 7];
    assert_eq!(device.read_at(9, &mut around), Ok(7));
    assert_eq!(around, vec![0, 1, 2, 3, 4, 5, 0]);
}

#[test]
fn geometry_accessors() {
    let device = MemDevice::new(vec![7u8; 100], 4, 32);
    assert_eq!(device.size(), 100);
    assert_eq!(device.block_size(), 32);
    assert_eq!(device.access_range(), (4, 100));
}

#[test]
fn reads_outside_the_accessible_range_fail() {
    let device = MemDevice::zeroed(64, 8, 16);
    let mut buf = vec![0u8; 4];
    assert_eq!(device.read_at(7, &mut buf), Err(DeviceError::InvalidOffset));
    assert_eq!(device.read_at(61, &mut buf), Err(DeviceError::InvalidOffset));
    assert_eq!(device.read_at(100, &mut buf), Err(DeviceError::InvalidOffset));
    assert_eq!(device.read_at(60, &mut buf), Ok(4));
}

#[test]
fn writes_outside_the_accessible_range_fail() {
    let mut device = MemDevice::zeroed(64, 8, 16);
    let payload = vec![1u8; 4];
    assert_eq!(
        device.write_at(7, payload.as_slice()),
        Err(DeviceError::InvalidOffset)
    );
    assert_eq!(
        device.write_at(61, payload.as_slice()),
        Err(DeviceError::NotEnoughSpace)
    );
    assert_eq!(device.write_at(60, payload.as_slice()), Ok(4));
}
