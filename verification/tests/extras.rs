use shadenbt::data::{ByteOrder, Endianess};
use shadenbt::device::{InputStream, NullDevice, OutputStream, RandomDevice, Status, ZeroDevice};
use shadenbt::hashsum::{hashcode_of_slice, reinterpret, Hashcode};
use shadenbt::resource::{
    check_domain, check_path, find_colon, FromStrError, RegistryError, ResourceLocation,
};
use shadenbt::secret::{Destroyable, DestroyableByteArray, EmptyParams, IvParam};
use shadenbt::time::Duration;
use shadenbt::uuid::UUID;
use shadenbt::version::Version;

#[test]
fn native_byte_order_is_that_of_the_host() {
    let expected = if 1u16.to_ne_bytes()[0] == 1 {
        ByteOrder::LittleEndian
    } else {
        ByteOrder::BigEndian
    };
    assert_eq!(ByteOrder::native(), expected);
    let input = shadenbt::data::DataInputStream::new_native(vec![1]);
    assert_eq!(shadenbt::data::DataInput::byte_order(&input), expected);
    let output = shadenbt::data::DataOutputStream::new_native(vec![1]);
    assert_eq!(shadenbt::data::DataOutput::byte_order(&output), expected);
    assert_eq!(output.into_inner(), vec![1]);
}

#[test]
fn hashcodes_of_numbers() {
    assert_eq!(true.hashcode(), 1337);
    assert_eq!(false.hashcode(), 1331);
    assert_eq!(200u8.hashcode(), 200);
    assert_eq!((-5i8).hashcode(), -5);
    assert_eq!(65535u16.hashcode(), 65535);
    assert_eq!((-300i16).hashcode(), -300);
    assert_eq!(u32::MAX.hashcode(), -1);
    assert_eq!(0x8000_0000u32.hashcode(), i32::MIN);
    assert_eq!(7u32.hashcode(), 7);
    assert_eq!((-9i32).hashcode(), -9);
    assert_eq!(0x0000_0001_0000_0002i64.hashcode(), 3);
    assert_eq!((-1i64).hashcode(), 0);
    assert_eq!(i64::MIN.hashcode(), i32::MIN);
    assert_eq!(reinterpret(u64::MAX), -1);
    assert_eq!(reinterpret(5), 5);
}

#[test]
fn hashcodes_of_runs_multiply_by_31() {
    assert_eq!(hashcode_of_slice::<u8>(&[]), 0);
    assert_eq!(hashcode_of_slice(&[1u8, 2, 3]), (31 + 2) * 31 + 3);
    assert_eq!(vec![1u8, 2, 3].hashcode(), 1026);
    assert_eq!("abc".to_string().hashcode(), (97 * 31 + 98) * 31 + 99);
    assert_eq!(Some(7u16).hashcode(), 7);
    assert_eq!(None::<u16>.hashcode(), 0);
    let long = vec![i32::MAX; 9];
    let mut expected = 0i32;
    for v in &long {
        expected = expected.wrapping_mul(31).wrapping_add(*v);
    }
    assert_eq!(long.hashcode(), expected);
    assert_eq!(Version::from_pair(2, 7).unwrap().hashcode(), 2 * 31 + 7);
    assert_eq!(Version::from_pair(256, 255).unwrap().hashcode(), 256 * 31 + 255);
    let id = UUID::new(0x0000_0001_0000_0002, 0x0000_0004_0000_0008);
    assert_eq!(id.hashcode(), 3 * 31 + 12);
}

#[test]
fn status_tells_what_moved() {
    assert!(Status::Moved(3).is_ok());
    assert!(!Status::Eof.is_ok());
    assert!(!Status::Error("x".to_string()).is_ok());
    assert_eq!(Status::Moved(3).as_size(), Some(3));
    assert_eq!(Status::Eof.as_size(), None);
    assert_eq!(Status::Error("x".to_string()).as_size(), None);
    assert_eq!(Status::default(), Status::Moved(0));
    assert_eq!(Status::Error("x".to_string()).duplicate(), Status::Error("x".to_string()));
}

#[test]
fn null_device_is_empty_and_takes_everything() {
    let mut device = NullDevice::new();
    let mut buffer = [7u8; 4];
    assert_eq!(device.read(&mut buffer), Status::Eof);
    assert_eq!(buffer, [7; 4]);
    assert_eq!(device.read_byte(), None);
    assert_eq!(device.last_read(), Status::Eof);
    assert_eq!(device.write(&[1, 2, 3]), Status::Moved(3));
    assert_eq!(device.last_write(), Status::Moved(3));
    assert_eq!(device.write_byte(1), Some(()));
    assert_eq!(device.last_write(), Status::Moved(1));
    device.flush();
    device.clear_write_error();
    device.clear_read_error();
}

#[test]
fn zero_device_yields_zeros() {
    let mut device = ZeroDevice::new();
    let mut buffer = [7u8; 4];
    assert_eq!(device.read(&mut buffer), Status::Moved(4));
    assert_eq!(buffer, [0; 4]);
    assert_eq!(device.last_read(), Status::Moved(4));
    assert_eq!(device.read_byte(), Some(0));
    assert_eq!(device.write(&[1, 2]), Status::Moved(2));
    assert_eq!(device.last_write(), Status::Moved(2));
    assert_eq!(device.write_byte(9), Some(()));
}

#[test]
fn random_device_fills_the_buffer() {
    let mut device = RandomDevice::new();
    let mut a = [0u8; 32];
    let mut b = [0u8; 32];
    assert_eq!(device.read(&mut a), Status::Moved(32));
    assert_eq!(device.read(&mut b), Status::Moved(32));
    assert_ne!(a, b);
    assert_eq!(device.last_read(), Status::Moved(32));
    assert!(device.read_byte().is_some());
    device.clear_read_error();
    assert_eq!(device.last_read(), Status::Moved(0));
}

#[test]
fn durations_add_and_subtract() {
    assert_eq!(Duration::new(1, 1_000_000_000), None);
    let a = Duration::new(1, 600_000_000).unwrap();
    let b = Duration::new(2, 500_000_000).unwrap();
    let sum = a.checked_add(b).unwrap();
    assert_eq!((sum.get_seconds(), sum.get_nanos()), (4, 100_000_000));
    let difference = a.checked_sub(b).unwrap();
    assert_eq!((difference.get_seconds(), difference.get_nanos()), (-1, 100_000_000));
    let back = difference.checked_add(b).unwrap();
    assert_eq!(back, a);
    assert_eq!(Duration::max().checked_add(Duration::epsilon()), None);
    assert_eq!(Duration::min().checked_sub(Duration::epsilon()), None);
    assert_eq!(Duration::max().checked_add(Duration::zero()), Some(Duration::max()));
    assert_eq!(Duration::max().checked_sub(Duration::max()), Some(Duration::zero()));
    assert_eq!(Duration::default(), Duration::zero());
    assert_eq!(Duration::max().get_nanos(), 999_999_999);
    assert_eq!(Duration::min().get_seconds(), i64::MIN);
}

#[test]
fn resource_locations_are_checked() {
    assert!(check_domain("system"));
    assert!(check_domain("_a1"));
    assert!(check_domain("Abc_9"));
    assert!(!check_domain(""));
    assert!(!check_domain("1a"));
    assert!(!check_domain("a-b"));
    assert!(!check_domain("a/b"));
    assert!(!check_domain("é"));
    assert!(check_path("abilities/null"));
    assert!(check_path("a"));
    assert!(check_path("a/b/c_1"));
    assert!(!check_path(""));
    assert!(!check_path("/a"));
    assert!(!check_path("a/"));
    assert!(!check_path("a//b"));
    assert!(!check_path("a/1b"));
    assert!(!check_path("a:b"));
    assert_eq!(find_colon("ab:cd:e", 0), 2);
    assert_eq!(find_colon("ab:cd:e", 3), 5);
    assert_eq!(find_colon("ab", 0), 2);
}

#[test]
fn resource_locations_are_made_and_parsed() {
    let made = ResourceLocation::new("system".to_string(), "abilities/null".to_string()).unwrap();
    assert_eq!(made.domain(), "system");
    assert_eq!(made.path(), "abilities/null");
    assert_eq!(made.to_text(), "system:abilities/null");
    let parsed = ResourceLocation::create("system:abilities/null").unwrap();
    assert!(parsed.same(&made));
    assert_eq!(parsed, made);
    assert_eq!(ResourceLocation::create("a:b:c").unwrap().path(), "b");
    assert_eq!(
        ResourceLocation::new("1".to_string(), "a".to_string()),
        Err(FromStrError::InvalidDomain("1".to_string()))
    );
    assert_eq!(
        ResourceLocation::new("a".to_string(), "/".to_string()),
        Err(FromStrError::InvalidPath("/".to_string()))
    );
    assert_eq!(
        ResourceLocation::create("nocolon"),
        Err(FromStrError::NotEnoughComponents("nocolon".to_string()))
    );
    assert_eq!(
        ResourceLocation::create("no colon"),
        Err(FromStrError::InvalidDomain("no colon".to_string()))
    );
    assert_eq!(
        ResourceLocation::create(":a"),
        Err(FromStrError::InvalidDomain("".to_string()))
    );
    assert_eq!(
        ResourceLocation::create("a:"),
        Err(FromStrError::InvalidPath("".to_string()))
    );
    assert_ne!(RegistryError::Locked, RegistryError::AlreadyExists);
    assert_ne!(RegistryError::Locked, RegistryError::Poisoned);
}

#[test]
fn secrets_are_wiped_when_destroyed() {
    let mut buffer = DestroyableByteArray::new(vec![1, 2, 3]);
    assert!(!buffer.is_destroyed());
    assert_eq!(buffer.len(), 3);
    assert_eq!(buffer.get(1), 2);
    buffer.set(1, 9);
    assert_eq!(buffer.as_slice(), &[1, 9, 3]);
    let copy = buffer.duplicate();
    buffer.destroy();
    assert!(buffer.is_destroyed());
    assert_eq!(buffer.len(), 0);
    assert_eq!(copy.as_slice(), &[1, 9, 3]);
    assert!(!copy.is_destroyed());
    let mut iv = IvParam::copy(&copy);
    assert_eq!(iv.as_slice(), &[1, 9, 3]);
    iv.destroy();
    assert!(iv.is_destroyed());
    assert_eq!(iv.as_slice(), &[] as &[u8]);
    let fresh = IvParam::new(vec![4; 16]);
    assert_eq!(fresh.as_slice(), &[4; 16]);
    assert!(!fresh.is_destroyed());
    assert!(!IvParam::default().is_destroyed());
    let mut maybe = Some(DestroyableByteArray::new(vec![5]));
    assert!(!maybe.is_destroyed());
    maybe.destroy();
    assert!(maybe.is_none());
    assert!(maybe.is_destroyed());
    let mut empty = EmptyParams::default();
    empty.destroy();
    assert!(!empty.is_destroyed());
}

#[test]
fn endianess_names_an_order_or_the_host() {
    assert_eq!(Endianess::BigEndian.resolve(), ByteOrder::BigEndian);
    assert_eq!(Endianess::LittleEndian.resolve(), ByteOrder::LittleEndian);
    assert_eq!(Endianess::Native.resolve(), ByteOrder::native());
    assert_eq!(Endianess::default(), Endianess::Native);
    assert_eq!(Endianess::of(ByteOrder::LittleEndian), Endianess::LittleEndian);
    assert_eq!(Endianess::of(ByteOrder::BigEndian), Endianess::BigEndian);
}

#[test]
fn duration_is_seconds_then_nanos_on_the_wire() {
    let span = Duration::new(-2, 5).unwrap();
    let mut out = shadenbt::data::DataOutputStream::new(Vec::new(), ByteOrder::BigEndian);
    assert_eq!(shadenbt::data::Serializeable::serialize(&span, &mut out), Ok(()));
    let bytes = out.into_inner();
    assert_eq!(bytes, vec![0xFF, 0xFF, 0xFF, 0xFF, 0xFF, 0xFF, 0xFF, 0xFE, 0, 0, 0, 5]);
    let mut input = shadenbt::data::DataInputStream::new(bytes, ByteOrder::BigEndian);
    assert_eq!(Duration::read(&mut input), Ok(span));
    let mut input = shadenbt::data::DataInputStream::new(
        vec![0, 0, 0, 0, 0, 0, 0, 1, 0x3B, 0x9A, 0xCA, 0x00],
        ByteOrder::BigEndian,
    );
    assert_eq!(
        Duration::read(&mut input),
        Err(shadenbt::data::Error::ValidationError(shadenbt::data::Invalid::OutOfRange(
            1_000_000_000
        )))
    );
    let mut input = shadenbt::data::DataInputStream::new(vec![0; 11], ByteOrder::LittleEndian);
    assert_eq!(Duration::read(&mut input), Err(shadenbt::data::Error::EndOfFile));
}

#[test]
fn status_turns_into_a_result() {
    assert_eq!(Status::Moved(4).to_result(), Ok(4));
    assert_eq!(Status::Eof.to_result(), Err("Eof on stream".to_string()));
    assert_eq!(Status::Error("broken".to_string()).to_result(), Err("broken".to_string()));
}

#[test]
fn host_bytes_tell_the_byte_order() {
    assert_eq!(ByteOrder::of_host_bytes([1, 0]), ByteOrder::LittleEndian);
    assert_eq!(ByteOrder::of_host_bytes([0, 1]), ByteOrder::BigEndian);
    assert_eq!(ByteOrder::of_host_bytes(1u16.to_ne_bytes()), ByteOrder::native());
}
