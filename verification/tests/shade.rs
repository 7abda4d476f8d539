use shadenbt::data::{
    ByteOrder, DataInput, DataInputStream, DataOutput, DataOutputStream, Error, Invalid,
};
use shadenbt::nbt::{NbtCompound, NbtList, NbtTag};
use shadenbt::shade::{
    flags_for, joined, payload_order, read_crypto_head, read_header, write_header, ShadeFile,
    CRYPTO_MAGIC, SHADE_MAGIC, SHADE_VERSION,
};
use shadenbt::version::Version;

fn pikachu(file: &mut ShadeFile) {
    file.insert("hp".to_string(), NbtTag::Short(35));
    file.insert("name".to_string(), NbtTag::String("Pikachu".to_string()));
    let mut moves = NbtList::new();
    moves.insert(NbtTag::String("Thunderbolt".to_string())).unwrap();
    moves.insert(NbtTag::String("QuickAttack".to_string())).unwrap();
    file.insert("moves".to_string(), NbtTag::List(moves));
}

fn pikachu_bytes() -> Vec<u8> {
    let mut bytes = vec![0xAD, 0x4E, 0x42, 0x54, 0x00, 0x02];
    bytes.extend_from_slice(&[2, 0, 2, b'h', b'p', 0, 35]);
    bytes.extend_from_slice(&[8, 0, 4, b'n', b'a', b'm', b'e', 0, 7]);
    bytes.extend_from_slice(b"Pikachu");
    bytes.extend_from_slice(&[9, 0, 5, b'm', b'o', b'v', b'e', b's', 8, 0, 0, 0, 2, 0, 11]);
    bytes.extend_from_slice(b"Thunderbolt");
    bytes.extend_from_slice(&[0, 11]);
    bytes.extend_from_slice(b"QuickAttack");
    bytes.push(0);
    bytes
}

fn plain_bytes(file: &ShadeFile) -> Vec<u8> {
    let mut out = DataOutputStream::new(Vec::new(), ByteOrder::BigEndian);
    file.serialize(&mut out).unwrap();
    out.into_inner()
}

#[test]
fn new_file_is_current_version_big_endian_and_empty() {
    let file = ShadeFile::new();
    assert_eq!(file.version(), Version::from_encoded(SHADE_VERSION));
    assert_eq!(file.version().into_encoded(), 4);
    assert_eq!(file.byte_order(), ByteOrder::BigEndian);
    assert_eq!(file.flags(), 0);
    assert_eq!(file.compound().len(), 0);
    assert!(!file.is_encrypted());
    assert_eq!(file.magic(), SHADE_MAGIC);
    assert_eq!(file.magic(), [0xAD, 0x4E, 0x42, 0x54]);
    assert_eq!(CRYPTO_MAGIC, [0xEC, 0x4E, 0x42, 0x54]);
    assert_eq!(ShadeFile::default(), ShadeFile::new());
}

#[test]
fn constructors_refuse_what_is_not_supported() {
    assert_eq!(ShadeFile::with_byte_order(ByteOrder::LittleEndian).byte_order(), ByteOrder::LittleEndian);
    assert_eq!(ShadeFile::with_byte_order(ByteOrder::LittleEndian).flags(), 0x80);
    assert_eq!(ShadeFile::with_byte_order(ByteOrder::BigEndian).flags(), 0);
    assert!(ShadeFile::with_version(Version::from_encoded(4)).is_ok());
    assert!(ShadeFile::with_version(Version::from_encoded(0)).is_ok());
    assert_eq!(
        ShadeFile::with_version(Version::from_encoded(5)),
        Err(Error::ValidationError(Invalid::VersionNotImplemented(5)))
    );
    assert_eq!(
        ShadeFile::with_version(Version::from_encoded(0x0100)),
        Err(Error::ValidationError(Invalid::VersionNotImplemented(0x0100)))
    );
    assert_eq!(
        ShadeFile::with_version_and_byte_order(Version::from_encoded(1), ByteOrder::LittleEndian),
        Err(Error::ValidationError(Invalid::BadFlags(0x80)))
    );
    assert_eq!(
        ShadeFile::with_version_and_byte_order(Version::from_encoded(9), ByteOrder::LittleEndian),
        Err(Error::ValidationError(Invalid::VersionNotImplemented(9)))
    );
    let file =
        ShadeFile::with_version_and_byte_order(Version::from_encoded(3), ByteOrder::LittleEndian)
            .unwrap();
    assert_eq!(file.byte_order(), ByteOrder::LittleEndian);
    assert_eq!(file.version().into_encoded(), 3);
    let file =
        ShadeFile::with_version_and_byte_order(Version::from_encoded(1), ByteOrder::BigEndian)
            .unwrap();
    assert_eq!(file.byte_order(), ByteOrder::BigEndian);
    assert_eq!(file.header().flags, None);
    assert_eq!(ShadeFile::new().header().flags, Some(0));
}

#[test]
fn pikachu_file_is_byte_exact() {
    let mut file = ShadeFile::with_version(Version::from_encoded(2)).unwrap();
    pikachu(&mut file);
    let bytes = plain_bytes(&file);
    assert_eq!(bytes, pikachu_bytes());
    let mut input = DataInputStream::new(bytes.clone(), ByteOrder::LittleEndian);
    let back = ShadeFile::deserialize_copy(&mut input).unwrap();
    assert_eq!(back, file);
    assert_eq!(back.get("hp"), Some(&NbtTag::Short(35)));
    assert_eq!(back.get("name"), Some(&NbtTag::String("Pikachu".to_string())));
    assert_eq!(back.version().into_encoded(), 2);
    assert_eq!(input.byte_order(), ByteOrder::BigEndian);
    assert_eq!(plain_bytes(&back), bytes);
}

#[test]
fn flags_byte_stands_only_above_version_1_2() {
    for encoded in [0u16, 1, 2] {
        let file = ShadeFile::with_version(Version::from_encoded(encoded)).unwrap();
        assert_eq!(plain_bytes(&file), vec![0xAD, 0x4E, 0x42, 0x54, 0, encoded as u8, 0]);
    }
    for encoded in [3u16, 4] {
        let file = ShadeFile::with_version(Version::from_encoded(encoded)).unwrap();
        assert_eq!(plain_bytes(&file), vec![0xAD, 0x4E, 0x42, 0x54, 0, encoded as u8, 0, 0]);
        let file = ShadeFile::with_version_and_byte_order(
            Version::from_encoded(encoded),
            ByteOrder::LittleEndian,
        )
        .unwrap();
        let bytes = plain_bytes(&file);
        assert_eq!(bytes, vec![0xAD, 0x4E, 0x42, 0x54, 0, encoded as u8, 0x80, 0]);
        let mut input = DataInputStream::new(bytes, ByteOrder::BigEndian);
        let back = ShadeFile::deserialize_copy(&mut input).unwrap();
        assert_eq!(back.flags(), 0x80);
        assert_eq!(back, file);
    }
    let mut input = DataInputStream::new(vec![0xAD, 0x4E, 0x42, 0x54, 0, 2, 0, 0x80], ByteOrder::BigEndian);
    let back = ShadeFile::deserialize_copy(&mut input).unwrap();
    assert_eq!(back.flags(), 0);
    assert_eq!(back.compound().len(), 0);
    assert_eq!(input.into_inner(), vec![0x80]);
}

#[test]
fn little_endian_file_round_trips() {
    let mut file = ShadeFile::with_byte_order(ByteOrder::LittleEndian);
    pikachu(&mut file);
    let mut out = DataOutputStream::new(Vec::new(), ByteOrder::BigEndian);
    file.serialize(&mut out).unwrap();
    assert_eq!(out.byte_order(), ByteOrder::LittleEndian);
    let bytes = out.into_inner();
    assert_eq!(&bytes[..9], &[0xAD, 0x4E, 0x42, 0x54, 0, 4, 0x80, 2, 2]);
    let mut input = DataInputStream::new(bytes, ByteOrder::BigEndian);
    let mut back = ShadeFile::new();
    assert_eq!(back.deserialize(&mut input), Ok(()));
    assert_eq!(back, file);
    assert_eq!(input.byte_order(), ByteOrder::LittleEndian);
}

#[test]
fn bad_magic_is_not_a_shade_file() {
    let mut bytes = pikachu_bytes();
    bytes[0] = 0xEC;
    let mut input = DataInputStream::new(bytes, ByteOrder::BigEndian);
    assert_eq!(
        ShadeFile::deserialize_copy(&mut input),
        Err(Error::ValidationError(Invalid::BadMagic))
    );
    let mut input = DataInputStream::new(vec![0xAD, 0x4E, 0x42, 0x55, 0, 0, 0], ByteOrder::BigEndian);
    assert_eq!(
        ShadeFile::deserialize_copy(&mut input),
        Err(Error::ValidationError(Invalid::BadMagic))
    );
    let mut input = DataInputStream::new(vec![0xAD, 0x4E, 0x42], ByteOrder::BigEndian);
    assert_eq!(ShadeFile::deserialize_copy(&mut input), Err(Error::EndOfFile));
}

#[test]
fn newer_version_is_not_implemented() {
    let mut input = DataInputStream::new(vec![0xAD, 0x4E, 0x42, 0x54, 0, 5, 0, 0], ByteOrder::BigEndian);
    assert_eq!(
        ShadeFile::deserialize_copy(&mut input),
        Err(Error::ValidationError(Invalid::VersionNotImplemented(5)))
    );
    let mut input = DataInputStream::new(vec![0xAD, 0x4E, 0x42, 0x54, 1, 0, 0, 0], ByteOrder::BigEndian);
    assert_eq!(
        ShadeFile::deserialize_copy(&mut input),
        Err(Error::ValidationError(Invalid::VersionNotImplemented(0x0100)))
    );
    let mut input = DataInputStream::new(vec![0xAD, 0x4E, 0x42, 0x54, 0], ByteOrder::BigEndian);
    assert_eq!(ShadeFile::deserialize_copy(&mut input), Err(Error::EndOfFile));
}

#[test]
fn flag_bits_are_refused_or_masked() {
    for flags in [0x01u8, 0x10, 0x1F, 0x81, 0xFF] {
        let mut input =
            DataInputStream::new(vec![0xAD, 0x4E, 0x42, 0x54, 0, 4, flags, 0], ByteOrder::BigEndian);
        assert_eq!(
            ShadeFile::deserialize_copy(&mut input),
            Err(Error::ValidationError(Invalid::BadFlags(flags)))
        );
    }
    for (flags, kept) in [(0x00u8, 0x00u8), (0x20, 0x20), (0x40, 0x00), (0x60, 0x20), (0x80, 0x80), (0xC0, 0x80), (0xE0, 0xA0)] {
        let mut input =
            DataInputStream::new(vec![0xAD, 0x4E, 0x42, 0x54, 0, 4, flags, 0], ByteOrder::BigEndian);
        let file = ShadeFile::deserialize_copy(&mut input).unwrap();
        assert_eq!(file.flags(), kept);
        assert_eq!(file.byte_order(), payload_order(kept));
    }
    let mut input = DataInputStream::new(vec![0xAD, 0x4E, 0x42, 0x54, 0, 4], ByteOrder::BigEndian);
    assert_eq!(ShadeFile::deserialize_copy(&mut input), Err(Error::EndOfFile));
    assert_eq!(flags_for(ByteOrder::LittleEndian), 0x80);
    assert_eq!(flags_for(ByteOrder::BigEndian), 0);
    assert_eq!(payload_order(0x80), ByteOrder::LittleEndian);
    assert_eq!(payload_order(0x7F), ByteOrder::BigEndian);
}

#[test]
fn header_is_written_and_read() {
    let mut out = DataOutputStream::new(Vec::new(), ByteOrder::LittleEndian);
    write_header(true, Version::from_encoded(3), 0xA0, &mut out);
    write_header(false, Version::from_encoded(2), 0xA0, &mut out);
    let bytes = out.into_inner();
    assert_eq!(bytes, vec![0xEC, 0x4E, 0x42, 0x54, 0, 3, 0xA0, 0xAD, 0x4E, 0x42, 0x54, 0, 2]);
    let mut input = DataInputStream::new(bytes, ByteOrder::BigEndian);
    assert_eq!(read_header(true, &mut input), Ok((Version::from_encoded(3), 0xA0)));
    assert_eq!(read_header(false, &mut input), Ok((Version::from_encoded(2), 0)));
    assert_eq!(read_header(false, &mut input), Err(Error::EndOfFile));
    assert_eq!(joined(&[1, 2], &[3, 4, 5], 2), vec![1, 2, 3, 4]);
    assert_eq!(joined(&[], &[3], 0), Vec::<u8>::new());
}

#[test]
fn encrypted_file_round_trips_under_its_password() {
    for order in [ByteOrder::BigEndian, ByteOrder::LittleEndian] {
        let mut file = ShadeFile::with_byte_order(order);
        pikachu(&mut file);
        let mut out = DataOutputStream::new(Vec::new(), ByteOrder::BigEndian);
        file.write_encrypted(b"raichu", &mut out).unwrap();
        assert_eq!(out.byte_order(), order);
        let bytes = out.into_inner();
        assert_eq!(&bytes[..6], &[0xEC, 0x4E, 0x42, 0x54, 0, 4]);
        assert_eq!(bytes[6], if order == ByteOrder::LittleEndian { 0x80 } else { 0 });
        let cipher_len = bytes.len() - 7 - 82;
        assert_eq!(cipher_len % 16, 0);
        assert!(cipher_len >= plain_len(&file));
        let blocks = (cipher_len / 16) as u16;
        let count = if order == ByteOrder::LittleEndian {
            blocks.to_le_bytes()
        } else {
            blocks.to_be_bytes()
        };
        assert_eq!(&bytes[7..9], &count);
        let mut input = DataInputStream::new(bytes.clone(), ByteOrder::BigEndian);
        let back = ShadeFile::read_encrypted(b"raichu", &mut input).unwrap();
        assert!(back.is_encrypted());
        assert_eq!(back.magic(), CRYPTO_MAGIC);
        assert_eq!(back.version(), file.version());
        assert_eq!(back.flags(), file.flags());
        assert_eq!(back.compound(), file.compound());
        assert_eq!(back.get("name"), Some(&NbtTag::String("Pikachu".to_string())));
        let mut again = DataOutputStream::new(Vec::new(), ByteOrder::BigEndian);
        file.write_encrypted(b"raichu", &mut again).unwrap();
        assert_ne!(again.into_inner(), bytes);
    }
}

fn plain_len(file: &ShadeFile) -> usize {
    let mut out = DataOutputStream::new(Vec::new(), file.byte_order());
    shadenbt::nbt::write_compound(file.compound(), &mut out).unwrap();
    out.into_inner().len()
}

#[test]
fn wrong_password_fails_the_check() {
    let mut file = ShadeFile::new();
    pikachu(&mut file);
    let mut out = DataOutputStream::new(Vec::new(), ByteOrder::BigEndian);
    file.write_encrypted(b"raichu", &mut out).unwrap();
    let bytes = out.into_inner();
    let mut input = DataInputStream::new(bytes.clone(), ByteOrder::BigEndian);
    assert_eq!(
        ShadeFile::read_encrypted(b"pichu", &mut input),
        Err(Error::ValidationError(Invalid::PasswordCheckFailed))
    );
    assert_eq!(input.into_inner().len(), bytes.len() - 7 - 82);
    let mut input = DataInputStream::new(bytes, ByteOrder::BigEndian);
    assert_eq!(
        ShadeFile::read_encrypted(b"", &mut input),
        Err(Error::ValidationError(Invalid::PasswordCheckFailed))
    );
}

#[test]
fn magic_numbers_are_exclusive() {
    let mut file = ShadeFile::new();
    pikachu(&mut file);
    let mut out = DataOutputStream::new(Vec::new(), ByteOrder::BigEndian);
    file.write_encrypted(b"pw", &mut out).unwrap();
    let sealed = out.into_inner();
    let mut input = DataInputStream::new(sealed.clone(), ByteOrder::BigEndian);
    assert_eq!(
        ShadeFile::deserialize_copy(&mut input),
        Err(Error::ValidationError(Invalid::BadMagic))
    );
    let mut input = DataInputStream::new(plain_bytes(&file), ByteOrder::BigEndian);
    assert_eq!(
        ShadeFile::read_encrypted(b"pw", &mut input),
        Err(Error::ValidationError(Invalid::BadMagic))
    );
    let mut input = DataInputStream::new(sealed, ByteOrder::BigEndian);
    let opened = ShadeFile::read_encrypted(b"pw", &mut input).unwrap();
    let mut out = DataOutputStream::new(vec![1, 2], ByteOrder::LittleEndian);
    assert_eq!(
        opened.serialize(&mut out),
        Err(Error::ValidationError(Invalid::WrongContainer))
    );
    assert_eq!(out.byte_order(), ByteOrder::LittleEndian);
    assert_eq!(out.into_inner(), vec![1, 2]);
}

#[test]
fn encrypted_header_errors_come_before_the_password() {
    let mut input = DataInputStream::new(vec![0xEC, 0x4E, 0x42, 0x54, 0, 9], ByteOrder::BigEndian);
    assert_eq!(
        ShadeFile::read_encrypted(b"pw", &mut input),
        Err(Error::ValidationError(Invalid::VersionNotImplemented(9)))
    );
    let mut input = DataInputStream::new(vec![0xEC, 0x4E, 0x42, 0x54, 0, 4, 0x01], ByteOrder::BigEndian);
    assert_eq!(
        ShadeFile::read_encrypted(b"pw", &mut input),
        Err(Error::ValidationError(Invalid::BadFlags(1)))
    );
    let mut short = vec![0xEC, 0x4E, 0x42, 0x54, 0, 4, 0];
    short.extend_from_slice(&[0u8; 81]);
    let mut input = DataInputStream::new(short, ByteOrder::BigEndian);
    assert_eq!(ShadeFile::read_encrypted(b"pw", &mut input), Err(Error::EndOfFile));
}

#[test]
fn sealed_parts_are_laid_out_in_order() {
    let file = ShadeFile::with_byte_order(ByteOrder::LittleEndian);
    let salt = [1u8; 32];
    let iv = [2u8; 16];
    let check = [3u8; 32];
    let cipher = [4u8; 48];
    let mut out = DataOutputStream::new(Vec::new(), ByteOrder::BigEndian);
    file.write_sealed(&salt, &iv, &check, &cipher, &mut out).unwrap();
    let bytes = out.into_inner();
    assert_eq!(&bytes[..9], &[0xEC, 0x4E, 0x42, 0x54, 0, 4, 0x80, 3, 0]);
    assert_eq!(&bytes[9..41], &salt);
    assert_eq!(&bytes[41..57], &iv);
    assert_eq!(&bytes[57..89], &check);
    assert_eq!(&bytes[89..], &cipher);
    let mut input = DataInputStream::new(bytes[7..].to_vec(), ByteOrder::LittleEndian);
    let head = read_crypto_head(&mut input).unwrap();
    assert_eq!(head.block_sz, 3);
    assert_eq!(head.salt, salt.to_vec());
    assert_eq!(head.iv, iv.to_vec());
    assert_eq!(head.check_hash, check.to_vec());
    assert_eq!(input.into_inner(), cipher.to_vec());
    let large = vec![0u8; 16 * 65536];
    let mut out = DataOutputStream::new(vec![5], ByteOrder::BigEndian);
    assert_eq!(
        file.write_sealed(&salt, &iv, &check, &large, &mut out),
        Err(Error::ValidationError(Invalid::OutOfRange(65536)))
    );
    assert_eq!(out.into_inner(), vec![5]);
    let mut out = DataOutputStream::new(Vec::new(), ByteOrder::BigEndian);
    assert!(file.write_sealed(&salt, &iv, &check, &large[..16 * 65535 + 15], &mut out).is_ok());
}

#[test]
fn open_sealed_reads_the_compound_from_the_plaintext() {
    let mut compound = NbtCompound::new();
    compound.insert("a".to_string(), NbtTag::Short(258));
    let file = ShadeFile::open_sealed(Version::from_encoded(4), 0x80, vec![2, 1, 0, b'a', 2, 1, 0]).unwrap();
    assert_eq!(file.compound(), &compound);
    assert!(file.is_encrypted());
    assert_eq!(
        ShadeFile::open_sealed(Version::from_encoded(4), 0, vec![2, 1, 0, b'a', 2, 1, 0]),
        Err(Error::EndOfFile)
    );
}

#[test]
fn file_duplicates_hold_the_same() {
    let mut file = ShadeFile::with_byte_order(ByteOrder::LittleEndian);
    pikachu(&mut file);
    let mut copy = file.clone();
    assert_eq!(copy, file);
    assert_eq!(file.duplicate(), file);
    copy.insert("hp".to_string(), NbtTag::Short(1));
    assert_eq!(file.get("hp"), Some(&NbtTag::Short(35)));
    assert_eq!(copy.get("hp"), Some(&NbtTag::Short(1)));
}

#[test]
fn sealed_bytes_are_sha256_and_aes_256_cbc() {
    let mut file = ShadeFile::new();
    pikachu(&mut file);
    let mut out = DataOutputStream::new(Vec::new(), ByteOrder::BigEndian);
    file.write_encrypted(b"raichu", &mut out).unwrap();
    let bytes = out.into_inner();
    let salt = &bytes[9..41];
    let iv = &bytes[41..57];
    let check = &bytes[57..89];
    let cipher = &bytes[89..];
    let mut check_input = b"raichu".to_vec();
    check_input.extend_from_slice(&salt[..8]);
    assert_eq!(check, &openssl::sha::sha256(&check_input));
    let mut key_input = b"raichu".to_vec();
    key_input.extend_from_slice(salt);
    let key = openssl::sha::sha256(&key_input);
    let plain =
        openssl::symm::decrypt(openssl::symm::Cipher::aes_256_cbc(), &key, Some(iv), cipher)
            .unwrap();
    let mut expected = DataOutputStream::new(Vec::new(), ByteOrder::BigEndian);
    shadenbt::nbt::write_compound(file.compound(), &mut expected).unwrap();
    let expected = expected.into_inner();
    assert_eq!(plain, expected);
    assert_ne!(cipher, &expected[..]);
    let sealed =
        openssl::symm::encrypt(openssl::symm::Cipher::aes_256_cbc(), &key, Some(iv), &expected)
            .unwrap();
    assert_eq!(cipher, &sealed[..]);
    let mut tampered = bytes.clone();
    let last = tampered.len() - 1;
    tampered[last] ^= 0xFF;
    let mut input = DataInputStream::new(tampered, ByteOrder::BigEndian);
    let opened = ShadeFile::read_encrypted(b"raichu", &mut input);
    assert!(opened.is_err() || opened.unwrap().compound() != file.compound());
}

#[test]
fn refused_headers_leave_the_input_after_what_was_read() {
    let mut input = DataInputStream::new(vec![0xEC, 0x4E, 0x42, 0x54, 0, 2, 0, 9], ByteOrder::BigEndian);
    assert_eq!(
        ShadeFile::deserialize_copy(&mut input),
        Err(Error::ValidationError(Invalid::BadMagic))
    );
    assert_eq!(input.into_inner(), vec![0, 2, 0, 9]);
    let mut input = DataInputStream::new(vec![0xAD, 0x4E, 0x42, 0x54, 0, 5, 0, 9], ByteOrder::BigEndian);
    assert_eq!(
        ShadeFile::deserialize_copy(&mut input),
        Err(Error::ValidationError(Invalid::VersionNotImplemented(5)))
    );
    assert_eq!(input.into_inner(), vec![0, 9]);
    let mut input = DataInputStream::new(vec![0xAD, 0x4E, 0x42, 0x54, 0, 4, 1, 9], ByteOrder::BigEndian);
    assert_eq!(
        ShadeFile::deserialize_copy(&mut input),
        Err(Error::ValidationError(Invalid::BadFlags(1)))
    );
    assert_eq!(input.into_inner(), vec![9]);
    let mut plain = vec![0xAD, 0x4E, 0x42, 0x54, 0x00, 0x02];
    plain.extend_from_slice(&[0u8; 82]);
    let mut input = DataInputStream::new(plain, ByteOrder::BigEndian);
    assert_eq!(
        ShadeFile::read_encrypted(b"pw", &mut input),
        Err(Error::ValidationError(Invalid::BadMagic))
    );
    assert_eq!(input.into_inner().len(), 2 + 82);
}

#[test]
fn encrypted_reading_drains_the_input() {
    let mut file = ShadeFile::with_byte_order(ByteOrder::LittleEndian);
    pikachu(&mut file);
    let mut out = DataOutputStream::new(Vec::new(), ByteOrder::BigEndian);
    file.write_encrypted(b"raichu", &mut out).unwrap();
    let mut input = DataInputStream::new(out.into_inner(), ByteOrder::BigEndian);
    assert!(ShadeFile::read_encrypted(b"raichu", &mut input).is_ok());
    assert_eq!(input.byte_order(), ByteOrder::LittleEndian);
    assert_eq!(input.into_inner(), Vec::<u8>::new());
    let mut garbled = vec![0xEC, 0x4E, 0x42, 0x54, 0, 4, 0, 0, 1];
    let salt = [1u8; 32];
    let mut check_input = b"pw".to_vec();
    check_input.extend_from_slice(&salt[..8]);
    garbled.extend_from_slice(&salt);
    garbled.extend_from_slice(&[2u8; 16]);
    garbled.extend_from_slice(&openssl::sha::sha256(&check_input));
    garbled.extend_from_slice(&[3u8; 15]);
    let mut input = DataInputStream::new(garbled, ByteOrder::BigEndian);
    assert_eq!(
        ShadeFile::read_encrypted(b"pw", &mut input),
        Err(Error::IoError(shadenbt::data::IoFailure::Cipher))
    );
    assert_eq!(input.into_inner(), Vec::<u8>::new());
}
