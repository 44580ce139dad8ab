use ditiear::common::{DeserializeError, DiffBlob, DiffBlobType};
use ditiear::store::{read_manifest, FileParseError, StoreFailure};

fn blob(name: &str, hash: &str, kind: DiffBlobType) -> DiffBlob {
    DiffBlob::new(name.to_string(), hash.to_string(), kind)
}

#[test]
fn test_diff_blob() {
    let blob = DiffBlob::new("name".to_string(), "hash".to_string(), DiffBlobType::Directory);
    let s = blob.to_string();
    assert_eq!(s, "name hash directory 040409\n");
    let _ = DiffBlob::from_str(&s).unwrap();
    let blob = DiffBlob::new("name".to_string(), "hash".to_string(), DiffBlobType::File);
    let s = blob.to_string();
    assert_eq!(s, "name hash file 040404\n");
}

#[test]
fn test_binary_diff_blob() {
    let mut blobs = vec![];
    for i in 0..100 {
        let blob = DiffBlob::new(format!("name{}", i), format!("hash{}", i), DiffBlobType::Directory);
        assert!(blob.fits_two_digits());
        let binary_blob = blob.into_binary();
        blobs.push(binary_blob);
    }
    let mut blob_store = ditiear::common::BinaryDiffBlobStore { blobs };
    assert_eq!(blob_store.blobs.len(), 100);
    let a = blob_store.blobs.pop().unwrap();
    assert_eq!(a.name, "name99");
    assert_eq!(a.hash, "hash99");
    assert_eq!(a.name_len, 6);
    assert_eq!(a.hash_len, 6);
    assert_eq!(a.blob_type_len, 9);
}

#[test]
fn parsing_reproduces_the_record() {
    let line = "name hash directory 040409\n";
    let back = DiffBlob::from_str(line).unwrap();
    assert_eq!(back.name(), "name");
    assert_eq!(back.hash(), "hash");
    assert_eq!(back.blob_type(), DiffBlobType::Directory);
    let back = DiffBlob::from_str("name hash file 040404\n").unwrap();
    assert_eq!(back.blob_type(), DiffBlobType::File);
}

#[test]
fn line_is_read_back_as_written() {
    let written = blob("caf\u{e9} au lait.txt", "19127e790ea4e3ea", DiffBlobType::File);
    let line = written.to_string();
    assert_eq!(line, "caf\u{e9} au lait.txt 19127e790ea4e3ea file 111004\n");
    let back = DiffBlob::from_str(&line).unwrap();
    assert_eq!(back.name(), "caf\u{e9} au lait.txt");
    assert_eq!(back.hash(), "19127e790ea4e3ea");
    assert_eq!(back.blob_type(), DiffBlobType::File);
}

#[test]
fn lengths_decide_where_a_name_ends() {
    let written = blob("two  spaces ", "0a9edecebeb03ae4", DiffBlobType::Directory);
    let back = DiffBlob::from_str(&written.to_string()).unwrap();
    assert_eq!(back.name(), "two  spaces ");
    assert_eq!(back.hash(), "0a9edecebeb03ae4");
}

#[test]
fn empty_name_and_hash_round_trip() {
    let written = blob("", "", DiffBlobType::File);
    assert_eq!(written.to_string(), "  file 000004\n");
    let back = DiffBlob::from_str(&written.to_string()).unwrap();
    assert_eq!(back.name(), "");
    assert_eq!(back.hash(), "");
}

#[test]
fn long_name_gets_more_than_two_digits() {
    let name = "n".repeat(256);
    let written = blob(&name, "h", DiffBlobType::File);
    assert!(!written.fits_two_digits());
    let line = written.to_string();
    assert!(line.ends_with(" file 1000104\n"));
}

#[test]
fn trailing_whitespace_is_dropped_and_leading_is_not() {
    let back = DiffBlob::from_str("name hash file 040404 \t\r\n\u{2028}").unwrap();
    assert_eq!(back.name(), "name");
    let back = DiffBlob::from_str(" ame hash file 040404\n").unwrap();
    assert_eq!(back.name(), " ame");
}

#[test]
fn upper_case_digits_are_read() {
    let name = "0123456789";
    let back = DiffBlob::from_str("0123456789 hash file 0A0404").unwrap();
    assert_eq!(back.name(), name);
}

#[test]
fn short_line_is_refused() {
    assert_eq!(DiffBlob::from_str("0404").unwrap_err(), DeserializeError::InvalidLength);
    assert_eq!(DiffBlob::from_str("   \n").unwrap_err(), DeserializeError::InvalidLength);
    assert_eq!(DiffBlob::from_str("").unwrap_err(), DeserializeError::InvalidLength);
}

#[test]
fn bad_length_fields_are_told_apart() {
    assert_eq!(
        DiffBlob::from_str("name hash file 0g0404").unwrap_err(),
        DeserializeError::InvalidNameLengthInfo
    );
    assert_eq!(
        DiffBlob::from_str("name hash file +40404").unwrap_err(),
        DeserializeError::InvalidNameLengthInfo
    );
    assert_eq!(
        DiffBlob::from_str("name hash file 04x404").unwrap_err(),
        DeserializeError::InvalidHashLengthInfo
    );
    assert_eq!(
        DiffBlob::from_str("name hash file 04040z").unwrap_err(),
        DeserializeError::InvalidTypeLengthInfo
    );
}

#[test]
fn lengths_beyond_the_line_are_refused() {
    assert_eq!(
        DiffBlob::from_str("name hash file 050404").unwrap_err(),
        DeserializeError::InvalidTotalLength
    );
    assert_eq!(DiffBlob::from_str("ffffff").unwrap_err(), DeserializeError::InvalidTotalLength);
}

#[test]
fn a_length_that_cuts_a_character_is_refused() {
    assert_eq!(
        DiffBlob::from_str("\u{e9}\u{e9} hash file 030404").unwrap_err(),
        DeserializeError::InvalidTotalLength
    );
}

#[test]
fn unknown_kind_is_refused() {
    assert_eq!(DiffBlob::from_str("name hash patch 040405").unwrap_err(), DeserializeError::InvalidType);
    assert_eq!(DiffBlob::from_str("name hash File 040404").unwrap_err(), DeserializeError::InvalidType);
}

#[test]
fn kind_words() {
    assert_eq!(DiffBlobType::Directory.to_string(), "directory");
    assert_eq!(DiffBlobType::File.to_string(), "file");
    assert_eq!(blob("a", "b", DiffBlobType::File).unique_name(), "afile");
    assert_eq!(blob("a", "b", DiffBlobType::Directory).unique_name(), "adirectory");
}

#[test]
fn manifest_is_read_line_by_line() {
    let text = "b 2 file 010104\na 1 directory 010109\n";
    let records = read_manifest(text.as_bytes()).unwrap();
    assert_eq!(records.len(), 2);
    assert_eq!(records[0].name(), "b");
    assert_eq!(records[1].name(), "a");
    assert_eq!(records[1].blob_type(), DiffBlobType::Directory);
    let records = read_manifest("b 2 file 010104".as_bytes()).unwrap();
    assert_eq!(records.len(), 1);
    assert_eq!(read_manifest(&[]).unwrap().len(), 0);
}

#[test]
fn manifest_errors() {
    assert_eq!(
        read_manifest("b 2 file 010104\n\na 1 file 010104\n".as_bytes()).unwrap_err(),
        FileParseError::Parse(DeserializeError::InvalidLength)
    );
    assert_eq!(
        read_manifest(&[0x62, 0x20, 0xff, 0x0a]).unwrap_err(),
        FileParseError::Io(StoreFailure::NotText)
    );
    assert_eq!(
        read_manifest("b 2 link 010104\n".as_bytes()).unwrap_err(),
        FileParseError::Parse(DeserializeError::InvalidType)
    );
}

#[test]
fn every_kind_of_whitespace_is_dropped_at_the_end() {
    let spaces = [
        0x09u32, 0x0a, 0x0b, 0x0c, 0x0d, 0x20, 0x85, 0xa0, 0x1680, 0x2000, 0x2001, 0x2002, 0x2003,
        0x2004, 0x2005, 0x2006, 0x2007, 0x2008, 0x2009, 0x200a, 0x2028, 0x2029, 0x202f, 0x205f,
        0x3000,
    ];
    for code in spaces {
        let line = format!("name hash file 040404{}", char::from_u32(code).unwrap());
        let back = DiffBlob::from_str(&line).unwrap();
        assert_eq!(back.name(), "name");
        assert_eq!(back.hash(), "hash");
    }
    let others = [0x08u32, 0x0e, 0x1f, 0x21, 0x84, 0x86, 0x9f, 0xa1, 0x180e, 0x200b, 0x2027, 0x202a, 0x2060, 0x3001, 0xfeff];
    for code in others {
        let line = format!("name hash file 040404{}", char::from_u32(code).unwrap());
        assert!(DiffBlob::from_str(&line).is_err());
    }
}

#[test]
fn only_well_formed_text_is_read() {
    let line = |middle: &[u8]| {
        let mut bytes = b"n ".to_vec();
        bytes.extend_from_slice(middle);
        let digits = format!(" file 01{:02x}04\n", middle.len());
        bytes.extend_from_slice(digits.as_bytes());
        bytes
    };
    let good: [&[u8]; 5] = [b"h", &[0xc3, 0xa9], &[0xe2, 0x82, 0xac], &[0xf0, 0x9f, 0x98, 0x80], &[0xf4, 0x8f, 0xbf, 0xbf]];
    for middle in good {
        let records = read_manifest(&line(middle)).unwrap();
        assert_eq!(records[0].hash().as_bytes(), middle);
    }
    let bad: [&[u8]; 7] = [
        &[0x80],
        &[0xc0, 0x80],
        &[0xe0, 0x80, 0x80],
        &[0xed, 0xa0, 0x80],
        &[0xf4, 0x90, 0x80, 0x80],
        &[0xf8, 0x88, 0x80, 0x80],
        &[0xe2, 0x82],
    ];
    for middle in bad {
        assert_eq!(read_manifest(&line(middle)).unwrap_err(), FileParseError::Io(StoreFailure::NotText));
    }
}
