use abridged_certs::builtins::CertTable;
use abridged_certs::error::CodecError;
use abridged_certs::pass2;
use abridged_certs::{Compressor, Decompressor, ALGORITHM_ID};

/// The `Certificate` payload of the server in tls13.xargs.org, one entry
/// without extensions.
const CERTMSG: &[&str] = &[
    "0000032a0003253082032130820209a0030201020208155a92adc2048f90300d06092a864886f70d",
    "01010b05003022310b300906035504061302555331133011060355040a130a4578616d706c652043",
    "41301e170d3138313030353031333831375a170d3139313030353031333831375a302b310b300906",
    "0355040613025553311c301a060355040313136578616d706c652e756c666865696d2e6e65743082",
    "0122300d06092a864886f70d01010105000382010f003082010a0282010100c4803606bae7476b08",
    "9404eca7b691043ff792bc19eefb7d74d7a80d001e7b4b3a4ae60fe8c071fc73e7024c0dbcf4bdd1",
    "1d396bba70464a13e94af83df3e10959547bc955fb412da3765211e1f3dc776caa53376eca3aecbe",
    "c3aab73b31d56cb6529c8098bcc9e02818e20bf7f8a03afd1704509ece79bd9f39f1ea69ec47972e",
    "830fb5ca95de95a1e60422d5eebe527954a1e7bf8a86f6466d0d9f16951a4cf7a04692595c1352f2",
    "549e5afb4ebfd77a37950144e4c026874c653e407d7d23074401f484ffd08f7a1fa05210d1f4f0d5",
    "ce79702932e2cabe701fdfad6b4bb71101f44bad666a11130fe2ee829e4d029dc91cdd6716dbb906",
    "1886edc1ba94210203010001a3523050300e0603551d0f0101ff0404030205a0301d0603551d2504",
    "16301406082b0601050507030206082b06010505070301301f0603551d23041830168014894fde5b",
    "cc69e252cf3ea300dfb197b81de1c146300d06092a864886f70d01010b05000382010100591645a6",
    "9a2e3779e4f6dd271aba1c0bfd6cd75599b5e7c36e533eff3659084324c9e7a504079d39e0d42987",
    "ffe3ebdd09c1cf1d914455870b571dd19bdf1d24f8bb9a11fe80fd592ba0398cde11e2651e618ce5",
    "98fa96e5372eef3d248afde17463ebbfabb8e4d1ab502a54ec0064e92f7819660d3f27cf209e667f",
    "ce5ae2e4ac99c7c93818f8b2510722dfed97f32e3e9349d4c66c9ea6396d744462a06b42c6d5ba68",
    "8eac3a017bddfc8e2cfcad27cb69d3ccdca280414465d3ae348ce0f34ab2fb9c618371312b191041",
    "641c237f11a5d65c844f0404849938712b959ed685bc5c5dd645ed19909473402926dcb40e3469a1",
    "5941e8e2cca84bb6084636a00000",
];

fn decode(parts: &[&str]) -> Vec<u8> {
    hex::decode(parts.concat()).unwrap()
}

#[test]
fn lib_compressor_happy() {
    let cert_bytes = decode(CERTMSG);
    let c = Compressor::new_from_builtin();
    let out = c.compress_to_bytes(&cert_bytes).expect("Compression succeeds");
    println!("Compressed to {} from {}", out.len(), cert_bytes.len());
}

#[test]
fn lib_round_trip_happy() {
    let cert_bytes = decode(CERTMSG);
    let c = Compressor::new_from_builtin();
    let out = c.compress_to_bytes(&cert_bytes).expect("Compression succeeds");
    let c = Decompressor::new_from_builtin();
    let round_trip = c.decompress_to_bytes(&out, 16000).expect("Compression succeeds");
    assert_eq!(cert_bytes, round_trip);
}

#[test]
fn lib_size_limits() {
    let cert_bytes = decode(CERTMSG);
    let c = Compressor::new_from_builtin();
    let out = c.compress_to_bytes(&cert_bytes).expect("Compression succeeds");
    let c = Decompressor::new_from_builtin();
    let _ = c.decompress_to_bytes(&out, 100).expect_err("Shouldn't be enough space!");
}

#[test]
fn known_root_happy_path() {
    let cert_bytes = decode(CERTMSG);
    let out = Compressor::new_from_builtin().compress_to_bytes(&cert_bytes).unwrap();
    assert!(out.len() < cert_bytes.len());
    let back = Decompressor::new_from_builtin().decompress_to_bytes(&out, 16000).unwrap();
    assert_eq!(back, cert_bytes);
}

#[test]
fn undersized_cap() {
    let cert_bytes = decode(CERTMSG);
    let out = Compressor::new_from_builtin().compress_to_bytes(&cert_bytes).unwrap();
    let r = Decompressor::new_from_builtin().decompress_to_bytes(&out, 100);
    assert_eq!(r, Err(CodecError::OutputTooLarge));
}

#[test]
fn unknown_certificate() {
    let cert_bytes = decode(CERTMSG);
    let out = Compressor::new_from_builtin().compress_to_bytes(&cert_bytes).unwrap();
    let direct = pass2::Compressor::new_from_builtin().compress_to_bytes(&cert_bytes).unwrap();
    assert_eq!(out, direct);
    let back = Decompressor::new_from_builtin().decompress_to_bytes(&out, 16000).unwrap();
    assert_eq!(back, cert_bytes);
}

#[test]
fn malformed_trailing_byte() {
    let mut cert_bytes = decode(CERTMSG);
    cert_bytes.push(0);
    let r = Compressor::new_from_builtin().compress_to_bytes(&cert_bytes);
    assert_eq!(r, Err(CodecError::MalformedInput));
}

#[test]
fn empty_entry_list() {
    let empty = vec![0u8, 0, 0, 0];
    let out = Compressor::new_from_builtin().compress_to_bytes(&empty).unwrap();
    assert!(!out.is_empty());
    let back = Decompressor::new_from_builtin().decompress_to_bytes(&out, 16000).unwrap();
    assert_eq!(back, empty);
}

#[test]
fn random_inputs_stay_under_cap() {
    let d = Decompressor::new_from_builtin();
    let mut state: u64 = 0x9e37_79b9_7f4a_7c15;
    for round in 0..3000u32 {
        let len = (round % 300) as usize;
        let mut input: Vec<u8> = Vec::with_capacity(len + 4);
        if round % 2 == 0 {
            input.extend_from_slice(&[0x28, 0xb5, 0x2f, 0xfd]);
        }
        for _ in 0..len {
            state = state.wrapping_mul(6364136223846793005).wrapping_add(1442695040888963407);
            input.push((state >> 33) as u8);
        }
        match d.decompress_to_bytes(&input, 16000) {
            Ok(out) => assert!(out.len() <= 16000),
            Err(e) => assert!(matches!(
                e,
                CodecError::MalformedInput
                    | CodecError::ValueTooLarge
                    | CodecError::OutputTooLarge
                    | CodecError::CoderFailure
            )),
        }
    }
}

fn example_table() -> CertTable {
    let cert_bytes = decode(CERTMSG);
    let cert = cert_bytes[7..7 + 0x325].to_vec();
    CertTable::new(&[(vec![0xab, 0x01], cert)]).unwrap()
}

#[test]
fn custom_table_round_trip() {
    let cert_bytes = decode(CERTMSG);
    let out = Compressor::new(example_table()).compress_to_bytes(&cert_bytes).unwrap();
    let plain = Compressor::new_from_builtin().compress_to_bytes(&cert_bytes).unwrap();
    assert!(out.len() < 30);
    assert!(out.len() < plain.len());
    let d = Decompressor::new(example_table());
    assert_eq!(d.decompress_to_bytes(&out, 16000).unwrap(), cert_bytes);
    let n = cert_bytes.len() as u32;
    assert_eq!(d.decompress_to_bytes(&out, n).unwrap(), cert_bytes);
    assert_eq!(d.decompress_to_bytes(&out, n - 1), Err(CodecError::OutputTooLarge));
}

#[test]
fn expansion_is_held_to_the_cap() {
    let d = Decompressor::new(example_table());
    let intermediate = vec![0, 0, 0, 7, 0, 0, 2, 0xab, 0x01, 0, 0];
    assert_eq!(d.expand_to_bytes(&intermediate, 100), Err(CodecError::OutputTooLarge));
    let full = d.expand_to_bytes(&intermediate, 16000).unwrap();
    assert_eq!(full, decode(CERTMSG));
    assert_eq!(d.expand_to_bytes(&[0, 0, 0], 16000), Err(CodecError::MalformedInput));
}

#[test]
fn corrupt_frame_is_a_coder_failure() {
    let r = Decompressor::new_from_builtin().decompress_to_bytes(&[0xde, 0xad, 0xbe, 0xef], 16000);
    assert_eq!(r, Err(CodecError::CoderFailure));
}

#[test]
fn algorithm_code_point() {
    assert_eq!(ALGORITHM_ID, 9999);
}
