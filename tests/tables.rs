use abridged_certs::builtins::{
    builtin_table, cert_to_identifier, hash, id_to_cert, CertTable, TableError,
};

/// The `Certificate` payload of the server in tls13.xargs.org, one entry
/// without extensions.
const CERTMSG: &[&str] = &[
    "0000032a0003253082032130820209a0030201020208155a92adc2048f90300d06092a864886f70d",
    "01010b05003022310b300906035504061302555331133011060355040a130a4578616d706c652043",
    "41301e170d3138313030353031333831375a170d3139313030353031333831375a302b310b300906",
    "0355040613025553311c301a060355040313136578616d706c652e756c666865696d2e6e65743082",
    "0122300d06092a864886f70d01010105000382010f003082010a0282010100c4803606bae7476b08",
    "9404eca7b691043ff792bc19eefb7d74d7a80d001e7b4b3a4ae60fe8c071fc73e7024c0dbcf4bdd1",
    "1d396bba70464a13e94af83df3e10959547bc955fb412da3765211e1f3dc776caa53376eca3aecbe",
    "c3aab73b31d56cb6529c8098bcc9e02818e20bf7f8a03afd1704509ece79bd9f39f1ea69ec47972e",
    "830fb5ca95de95a1e60422d5eebe527954a1e7bf8a86f6466d0d9f16951a4cf7a04692595c1352f2",
    "549e5afb4ebfd77a37950144e4c026874c653e407d7d23074401f484ffd08f7a1fa05210d1f4f0d5",
    "ce79702932e2cabe701fdfad6b4bb71101f44bad666a11130fe2ee829e4d029dc91cdd6716dbb906",
    "1886edc1ba94210203010001a3523050300e0603551d0f0101ff0404030205a0301d0603551d2504",
    "16301406082b0601050507030206082b06010505070301301f0603551d23041830168014894fde5b",
    "cc69e252cf3ea300dfb197b81de1c146300d06092a864886f70d01010b05000382010100591645a6",
    "9a2e3779e4f6dd271aba1c0bfd6cd75599b5e7c36e533eff3659084324c9e7a504079d39e0d42987",
    "ffe3ebdd09c1cf1d914455870b571dd19bdf1d24f8bb9a11fe80fd592ba0398cde11e2651e618ce5",
    "98fa96e5372eef3d248afde17463ebbfabb8e4d1ab502a54ec0064e92f7819660d3f27cf209e667f",
    "ce5ae2e4ac99c7c93818f8b2510722dfed97f32e3e9349d4c66c9ea6396d744462a06b42c6d5ba68",
    "8eac3a017bddfc8e2cfcad27cb69d3ccdca280414465d3ae348ce0f34ab2fb9c618371312b191041",
    "641c237f11a5d65c844f0404849938712b959ed685bc5c5dd645ed19909473402926dcb40e3469a1",
    "5941e8e2cca84bb6084636a00000",
];

fn decode(parts: &[&str]) -> Vec<u8> {
    hex::decode(parts.concat()).unwrap()
}

#[test]
fn hashes_entries_agree() {
    let table = builtin_table();
    for i in 0..table.len() {
        let id = table.identifier(i);
        let cert = id_to_cert(&id).expect("Should be present");
        assert_eq!(hash(&cert), table.fingerprint(i));
    }
}

#[test]
fn id_entries_agree() {
    let table = builtin_table();
    for i in 0..table.len() {
        let cert = table.certificate(i);
        let lookup = cert_to_identifier(&cert).expect("Should be present");
        assert_eq!(table.identifier(i), lookup);
    }
}

#[test]
fn blake256_known_digest() {
    let digest = hash(b"The lazy fox jumps over the lazy dog");
    assert_eq!(
        digest,
        vec![
            0x1B, 0x59, 0x7C, 0x7A, 0x88, 0x9F, 0xCE, 0xB1, 0xCC, 0x75, 0x6D, 0x6C, 0x6C, 0x06,
            0xA7, 0xF9, 0x22, 0x5E, 0x02, 0xBB, 0x0C, 0x02, 0x6E, 0x8B, 0xC5, 0xEB, 0x4E, 0xA7,
            0x61, 0x0E, 0xBB, 0x9E,
        ]
    );
}

fn sample_pairs() -> Vec<(Vec<u8>, Vec<u8>)> {
    let cert_bytes = decode(CERTMSG);
    vec![
        (vec![0xab, 0x01], cert_bytes[7..7 + 0x325].to_vec()),
        (vec![0xab, 0x02], b"a second certificate".to_vec()),
        (vec![0xab, 0x03], b"a third one".to_vec()),
    ]
}

#[test]
fn custom_table_agrees_both_ways() {
    let table = CertTable::new(&sample_pairs()).unwrap();
    assert_eq!(table.len(), 3);
    for i in 0..table.len() {
        let id = table.identifier(i);
        let cert = table.id_to_cert(&id).expect("Should be present");
        assert_eq!(cert, table.certificate(i));
        assert_eq!(hash(&cert), table.fingerprint(i));
        assert_eq!(table.cert_to_identifier(&cert), Some(id));
    }
    assert_eq!(table.id_to_cert(&[0xab]), None);
    assert_eq!(table.cert_to_identifier(b"not in the table"), None);
    assert_eq!(table.cert_to_identifier(&[0xab, 0x01]), None);
}

#[test]
fn builtin_lookups_miss() {
    let cert_bytes = decode(CERTMSG);
    assert_eq!(cert_to_identifier(&cert_bytes), None);
    assert_eq!(id_to_cert(&[0xab, 0x01]), None);
}

#[test]
fn table_errors() {
    let mut pairs = sample_pairs();
    pairs[1].0 = vec![0xab, 0x01];
    assert_eq!(CertTable::new(&pairs).err(), Some(TableError::DuplicateIdentifier));
    let mut pairs = sample_pairs();
    pairs[2].1 = pairs[1].1.clone();
    assert_eq!(CertTable::new(&pairs).err(), Some(TableError::DuplicateCertificate));
    let mut pairs = sample_pairs();
    pairs[2].0 = b"a third one!".to_vec();
    assert_eq!(CertTable::new(&pairs).err(), Some(TableError::IdentifierNotShorter));
    let mut pairs = sample_pairs();
    pairs[2].0 = pairs[2].1.clone();
    assert_eq!(CertTable::new(&pairs).err(), Some(TableError::IdentifierNotShorter));
    let mut pairs = sample_pairs();
    pairs[1].0 = b"a third one".to_vec();
    assert_eq!(CertTable::new(&pairs).err(), Some(TableError::IdentifierIsCertificate));
    assert!(CertTable::new(&[]).unwrap().len() == 0);
}

#[test]
fn large_table_lookups() {
    let pairs: Vec<(Vec<u8>, Vec<u8>)> = (0..300u32)
        .map(|i| {
            let id = vec![0xee, (i >> 8) as u8, i as u8];
            let mut cert = b"certificate number ".to_vec();
            cert.extend_from_slice(i.to_string().as_bytes());
            (id, cert)
        })
        .collect();
    let table = CertTable::new(&pairs).unwrap();
    assert_eq!(table.len(), 300);
    for (id, cert) in &pairs {
        assert_eq!(table.cert_to_identifier(cert).as_ref(), Some(id));
        assert_eq!(table.id_to_cert(id).as_ref(), Some(cert));
        assert_eq!(table.cert_to_identifier(id), None);
        assert_eq!(table.id_to_cert(cert), None);
    }
    assert_eq!(table.cert_to_identifier(b"certificate number 300"), None);
    assert_eq!(table.id_to_cert(&[0xee, 1, 0x2c]), None);
}
