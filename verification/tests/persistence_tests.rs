use kms_local::crypto;
use kms_local::fs::Binary;
use kms_local::fs::Encrypted;
use kms_local::fs::Error;
use kms_local::fs::Json;
use kms_local::local::Local;

fn create_store() -> Local<u64> {
    let mut local = Local::new();
    let values = [0, 1, 2, 4, 5, 9, 11, 12, 16, 17, 22, 26];

    for v in &values {
        local.update(*v).expect("failed to add value");
    }

    local
}

fn assert_local_eq(a: &Local<u64>, b: &Local<u64>) {
    assert_eq!(
        a.count().unwrap(),
        b.count().unwrap(),
        "counts are not equal"
    );
    assert_eq!(
        a.store_reader().unwrap(),
        b.store_reader().unwrap(),
        "stores are not equal"
    );
}

#[test]
fn binary_base() {
    let file_name = "test.binary";
    let manager = create_store();

    let wrapper = Binary::new(manager, file_name.to_string());

    let saved = wrapper.save_bytes();

    let and_back: Binary<u64> =
        Binary::load_bytes(file_name.to_string(), &saved).expect("failed to load binary bytes");

    assert_local_eq(wrapper.manager(), and_back.manager());
    assert_eq!(and_back.path().as_str(), file_name);
}

#[test]
fn json_base() {
    let file_name = "test.json";
    let manager = create_store();

    let wrapper = Json::new(manager, file_name.to_string());

    let saved = wrapper.save_bytes();

    let and_back: Json<u64> =
        Json::load_bytes(file_name.to_string(), &saved).expect("failed to load json bytes");

    assert_local_eq(wrapper.manager(), and_back.manager());
    assert_eq!(and_back.path().as_str(), file_name);
}

#[test]
fn encrypted_base() {
    let file_name = "test.encrypted";
    let manager = create_store();

    let wrapper = Encrypted::new(manager, file_name.to_string(), crypto::empty_key());

    let saved = wrapper.save_bytes().expect("failed to seal store bytes");

    let and_back: Encrypted<u64> =
        Encrypted::load_bytes(file_name.to_string(), crypto::empty_key(), saved)
            .expect("failed to load encrypted bytes");

    assert_local_eq(wrapper.manager(), and_back.manager());
    assert_eq!(and_back.path().as_str(), file_name);
    assert_eq!(and_back.key(), &crypto::empty_key());
}

fn four_version_store() -> Local<u64> {
    let mut local = Local::new();
    for v in [10u64, 1, 2, 4] {
        local.update(v).expect("update failed");
    }
    local
}

#[test]
fn all_adapters_reproduce_four_version_store() {
    let values: Vec<(u64, u64)> = vec![(1, 10), (2, 1), (3, 2), (4, 4)];

    let binary = Binary::new(four_version_store(), "p.binary".to_string());
    let binary_back: Binary<u64> =
        Binary::load_bytes("p.binary".to_string(), &binary.save_bytes()).expect("binary reload");
    assert_eq!(binary_back.manager().count().unwrap(), 4);
    assert_eq!(binary_back.manager().store_reader().unwrap().as_slice(), values.as_slice());

    let json = Json::new(four_version_store(), "p.json".to_string());
    let json_back: Json<u64> =
        Json::load_bytes("p.json".to_string(), &json.save_bytes()).expect("json reload");
    assert_eq!(json_back.manager().count().unwrap(), 4);
    assert_eq!(json_back.manager().store_reader().unwrap().as_slice(), values.as_slice());

    let key = [3u8; crypto::KEY_LEN];
    let enc = Encrypted::new(four_version_store(), "p.enc".to_string(), key);
    let enc_back: Encrypted<u64> =
        Encrypted::load_bytes("p.enc".to_string(), key, enc.save_bytes().expect("seal"))
            .expect("encrypted reload");
    assert_eq!(enc_back.manager().count().unwrap(), 4);
    assert_eq!(enc_back.manager().store_reader().unwrap().as_slice(), values.as_slice());
}

#[test]
fn textual_bytes_are_a_json_document() {
    let json = Json::new(four_version_store(), "p.json".to_string());
    let text = json.save_bytes();
    let doc = String::from_utf8(text).expect("the document is ASCII");
    assert!(doc.starts_with("{\"count\":\""));
    assert!(doc.contains(",\"store\":{"));
    assert!(doc.ends_with("}}"));
    let empty = Json::new(Local::<u64>::new(), "p.json".to_string());
    let empty_doc = String::from_utf8(empty.save_bytes()).expect("ASCII");
    assert_eq!(
        empty_doc,
        "{\"count\":\"0000000000000000\",\"store\":{}}"
    );
}

#[test]
fn binary_rejects_malformed_bytes() {
    let r: Result<Binary<u64>, Error> = Binary::load_bytes("x".to_string(), &vec![1u8, 2, 3]);
    assert!(matches!(r, Err(Error::Codec)));
}

#[test]
fn json_rejects_malformed_text() {
    for bad in [&b"zz!"[..], &b"{\"count\":\"00\",\"store\":{}}"[..], &b"{}"[..]] {
        let r: Result<Json<u64>, Error> = Json::load_bytes("x".to_string(), &bad.to_vec());
        assert!(matches!(r, Err(Error::Codec)));
    }
}

#[test]
fn encrypted_rejects_short_blob() {
    let r: Result<Encrypted<u64>, Error> =
        Encrypted::load_bytes("x".to_string(), crypto::empty_key(), vec![0u8; 10]);
    assert!(matches!(
        r,
        Err(Error::Crypto(crypto::Error::InvalidEncoding))
    ));
}

#[test]
fn encrypted_rejects_wrong_key() {
    let enc = Encrypted::new(four_version_store(), "p.enc".to_string(), [1u8; crypto::KEY_LEN]);
    let blob = enc.save_bytes().expect("seal");
    let r: Result<Encrypted<u64>, Error> =
        Encrypted::load_bytes("p.enc".to_string(), [2u8; crypto::KEY_LEN], blob);
    assert!(matches!(r, Err(Error::Crypto(crypto::Error::ChaCha))));
}

#[test]
fn binary_codec_is_tamper_evident_on_truncation() {
    let binary = Binary::new(four_version_store(), "p.binary".to_string());
    let mut bytes = binary.save_bytes();
    bytes.pop();
    let r: Result<Binary<u64>, Error> = Binary::load_bytes("p.binary".to_string(), &bytes);
    assert!(matches!(r, Err(Error::Codec)));
}

#[test]
fn empty_store_round_trips_through_all_adapters() {
    let binary = Binary::new(Local::<u64>::new(), "e.binary".to_string());
    let binary_back: Binary<u64> =
        Binary::load_bytes("e.binary".to_string(), &binary.save_bytes()).expect("binary reload");
    assert_eq!(binary_back.manager().count().unwrap(), 0);
    assert!(binary_back.manager().store_reader().unwrap().is_empty());

    let json = Json::new(Local::<u64>::new(), "e.json".to_string());
    let json_back: Json<u64> =
        Json::load_bytes("e.json".to_string(), &json.save_bytes()).expect("json reload");
    assert_eq!(json_back.manager().count().unwrap(), 0);

    let enc = Encrypted::new(Local::<u64>::new(), "e.enc".to_string(), crypto::empty_key());
    let enc_back: Encrypted<u64> =
        Encrypted::load_bytes("e.enc".to_string(), crypto::empty_key(), enc.save_bytes().expect("seal"))
            .expect("encrypted reload");
    assert_eq!(enc_back.manager().count().unwrap(), 0);
}

#[test]
fn dropped_versions_survive_persistence() {
    let mut local = Local::new();
    for v in [10u64, 1, 2, 4] {
        local.update(v).expect("update failed");
    }
    local.drop(&4).unwrap();

    let binary = Binary::new(local, "d.binary".to_string());
    let back: Binary<u64> =
        Binary::load_bytes("d.binary".to_string(), &binary.save_bytes()).expect("binary reload");
    assert_eq!(back.manager().count().unwrap(), 4);
    assert!(back.manager().get(&4).unwrap().is_none());
    assert_eq!(back.manager().latest().unwrap(), Some(2));
}

#[test]
fn key_records_round_trip_through_adapters() {
    let mut local: Local<kms_local::Key<Vec<u8>>> = Local::new();
    for (payload, created) in [(vec![1u8, 2, 3], 100u64), (vec![], 200), (vec![255u8; 40], 300)] {
        let mut builder = kms_local::Key::builder(payload);
        builder.set_created(created);
        local.update(builder.build().unwrap()).expect("update failed");
    }

    let binary = Binary::new(local, "k.binary".to_string());
    let saved = binary.save_bytes();
    let back: Binary<kms_local::Key<Vec<u8>>> =
        Binary::load_bytes("k.binary".to_string(), &saved).expect("binary reload");

    assert_eq!(back.manager().count().unwrap(), 3);
    let original = binary.manager().store_reader().unwrap();
    let reloaded = back.manager().store_reader().unwrap();
    assert_eq!(original.len(), reloaded.len());
    for ((va, ka), (vb, kb)) in original.iter().zip(reloaded.iter()) {
        assert_eq!(va, vb);
        assert_eq!(ka.data(), kb.data());
        assert_eq!(ka.created(), kb.created());
    }

    let key = [5u8; crypto::KEY_LEN];
    let enc = Encrypted::new(
        {
            let mut l: Local<kms_local::Key<Vec<u8>>> = Local::new();
            let mut b = kms_local::Key::builder(vec![9u8, 9]);
            b.set_created(7);
            l.update(b.build().unwrap()).unwrap();
            l
        },
        "k.enc".to_string(),
        key,
    );
    let enc_back: Encrypted<kms_local::Key<Vec<u8>>> =
        Encrypted::load_bytes("k.enc".to_string(), key, enc.save_bytes().expect("seal"))
            .expect("encrypted reload");
    let entries = enc_back.manager().store_reader().unwrap();
    assert_eq!(entries.len(), 1);
    assert_eq!(entries[0].0, 1);
    assert_eq!(entries[0].1.data().as_slice(), &[9, 9]);
    assert_eq!(*entries[0].1.created(), 7);
}

#[test]
fn encrypted_blob_is_forty_bytes_longer_than_the_snapshot() {
    let plain = Binary::new(four_version_store(), "s.binary".to_string()).save_bytes();
    let enc = Encrypted::new(four_version_store(), "s.enc".to_string(), crypto::empty_key());
    let blob = enc.save_bytes().expect("seal");
    assert_eq!(blob.len(), plain.len() + crypto::NONCE_LEN + crypto::TAG_LEN);
}
