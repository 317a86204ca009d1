use kms_local::key::Key;

#[test]
fn builder_stamps_explicit_timestamp() {
    let mut builder = Key::builder(1u64);
    builder.set_created(2);

    let key: Key<u64> = builder.build().unwrap();

    assert_eq!(*key.data(), 1, "data values are not equal");
    assert_eq!(*key.created(), 2, "created values are not equal");
}

#[test]
fn builder_without_timestamp_uses_clock() {
    let builder = Key::builder(vec![1u8, 2, 3]);
    let key: Key<Vec<u8>> = builder.build().expect("clock should supply a timestamp");
    assert_eq!(key.data().as_slice(), &[1, 2, 3]);
    assert!(*key.created() > 0);
}

#[test]
fn as_slice_exposes_payload() {
    let mut builder = Key::builder(vec![9u8, 8, 7]);
    builder.set_created(5);
    let key: Key<Vec<u8>> = builder.build().unwrap();
    assert_eq!(key.as_slice(), &[9, 8, 7]);

    let mut builder = Key::builder([4u8, 5]);
    builder.set_created(6);
    let key: Key<[u8; 2]> = builder.build().unwrap();
    assert_eq!(key.as_slice(), &[4, 5]);
}

#[test]
fn random_builders_fill_requested_size() {
    let mut seed: Key<Vec<u8>> = {
        let mut b = Key::builder(Vec::new());
        b.set_created(1);
        b.build().unwrap()
    };

    let mut thread_builder = seed
        .builder_thread_rng(32)
        .expect("thread rng should supply bytes");
    thread_builder.set_created(2);
    let thread_key = thread_builder.build().unwrap();
    assert_eq!(thread_key.data().len(), 32);
    assert_eq!(*thread_key.created(), 2);

    let mut os_builder = seed.builder_os_rng(16).expect("os rng should supply bytes");
    os_builder.set_created(3);
    let os_key = os_builder.build().unwrap();
    assert_eq!(os_key.data().len(), 16);
    assert_eq!(*os_key.created(), 3);
}

#[test]
fn build_at_stamps_clock_reading_when_unset() {
    let builder = Key::builder(vec![1u8, 2]);
    let key = builder.build_at(1234);
    assert_eq!(key.data().as_slice(), &[1, 2]);
    assert_eq!(*key.created(), 1234);

    let mut builder = Key::builder(vec![3u8]);
    builder.set_created(9);
    let key = builder.build_at(1234);
    assert_eq!(*key.created(), 9);
}

#[test]
fn array_random_builders_fill_the_array() {
    let mut seed: Key<[u8; 4]> = {
        let mut b = Key::builder([0u8; 4]);
        b.set_created(1);
        b.build().unwrap()
    };

    let mut thread_builder = seed
        .builder_thread_rng()
        .expect("thread rng should supply bytes");
    thread_builder.set_created(2);
    let thread_key: Key<[u8; 4]> = thread_builder.build().unwrap();
    assert_eq!(thread_key.as_slice().len(), 4);
    assert_eq!(*thread_key.created(), 2);

    let mut os_builder = seed.builder_os_rng().expect("os rng should supply bytes");
    os_builder.set_created(3);
    let os_key: Key<[u8; 4]> = os_builder.build().unwrap();
    assert_eq!(os_key.as_slice().len(), 4);
    assert_eq!(*os_key.created(), 3);
}
