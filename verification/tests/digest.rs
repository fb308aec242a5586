use feishu_unreadme_app::digest::sha256_label;

#[test]
fn sha256_label_of_abc() {
    assert_eq!(
        sha256_label(b"abc"),
        "sha256:ba7816bf8f01cfea414140de5dae2223b00361a396177a9cb410ff61f20015ad"
    );
}

#[test]
fn sha256_label_of_empty() {
    assert_eq!(
        sha256_label(b""),
        "sha256:e3b0c44298fc1c149afbf4c8996fb92427ae41e4649b934ca495991b7852b855"
    );
}
