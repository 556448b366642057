use easypem::{headers::PemHeader, PemMessage};

#[test]
fn simple_serialize() {
    let pem = PemMessage {
        label: "MESSAGE".to_owned(),
        headers: PemHeader::default(),
        content: b"This is a message".to_vec(),
    };

    assert_eq!(
        &pem.render().unwrap(),
        "-----BEGIN MESSAGE-----
VGhpcyBpcyBhIG1lc3NhZ2U=
-----END MESSAGE-----"
    );
}
