use hash_lyzer::digest::{digest, supports, SHA1};
use hash_lyzer::error::Error;

#[test]
fn sha1_of_known_messages() {
    assert_eq!(
        digest(b"abc", SHA1).unwrap(),
        vec![
            169, 153, 62, 54, 71, 6, 129, 106, 186, 62, 37, 113, 120, 80, 194, 108, 156, 208, 216,
            157
        ]
    );
    assert_eq!(
        digest(b"", SHA1).unwrap(),
        vec![
            218, 57, 163, 238, 94, 107, 75, 13, 50, 85, 191, 239, 149, 96, 24, 144, 175, 216, 7, 9
        ]
    );
    assert_eq!(
        digest(b"<a></a>", "http://www.w3.org/2000/09/xmldsig#sha1").unwrap(),
        vec![
            246, 27, 199, 226, 172, 237, 156, 134, 32, 97, 242, 67, 68, 185, 196, 48, 242, 93, 161,
            166
        ]
    );
}

#[test]
fn sha1_has_twenty_bytes() {
    for len in 0..100usize {
        let data = vec![0x5au8; len];
        assert_eq!(digest(&data, SHA1).unwrap().len(), 20);
    }
    // Twenty bytes of input do not come back as the hash.
    let twenty = [7u8; 20];
    assert_ne!(digest(&twenty, SHA1).unwrap(), twenty.to_vec());
}

#[test]
fn unsupported_algorithm_is_refused() {
    let refused = [
        "http://www.w3.org/2001/04/xmlenc#sha256",
        "http://www.w3.org/2001/04/xmldsig-more#md5",
        "sha1",
        "",
        "http://www.w3.org/2000/09/xmldsig#sha1 ",
        "http://www.w3.org/2000/09/xmldsig#SHA1",
    ];
    for algorithm in refused {
        assert_eq!(digest(b"abc", algorithm), Err(Error::UnknownAlgorithm));
        assert_eq!(digest(b"", algorithm), Err(Error::UnknownAlgorithm));
    }
}

#[test]
fn supported_identifiers() {
    assert!(supports(SHA1));
    assert!(supports("http://www.w3.org/2000/09/xmldsig#sha1"));
    assert!(!supports("http://www.w3.org/2000/09/xmldsig#sha"));
    assert!(!supports("http://www.w3.org/2001/04/xmlenc#sha256"));
    assert!(!supports(""));
}
