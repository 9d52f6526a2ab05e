//! Cross-checks against the `base64` crate's engines on concrete inputs.

use base64::engine::general_purpose;
use base64::Engine as _;
use baze64::alphabet::{Standard, UrlSafe};
use baze64::Base64String;

fn sample_inputs() -> Vec<Vec<u8>> {
    vec![
        vec![],
        vec![0],
        vec![0, 0, 0],
        vec![255, 254, 253, 252],
        b"everybody".to_vec(),
        b"event".to_vec(),
        b"even".to_vec(),
        (0u8..=255).collect(),
        b"Lorem ipsum dolor sit amet, consectetur adipiscing elit".to_vec(),
    ]
}

#[test]
fn matches_reference_standard() {
    for data in sample_inputs() {
        let ours = Base64String::<Standard>::encode(&data).unwrap();
        let reference = general_purpose::STANDARD.encode(&data);
        assert_eq!(ours.as_str(), reference);
        assert_eq!(
            general_purpose::STANDARD.decode(ours.as_str()).unwrap(),
            data
        );
    }
}

#[test]
fn matches_reference_url_safe() {
    for data in sample_inputs() {
        let ours = Base64String::<UrlSafe>::encode(&data).unwrap();
        let reference = general_purpose::URL_SAFE.encode(&data);
        assert_eq!(ours.as_str(), reference);
    }
}
