use cargo_registry::build_info::ChannelVersion;
use cargo_registry::errors::CargoError;

#[test]
fn stable_descriptor_classifies_with_version_key() {
    let cv = ChannelVersion::from_str("rustc 1.14.0 (e8a012324 2016-12-16)").unwrap();
    match cv {
        ChannelVersion::Stable(v) => assert_eq!(v.to_version_string(), "1.14.0"),
        _ => panic!("expected a stable classification"),
    }
}

#[test]
fn nightly_descriptor_classifies_with_date_key() {
    let cv = ChannelVersion::from_str("rustc 1.16.0-nightly (df8debf6d 2017-01-25)").unwrap();
    match cv {
        ChannelVersion::Nightly(d) => {
            assert_eq!((d.year, d.month, d.day), (2017, 1, 25));
            assert_eq!(
                cargo_registry::datetime::encode_time(&d.midnight()),
                "2017-01-25T00:00:00Z"
            );
        },
        _ => panic!("expected a nightly classification"),
    }
}

#[test]
fn beta_descriptor_classifies_with_date_key() {
    let cv = ChannelVersion::from_str("rustc 1.15.0-beta.5 (10893a9a3 2017-01-19)").unwrap();
    match cv {
        ChannelVersion::Beta(d) => assert_eq!((d.year, d.month, d.day), (2017, 1, 19)),
        _ => panic!("expected a beta classification"),
    }
}

#[test]
fn unknown_prerelease_tag_is_an_unrecognized_channel() {
    let err = ChannelVersion::from_str("rustc 1.16.0-dev (df8debf6d 2017-01-25)").unwrap_err();
    assert!(matches!(err, CargoError::UnrecognizedChannel(_)));
    assert_eq!(
        err.detail(),
        "rust_version `rustc 1.16.0-dev (df8debf6d 2017-01-25)` \
         not recognized as nightly, beta, or stable"
    );
}

#[test]
fn wrong_shape_is_a_malformed_descriptor() {
    let err = ChannelVersion::from_str("1.15.0").unwrap_err();
    assert!(matches!(err, CargoError::MalformedVersionDescriptor(_)));
    assert_eq!(
        err.detail(),
        "rust_version `1.15.0` not recognized; \
        expected format like `rustc X.Y.Z (SHA YYYY-MM-DD)`"
    );
}

#[test]
fn bad_date_token_is_an_invalid_date() {
    let err = ChannelVersion::from_str("rustc 1.16.0-nightly (df8debf6d 2017-13-25)").unwrap_err();
    assert!(matches!(err, CargoError::InvalidDate(_)));
}

#[test]
fn bad_version_token_is_invalid_semver() {
    let err = ChannelVersion::from_str("rustc 1.16 (df8debf6d 2017-01-25)").unwrap_err();
    assert!(matches!(err, CargoError::InvalidSemver(_)));
}
