use polyrust::TargetId;

#[test]
fn target_ids_are_open_namespaced_text() {
    assert_eq!(
        TargetId::parse("dev.example.experimental-language")
            .unwrap()
            .as_str(),
        "dev.example.experimental-language"
    );
    for invalid in ["rust", "Org.example.rust", "org..rust", "org.example.rust_"] {
        assert!(TargetId::parse(invalid).is_err(), "accepted {invalid:?}");
    }
}

use polyrust::{
    validate_options, BackendOptions, BackendVersion, IrVersion, IrVersionRange, NameMap,
    OptionKind, OptionSpec, OptionValue, TextSet,
};

#[test]
fn target_id_segments_and_length_are_bounded() {
    let long_segment = "a".repeat(63);
    assert!(TargetId::parse(&format!("org.{long_segment}")).is_ok());
    assert!(TargetId::parse(&format!("org.{long_segment}a")).is_err());
    let mut text = "a".to_owned();
    while text.len() < 255 {
        text.push_str(".b");
    }
    text.truncate(255);
    assert!(TargetId::parse(&text).is_ok());
    text.push('c');
    assert!(TargetId::parse(&text).is_err());
    assert!(TargetId::parse("9lives.x-1").is_ok());
    assert!(TargetId::parse("org.-lead").is_err());
    assert!(TargetId::parse("org.trail-").is_err());
    assert!(TargetId::parse("org.").is_err());
    assert!(TargetId::parse(".org").is_err());
    assert!(TargetId::parse("org.exämple").is_err());
    let error = TargetId::parse("rust").unwrap_err();
    assert_eq!(error.input, "rust");
}

#[test]
fn ir_version_ranges_hold_one_major_version() {
    let range = IrVersionRange {
        minimum: IrVersion::new(1, 2, 3),
        maximum: IrVersion::new(1, 4, 0),
    };
    assert!(range.contains(IrVersion::new(1, 2, 3)));
    assert!(range.contains(IrVersion::new(1, 3, 99)));
    assert!(range.contains(IrVersion::new(1, 4, 0)));
    assert!(!range.contains(IrVersion::new(1, 2, 2)));
    assert!(!range.contains(IrVersion::new(1, 4, 1)));
    assert!(!range.contains(IrVersion::new(2, 3, 0)));
    let exact = IrVersionRange::exact(IrVersion::new(0, 1, 0));
    assert!(exact.contains(IrVersion::new(0, 1, 0)));
    assert!(!exact.contains(IrVersion::new(0, 1, 1)));
    assert_eq!(
        BackendVersion::new(1, 2, 3),
        BackendVersion { major: 1, minor: 2, patch: 3 }
    );
}

fn schema() -> NameMap<OptionSpec> {
    let mut choices = TextSet::new();
    choices.insert("compact".to_owned());
    choices.insert("readable".to_owned());
    NameMap::new(vec![
        (
            "style".to_owned(),
            OptionSpec {
                kind: OptionKind::Choice(choices),
                required: false,
                description: "Output style".to_owned(),
            },
        ),
        (
            "edition".to_owned(),
            OptionSpec {
                kind: OptionKind::Integer,
                required: true,
                description: "Edition".to_owned(),
            },
        ),
    ])
}

#[test]
fn option_validation_reports_missing_unknown_and_invalid_options_in_order() {
    let options = BackendOptions::new(vec![
        ("zeta".to_owned(), OptionValue::Boolean(true)),
        ("style".to_owned(), OptionValue::Text("invalid".to_owned())),
    ]);
    assert_eq!(
        validate_options(&schema(), &options),
        vec![
            "required option \"edition\" is missing".to_owned(),
            "option \"style\" has an invalid value".to_owned(),
            "unknown option \"zeta\"".to_owned(),
        ]
    );
    let good = BackendOptions::new(vec![
        ("edition".to_owned(), OptionValue::Integer(2021)),
        ("style".to_owned(), OptionValue::Text("compact".to_owned())),
    ]);
    assert!(validate_options(&schema(), &good).is_empty());
    let wrong_kind = BackendOptions::new(vec![("edition".to_owned(), OptionValue::Text("x".to_owned()))]);
    assert_eq!(
        validate_options(&schema(), &wrong_kind),
        vec!["option \"edition\" has an invalid value".to_owned()]
    );
}

#[test]
fn backend_options_keep_the_last_value_and_iterate_by_name() {
    let options = BackendOptions::new(vec![
        ("b".to_owned(), OptionValue::Integer(1)),
        ("a".to_owned(), OptionValue::Boolean(false)),
        ("b".to_owned(), OptionValue::Integer(2)),
    ]);
    assert_eq!(options.get("b"), Some(&OptionValue::Integer(2)));
    assert_eq!(options.get("c"), None);
    let names: Vec<&str> = options.iter().into_iter().map(|(name, _)| name).collect();
    assert_eq!(names, ["a", "b"]);
    assert!(BackendOptions::default().iter().is_empty());
}

use polyrust::{validate_request, BackendError, BackendRegistry, RegistryError};

#[test]
fn registries_accept_new_targets_and_refuse_duplicates() {
    let mut registry: BackendRegistry<&str> = BackendRegistry::new();
    let target = TargetId::parse("dev.external.unmodified-core").unwrap();
    registry.register(target.clone(), "first").unwrap();
    registry.register(TargetId::parse("a.b").unwrap(), "other").unwrap();
    assert_eq!(registry.get(&target), Some(&"first"));
    let targets: Vec<String> = registry.targets().iter().map(|t| t.as_str().to_owned()).collect();
    assert_eq!(targets, ["a.b", "dev.external.unmodified-core"]);
    assert_eq!(
        registry.register(target.clone(), "second"),
        Err(RegistryError::DuplicateTarget(target.clone()))
    );
    assert_eq!(registry.get(&target), Some(&"first"));
    let missing = TargetId::parse("org.polyrust.missing").unwrap();
    assert_eq!(registry.get(&missing), None);
    assert_eq!(
        registry.backend_for(&missing),
        Err(BackendError::Generation {
            message: "backend org.polyrust.missing is not registered".to_owned()
        })
    );
}

#[test]
fn requests_are_checked_for_version_then_options() {
    let supported = IrVersionRange::exact(IrVersion::new(1, 0, 0));
    let options = BackendOptions::new(vec![("style".to_owned(), OptionValue::Text("invalid".to_owned()))]);
    assert_eq!(
        validate_request(supported, IrVersion::new(0, 0, 0), &schema(), &options),
        Err(BackendError::IncompatibleIr {
            actual: IrVersion::new(0, 0, 0),
            supported
        })
    );
    assert_eq!(
        validate_request(supported, IrVersion::new(1, 0, 0), &schema(), &options),
        Err(BackendError::InvalidOptions(vec![
            "required option \"edition\" is missing".to_owned(),
            "option \"style\" has an invalid value".to_owned(),
        ]))
    );
    let good = BackendOptions::new(vec![("edition".to_owned(), OptionValue::Integer(1))]);
    assert_eq!(
        validate_request(supported, IrVersion::new(1, 0, 0), &schema(), &good),
        Ok(())
    );
}

#[test]
fn preflight_refuses_each_unsupported_capability_in_order() {
    let target = polyrust::TargetId::parse("org.example.toy").unwrap();
    let capabilities = vec![
        polyrust::Capability::Bytes,
        polyrust::Capability::F64,
        polyrust::Capability::Option,
    ];
    let support = vec![
        polyrust::CapabilitySupport::Unsupported { reason: "no byte strings".to_owned() },
        polyrust::CapabilitySupport::Native,
        polyrust::CapabilitySupport::Unsupported { reason: "no options".to_owned() },
    ];
    let refusals = polyrust::preflight(&capabilities, &support, &target);
    assert_eq!(refusals.len(), 2);
    assert_eq!(refusals[0].code, "UnsupportedCapability");
    assert_eq!(
        refusals[0].message,
        "backend org.example.toy does not support Bytes: no byte strings"
    );
    assert_eq!(
        refusals[1].message,
        "backend org.example.toy does not support Option: no options"
    );
    assert!(polyrust::preflight(&capabilities, &vec![polyrust::CapabilitySupport::Native; 3], &target).is_empty());
    assert_eq!(polyrust::capability_name(polyrust::Capability::UnicodeScalar), "UnicodeScalar");
}

#[test]
fn backend_requests_are_checked_for_version_then_options_then_capabilities() {
    let supported = IrVersionRange::exact(IrVersion::new(1, 0, 0));
    let target = TargetId::parse("org.example.toy").unwrap();
    let capabilities = vec![polyrust::Capability::F64, polyrust::Capability::Bytes];
    let support = vec![
        polyrust::CapabilitySupport::Native,
        polyrust::CapabilitySupport::Unsupported { reason: "no byte strings".to_owned() },
    ];
    let bad_options = BackendOptions::new(vec![("style".to_owned(), OptionValue::Text("invalid".to_owned()))]);
    let good_options = BackendOptions::new(vec![("edition".to_owned(), OptionValue::Integer(1))]);
    assert_eq!(
        polyrust::validate_backend_request(
            supported,
            IrVersion::new(2, 0, 0),
            &schema(),
            &bad_options,
            &capabilities,
            &support,
            &target
        ),
        Err(BackendError::IncompatibleIr { actual: IrVersion::new(2, 0, 0), supported })
    );
    assert_eq!(
        polyrust::validate_backend_request(
            supported,
            IrVersion::new(1, 0, 0),
            &schema(),
            &bad_options,
            &capabilities,
            &support,
            &target
        ),
        Err(BackendError::InvalidOptions(vec![
            "required option \"edition\" is missing".to_owned(),
            "option \"style\" has an invalid value".to_owned(),
        ]))
    );
    match polyrust::validate_backend_request(
        supported,
        IrVersion::new(1, 0, 0),
        &schema(),
        &good_options,
        &capabilities,
        &support,
        &target,
    ) {
        Err(BackendError::UnsupportedCapabilities(refusals)) => {
            assert_eq!(refusals.len(), 1);
            assert_eq!(refusals[0].code, "UnsupportedCapability");
            assert_eq!(
                refusals[0].message,
                "backend org.example.toy does not support Bytes: no byte strings"
            );
        }
        other => panic!("unexpected {:?}", other),
    }
    let all_native = vec![polyrust::CapabilitySupport::Native; 2];
    assert_eq!(
        polyrust::validate_backend_request(
            supported,
            IrVersion::new(1, 0, 0),
            &schema(),
            &good_options,
            &capabilities,
            &all_native,
            &target
        ),
        Ok(())
    );
}
