use polyrust::{
    verify_target_heritage, GeneratedTypeId, GeneratedValueId, TargetHeritageBase,
    TargetHeritageEdge, TargetHeritageFinality, TargetHeritagePurpose, TargetHeritageScope,
};

fn adapter(subclass: usize, base: TargetHeritageBase<&'static str>) -> TargetHeritageEdge<&'static str> {
    TargetHeritageEdge {
        subclass: GeneratedTypeId::from_index(subclass),
        base,
        delegated_component: GeneratedValueId::from_index(0),
        finality: TargetHeritageFinality::Final,
        purpose: TargetHeritagePurpose::ExternalFrameworkAdapter,
    }
}

#[test]
fn a_final_adapter_of_an_approved_base_is_certified() {
    let scope = TargetHeritageScope::new(2, 1);
    let edges = vec![adapter(0, TargetHeritageBase::ApprovedExternal("Activity"))];
    assert!(verify_target_heritage(scope, &edges, &vec![true]).is_ok());
}

#[test]
fn heritage_for_reuse_or_generated_bases_is_refused() {
    let scope = TargetHeritageScope::new(2, 1);
    let mut reuse = adapter(0, TargetHeritageBase::Generated(GeneratedTypeId::from_index(0)));
    reuse.finality = TargetHeritageFinality::Extensible;
    reuse.purpose = TargetHeritagePurpose::ImplementationReuse;
    let edges = vec![
        reuse,
        adapter(0, TargetHeritageBase::ApprovedExternal("Unknown")),
        adapter(5, TargetHeritageBase::ApprovedExternal("Activity")),
    ];
    let violations = verify_target_heritage(scope, &edges, &vec![true, false, true]).unwrap_err();
    let found: Vec<(usize, &str)> = violations.iter().map(|v| (v.edge, v.message)).collect();
    assert_eq!(
        found,
        vec![
            (0, "target-only heritage adapter must be final"),
            (0, "target-only heritage is allowed only for an external framework adapter"),
            (0, "target-only heritage cannot extend a generated type"),
            (0, "a generated heritage subclass cannot also be a generated base"),
            (1, "target-only heritage base is not in the language's approved external-base enum"),
            (1, "a generated heritage subclass cannot also be a generated base"),
            (2, "heritage subclass is not a generated type"),
            (0, "target-only heritage permits at most one generated edge per adapter"),
        ]
    );
}
