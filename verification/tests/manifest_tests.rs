use dolly::ast::{Manifest, PuppetExpr, RelationOp};
use dolly::plan::parse_puppet_manifest;

#[test]
fn test_empty_manifest() {
    let input = "";
    let manifest = Manifest::from_str(input).unwrap();
    assert_eq!(
        manifest.0.len(),
        0,
        "Empty input should produce empty manifest"
    );
    let plan = parse_puppet_manifest(&manifest).unwrap();
    assert_eq!(
        plan.node_count(),
        0,
        "Empty manifest should produce empty graph"
    );
    assert_eq!(plan.edge_count(), 0, "Empty manifest should have no edges");
}

#[test]
fn test_single_file_resource() {
    let input = r#"
            file { "/tmp/one":
            }
        "#;
    let manifest = Manifest::from_str(input).unwrap();
    assert_eq!(manifest.0.len(), 1, "Should have one resource");

    if let Some(PuppetExpr::Resource {
        rtype,
        title,
        attributes,
    }) = manifest.0.first()
    {
        assert_eq!(rtype, "File", "Resource type should be 'File' (uc_first)");
        assert_eq!(title.to_text(), "/tmp/one", "Title should be '/tmp/one'");
        assert!(attributes.is_empty(), "Attributes should be empty");
    } else {
        panic!("Expected a Resource variant");
    }

    let plan = parse_puppet_manifest(&manifest).unwrap();
    assert_eq!(plan.node_count(), 1, "Plan should have one node");
    assert_eq!(plan.edge_count(), 0, "Plan should have no edges");

    let weights = plan.sorted_weights().unwrap();
    assert_eq!(weights.len(), 1, "Sorted weights should have one node");
    if let Some((_, node)) = weights.first() {
        assert_eq!(node.rtype(), "File", "Node rtype should be 'File' (uc_first)");
        assert_eq!(node.title(), "/tmp/one", "Node title should be '/tmp/one'");
    }
}

#[test]
fn test_single_relation() {
    let input = r#"
            file { "/tmp/one": }
            service { "nginx": }
            File["/tmp/one"] -> Service["nginx"]
        "#;
    let manifest = Manifest::from_str(input).unwrap();
    assert_eq!(
        manifest.0.len(),
        3,
        "Should have two resources and one relation"
    );

    let resources: Vec<_> = manifest.resources();
    assert_eq!(resources.len(), 2, "Should have two resources");
    if let PuppetExpr::Resource { rtype, title, .. } = resources[0] {
        assert_eq!(rtype, "File", "First resource is File (uc_first");
        assert_eq!(title.to_text(), "/tmp/one");
    }
    if let PuppetExpr::Resource { rtype, title, .. } = resources[1] {
        assert_eq!(rtype, "Service", "Second resource is Service (uc_first");
        assert_eq!(title.to_text(), "nginx");
    }

    let relations: Vec<_> = manifest.relations();
    assert_eq!(relations.len(), 1, "Should have one relation");
    if let PuppetExpr::Relation { from, to, op } = relations[0] {
        assert_eq!(from.len(), 1, "From should have one ref");
        assert_eq!(from[0].rtype, "File");
        assert_eq!(from[0].title.to_text(), "/tmp/one");
        assert_eq!(to.len(), 1, "To should have one ref");
        assert_eq!(to[0].rtype, "Service");
        assert_eq!(to[0].title.to_text(), "nginx");
        assert!(matches!(op, RelationOp::Provide), "Op should be ->");
    }

    let plan = parse_puppet_manifest(&manifest).unwrap();
    assert_eq!(plan.node_count(), 2, "Plan should have two nodes");
    assert_eq!(plan.edge_count(), 1, "Plan should have one edge");

    let weights = plan.sorted_weights().unwrap();
    assert_eq!(weights.len(), 2, "Sorted weights should have two nodes");
    let titles: Vec<_> = weights.iter().map(|(_, node)| node.title()).collect();
    assert!(titles.contains(&"/tmp/one".to_string()));
    assert!(titles.contains(&"nginx".to_string()));
}

#[test]
fn test_multiple_resources_with_variables() {
    let input = r#"
            file { "/tmp/${var}/test":
                mode => "0644",
            }
            exec { "/root/${script}/run.sh": }
            service { "nginx": }
        "#;
    let manifest = Manifest::from_str(input).unwrap();
    assert_eq!(manifest.0.len(), 3, "Should have three resources");

    let resources: Vec<_> = manifest.resources();
    assert_eq!(resources.len(), 3, "Should have three resources");

    if let PuppetExpr::Resource {
        rtype,
        title,
        attributes,
    } = resources[0]
    {
        assert_eq!(rtype, "File");
        assert_eq!(title.to_text(), "/tmp/${var}/test");
        assert_eq!(attributes.len(), 1, "Should have one attribute");
        assert_eq!(attributes[0].name, "mode");
        assert_eq!(attributes[0].value.to_text(), "0644");
    }

    if let PuppetExpr::Resource {
        rtype,
        title,
        attributes,
    } = resources[1]
    {
        assert_eq!(rtype, "Exec");
        assert_eq!(title.to_text(), "/root/${script}/run.sh");
        assert!(attributes.is_empty());
    }

    if let PuppetExpr::Resource {
        rtype,
        title,
        attributes,
    } = resources[2]
    {
        assert_eq!(rtype, "Service");
        assert_eq!(title.to_text(), "nginx");
        assert!(attributes.is_empty());
    }

    let plan = parse_puppet_manifest(&manifest).unwrap();
    assert_eq!(plan.node_count(), 3, "Plan should have three nodes");
    assert_eq!(plan.edge_count(), 0, "Plan should have no edges");
}

#[test]
fn test_chained_relations() {
    let input = r#"
            file { "/tmp/one": }
            file { "/tmp/two": }
            service { "nginx": }
            File["/tmp/one"] -> File["/tmp/two"] ~> Service["nginx"]
        "#;
    let manifest = Manifest::from_str(input).unwrap();
    assert_eq!(
        manifest.0.len(),
        5,
        "Should have three resources and two relations"
    );

    let relations: Vec<_> = manifest.relations();
    assert_eq!(relations.len(), 2, "Should have two relations");

    if let PuppetExpr::Relation { from, to, op } = relations[0] {
        assert_eq!(from[0].id(), "File[/tmp/one]");
        assert_eq!(to[0].id(), "File[/tmp/two]");
        assert!(matches!(op, RelationOp::Provide));
    }

    if let PuppetExpr::Relation { from, to, op } = relations[1] {
        assert_eq!(from[0].id(), "File[/tmp/two]");
        assert_eq!(to[0].id(), "Service[nginx]");
        assert!(matches!(op, RelationOp::Notify));
    }

    let plan = parse_puppet_manifest(&manifest).unwrap();
    assert_eq!(plan.node_count(), 3, "Plan should have three nodes");
    assert_eq!(plan.edge_count(), 2, "Plan should have two edges");

    let weights = plan.sorted_weights().unwrap();
    assert_eq!(weights.len(), 3, "Sorted weights should have three nodes");
    let titles: Vec<_> = weights.iter().map(|(_, node)| node.id()).collect();
    assert!(titles.contains(&"File[/tmp/one]".to_string()));
    assert!(titles.contains(&"File[/tmp/two]".to_string()));
    assert!(titles.contains(&"Service[nginx]".to_string()));
}

#[test]
fn test_undefined_resource_reference() {
    let input = r#"
            file { "/tmp/one": }
            File["/tmp/missing"] -> Service["nginx"]
        "#;
    let manifest = Manifest::from_str(input);
    assert!(manifest.is_err(), "Should fail due to undefined resource");
    if let Err(e) = manifest {
        assert!(
            e.message().contains("Undefined resource reference"),
            "Error should mention undefined reference"
        );
        assert!(
            e.message().contains("/tmp/missing"),
            "Error should name the missing id"
        );
    }
}

#[test]
fn test_empty_quoted_string() {
    let input = r#"
            file { "":
            }
        "#;
    let manifest = Manifest::from_str(input).unwrap();
    assert_eq!(manifest.0.len(), 1, "Should have one resource");
    if let PuppetExpr::Resource { rtype, title, .. } = &manifest.0[0] {
        assert_eq!(rtype, "File");
        assert_eq!(title.to_text(), "");
    }

    let plan = parse_puppet_manifest(&manifest).unwrap();
    assert_eq!(plan.node_count(), 1, "Plan should have one node");
    assert_eq!(plan.edge_count(), 0, "Plan should have no edges");
}

#[test]
fn test_whitespace_variations() {
    let input = r#"
            file  { "/tmp/one" : } file{ "/tmp/two" : } foo::bar  { "/tmp/two" : } service { "nginx" : } [File [ "/tmp/one" ], Foo::Bar [ "/tmp/two" ]] -> Service  [ "nginx" ]
        "#;
    let manifest = Manifest::from_str(input).unwrap();
    assert_eq!(manifest.0.len(), 5, "Should have 3 resources and 2 relations");

    let plan = parse_puppet_manifest(&manifest).unwrap();
    assert_eq!(plan.node_count(), 4, "Plan should have 4 nodes");
    assert_eq!(plan.edge_count(), 2, "Plan should have 2 edges");
}

#[test]
fn test_reverse_relations() {
    let input = r#"
            file { "/tmp/one": }
            service { "ssh": }
            Service["ssh"] <~ File["/tmp/one"]
        "#;
    let manifest = Manifest::from_str(input).unwrap();
    assert_eq!(
        manifest.0.len(),
        3,
        "Should have two resources and one relation"
    );

    let relations: Vec<_> = manifest.relations();
    assert_eq!(relations.len(), 1, "Should have one relation");
    if let PuppetExpr::Relation { from, to, op } = relations[0] {
        assert_eq!(from[0].id(), "Service[ssh]");
        assert_eq!(to[0].id(), "File[/tmp/one]");
        assert!(matches!(op, RelationOp::Subscribe));
    }

    let plan = parse_puppet_manifest(&manifest).unwrap();
    assert_eq!(plan.node_count(), 2, "Plan should have two nodes");
    assert_eq!(plan.edge_count(), 1, "Plan should have one edge");

    let weights = plan.sorted_weights().unwrap();
    assert_eq!(weights.len(), 2, "Sorted weights should have two nodes");
}

#[test]
fn test_invalid_uc_first_ref() {
    let input = r#"
        service { "nginx": }
        service["nginx"] -> File["/tmp/one"]
    "#;
    assert!(Manifest::from_str(input).is_err());
}

#[test]
fn test_uc_first_and_namespaced_refs() {
    let input = r#"
        service { "nginx": }
        Service["nginx"] -> File["/tmp/one"]
        file { "/tmp/one": }
        foo::bar { "test": }
        Foo::Bar["test"] -> File["/tmp/one"]
    "#;
    let manifest = Manifest::from_str(input).unwrap();
    assert_eq!(manifest.0.len(), 5); // 3 resources, 2 relations
    let plan = parse_puppet_manifest(&manifest).unwrap();
    assert_eq!(plan.node_count(), 3);
}

#[test]
fn test_uc_first_namespaced_refs() {
    let input = r#"
            service { "nginx": }
            Service["nginx"] -> File["/tmp/one"]
            file { "/tmp/one": }
            foo::bar { "test": }
            Foo::Bar["test"] -> File["/tmp/one"]
        "#;
    let manifest = Manifest::from_str(input).unwrap();
    assert_eq!(manifest.0.len(), 5);
}

#[test]
fn test_single_ref_ref_list() {
    let input = r#"
        service { "nginx": }
        file { "/tmp/one": }
        [Service["nginx"]] -> File["/tmp/one"]
    "#;
    let manifest = Manifest::from_str(input).unwrap();
    assert_eq!(manifest.0.len(), 3); // 2 resources, 1 relations
    let plan = parse_puppet_manifest(&manifest).unwrap();
    assert_eq!(plan.node_count(), 2);
}
