use dolly::ast::{Manifest, PuppetExpr, RelationOp, ResourceRef};
use dolly::errors::PuppetError;
use dolly::plan::parse_puppet_manifest;
use dolly::pstring::PuppetString;
use dolly::resources::{Ensure, Relation, ResourceNode};

fn exprs_equal(a: &PuppetExpr, b: &PuppetExpr) -> bool {
    match (a, b) {
        (
            PuppetExpr::Resource {
                rtype: rt1,
                title: t1,
                attributes: at1,
            },
            PuppetExpr::Resource {
                rtype: rt2,
                title: t2,
                attributes: at2,
            },
        ) => {
            rt1 == rt2
                && t1.matches(t2)
                && at1.len() == at2.len()
                && at1
                    .iter()
                    .zip(at2.iter())
                    .all(|(x, y)| x.name == y.name && x.value.matches(&y.value))
        }
        (
            PuppetExpr::Relation {
                from: f1,
                to: t1,
                op: o1,
            },
            PuppetExpr::Relation {
                from: f2,
                to: t2,
                op: o2,
            },
        ) => {
            o1 == o2
                && f1.len() == f2.len()
                && t1.len() == t2.len()
                && f1
                    .iter()
                    .zip(f2.iter())
                    .all(|(x, y)| x.rtype == y.rtype && x.title.matches(&y.title))
                && t1
                    .iter()
                    .zip(t2.iter())
                    .all(|(x, y)| x.rtype == y.rtype && x.title.matches(&y.title))
        }
        _ => false,
    }
}

fn manifests_equal(a: &Manifest, b: &Manifest) -> bool {
    a.0.len() == b.0.len() && a.0.iter().zip(b.0.iter()).all(|(x, y)| exprs_equal(x, y))
}

#[test]
fn test_round_trip_display() {
    let input = r#"
        file { "/tmp/${var}/test":
            mode => "0644",
            owner => 'root',
        }
        exec { "/root/run.sh": }
        service { "nginx": }
        foo::bar { "x": }
        [File["/tmp/${var}/test"], Foo::Bar["x"]] -> Exec["/root/run.sh"] ~> Service["nginx"]
        Service["nginx"] <- Exec["/root/run.sh"]
    "#;
    let manifest = Manifest::from_str(input).unwrap();
    let rendered = manifest.to_text();
    let reparsed = Manifest::from_str(&rendered).unwrap();
    assert!(
        manifests_equal(&manifest, &reparsed),
        "re-parsing the rendered manifest must give the same expressions"
    );
    // Rendering is a fixed point from the second pass on.
    assert_eq!(rendered, reparsed.to_text());
}

#[test]
fn test_topological_order_respects_edges() {
    let input = r#"
        file { "/tmp/one": }
        service { "nginx": }
        File["/tmp/one"] -> Service["nginx"]
    "#;
    let manifest = Manifest::from_str(input).unwrap();
    let plan = parse_puppet_manifest(&manifest).unwrap();
    let weights = plan.sorted_weights().unwrap();
    assert_eq!(weights.len(), 2);
    assert_eq!(weights[0].1.rtype(), "File", "File must come first");
    assert_eq!(weights[1].1.rtype(), "Service", "Service must come second");
}

#[test]
fn test_chain_topological_order() {
    let input = r#"
        file { "/tmp/one": }
        file { "/tmp/two": }
        service { "nginx": }
        File["/tmp/one"] -> File["/tmp/two"] ~> Service["nginx"]
    "#;
    let manifest = Manifest::from_str(input).unwrap();
    let plan = parse_puppet_manifest(&manifest).unwrap();
    let weights = plan.sorted_weights().unwrap();
    let ids: Vec<_> = weights.iter().map(|(_, n)| n.id()).collect();
    assert_eq!(
        ids,
        vec![
            "File[/tmp/one]".to_string(),
            "File[/tmp/two]".to_string(),
            "Service[nginx]".to_string()
        ]
    );
    // No transitive edge was merged in: node 0 points at node 1 only.
    let out = plan.outgoing_edges(0);
    assert_eq!(out.len(), 1);
    assert!(matches!(out[0].0, Relation::Provide));
    assert_eq!(out[0].1, 1);
    let out1 = plan.outgoing_edges(1);
    assert_eq!(out1.len(), 1);
    assert!(matches!(out1[0].0, Relation::Notify));
    assert_eq!(out1[0].1, 2);
}

#[test]
fn test_cartesian_expansion() {
    let input = r#"
        file { "a": }
        file { "b": }
        service { "c": }
        service { "d": }
        [File["a"], File["b"]] -> [Service["c"], Service["d"]]
    "#;
    let manifest = Manifest::from_str(input).unwrap();
    let plan = parse_puppet_manifest(&manifest).unwrap();
    assert_eq!(plan.node_count(), 4);
    assert_eq!(plan.edge_count(), 4, "2 x 2 references give 4 edges");
    // a -> c, a -> d, b -> c, b -> d, each a plain ordering edge.
    let out_a = plan.outgoing_edges(0);
    let out_b = plan.outgoing_edges(1);
    assert_eq!(out_a.len(), 2);
    assert_eq!(out_b.len(), 2);
    assert!(out_a.iter().all(|(k, _)| matches!(k, Relation::Provide)));
    assert!(out_b.iter().all(|(k, _)| matches!(k, Relation::Provide)));
    assert_eq!(out_a[0].1, 2);
    assert_eq!(out_a[1].1, 3);
    assert_eq!(out_b[0].1, 2);
    assert_eq!(out_b[1].1, 3);
}

#[test]
fn test_operator_mirroring() {
    let provide = r#"
        file { "x": }
        service { "y": }
        File["x"] -> Service["y"]
    "#;
    let require = r#"
        file { "x": }
        service { "y": }
        Service["y"] <- File["x"]
    "#;
    let p1 = parse_puppet_manifest(&Manifest::from_str(provide).unwrap()).unwrap();
    let p2 = parse_puppet_manifest(&Manifest::from_str(require).unwrap()).unwrap();
    assert_eq!(p1.edge_count(), 1);
    assert_eq!(p2.edge_count(), 1);
    let o1 = p1.outgoing_edges(0);
    let o2 = p2.outgoing_edges(0);
    assert_eq!(o1.len(), 1);
    assert_eq!(o2.len(), 1);
    assert!(matches!(o1[0].0, Relation::Provide));
    assert!(matches!(o2[0].0, Relation::Provide));
    assert_eq!(o1[0].1, o2[0].1);

    let notify = r#"
        file { "x": }
        service { "y": }
        File["x"] ~> Service["y"]
    "#;
    let subscribe = r#"
        file { "x": }
        service { "y": }
        Service["y"] <~ File["x"]
    "#;
    let p3 = parse_puppet_manifest(&Manifest::from_str(notify).unwrap()).unwrap();
    let p4 = parse_puppet_manifest(&Manifest::from_str(subscribe).unwrap()).unwrap();
    let o3 = p3.outgoing_edges(0);
    let o4 = p4.outgoing_edges(0);
    assert_eq!(o3.len(), 1);
    assert_eq!(o4.len(), 1);
    assert!(matches!(o3[0].0, Relation::Notify));
    assert!(matches!(o4[0].0, Relation::Notify));
    assert_eq!(o3[0].1, o4[0].1);
}

#[test]
fn test_type_canonicalization() {
    let input = r#"
        foo::bar { "x": }
        file { "y": }
        Foo::Bar["x"] -> File["y"]
    "#;
    let manifest = Manifest::from_str(input).unwrap();
    if let PuppetExpr::Resource { rtype, .. } = &manifest.0[0] {
        assert_eq!(rtype, "Foo::Bar", "declared foo::bar canonicalizes to Foo::Bar");
    } else {
        panic!("expected a resource");
    }
    let plan = parse_puppet_manifest(&manifest).unwrap();
    assert_eq!(plan.node_count(), 2);
    assert_eq!(plan.edge_count(), 1, "the reference resolves to the declaration");
}

#[test]
fn test_cycle_rejected() {
    let input = r#"
        file { "a": }
        file { "b": }
        file { "c": }
        File["a"] -> File["b"]
        File["b"] -> File["c"]
        File["c"] -> File["a"]
    "#;
    let manifest = Manifest::from_str(input).unwrap();
    let r = parse_puppet_manifest(&manifest);
    match r {
        Err(PuppetError::Cycle { from, to }) => {
            assert_eq!(from, "File[c]");
            assert_eq!(to, "File[a]");
        }
        _ => panic!("a cycle-closing edge must abort plan construction"),
    }
}

#[test]
fn test_self_loop_rejected() {
    let input = r#"
        file { "a": }
        File["a"] -> File["a"]
    "#;
    let manifest = Manifest::from_str(input).unwrap();
    assert!(matches!(
        parse_puppet_manifest(&manifest),
        Err(PuppetError::Cycle { .. })
    ));
}

#[test]
fn test_unknown_type_error() {
    let input = r#"
        cron { "nightly": }
    "#;
    let manifest = Manifest::from_str(input).unwrap();
    match parse_puppet_manifest(&manifest) {
        Err(e @ PuppetError::UnknownType { .. }) => {
            assert!(e.message().contains("unknown rtype: Cron"));
        }
        _ => panic!("an unregistered type must abort plan construction"),
    }
}

#[test]
fn test_missing_resource_internal_error() {
    // A hand-built manifest that skipped validation: the relation references
    // a resource no declaration provides.
    let manifest = Manifest(vec![PuppetExpr::Relation {
        from: vec![ResourceRef {
            rtype: "File".to_string(),
            title: PuppetString::new(),
        }],
        to: vec![ResourceRef {
            rtype: "File".to_string(),
            title: PuppetString::new(),
        }],
        op: RelationOp::Provide,
    }]);
    match parse_puppet_manifest(&manifest) {
        Err(e @ PuppetError::MissingResource { .. }) => {
            assert!(e.message().contains("Unknown resource: File[]"));
        }
        _ => panic!("a missing endpoint must surface as an internal error"),
    }
}

#[test]
fn test_expected_resource_error() {
    let expr = PuppetExpr::Relation {
        from: vec![],
        to: vec![],
        op: RelationOp::Provide,
    };
    assert!(matches!(
        ResourceNode::try_from_expr(&expr),
        Err(PuppetError::ExpectedResource)
    ));
}

#[test]
fn test_syntax_error() {
    let r = Manifest::from_str("file { 'unterminated ");
    match r {
        Err(e @ PuppetError::Syntax) => {
            assert!(e.message().contains("Syntax error"));
        }
        _ => panic!("unterminated input must be a syntax error"),
    }
    assert!(Manifest::from_str("file").is_err());
    assert!(Manifest::from_str("@").is_err());
    assert!(Manifest::from_str("File[\"x\"]").is_err());
}

#[test]
fn test_ensure_lines() {
    let manifest = Manifest::from_str(r#"file { "/tmp/one": }"#).unwrap();
    let plan = parse_puppet_manifest(&manifest).unwrap();
    let node = plan.resource(0).unwrap();
    assert_eq!(node.ensure(Ensure::Present), "Ensure present: /tmp/one");
    assert_eq!(node.ensure(Ensure::Absent), "Ensure absent: /tmp/one");
    assert_eq!(Ensure::default(), Ensure::Present);
}

#[test]
fn test_dot_projection() {
    let input = r#"
        file { "/tmp/one": }
        service { "nginx": }
        File["/tmp/one"] ~> Service["nginx"]
    "#;
    let manifest = Manifest::from_str(input).unwrap();
    let plan = parse_puppet_manifest(&manifest).unwrap();
    let expected = "digraph {\n    0 [ label = \"File[/tmp/one]\" ]\n    1 [ label = \"Service[nginx]\" ]\n    0 -> 1 [ label = \"~>\" ]\n}\n";
    assert_eq!(plan.dot(), expected);
}

#[test]
fn test_duplicate_declaration_last_wins() {
    // The same identity key declared twice: the lookup keeps the later node;
    // the earlier one stays in the graph as an orphan.
    let input = r#"
        file { "/tmp/one": }
        file { "/tmp/one": }
        service { "nginx": }
        File["/tmp/one"] -> Service["nginx"]
    "#;
    let manifest = Manifest::from_str(input).unwrap();
    let plan = parse_puppet_manifest(&manifest).unwrap();
    assert_eq!(plan.node_count(), 3, "both declarations become nodes");
    assert_eq!(plan.edge_count(), 1);
    assert_eq!(
        plan.outgoing_edges(0).len(),
        0,
        "the orphaned earlier node gets no edge"
    );
    assert_eq!(plan.outgoing_edges(1).len(), 1, "the later node wins the lookup");
}

#[test]
fn test_single_quotes_verbatim() {
    let input = "file { '/tmp/${not_a_var}': }";
    let manifest = Manifest::from_str(input).unwrap();
    if let PuppetExpr::Resource { title, .. } = &manifest.0[0] {
        assert_eq!(
            title.to_text(),
            "/tmp/${not_a_var}",
            "single quotes take content verbatim"
        );
    } else {
        panic!("expected a resource");
    }
}

#[test]
fn test_relation_op_from_chars() {
    assert!(matches!(
        RelationOp::from_chars('-', '>'),
        Some(RelationOp::Provide)
    ));
    assert!(matches!(
        RelationOp::from_chars('<', '-'),
        Some(RelationOp::Require)
    ));
    assert!(matches!(
        RelationOp::from_chars('~', '>'),
        Some(RelationOp::Notify)
    ));
    assert!(matches!(
        RelationOp::from_chars('<', '~'),
        Some(RelationOp::Subscribe)
    ));
    assert!(RelationOp::from_chars('-', '-').is_none());
}

#[test]
fn test_puppet_string_basics() {
    let s = PuppetString::new();
    assert_eq!(s.to_text(), "");
    let t = PuppetString::new();
    assert!(s.matches(&t));
}

#[test]
fn test_construct_registry() {
    let node = ResourceNode::construct(&"File".to_string(), "x".to_string()).unwrap();
    assert_eq!(node.id(), "File[x]");
    let node = ResourceNode::construct(&"Exec".to_string(), "x".to_string()).unwrap();
    assert_eq!(node.rtype(), "Exec");
    let node = ResourceNode::construct(&"Service".to_string(), "x".to_string()).unwrap();
    assert_eq!(node.rtype(), "Service");
    let node = ResourceNode::construct(&"Foo::Bar".to_string(), "x".to_string()).unwrap();
    assert_eq!(node.rtype(), "Foo::Bar");
    assert!(ResourceNode::construct(&"Cron".to_string(), "x".to_string()).is_err());
}
