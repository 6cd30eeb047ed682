use legend::repos::repos;

#[test]
fn embedded_repo_metadata_matches_descriptor() {
    let repos = repos();
    assert_eq!(repos.len(), 1, "expected exactly one embedded repo");
    let meta = repos[0].meta().expect("embedded repo carries meta");
    assert_eq!(meta.name, "core_functions_relation");
    assert_eq!(
        meta.dependencies,
        &[
            "platform",
            "platform_dsl_tds",
            "platform_precise_primitives",
            "core_functions_unclassified",
            "core_functions_variant"
        ]
    );
    assert!(
        meta.pattern.contains("relation"),
        "expected pattern to include relation namespace, got: {}",
        meta.pattern
    );
}

#[test]
fn embedded_repo_has_pure_files() {
    let repos = repos();
    let pure_count: usize = repos.iter().map(|r| r.sources().len()).sum();
    assert!(
        pure_count >= 1,
        "expected at least one .pure file in core_functions_relation, got {pure_count}"
    );
}

#[test]
fn embedded_files_carry_canonical_urls() {
    let repos = repos();
    let any = repos
        .iter()
        .flat_map(|r| r.sources().iter())
        .any(|(_, path)| path.starts_with("/core_functions_relation/"));
    assert!(any, "expected at least one /core_functions_relation/* file");
}
