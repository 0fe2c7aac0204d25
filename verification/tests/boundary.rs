use movie_search::boundary::PortingBoundary;

#[test]
fn records_pinned_upstream_version() {
    let boundary = PortingBoundary::current();

    assert_eq!(boundary.upstream_tag, "v1.43.0");
    assert_eq!(boundary.oci_image, "getmeili/meilisearch:v1.43.0");
    assert!(boundary
        .expected_blockers
        .iter()
        .any(|blocker| blocker.contains("LMDB")));
}
