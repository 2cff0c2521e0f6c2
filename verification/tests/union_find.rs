use flp_vault::union_find::UnionFind;

#[test]
fn test_initial_singleton_groups() {
    let uf = UnionFind::new(3);
    let groups = uf.groups();
    assert_eq!(groups.len(), 3);
}

#[test]
fn test_union_merges_groups() {
    let mut uf = UnionFind::new(4);
    uf.union(0, 1);
    uf.union(2, 3);
    let groups = uf.groups();
    assert_eq!(groups.len(), 2);
}

#[test]
fn test_transitive_closure() {
    let mut uf = UnionFind::new(3);
    uf.union(0, 1);
    uf.union(1, 2);
    let groups = uf.groups();
    assert_eq!(groups.len(), 1);
    assert_eq!(groups[0].len(), 3);
}

#[test]
fn test_find_reports_merged_labels() {
    let mut uf = UnionFind::new(4);
    uf.union(0, 2);
    assert_eq!(uf.find(0), uf.find(2));
    assert_ne!(uf.find(0), uf.find(1));
}
