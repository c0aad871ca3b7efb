use flow_solver::dsu::{UnionFind, Unite};
use flow_solver::search::link::Link;

#[test]
fn link_merges_follow_the_rules() {
    assert_eq!(Link::Uncolored(3, 4).unite(Link::Uncolored(5, 5), 4, 5), Some(Link::Uncolored(3, 5)));
    assert_eq!(Link::Uncolored(7, 4).unite(Link::Uncolored(1, 2), 4, 2), Some(Link::Uncolored(1, 7)));
    assert_eq!(Link::Uncolored(3, 4).unite(Link::Colored(9, 5), 4, 5), Some(Link::Colored(9, 3)));
    assert_eq!(Link::Colored(9, 5).unite(Link::Uncolored(3, 4), 5, 4), Some(Link::Colored(9, 3)));
    assert_eq!(Link::Colored(2, 1).unite(Link::Colored(2, 6), 1, 6), Some(Link::Complete(2)));
    assert_eq!(Link::Colored(2, 1).unite(Link::Colored(3, 6), 1, 6), None);
    assert_eq!(Link::Complete(2).unite(Link::Uncolored(0, 0), 1, 0), None);
    assert_eq!(Link::Uncolored(0, 0).unite(Link::Complete(2), 0, 1), None);
    assert_eq!(Link::Colored(2, 1).unite(Link::Complete(2), 1, 6), None);
}

#[test]
fn unions_and_rollback() {
    let mut uf = UnionFind::from(vec![
        Link::Colored(1, 0),
        Link::Uncolored(1, 1),
        Link::Colored(1, 2),
        Link::Colored(2, 3),
    ]);
    assert!(!uf.same(0, 1));
    assert!(uf.unite(0, 1));
    assert!(uf.same(0, 1));
    assert_eq!(uf.get_data(1), Link::Colored(1, 1));
    // a second union inside one component is refused
    assert!(!uf.unite(1, 0));
    // different colors are refused
    assert!(!uf.unite(1, 3));
    assert!(!uf.same(1, 3));
    assert!(uf.unite(1, 2));
    assert_eq!(uf.get_data(2), Link::Complete(1));
    assert_eq!(uf.get_data(0), Link::Complete(1));
    // nothing joins a finished path
    assert!(!uf.unite(2, 3));
    uf.undo();
    assert_eq!(uf.get_data(2), Link::Colored(1, 2));
    assert_eq!(uf.get_data(0), Link::Colored(1, 1));
    assert!(!uf.same(0, 2));
    uf.undo();
    // back to singletons with the payloads they were built with
    assert_eq!(uf.get_data(0), Link::Colored(1, 0));
    assert_eq!(uf.get_data(1), Link::Uncolored(1, 1));
    assert!(!uf.same(0, 1));
    assert!(!uf.same(2, 3));
}
