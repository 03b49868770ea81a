use gpao::catalog::{Catalog, Requirement};
use gpao::depgraph::{DependencyGraph, GraphError};

/// `n` articles, each made on a route of its own, where each pair (x, y)
/// makes article x require one unit of article y.
fn catalog_with(edges: &[(usize, usize)], n: usize) -> Catalog {
    let mut c = Catalog::new();
    let out = c.register_point(String::from("out")).unwrap();
    for x in 0..n {
        let reqs: Vec<Requirement> = edges
            .iter()
            .filter(|e| e.0 == x)
            .map(|e| Requirement { article: e.1, quantity: 1 })
            .collect();
        let p = c.register_conditional_point(format!("origin{}", x), Some(reqs)).unwrap();
        let r = c.register_route(p, out, Some(1), None).unwrap();
        c.register_article(format!("article{}", x), Some(r)).unwrap();
    }
    c
}

#[test]
fn acyclic_catalog_builds_in_dependency_order() {
    let c = catalog_with(&[(0, 1), (0, 2), (1, 2)], 3);
    let g = DependencyGraph::build(&c).unwrap();
    assert!(g.position[2] < g.position[1]);
    assert!(g.position[1] < g.position[0]);
}

#[test]
fn two_article_cycle_is_rejected() {
    let c = catalog_with(&[(0, 1), (1, 0)], 2);
    match DependencyGraph::build(&c) {
        Err(GraphError::CyclicDependency(path)) => {
            assert_eq!(path.len(), 2);
            assert!(path.contains(&0) && path.contains(&1));
        }
        other => panic!("expected a cycle, got {:?}", other),
    }
}

#[test]
fn self_requirement_is_a_cycle() {
    let c = catalog_with(&[(1, 0), (0, 0)], 2);
    match DependencyGraph::build(&c) {
        Err(GraphError::CyclicDependency(path)) => assert_eq!(path, vec![0]),
        other => panic!("expected a cycle, got {:?}", other),
    }
}

#[test]
fn unknown_required_article_is_reported() {
    let c = catalog_with(&[(0, 4)], 2);
    match DependencyGraph::build(&c) {
        Err(GraphError::UnknownArticle(y)) => assert_eq!(y, 4),
        other => panic!("expected an unknown article, got {:?}", other),
    }
}

#[test]
fn empty_catalog_builds() {
    let c = Catalog::new();
    let g = DependencyGraph::build(&c).unwrap();
    assert!(g.position.is_empty());
}
