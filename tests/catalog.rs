use gpao::catalog::{Catalog, CatalogError, Requirement};

#[test]
fn register_and_find() {
    let mut c = Catalog::new();
    let p = c.register_point(String::from("dock")).unwrap();
    let q = c.register_point(String::from("plant")).unwrap();
    assert_eq!((p, q), (0, 1));
    let r = c.register_route(p, q, Some(3), None).unwrap();
    let a = c.register_article(String::from("bolt"), Some(r)).unwrap();
    let s = c.register_storage(String::from("main")).unwrap();
    assert_eq!(c.find_point_by_name(&String::from("plant")), Ok(1));
    assert_eq!(c.find_article_by_name(&String::from("bolt")), Ok(a));
    assert_eq!(c.find_storage_by_name(&String::from("main")), Ok(s));
    assert_eq!(c.find_article_by_name(&String::from("nut")), Err(CatalogError::NotFound));
    assert_eq!(c.find_point_by_name(&String::from("nowhere")), Err(CatalogError::NotFound));
    assert_eq!(c.find_storage_by_name(&String::from("other")), Err(CatalogError::NotFound));
}

#[test]
fn duplicate_names_are_refused_and_change_nothing() {
    let mut c = Catalog::new();
    c.register_point(String::from("dock")).unwrap();
    c.register_article(String::from("bolt"), None).unwrap();
    c.register_storage(String::from("main")).unwrap();
    assert_eq!(c.register_point(String::from("dock")), Err(CatalogError::DuplicateName));
    let reqs = vec![Requirement { article: 0, quantity: 1 }];
    assert_eq!(
        c.register_conditional_point(String::from("dock"), Some(reqs)),
        Err(CatalogError::DuplicateName)
    );
    assert_eq!(c.register_article(String::from("bolt"), None), Err(CatalogError::DuplicateName));
    assert_eq!(c.register_storage(String::from("main")), Err(CatalogError::DuplicateName));
    assert_eq!(c.points.len(), 1);
    assert_eq!(c.articles.len(), 1);
    assert_eq!(c.storages.len(), 1);
    assert!(c.points[0].condition.is_none());
}

#[test]
fn same_name_in_different_kinds_is_allowed() {
    let mut c = Catalog::new();
    assert_eq!(c.register_point(String::from("x")), Ok(0));
    assert_eq!(c.register_article(String::from("x"), None), Ok(0));
    assert_eq!(c.register_storage(String::from("x")), Ok(0));
}

#[test]
fn unknown_references_are_refused() {
    let mut c = Catalog::new();
    let p = c.register_point(String::from("a")).unwrap();
    assert_eq!(c.register_route(p, 5, None, None), Err(CatalogError::NotFound));
    assert_eq!(c.register_article(String::from("bolt"), Some(0)), Err(CatalogError::NotFound));
    assert_eq!(c.set_storage_quantity(0, 0, 1), Err(CatalogError::NotFound));
    assert_eq!(c.articles.len(), 0);
    assert_eq!(c.routes.len(), 0);
}

#[test]
fn storage_quantity_overwrites() {
    let mut c = Catalog::new();
    let a = c.register_article(String::from("bolt"), None).unwrap();
    let b = c.register_article(String::from("nut"), None).unwrap();
    let s = c.register_storage(String::from("main")).unwrap();
    assert_eq!(c.set_storage_quantity(s, a, 5), Ok(()));
    assert_eq!(c.set_storage_quantity(s, b, 2), Ok(()));
    assert_eq!(c.set_storage_quantity(s, a, 3), Ok(()));
    assert_eq!(c.storages[s].stock, vec![(a, 3), (b, 2)]);
    assert_eq!(c.set_storage_quantity(s, 7, 1), Err(CatalogError::NotFound));
}

#[test]
fn requirements_of_an_article() {
    let mut c = Catalog::new();
    let reqs = vec![Requirement { article: 1, quantity: 4 }, Requirement { article: 2, quantity: 1 }];
    let pa = c.register_conditional_point(String::from("assembly"), Some(reqs)).unwrap();
    let pb = c.register_point(String::from("out")).unwrap();
    let r = c.register_route(pa, pb, None, None).unwrap();
    let x = c.register_article(String::from("frame"), Some(r)).unwrap();
    let y = c.register_article(String::from("tube"), None).unwrap();
    assert_eq!(c.requirement_count(x), 2);
    assert_eq!(c.requirement_at(x, 0), Requirement { article: 1, quantity: 4 });
    assert_eq!(c.requirement_at(x, 1), Requirement { article: 2, quantity: 1 });
    assert_eq!(c.requirement_count(y), 0);
}
