use juinit::resolver::DependencyResolver;

#[test]
fn test_simple_dependency() {
    let mut resolver = DependencyResolver::new();
    resolver.add_package("a".to_string(), vec!["b".to_string()]);
    resolver.add_package("b".to_string(), vec![]);

    let order = resolver.resolve("a").unwrap();
    assert_eq!(order, vec!["b", "a"]);
}

#[test]
fn test_chain_dependency() {
    let mut resolver = DependencyResolver::new();
    resolver.add_package("a".to_string(), vec!["b".to_string()]);
    resolver.add_package("b".to_string(), vec!["c".to_string()]);
    resolver.add_package("c".to_string(), vec![]);

    let order = resolver.resolve("a").unwrap();
    assert_eq!(order, vec!["c", "b", "a"]);
}

#[test]
fn test_diamond_dependency() {
    let mut resolver = DependencyResolver::new();
    resolver.add_package("a".to_string(), vec!["b".to_string(), "c".to_string()]);
    resolver.add_package("b".to_string(), vec!["d".to_string()]);
    resolver.add_package("c".to_string(), vec!["d".to_string()]);
    resolver.add_package("d".to_string(), vec![]);

    let order = resolver.resolve("a").unwrap();
    // d must come before b and c, and b/c must come before a
    assert!(order.iter().position(|x| x == "d") < order.iter().position(|x| x == "b"));
    assert!(order.iter().position(|x| x == "d") < order.iter().position(|x| x == "c"));
    assert!(order.iter().position(|x| x == "b") < order.iter().position(|x| x == "a"));
    assert!(order.iter().position(|x| x == "c") < order.iter().position(|x| x == "a"));
}

#[test]
fn test_circular_dependency() {
    let mut resolver = DependencyResolver::new();
    resolver.add_package("a".to_string(), vec!["b".to_string()]);
    resolver.add_package("b".to_string(), vec!["a".to_string()]);

    let result = resolver.resolve("a");
    assert!(result.is_err());
    assert!(result.unwrap_err().to_string().contains("Circular dependency"));
}

#[test]
fn test_reverse_dependencies() {
    let mut resolver = DependencyResolver::new();
    resolver.add_package("a".to_string(), vec!["b".to_string()]);
    resolver.add_package("c".to_string(), vec!["b".to_string()]);
    resolver.add_package("b".to_string(), vec![]);

    let reverse = resolver.get_reverse_dependencies("b");
    assert_eq!(reverse.len(), 2);
    assert!(reverse.contains(&"a".to_string()));
    assert!(reverse.contains(&"c".to_string()));
}

#[test]
fn unregistered_package_resolves_to_itself() {
    let resolver = DependencyResolver::new();
    assert_eq!(resolver.resolve("solo").unwrap(), vec!["solo"]);
}

#[test]
fn self_dependency_is_a_cycle() {
    let mut resolver = DependencyResolver::new();
    resolver.add_package("a".to_string(), vec!["a".to_string()]);
    let err = resolver.resolve("a").unwrap_err();
    assert_eq!(err.to_string(), "Circular dependency detected: a");
    assert!(resolver.check_cycles().is_err());
}

#[test]
fn check_cycles_accepts_acyclic_graph() {
    let mut resolver = DependencyResolver::new();
    resolver.add_package("a".to_string(), vec!["b".to_string(), "c".to_string()]);
    resolver.add_package("b".to_string(), vec!["c".to_string()]);
    assert!(resolver.check_cycles().is_ok());
}

#[test]
fn check_cycles_finds_unreachable_cycle() {
    let mut resolver = DependencyResolver::new();
    resolver.add_package("a".to_string(), vec![]);
    resolver.add_package("x".to_string(), vec!["y".to_string()]);
    resolver.add_package("y".to_string(), vec!["x".to_string()]);
    assert!(resolver.resolve("a").is_ok());
    assert!(resolver.check_cycles().is_err());
}

#[test]
fn resolve_many_lists_shared_dependencies_once() {
    let mut resolver = DependencyResolver::new();
    resolver.add_package("a".to_string(), vec!["c".to_string()]);
    resolver.add_package("b".to_string(), vec!["c".to_string()]);
    let order = resolver
        .resolve_many(&["a".to_string(), "b".to_string()])
        .unwrap();
    assert_eq!(order, vec!["c", "a", "b"]);
}

#[test]
fn add_package_replaces_dependencies() {
    let mut resolver = DependencyResolver::new();
    resolver.add_package("a".to_string(), vec!["b".to_string()]);
    resolver.add_package("a".to_string(), vec!["c".to_string()]);
    assert_eq!(resolver.get_dependencies("a").unwrap(), &vec!["c".to_string()]);
    assert!(resolver.get_dependencies("zzz").is_none());
    assert_eq!(resolver.resolve("a").unwrap(), vec!["c", "a"]);
}

#[test]
fn orphans_are_installed_packages_nobody_installed_needs() {
    let mut resolver = DependencyResolver::new();
    resolver.add_package("app".to_string(), vec!["lib".to_string()]);
    resolver.add_package("tool".to_string(), vec!["lib".to_string()]);
    let installed = vec!["lib".to_string(), "tool".to_string(), "extra".to_string()];
    let orphans = resolver.find_orphans(&installed);
    assert_eq!(orphans, vec!["tool", "extra"]);
}

#[test]
fn orphans_are_listed_once() {
    let resolver = DependencyResolver::new();
    let installed = vec!["x".to_string(), "x".to_string()];
    assert_eq!(resolver.find_orphans(&installed), vec!["x"]);
}

#[test]
fn resolve_many_of_one_package_matches_resolve() {
    let mut resolver = DependencyResolver::new();
    resolver.add_package("a".to_string(), vec!["b".to_string(), "c".to_string()]);
    resolver.add_package("b".to_string(), vec!["c".to_string()]);
    let one = resolver.resolve("a").unwrap();
    assert_eq!(one, vec!["c", "b", "a"]);
    assert_eq!(resolver.resolve_many(&["a".to_string()]).unwrap(), one);
    assert!(resolver.resolve_many(&[]).unwrap().is_empty());
}
