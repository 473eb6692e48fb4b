use navgraph::loader::{ResourceLoader, ResourceLoadersContainer};

#[derive(Eq, PartialEq, Debug)]
struct MyResourceLoader;

const MY_LOADER_KEY: u64 = 7;

impl ResourceLoader for MyResourceLoader {
    fn type_key(&self) -> u64 {
        MY_LOADER_KEY
    }
}

#[test]
fn resource_loader_container_new() {
    let container: ResourceLoadersContainer<MyResourceLoader> = ResourceLoadersContainer::new();
    assert!(container.is_empty());

    let container: ResourceLoadersContainer<MyResourceLoader> = Default::default();
    assert!(container.is_empty());
}

#[test]
fn resource_loader_container_set() {
    let mut container = ResourceLoadersContainer::new();
    let res = container.set(MyResourceLoader);
    let res2 = container.set(MyResourceLoader);
    assert_eq!(res, None);
    assert_eq!(res2, Some(MyResourceLoader));

    assert_eq!(container.len(), 1);
}

#[test]
fn resource_loader_container_find() {
    let mut container = ResourceLoadersContainer::new();

    let res = container.find(MY_LOADER_KEY);
    assert_eq!(res, None);

    container.set(MyResourceLoader);
    let res = container.find(MY_LOADER_KEY);

    assert_eq!(res, Some(&MyResourceLoader));
}

#[test]
fn resource_loader_container_find_mut() {
    let mut container = ResourceLoadersContainer::new();

    let res = container.find_mut(MY_LOADER_KEY);
    assert_eq!(res, None);

    container.set(MyResourceLoader);
    let res = container.find_mut(MY_LOADER_KEY);

    assert_eq!(res, Some(&mut MyResourceLoader));
}

#[test]
fn resource_loader_container_getters() {
    let mut container = ResourceLoadersContainer::new();
    assert!(container.is_empty());
    assert_eq!(container.len(), 0);

    container.set(MyResourceLoader);
    container.set(MyResourceLoader);
    assert!(!container.is_empty());
    assert_eq!(container.len(), 1);
}

#[derive(Eq, PartialEq, Debug)]
struct OtherLoader(u64);

impl ResourceLoader for OtherLoader {
    fn type_key(&self) -> u64 {
        self.0
    }
}

#[test]
fn resource_loader_container_try_replace() {
    let mut container = ResourceLoadersContainer::new();
    container.set(OtherLoader(1));
    container.set(OtherLoader(2));

    let prev = container.try_replace(1, OtherLoader(9));
    assert_eq!(prev, Some(OtherLoader(1)));
    assert_eq!(container.iter().len(), 2);
    assert_eq!(container.iter()[0], OtherLoader(9));
    assert_eq!(container.iter()[1], OtherLoader(2));

    let missing = container.try_replace(5, OtherLoader(5));
    assert_eq!(missing, None);
    assert_eq!(container.len(), 2);
}
