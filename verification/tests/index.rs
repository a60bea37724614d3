use memo_core::index::{Error, Index, PathComponent};

fn path(s: &str) -> Vec<PathComponent> {
    s.split('/').map(|n| PathComponent::Normal(n.as_bytes().to_vec())).collect()
}

fn names(s: &str) -> Vec<Vec<u8>> {
    if s.is_empty() {
        vec![]
    } else {
        s.split('/').map(|n| n.as_bytes().to_vec()).collect()
    }
}

#[test]
fn index_create_dir_all_reports_existing_prefix() {
    let mut index = Index::new();
    assert_eq!(index.create_dir_all(&path("a/b")), Ok((names(""), names("a/b"))));
    assert_eq!(index.create_dir_all(&path("a/b/c/d")), Ok((names("a/b"), names("c/d"))));
    assert_eq!(index.create_dir_all(&path("a/e/f")), Ok((names("a"), names("e/f"))));
    // Creating existing directories again changes nothing.
    assert_eq!(index.create_dir_all(&path("a/b/c/d")), Ok((names("a/b/c/d"), names(""))));
    assert_eq!(index.create_dir_all(&path("a")), Ok((names("a"), names(""))));
}

#[test]
fn index_create_dir_all_rejects_components_that_are_not_names() {
    let mut index = Index::new();
    let mut p = path("x/y");
    p.push(PathComponent::Other);
    p.push(PathComponent::Normal(b"z".to_vec()));
    assert_eq!(index.create_dir_all(&p), Err(Error::InvalidPath));
    // The directories before the bad component were made.
    assert_eq!(index.create_dir_all(&path("x/y")), Ok((names("x/y"), names(""))));
    assert_eq!(index.create_dir_all(&path("x/y/z")), Ok((names("x/y"), names("z"))));

    assert_eq!(index.create_dir_all(&vec![PathComponent::Other]), Err(Error::InvalidPath));
    assert_eq!(index.create_dir_all(&vec![]), Ok((vec![], vec![])));
}
