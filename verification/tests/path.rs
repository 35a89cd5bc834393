use sdft::path::PathPart;
use sdft::{SafeRelativePath, UnsafePath};

#[test]
fn accepts_a_normal_relative_path() {
    let path = SafeRelativePath::new(b"games/screenshots/image.png")
        .expect("a normal relative path should be accepted");
    assert_eq!(path.as_path(), b"games/screenshots/image.png");
}

#[test]
fn rejects_parent_traversal() {
    let error = SafeRelativePath::new(b"games/../../secret")
        .expect_err("parent traversal must be rejected");
    assert_eq!(error, UnsafePath::ParentTraversal);
}

#[test]
fn rejects_an_absolute_path() {
    let error =
        SafeRelativePath::new(b"/etc/passwd").expect_err("absolute paths must be rejected");
    assert_eq!(error, UnsafePath::AbsoluteOrPrefixed);
}

#[test]
fn rejects_an_empty_path() {
    let error = SafeRelativePath::new(b"").expect_err("empty paths must be rejected");
    assert_eq!(error, UnsafePath::Empty);
}

/// The same check, written with the platform's own path syntax.
fn checked_by_platform(text: &str) -> Result<String, UnsafePath> {
    let mut normalized = std::path::PathBuf::new();
    for component in std::path::Path::new(text).components() {
        match component {
            std::path::Component::Normal(part) => normalized.push(part),
            std::path::Component::CurDir => {}
            std::path::Component::ParentDir => return Err(UnsafePath::ParentTraversal),
            std::path::Component::RootDir | std::path::Component::Prefix(_) => {
                return Err(UnsafePath::AbsoluteOrPrefixed);
            }
        }
    }
    if normalized.as_os_str().is_empty() {
        return Err(UnsafePath::Empty);
    }
    Ok(normalized.to_str().unwrap().to_owned())
}

fn checked(text: &str) -> Result<String, UnsafePath> {
    SafeRelativePath::new(text.as_bytes())
        .map(|path| String::from_utf8(path.as_path().to_vec()).unwrap())
}

#[test]
fn normalizes_dots_and_doubled_separators() {
    assert_eq!(checked("./a//b/./c/").unwrap(), "a/b/c");
    assert_eq!(checked("a").unwrap(), "a");
    assert_eq!(checked(".a/..b/...").unwrap(), ".a/..b/...");
}

#[test]
fn rejects_paths_of_dots_alone() {
    assert_eq!(checked("."), Err(UnsafePath::Empty));
    assert_eq!(checked("./."), Err(UnsafePath::Empty));
    assert_eq!(checked(".."), Err(UnsafePath::ParentTraversal));
    assert_eq!(checked("a/.."), Err(UnsafePath::ParentTraversal));
}

#[test]
fn an_earlier_fault_decides() {
    assert_eq!(checked("/.."), Err(UnsafePath::AbsoluteOrPrefixed));
    assert_eq!(checked("//a"), Err(UnsafePath::AbsoluteOrPrefixed));
}

#[test]
fn rejects_nul_bytes() {
    for text in ["a\0b", "\0", "a/b\0/c", "./a/\0"] {
        assert_eq!(checked(text), Err(UnsafePath::NulByte), "{text:?}");
    }
    assert_eq!(checked("a\0/.."), Err(UnsafePath::NulByte));
    assert_eq!(checked("../a\0"), Err(UnsafePath::ParentTraversal));
    assert_eq!(checked("/a\0"), Err(UnsafePath::AbsoluteOrPrefixed));
}

#[test]
fn rejects_drive_prefixes() {
    for text in ["C:", "C:/a", "z:/a", "./C:/a", "C:a", "C:\\a", "C:\0", "C:/.."] {
        assert_eq!(checked(text), Err(UnsafePath::AbsoluteOrPrefixed), "{text:?}");
    }
    for text in ["a/C:", "C", "CC:", ":", "1:/a", "a/b:c"] {
        assert_eq!(checked(text).unwrap(), text);
    }
}

#[test]
fn agrees_with_the_platform_on_every_short_path() {
    let letters = ['a', '.', '/', 'b'];
    let mut texts = vec![String::new()];
    let mut start = 0;
    for _ in 0..6 {
        let end = texts.len();
        for index in start..end {
            for letter in letters {
                let mut longer = texts[index].clone();
                longer.push(letter);
                texts.push(longer);
            }
        }
        start = end;
    }
    for text in &texts {
        assert_eq!(checked(text), checked_by_platform(text), "{text:?}");
    }
}

#[test]
fn checking_again_changes_nothing() {
    for text in ["./a//b", "a/b/c/", "x/./y"] {
        let once = SafeRelativePath::new(text.as_bytes()).unwrap();
        let twice = SafeRelativePath::new(once.as_path()).unwrap();
        assert_eq!(once, twice);
        assert_eq!(once.clone(), once);
    }
}

#[test]
fn platform_prefixes_and_empty_components_are_rejected() {
    assert_eq!(
        SafeRelativePath::from_components(&vec![
            PathPart::Prefix,
            PathPart::Normal(b"a".to_vec())
        ]),
        Err(UnsafePath::AbsoluteOrPrefixed)
    );
    assert_eq!(
        SafeRelativePath::from_components(&vec![PathPart::Normal(Vec::new())]),
        Err(UnsafePath::EmptyComponent)
    );
    assert_eq!(
        SafeRelativePath::from_components(&vec![
            PathPart::CurDir,
            PathPart::Normal(b"a".to_vec()),
            PathPart::Normal(b"b".to_vec())
        ])
        .unwrap()
        .as_path(),
        b"a/b"
    );
}

#[test]
fn placing_adds_one_separator() {
    let path = SafeRelativePath::new(b"a/b").unwrap();
    assert_eq!(path.beneath(b"/root"), b"/root/a/b");
    assert_eq!(path.beneath(b"/"), b"/a/b");
    assert_eq!(path.beneath(b""), b"a/b");
}

#[test]
fn path_errors_are_worded() {
    assert_eq!(UnsafePath::Empty.message(), "the path is empty");
    assert_eq!(
        UnsafePath::EmptyComponent.message(),
        "the path contains an empty component"
    );
    assert_eq!(
        UnsafePath::ParentTraversal.message(),
        "the path contains parent traversal"
    );
    assert_eq!(
        UnsafePath::AbsoluteOrPrefixed.message(),
        "the path is absolute or platform-prefixed"
    );
    assert_eq!(UnsafePath::NulByte.message(), "the path contains a NUL byte");
}
