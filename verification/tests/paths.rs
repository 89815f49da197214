use std::path::{Component as StdComponent, Path, PathBuf};

use parsync::path::{sort_names, sort_paths, Component, FileName, UnixPath};

const SAMPLES: [&str; 34] = [
    "", ".", "..", "/", "//", "///", "a", "a/", "a//", "./a", "./", "/.", "/..", "/a", "/a/", "//a",
    "a/b", "a//b", "a/./b", "a/../b", "a/.", "a/..", "./a/b", "././a", "a/b/c", "a/b/c/", "/a/./b/",
    ".hidden", "...", "a/.../b", "..a", "ä/ö", "a b/c", "./..",
];

fn text(path: &UnixPath) -> String {
    String::from_utf8(path.bytes.clone()).unwrap()
}

#[test]
fn components_agree_with_the_standard_library() {
    for sample in SAMPLES {
        let ours: Vec<String> = UnixPath::from_text(sample)
            .components()
            .iter()
            .map(|c| match c {
                Component::RootDir => "<root>".to_string(),
                Component::CurDir => "<here>".to_string(),
                Component::ParentDir => "<up>".to_string(),
                Component::Normal(name) => String::from_utf8(name.clone()).unwrap(),
            })
            .collect();
        let theirs: Vec<String> = Path::new(sample)
            .components()
            .map(|c| match c {
                StdComponent::RootDir => "<root>".to_string(),
                StdComponent::CurDir => "<here>".to_string(),
                StdComponent::ParentDir => "<up>".to_string(),
                StdComponent::Normal(name) => name.to_str().unwrap().to_string(),
                StdComponent::Prefix(_) => unreachable!(),
            })
            .collect();
        assert_eq!(ours, theirs, "{sample:?}");
    }
}

#[test]
fn parents_agree_with_the_standard_library() {
    for sample in SAMPLES {
        let ours = UnixPath::from_text(sample).parent().map(|p| text(&p));
        let theirs = Path::new(sample).parent().map(|p| p.to_str().unwrap().to_string());
        assert_eq!(ours, theirs, "{sample:?}");
    }
}

#[test]
fn joins_agree_with_the_standard_library() {
    for base in SAMPLES {
        for rel in SAMPLES {
            let ours = text(&UnixPath::from_text(base).join(&UnixPath::from_text(rel)));
            let theirs = Path::new(base).join(rel).to_str().unwrap().to_string();
            assert_eq!(ours, theirs, "{base:?} {rel:?}");
        }
    }
}

#[test]
fn places_agree_with_the_standard_library() {
    for a in SAMPLES {
        for b in SAMPLES {
            let ours = UnixPath::from_text(a).same_place(&UnixPath::from_text(b));
            assert_eq!(ours, Path::new(a) == Path::new(b), "{a:?} {b:?}");
        }
    }
}

#[test]
fn absolute_and_safe_paths_agree_with_the_standard_library() {
    for sample in SAMPLES {
        let ours = UnixPath::from_text(sample);
        let theirs = Path::new(sample);
        assert_eq!(ours.absolute(), theirs.is_absolute(), "{sample:?}");
        let unsafe_part = theirs
            .components()
            .any(|c| matches!(c, StdComponent::ParentDir | StdComponent::RootDir));
        assert_eq!(ours.safe_relative(), !theirs.is_absolute() && !unsafe_part, "{sample:?}");
    }
}

#[test]
fn directory_order_agrees_with_the_standard_library() {
    for a in SAMPLES {
        for b in SAMPLES {
            let ours: Vec<String> =
                sort_paths(vec![UnixPath::from_text(a), UnixPath::from_text(b)])
                    .iter()
                    .map(text)
                    .collect();
            let mut theirs = vec![PathBuf::from(a), PathBuf::from(b)];
            theirs.sort_by_key(|p| (p.components().count(), p.clone()));
            let theirs: Vec<String> =
                theirs.iter().map(|p| p.to_str().unwrap().to_string()).collect();
            assert_eq!(ours, theirs, "{a:?} {b:?}");
        }
    }
}

#[test]
fn many_paths_are_laid_out_like_the_standard_library_does() {
    let ours: Vec<String> =
        sort_paths(SAMPLES.iter().map(|s| UnixPath::from_text(s)).collect()).iter().map(text).collect();
    let mut theirs: Vec<PathBuf> = SAMPLES.iter().map(PathBuf::from).collect();
    theirs.sort_by_key(|p| (p.components().count(), p.clone()));
    let theirs: Vec<String> = theirs.iter().map(|p| p.to_str().unwrap().to_string()).collect();
    assert_eq!(ours, theirs);
}

#[test]
fn ancestors_lead_up_to_the_first_component() {
    let above = |s: &str| -> Vec<String> {
        UnixPath::from_text(s).ancestors().iter().map(text).collect()
    };
    assert_eq!(above("a/b/c"), vec!["a/b", "a"]);
    assert_eq!(above("a//b/./c"), vec!["a//b", "a"]);
    assert_eq!(above("a"), Vec::<String>::new());
    assert_eq!(above(""), Vec::<String>::new());
    assert_eq!(above("./a/b"), vec!["./a", "."]);
}

#[test]
fn names_go_by_their_bytes() {
    let names = ["b", "a", "", "B", "ab", "ä", "a"];
    let ours: Vec<Vec<u8>> = sort_names(
        names.iter().map(|n| FileName { bytes: n.as_bytes().to_vec() }).collect(),
    )
    .into_iter()
    .map(|n| n.bytes)
    .collect();
    let mut theirs: Vec<Vec<u8>> = names.iter().map(|n| n.as_bytes().to_vec()).collect();
    theirs.sort();
    assert_eq!(ours, theirs);
}

#[test]
fn bytes_that_are_no_text_are_kept() {
    let path = UnixPath { bytes: vec![0xff, b'/', 0xfe] };
    assert_eq!(path.components().len(), 2);
    assert_eq!(path.parent().unwrap().bytes, vec![0xff]);
    let joined = UnixPath::from_text("root").join(&path);
    assert_eq!(joined.bytes, vec![b'r', b'o', b'o', b't', b'/', 0xff, b'/', 0xfe]);
    assert_eq!(joined.clone().bytes, joined.bytes);
}
