use quickfind::paths::{file_name, is_same_path, join, parent, split_components, strip_prefix};
use quickfind::text::{from_chars, slice, to_chars};
use std::path::Path;

fn samples() -> Vec<String> {
    let pieces = ["", "/", ".", "..", "a", "b", "a.b", "é"];
    let mut list: Vec<String> = Vec::new();
    for x in pieces {
        for y in pieces {
            for z in pieces {
                list.push(format!("{x}{y}{z}"));
                list.push(format!("{x}/{y}/{z}"));
                list.push(format!("/{x}/{y}{z}/"));
            }
        }
    }
    list
}

#[test]
fn components_are_those_of_the_standard_library() {
    for text in samples() {
        let chars = to_chars(&text);
        let found: Vec<String> =
            split_components(&chars).iter().map(|(a, b)| slice(&chars, *a, *b)).collect();
        let expected: Vec<String> = Path::new(&text)
            .components()
            .map(|c| c.as_os_str().to_str().expect("the samples are text").to_string())
            .collect();
        assert_eq!(found, expected);
    }
}

#[test]
fn names_and_parents_are_those_of_the_standard_library() {
    for text in samples() {
        let chars = to_chars(&text);
        let path = Path::new(&text);
        assert_eq!(
            file_name(&chars).map(|n| from_chars(&n)),
            path.file_name().map(|n| n.to_str().expect("the samples are text").to_string())
        );
        assert_eq!(
            parent(&chars).map(|n| from_chars(&n)),
            path.parent().map(|n| n.to_str().expect("the samples are text").to_string())
        );
    }
}

#[test]
fn prefixes_and_joins_are_those_of_the_standard_library() {
    let bases = ["", "/", ".", "a", "a/", "/a", "/a/b", "a/./b", "./a", "/a/", "..", "//a"];
    for text in samples() {
        let chars = to_chars(&text);
        let path = Path::new(&text);
        for base in bases {
            let from = to_chars(base);
            assert_eq!(
                strip_prefix(&chars, &from).map(|n| from_chars(&n)),
                path.strip_prefix(base)
                    .ok()
                    .map(|n| n.to_str().expect("the samples are text").to_string())
            );
            assert_eq!(
                from_chars(&join(&from, &chars)),
                Path::new(base).join(path).to_str().expect("the samples are text")
            );
            assert_eq!(is_same_path(&chars, &from), path == Path::new(base));
        }
    }
}
