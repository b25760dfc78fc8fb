use quickfind::patterns::Glob;

fn wild(p: &[char], t: &[char]) -> bool {
    if p.is_empty() {
        return t.is_empty();
    }
    if p == ['*', '*'] || p == ['*', '*', '/'] {
        return true;
    }
    if p.starts_with(&['*', '*', '/']) {
        return wild(&p[3..], t)
            || (0..t.len()).any(|k| t[k] == '/' && wild(&p[3..], &t[k + 1..]));
    }
    if p[0] == '*' {
        return wild(&p[1..], t) || (!t.is_empty() && wild(p, &t[1..]));
    }
    !t.is_empty() && (p[0] == '?' || p[0] == t[0]) && wild(&p[1..], &t[1..])
}

fn stars_fit(p: &[char]) -> bool {
    (0..p.len().saturating_sub(1)).all(|i| {
        !(p[i] == '*' && p[i + 1] == '*')
            || ((i == 0 || p[i - 1] == '/') && (i + 2 == p.len() || p[i + 2] == '/'))
    })
}

fn strings(alphabet: &[char], longest: usize) -> Vec<Vec<char>> {
    let mut all: Vec<Vec<char>> = vec![vec![]];
    let mut last: Vec<Vec<char>> = vec![vec![]];
    for _ in 0..longest {
        let mut next: Vec<Vec<char>> = Vec::new();
        for s in &last {
            for c in alphabet {
                let mut t = s.clone();
                t.push(*c);
                next.push(t);
            }
        }
        all.extend(next.clone());
        last = next;
    }
    all
}

fn check(p: &[char], texts: &[Vec<char>]) {
    let source: String = p.iter().collect();
    match Glob::new(&source) {
        Ok(glob) => {
            assert!(stars_fit(p));
            for t in texts {
                let text: String = t.iter().collect();
                assert_eq!(glob.matches(&text), wild(p, t));
            }
        }
        Err(_) => assert!(!stars_fit(p)),
    }
}

#[test]
fn short_patterns_mean_what_is_described() {
    let texts = strings(&['a', '/', '.'], 5);
    for p in strings(&['a', '/', '?', '*'], 6) {
        check(&p, &texts);
    }
}

#[test]
fn other_characters_mean_themselves() {
    let texts = strings(&['a', 'A', ']', '!', '{'], 3);
    for p in strings(&['a', ']', '!', '{', '*'], 3) {
        check(&p, &texts);
    }
}

#[test]
fn characters_beyond_ascii_are_single_characters() {
    let glob = Glob::new("?é*").expect("the pattern compiles");
    assert!(glob.matches("€é"));
    assert!(glob.matches("xé😀😀"));
    assert!(!glob.matches("é"));
}

#[test]
fn a_class_stands_for_one_of_its_characters() {
    let glob = Glob::new("[a-c]x[!0-9]").expect("the pattern compiles");
    assert!(glob.matches("bxy"));
    assert!(!glob.matches("dxy"));
    assert!(!glob.matches("bx1"));
}

#[test]
fn errors_tell_where_and_what() {
    let open = Glob::new("ab[c").err().expect("the class is not closed");
    assert_eq!(open.pos, 2);
    assert_eq!(open.msg, "invalid range pattern");
    let stars = Glob::new("a**").err().expect("the stars do not stand alone");
    assert_eq!(stars.msg, "recursive wildcards must form a single path component");
    let three = Glob::new("***").err().expect("three stars are too many");
    assert_eq!(three.msg, "wildcards are either regular `*` or recursive `**`");
}

#[test]
fn longer_patterns_mean_what_is_described() {
    let mut state: u64 = 42;
    let mut next = |n: u64| {
        state = state.wrapping_mul(6_364_136_223_846_793_005).wrapping_add(1_442_695_040_888_963_407);
        ((state >> 33) % n) as usize
    };
    let pieces = ["a", "b", "/", ".", "?", "*", "/**/", "ab/", "**/", "/**"];
    let in_texts = ['a', 'b', '/', '.'];
    let mut compiled = 0;
    for _ in 0..6000 {
        let mut source = String::new();
        for _ in 0..1 + next(7) {
            source.push_str(pieces[next(10)]);
        }
        let p: Vec<char> = source.chars().collect();
        if stars_fit(&p) {
            compiled += 1;
        }
        let texts: Vec<Vec<char>> = (0..40)
            .map(|_| {
                let n = next(14);
                (0..n).map(|_| in_texts[next(4)]).collect()
            })
            .collect();
        check(&p, &texts);
    }
    assert!(compiled > 1000);
}

#[test]
fn two_stars_at_the_end_accept_whatever_follows() {
    for source in ["**", "**/", "a/**", "a/**/"] {
        let glob = Glob::new(source).expect("the pattern compiles");
        assert!(glob.matches("a/"));
        assert!(glob.matches("a/b/c"));
    }
    assert!(Glob::new("**/").expect("the pattern compiles").matches("x"));
    assert!(!Glob::new("a/**").expect("the pattern compiles").matches("a"));
    assert!(Glob::new("a/**/b").expect("the pattern compiles").matches("a/b"));
    assert!(Glob::new("a/**/b").expect("the pattern compiles").matches("a/x/y/b"));
    assert!(!Glob::new("a/**/b").expect("the pattern compiles").matches("a/xb"));
}
