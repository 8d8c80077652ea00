//! End-to-end tests for combinators (`&&`, `||`, `!`) — including
//! short-circuit behavior and mixing implicit and explicit `[[ ]]`.

use bash_condexp::{parse, AccessMode, FileKind, Env, Evaluator, FileStat, FileSystem, MapEnv};
use std::cell::Cell;

/// An in-memory file system: regular files and directories at fixed paths.
struct MockFs {
    entries: Vec<(String, FileStat)>,
}

impl MockFs {
    fn new() -> Self {
        MockFs { entries: Vec::new() }
    }

    fn entry(mut self, path: &str, kind: FileKind, size: u64, ino: u64, mtime: i64) -> Self {
        self.entries.push((
            path.to_string(),
            FileStat {
                kind,
                size,
                mode: 0o644,
                uid: 0,
                gid: 0,
                dev: 1,
                ino,
                mtime: (mtime, 0),
                atime: (mtime, 0),
            },
        ));
        self
    }

    /// The host directories and files the tests refer to.
    fn standard() -> Self {
        MockFs::new()
            .entry("/", FileKind::Directory, 0, 2, 100)
            .entry("/tmp", FileKind::Directory, 0, 3, 100)
            .entry("/tmp/hello.txt", FileKind::Regular, 6, 4, 200)
            .entry("/tmp/empty.txt", FileKind::Regular, 0, 5, 150)
    }

    fn find(&self, path: &str) -> std::io::Result<FileStat> {
        for (p, st) in &self.entries {
            if p == path {
                return Ok(*st);
            }
        }
        Err(std::io::Error::new(std::io::ErrorKind::NotFound, "no such file"))
    }
}

impl FileSystem for MockFs {
    fn stat(&self, path: &str) -> std::io::Result<FileStat> {
        self.find(path)
    }
    fn lstat(&self, path: &str) -> std::io::Result<FileStat> {
        self.find(path)
    }
    fn access(&self, path: &str, mode: AccessMode) -> bool {
        match self.find(path) {
            Ok(st) => {
                let bits = match mode {
                    AccessMode::Read => 0o444,
                    AccessMode::Write => 0o222,
                    AccessMode::Execute => 0o111,
                };
                st.mode & bits != 0
            }
            Err(_) => false,
        }
    }
    fn is_tty(&self, _fd: i32) -> bool {
        false
    }
    fn effective_uid(&self) -> u32 {
        0
    }
    fn effective_gid(&self) -> u32 {
        0
    }
}

/// Env that counts variable lookups so we can verify short-circuiting.
struct CountingEnv {
    inner: MapEnv,
    lookups: Cell<usize>,
}

impl CountingEnv {
    fn new(inner: MapEnv) -> Self {
        Self {
            inner,
            lookups: Cell::new(0),
        }
    }
}

impl Env for CountingEnv {
    fn var(&self, name: &str) -> Option<&str> {
        self.lookups.set(self.lookups.get() + 1);
        self.inner.var(name)
    }
    fn is_nameref(&self, name: &str) -> bool {
        self.inner.is_nameref(name)
    }
    fn shell_opt(&self, name: &str) -> Option<bool> {
        self.inner.shell_opt(name)
    }
    fn array_element_set(&self, name: &str, subscript: &str) -> bool {
        self.inner.array_element_set(name, subscript)
    }
    fn set_var(&mut self, name: &str, value: String) -> bool {
        self.inner.set_var(name, value)
    }
    fn set_bash_rematch(&mut self, groups: &[Option<String>]) {
        self.inner.set_bash_rematch(groups)
    }
}

fn run(input: &str) -> bool {
    let expr = parse(input).expect("parse");
    let mut env = MapEnv::new().with_var("x", "5").with_var("name", "alice");
    let fs = MockFs::standard();
    Evaluator::new(&mut env, &fs).eval(&expr).expect("eval")
}

#[test]
fn and_true_true() {
    assert!(run("$x -eq 5 && $name == alice"));
}

#[test]
fn and_short_circuits_on_false_lhs() {
    let mut env = CountingEnv::new(MapEnv::new().with_var("y", "2"));
    let expr = parse("$y -gt 100 && $missing -lt 5").unwrap();
    let fs = MockFs::standard();
    let r = Evaluator::new(&mut env, &fs).eval(&expr).expect("eval");
    assert!(!r);
    // Only LHS should have been evaluated. `$y` is one var lookup;
    // `$missing` would be a second if RHS ran.
    assert_eq!(env.lookups.get(), 1, "RHS should not be evaluated");
}

#[test]
fn or_short_circuits_on_true_lhs() {
    let mut env = CountingEnv::new(MapEnv::new().with_var("y", "200"));
    let expr = parse("$y -gt 100 || $missing -lt 5").unwrap();
    let fs = MockFs::standard();
    let r = Evaluator::new(&mut env, &fs).eval(&expr).expect("eval");
    assert!(r);
    assert_eq!(env.lookups.get(), 1, "RHS should not be evaluated");
}

#[test]
fn not_negates() {
    assert!(run("! -e /this/does/not/exist/abc123"));
    assert!(!run("! $x -eq 5"));
}

#[test]
fn precedence_and_binds_tighter() {
    // a || b && c  =>  a || (b && c)
    assert!(run("$x -eq 99 || $x -eq 5 && $name == alice"));
    // If && bound looser this would parse as (a || b) && c, and would be
    // false since $name != bob.
    assert!(!run("$x -eq 99 || $x -eq 5 && $name == bob"));
}

#[test]
fn nested_brackets_compose() {
    assert!(run("[[ $x -eq 5 ]] && [[ $name =~ ^a ]]"));
    assert!(!run("[[ $x -eq 5 && $name == bob ]]"));
}

#[test]
fn implicit_and_explicit_mix() {
    assert!(run("[[ $x -eq 5 ]] && $name == alice"));
    assert!(run("$x -eq 5 && [[ $name == alice ]]"));
}

#[test]
fn chained_or() {
    assert!(run("$x -eq 1 || $x -eq 2 || $x -eq 5"));
    assert!(!run("$x -eq 1 || $x -eq 2 || $x -eq 3"));
}

#[test]
fn chained_and() {
    assert!(run("$x -gt 0 && $x -lt 10 && $name == alice"));
    assert!(!run("$x -gt 0 && $x -lt 10 && $name == bob"));
}

#[test]
fn double_negation() {
    assert!(run("! ! $x -eq 5"));
}

#[test]
fn short_circuit_skips_assignments_on_the_right() {
    let mut env = MapEnv::new();
    let expr = parse("0 -eq 1 && 'n = 5' -eq 5").unwrap();
    let fs = MockFs::standard();
    assert!(!Evaluator::new(&mut env, &fs).eval(&expr).unwrap());
    assert_eq!(env.var("n"), None);
    let expr = parse("0 -eq 0 || 'n = 5' -eq 5").unwrap();
    assert!(Evaluator::new(&mut env, &fs).eval(&expr).unwrap());
    assert_eq!(env.var("n"), None);
}

#[test]
fn bare_word_and_dash_n_agree() {
    for word in ["", "x", "$x", "$missing", "''"] {
        let bare = if word.is_empty() { "''".to_string() } else { word.to_string() };
        assert_eq!(run(&bare), run(&format!("-n {bare}")), "on {bare:?}");
    }
}
