//! Conformance cases: each operator family with the answer bash gives for
//! `[[ … ]]` under the same variables and shell options.

use bash_condexp::{parse, AccessMode, FileKind, Evaluator, FileStat, FileSystem, MapEnv};

/// An in-memory file system: regular files and directories at fixed paths.
struct MockFs {
    entries: Vec<(String, FileStat)>,
}

impl MockFs {
    fn new() -> Self {
        MockFs { entries: Vec::new() }
    }

    fn entry(mut self, path: &str, kind: FileKind, size: u64, ino: u64, mtime: i64) -> Self {
        self.entries.push((
            path.to_string(),
            FileStat {
                kind,
                size,
                mode: 0o644,
                uid: 0,
                gid: 0,
                dev: 1,
                ino,
                mtime: (mtime, 0),
                atime: (mtime, 0),
            },
        ));
        self
    }

    /// The host directories and files the tests refer to.
    fn standard() -> Self {
        MockFs::new()
            .entry("/", FileKind::Directory, 0, 2, 100)
            .entry("/tmp", FileKind::Directory, 0, 3, 100)
            .entry("/tmp/hello.txt", FileKind::Regular, 6, 4, 200)
            .entry("/tmp/empty.txt", FileKind::Regular, 0, 5, 150)
    }

    fn find(&self, path: &str) -> std::io::Result<FileStat> {
        for (p, st) in &self.entries {
            if p == path {
                return Ok(*st);
            }
        }
        Err(std::io::Error::new(std::io::ErrorKind::NotFound, "no such file"))
    }
}

impl FileSystem for MockFs {
    fn stat(&self, path: &str) -> std::io::Result<FileStat> {
        self.find(path)
    }
    fn lstat(&self, path: &str) -> std::io::Result<FileStat> {
        self.find(path)
    }
    fn access(&self, path: &str, mode: AccessMode) -> bool {
        match self.find(path) {
            Ok(st) => {
                let bits = match mode {
                    AccessMode::Read => 0o444,
                    AccessMode::Write => 0o222,
                    AccessMode::Execute => 0o111,
                };
                st.mode & bits != 0
            }
            Err(_) => false,
        }
    }
    fn is_tty(&self, _fd: i32) -> bool {
        false
    }
    fn effective_uid(&self) -> u32 {
        0
    }
    fn effective_gid(&self) -> u32 {
        0
    }
}

fn vars_to_map(pairs: &[(&str, &str)]) -> MapEnv {
    let mut e = MapEnv::new();
    for (k, v) in pairs {
        e = e.with_var(k, v);
    }
    e
}

fn ours(expr: &str, env: &mut MapEnv) -> bool {
    let parsed = parse(expr).unwrap_or_else(|e| panic!("parse {expr:?}: {e:?}"));
    let fs = MockFs::standard();
    Evaluator::new(env, &fs)
        .eval(&parsed)
        .unwrap_or_else(|e| panic!("eval {expr:?}: {e:?}"))
}

fn check(expr: &str, vars: &[(&str, &str)], bash: bool) {
    check_with_options(expr, vars, &[], bash);
}

fn check_with_options(expr: &str, vars: &[(&str, &str)], options: &[(&str, bool)], bash: bool) {
    let mut env = vars_to_map(vars);
    for (name, enabled) in options {
        env = env.with_option(name, *enabled);
    }
    let our_result = ours(expr, &mut env);
    assert_eq!(
        our_result, bash,
        "mismatch on `{expr}` with vars {vars:?}: ours={our_result}, bash={bash}"
    );
}

#[test]
fn string_ops_match_bash() {
    check("-z $empty", &[("empty", "")], true);
    check("-n $name", &[("name", "alice")], true);
    check("$name == alice", &[("name", "alice")], true);
    check("$name != bob", &[("name", "alice")], true);
    check("apple < banana", &[], true);
    check("banana > apple", &[], true);
}

#[test]
fn arith_ops_match_bash() {
    check("$x -eq 5", &[("x", "5")], true);
    check("$x -ne 5", &[("x", "4")], true);
    check("$x -lt 10", &[("x", "5")], true);
    check("$x -le 5", &[("x", "5")], true);
    check("$x -gt 4", &[("x", "5")], true);
    check("$x -ge 5", &[("x", "5")], true);
    check("'2**3**2' -eq 512", &[], true);
    check("'010 + 0x10 + 2#10 + 64#_' -eq 89", &[], true);
    check("recursive -eq 3", &[("recursive", "x+1"), ("x", "2")], true);
}

#[test]
fn glob_match_match_bash() {
    check("$f == *.txt", &[("f", "report.txt")], true);
    check("$f == *.txt", &[("f", "report.md")], false);
    check("$f == report.[!a-z]*", &[("f", "report.1234")], true);
    check("$f == [[:digit:]][[:digit:]]", &[("f", "42")], true);
    check("$f == +([[:digit:]])", &[("f", "42")], true);
}

#[test]
fn parameter_transformations_match_bash() {
    let vars = &[("path", "a/b/c"), ("value", "abcabc")];
    check("${path#*/} == b/c", vars, true);
    check("${path##*/} == c", vars, true);
    check("${path%/*} == a/b", vars, true);
    check("${path%%/*} == a", vars, true);
    check("${value/a/X} == Xbcabc", vars, true);
    check("${value//a/X} == XbcXbc", vars, true);
    check("${value/#a/X} == Xbcabc", vars, true);
    check("${value/%c/X} == abcabX", vars, true);
    check("${value//?/[&]} == '[a][b][c][a][b][c]'", vars, true);
    check(r"${value//?/\&} == '&&&&&&'", vars, true);
}

#[test]
fn parameter_length_substring_case_and_defaults_match_bash() {
    let vars = &[
        ("value", "abcdef"),
        ("offset", "1"),
        ("letters", "abCab"),
        ("empty", ""),
        ("set", "value"),
    ];
    check("${#value} -eq 6", vars, true);
    check("${value:2:3} == cde", vars, true);
    check("${value: -2} == ef", vars, true);
    check("${value:offset+1:2} == cd", vars, true);
    check("${letters^} == AbCab", vars, true);
    check("${letters^^@(a|b)} == ABCAB", vars, true);
    check("${letters,,C} == abcab", vars, true);
    check("${missing-fallback} == fallback", vars, true);
    check("${empty-fallback} == ''", vars, true);
    check("${empty:-fallback} == fallback", vars, true);
    check("${set+alternate} == alternate", vars, true);
    check("${empty:+alternate} == ''", vars, true);
    check("foo != ${missing-'*'}", vars, true);
}

#[test]
fn parameter_pattern_options_match_bash() {
    let vars = &[("value", "aaab"), ("upper", "Aaa")];
    check("${value##+(a)} == aaab", vars, true);
    check_with_options("${value##+(a)} == b", vars, &[("extglob", true)], true);
    check_with_options("${upper/a/X} == Xaa", vars, &[("nocasematch", true)], true);
    check_with_options("${upper#a*} == Aaa", vars, &[("nocasematch", true)], true);
    check_with_options(
        "${value/a/[&]} == '[&]aab'",
        vars,
        &[("patsub_replacement", false)],
        true,
    );
}

#[test]
fn regex_match_match_bash() {
    check("$line =~ ^[[:space:]]*(a)?b", &[("line", "  ab cd")], true);
    check("$v =~ ^([a-z]+)-([0-9]+)$", &[("v", "user-42")], true);
    check("$line =~ ^foo$", &[("line", "foo")], true);
    check("$line =~ ^foo$", &[("line", "foobar")], false);
}

#[test]
fn combinators_match_bash() {
    check("$x -gt 0 && $x -lt 10", &[("x", "5")], true);
    check("$x -lt 0 || $x -gt 100", &[("x", "200")], true);
    check("! $x -eq 5", &[("x", "5")], false);
    check(
        "$x -gt 0 && $x -lt 10 && $name == alice",
        &[("x", "5"), ("name", "alice")],
        true,
    );
}

#[test]
fn file_tests_match_bash() {
    // A file holding "hello\n" at `/tmp/hello.txt` in the mock file system.
    let path = "/tmp/hello.txt".to_string();
    check("-e $p", &[("p", &path)], true);
    check("-f $p", &[("p", &path)], true);
    check("-s $p", &[("p", &path)], true);
    check("-d $p", &[("p", &path)], false);
    check("-e $p", &[("p", "/no/such/path/abc123")], false);
    check("-e $p", &[("p", "")], false);
    check("-r $p", &[("p", "")], false);
    check("$p -nt $empty", &[("p", &path), ("empty", "")], true);
    check("$empty -ot $p", &[("p", &path), ("empty", "")], true);
}

#[test]
fn nested_brackets_match_bash() {
    check(
        "[[ $x -eq 5 ]] && [[ $name =~ ^a ]]",
        &[("x", "5"), ("name", "alice")],
        true,
    );
}
