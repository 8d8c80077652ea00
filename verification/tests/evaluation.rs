//! Evaluator tests: strings, arithmetic, files, variables, options, globs
//! and regular expressions.

use bash_condexp::arith::eval as arith_eval;
use bash_condexp::{
    parse, parse_with_options, AccessMode, FileKind, Env, EvalError, Evaluator, FileStat, FileSystem,
    MapEnv, ParseOptions,
};
use bash_condexp::fs_abs::kind_from_mode;

/// An in-memory file system: regular files and directories at fixed paths.
struct MockFs {
    entries: Vec<(String, FileStat)>,
}

impl MockFs {
    fn new() -> Self {
        MockFs { entries: Vec::new() }
    }

    fn entry(mut self, path: &str, kind: FileKind, size: u64, ino: u64, mtime: i64) -> Self {
        self.entries.push((
            path.to_string(),
            FileStat {
                kind,
                size,
                mode: 0o644,
                uid: 0,
                gid: 0,
                dev: 1,
                ino,
                mtime: (mtime, 0),
                atime: (mtime, 0),
            },
        ));
        self
    }

    /// The host directories and files the tests refer to.
    fn standard() -> Self {
        MockFs::new()
            .entry("/", FileKind::Directory, 0, 2, 100)
            .entry("/tmp", FileKind::Directory, 0, 3, 100)
            .entry("/tmp/hello.txt", FileKind::Regular, 6, 4, 200)
            .entry("/tmp/empty.txt", FileKind::Regular, 0, 5, 150)
    }

    fn find(&self, path: &str) -> std::io::Result<FileStat> {
        for (p, st) in &self.entries {
            if p == path {
                return Ok(*st);
            }
        }
        Err(std::io::Error::new(std::io::ErrorKind::NotFound, "no such file"))
    }
}

impl FileSystem for MockFs {
    fn stat(&self, path: &str) -> std::io::Result<FileStat> {
        self.find(path)
    }
    fn lstat(&self, path: &str) -> std::io::Result<FileStat> {
        self.find(path)
    }
    fn access(&self, path: &str, mode: AccessMode) -> bool {
        match self.find(path) {
            Ok(st) => {
                let bits = match mode {
                    AccessMode::Read => 0o444,
                    AccessMode::Write => 0o222,
                    AccessMode::Execute => 0o111,
                };
                st.mode & bits != 0
            }
            Err(_) => false,
        }
    }
    fn is_tty(&self, _fd: i32) -> bool {
        false
    }
    fn effective_uid(&self) -> u32 {
        0
    }
    fn effective_gid(&self) -> u32 {
        0
    }
}

fn run(input: &str, env: &mut MapEnv) -> bool {
    let expr = parse(input).expect("parse");
    let fs = MockFs::standard();
    Evaluator::new(env, &fs).eval(&expr).expect("eval")
}

fn run_default(input: &str) -> bool {
    run(input, &mut MapEnv::new())
}

fn run_with_punctuation_vars(input: &str, env: &mut MapEnv) -> bool {
    let options = ParseOptions::default().punctuation_variables(true);
    let expr = parse_with_options(input, options).expect("parse");
    let fs = MockFs::standard();
    Evaluator::new(env, &fs).eval(&expr).expect("eval")
}

fn value(input: &str, env: &mut MapEnv) -> i64 {
    arith_eval(input, env).unwrap()
}

#[test]
fn precedence_and_bases() {
    let mut env = MapEnv::new();
    assert_eq!(value("2 + 3 * 4", &mut env), 14);
    assert_eq!(value("2**3**2", &mut env), 512);
    assert_eq!(value("-2**2", &mut env), 4);
    assert_eq!(value("010 + 0x10 + 2#10 + 64#_", &mut env), 89);
}

#[test]
fn variables_recurse_and_mutate() {
    let mut env = MapEnv::new().with_var("x", "y+1").with_var("y", "2");
    assert_eq!(value("x", &mut env), 3);
    assert_eq!(value("x=7, x++", &mut env), 7);
    assert_eq!(env.var("x"), Some("8"));
}

#[test]
fn lazy_operators_skip_errors_and_assignments() {
    let mut env = MapEnv::new();
    assert_eq!(value("1 || 1/0", &mut env), 1);
    assert_eq!(value("0 ? x=1 : 4", &mut env), 4);
    assert_eq!(env.var("x"), None);
}

#[test]
fn wrapping_and_errors() {
    let mut env = MapEnv::new();
    assert_eq!(value("9223372036854775807+1", &mut env), i64::MIN);
    assert!(matches!(arith_eval("1/0", &mut env), Err(EvalError::DivisionByZero)));
    assert!(matches!(arith_eval("2**-1", &mut env), Err(EvalError::NegativeExponent)));
    assert!(matches!(arith_eval("0x", &mut env), Err(EvalError::InvalidArith(_))));
    assert!(matches!(arith_eval("(x)=2", &mut env), Err(EvalError::InvalidArith(_))));
}

#[test]
fn string_nonempty_default() {
    let mut env = MapEnv::new().with_var("x", "hi");
    assert!(run("$x", &mut env));
    assert!(run("-n $x", &mut env));
    assert!(!run("-z $x", &mut env));
}

#[test]
fn string_empty_for_unset() {
    let mut env = MapEnv::new();
    assert!(!run("$x", &mut env));
    assert!(run("-z $x", &mut env));
}

#[test]
fn custom_braced_vars_expand() {
    let mut env = MapEnv::new()
        .with_var("", "path")
        .with_var("/", "basename")
        .with_var("//", "parent")
        .with_var(".", "path-no-ext")
        .with_var("/.", "basename-no-ext");
    assert!(run_with_punctuation_vars("${} == path", &mut env));
    assert!(run_with_punctuation_vars("${/} == basename", &mut env));
    assert!(run_with_punctuation_vars("${//} == parent", &mut env));
    assert!(run_with_punctuation_vars("${.} == path-no-ext", &mut env));
    assert!(run_with_punctuation_vars("${/.} == basename-no-ext", &mut env));
}

#[test]
fn lex_compare_lt_gt() {
    assert!(run_default("apple < banana"));
    assert!(!run_default("banana < apple"));
    assert!(run_default("banana > apple"));
}

#[test]
fn arith_lt_le_gt_ge_eq_ne() {
    let mut env = MapEnv::new().with_var("x", "5");
    assert!(run("$x -lt 10", &mut env));
    assert!(run("$x -le 5", &mut env));
    assert!(run("$x -gt 4", &mut env));
    assert!(run("$x -ge 5", &mut env));
    assert!(run("$x -eq 5", &mut env));
    assert!(run("$x -ne 6", &mut env));
}

#[test]
fn arith_empty_is_zero() {
    let mut env = MapEnv::new();
    assert!(run("$x -eq 0", &mut env));
}

#[test]
fn arith_bare_name_lookup() {
    // `[[ x -lt 10 ]]` — x is a variable name in arithmetic context.
    let mut env = MapEnv::new().with_var("x", "3");
    assert!(run("x -lt 10", &mut env));
}

#[test]
fn file_test_regular_and_dir() {
    // A regular file at `/tmp/hello.txt` in the mock file system.
    let mut env = MapEnv::new().with_var("p", "/tmp/hello.txt");
    assert!(run("-f $p", &mut env));
    assert!(run("-e $p", &mut env));
    assert!(!run("-d $p", &mut env));
}

#[test]
fn file_test_nonexistent() {
    let mut env = MapEnv::new();
    assert!(!run("-e /this/path/does/not/exist/abc123", &mut env));
    assert!(!run("-f /this/path/does/not/exist/abc123", &mut env));
}

#[test]
fn file_test_empty_path() {
    let mut env = MapEnv::new();
    assert!(!run("-e ''", &mut env));
    assert!(!run("-f ''", &mut env));
    assert!(!run("-d ''", &mut env));
    assert!(!run("-r ''", &mut env));
    assert!(!run("-w ''", &mut env));
    assert!(!run("-x ''", &mut env));
}

#[test]
fn file_comparison_empty_path() {
    let mut env = MapEnv::new().with_var("p", "/tmp/hello.txt");
    assert!(!run("$p -ef ''", &mut env));
    assert!(run("$p -nt ''", &mut env));
    assert!(run("'' -ot $p", &mut env));
}

#[test]
fn file_size_nonempty() {
    // `/tmp/hello.txt` holds "hello\n"; `/tmp/empty.txt` is empty.
    let mut env = MapEnv::new().with_var("p", "/tmp/hello.txt");
    assert!(run("-s $p", &mut env));
    let mut env = MapEnv::new().with_var("p", "/tmp/empty.txt");
    assert!(!run("-s $p", &mut env));
}

#[test]
fn v_unary_var_set() {
    let mut env = MapEnv::new().with_var("HOME", "/x");
    assert!(run("-v HOME", &mut env));
    assert!(!run("-v NOPE", &mut env));
}

#[test]
fn shell_opt() {
    let mut env = MapEnv::new().with_option("nocasematch", true);
    assert!(run("-o nocasematch", &mut env));
    assert!(!run("-o noclobber", &mut env));
}

#[test]
fn glob_match() {
    let mut env = MapEnv::new().with_var("f", "report.txt");
    assert!(run("$f == *.txt", &mut env));
    assert!(!run("$f == *.md", &mut env));
    assert!(run("$f != *.md", &mut env));
}

#[test]
fn glob_quoted_metas_are_literal() {
    // Quoted "*.txt" pattern should match only the literal "*.txt".
    let mut env = MapEnv::new();
    assert!(run(r#"'*.txt' == "*.txt""#, &mut env));
    assert!(!run(r#"foo.txt == "*.txt""#, &mut env));
}

#[test]
fn glob_nocasematch() {
    let mut env = MapEnv::new()
        .with_var("f", "Report.TXT")
        .with_option("nocasematch", true);
    assert!(run("$f == *.txt", &mut env));
}

#[test]
fn regex_basic() {
    let mut env = MapEnv::new().with_var("line", "  ab cd");
    assert!(run(r"$line =~ ^[[:space:]]*(a)?b", &mut env));
}

#[test]
fn regex_populates_rematch() {
    let mut env = MapEnv::new().with_var("v", "user-42");
    let r = run(r"$v =~ ^([a-z]+)-([0-9]+)$", &mut env);
    assert!(r);
    assert_eq!(env.last_rematch.len(), 3);
    assert_eq!(env.last_rematch[0].as_deref(), Some("user-42"));
    assert_eq!(env.last_rematch[1].as_deref(), Some("user"));
    assert_eq!(env.last_rematch[2].as_deref(), Some("42"));
}

#[test]
fn failed_regex_leaves_rematch_alone() {
    let mut env = MapEnv::new().with_var("v", "user");
    assert!(!run(r"$v =~ ^[0-9]+$", &mut env));
    assert!(env.last_rematch.is_empty());
}

#[test]
fn bad_regex_is_an_error() {
    let expr = parse("a =~ '('x").expect("parse");
    let mut env = MapEnv::new();
    let expr2 = parse("a =~ (").expect("parse");
    let fs = MockFs::standard();
    assert!(Evaluator::new(&mut env, &fs).eval(&expr).is_ok());
    assert!(matches!(
        Evaluator::new(&mut env, &fs).eval(&expr2),
        Err(EvalError::BadRegex(_))
    ));
}

#[test]
fn invalid_fd_is_an_error() {
    let expr = parse("-t abc").expect("parse");
    let mut env = MapEnv::new();
    let fs = MockFs::standard();
    match Evaluator::new(&mut env, &fs).eval(&expr) {
        Err(EvalError::InvalidFd(s)) => assert_eq!(s, "abc"),
        other => panic!("unexpected {other:?}"),
    }
}

#[test]
fn arithmetic_errors_surface_from_comparisons() {
    let expr = parse("'1/0' -eq 1").expect("parse");
    let mut env = MapEnv::new();
    let fs = MockFs::standard();
    assert!(matches!(
        Evaluator::new(&mut env, &fs).eval(&expr),
        Err(EvalError::DivisionByZero)
    ));
}

#[test]
fn arithmetic_assignment_writes_through_set_var() {
    let mut env = MapEnv::new().with_var("n", "4");
    assert!(run("'n += 3' -eq 7", &mut env));
    assert_eq!(env.var("n"), Some("7"));
}

#[test]
fn file_comparisons_by_time_and_identity() {
    let mut env = MapEnv::new()
        .with_var("new", "/tmp/hello.txt")
        .with_var("old", "/tmp/empty.txt");
    assert!(run("$new -nt $old", &mut env));
    assert!(run("$old -ot $new", &mut env));
    assert!(!run("$old -nt $new", &mut env));
    assert!(run("$new -ef /tmp/hello.txt", &mut env));
    assert!(!run("$new -ef $old", &mut env));
    assert!(run("-d /tmp && -r $new && ! -x $new", &mut env));
}

#[test]
fn kind_from_mode_decodes_file_types() {
    assert_eq!(kind_from_mode(0o100644), bash_condexp::FileKind::Regular);
    assert_eq!(kind_from_mode(0o040755), bash_condexp::FileKind::Directory);
    assert_eq!(kind_from_mode(0o120777), bash_condexp::FileKind::Symlink);
    assert_eq!(kind_from_mode(0o010600), bash_condexp::FileKind::NamedPipe);
    assert_eq!(kind_from_mode(0o000644), bash_condexp::FileKind::Other);
}

#[test]
fn eval_error_converts_from_its_causes() {
    let e: EvalError = bash_condexp::PatternError::UnterminatedExtglob.into();
    assert!(matches!(e, EvalError::BadPattern(bash_condexp::PatternError::UnterminatedExtglob)));
    let e: EvalError = std::io::Error::new(std::io::ErrorKind::NotFound, "gone").into();
    assert!(matches!(e, EvalError::Io(_)));
}

#[test]
fn chained_evaluations_see_earlier_effects() {
    let mut env = MapEnv::new().with_var("x", "1");
    assert!(run("'x += 1' -eq 2", &mut env));
    assert!(run("'x *= 5' -eq 10", &mut env));
    assert_eq!(env.var("x"), Some("10"));
    assert!(run(r"$x =~ ^(1)(0)$", &mut env));
    assert_eq!(env.last_rematch[2].as_deref(), Some("0"));
}

#[test]
fn map_env_clones_and_later_settings_win() {
    let env = MapEnv::new().with_var("a", "1").with_var("a", "2").with_option("extglob", true);
    let copy = env.clone();
    assert_eq!(copy.var("a"), Some("2"));
    assert_eq!(copy.shell_opt("extglob"), Some(true));
    assert_eq!(copy.shell_opt("nocasematch"), None);
    assert!(format!("{env:?}").contains("extglob"));
}
