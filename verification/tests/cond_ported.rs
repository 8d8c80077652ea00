//! Cases from bash's own conditional-expression test suite, each with the
//! answer bash gives.

use bash_condexp::{parse, AccessMode, FileKind, Evaluator, FileStat, FileSystem, MapEnv};

/// An in-memory file system: regular files and directories at fixed paths.
struct MockFs {
    entries: Vec<(String, FileStat)>,
}

impl MockFs {
    fn new() -> Self {
        MockFs { entries: Vec::new() }
    }

    fn entry(mut self, path: &str, kind: FileKind, size: u64, ino: u64, mtime: i64) -> Self {
        self.entries.push((
            path.to_string(),
            FileStat {
                kind,
                size,
                mode: 0o644,
                uid: 0,
                gid: 0,
                dev: 1,
                ino,
                mtime: (mtime, 0),
                atime: (mtime, 0),
            },
        ));
        self
    }

    /// The host directories and files the tests refer to.
    fn standard() -> Self {
        MockFs::new()
            .entry("/", FileKind::Directory, 0, 2, 100)
            .entry("/tmp", FileKind::Directory, 0, 3, 100)
            .entry("/tmp/hello.txt", FileKind::Regular, 6, 4, 200)
            .entry("/tmp/empty.txt", FileKind::Regular, 0, 5, 150)
    }

    fn find(&self, path: &str) -> std::io::Result<FileStat> {
        for (p, st) in &self.entries {
            if p == path {
                return Ok(*st);
            }
        }
        Err(std::io::Error::new(std::io::ErrorKind::NotFound, "no such file"))
    }
}

impl FileSystem for MockFs {
    fn stat(&self, path: &str) -> std::io::Result<FileStat> {
        self.find(path)
    }
    fn lstat(&self, path: &str) -> std::io::Result<FileStat> {
        self.find(path)
    }
    fn access(&self, path: &str, mode: AccessMode) -> bool {
        match self.find(path) {
            Ok(st) => {
                let bits = match mode {
                    AccessMode::Read => 0o444,
                    AccessMode::Write => 0o222,
                    AccessMode::Execute => 0o111,
                };
                st.mode & bits != 0
            }
            Err(_) => false,
        }
    }
    fn is_tty(&self, _fd: i32) -> bool {
        false
    }
    fn effective_uid(&self) -> u32 {
        0
    }
    fn effective_gid(&self) -> u32 {
        0
    }
}

fn vars_to_map(pairs: &[(&str, &str)]) -> MapEnv {
    let mut e = MapEnv::new();
    for (k, v) in pairs {
        e = e.with_var(k, v);
    }
    e
}

fn ours(expr: &str, env: &mut MapEnv) -> bool {
    let parsed = parse(expr).unwrap_or_else(|e| panic!("parse {expr:?}: {e:?}"));
    let fs = MockFs::standard();
    Evaluator::new(env, &fs)
        .eval(&parsed)
        .unwrap_or_else(|e| panic!("eval {expr:?}: {e:?}"))
}

/// Evaluates `expr` under `vars` and compares with bash's answer.
fn check(expr: &str, vars: &[(&str, &str)], bash: bool) {
    let mut env = vars_to_map(vars);
    let ours = ours(expr, &mut env);
    assert_eq!(ours, bash, "mismatch on `{expr}` with vars {vars:?}: ours={ours}, bash={bash}");
}

#[test]
fn cond_bare_word_means_nonempty() {
    // [[ x ]] ≡ [[ -n x ]]
    check("x", &[], true);
    check("-n x", &[], true);
    check("a", &[], true);
    check("-n a", &[], true);
}

#[test]
fn cond_bang_negation() {
    // [[ ! x ]] is false; ! toggles, doesn't just set a flag
    check("! x", &[], false);
    check("! 1 -eq 1", &[], false);
    check("! ! 1 -eq 1", &[], true);
    check("! ! ! 1 -eq 1", &[], false);
    check("! ! ! ! 1 -eq 1", &[], true);
}

#[test]
fn cond_bang_binds_to_term_not_expression() {
    // [[ ! x || x ]] -> (!x) || x -> false || true -> true
    check("! x || x", &[], true);
}

#[test]
fn cond_unset_var_is_empty_string() {
    check("-n $UNSET", &[], false);
    check("-z $UNSET", &[], true);
}

#[test]
fn cond_pattern_match_glob() {
    check("$TDIR == /usr/homes/*", &[("TDIR", "/usr/homes/chet")], true);
    // Quoted star is literal — should not match the path
    check(r"$TDIR == /usr/homes/\*", &[("TDIR", "/usr/homes/chet")], false);
    check("$TDIR == '/usr/homes/*'", &[("TDIR", "/usr/homes/chet")], false);
}

#[test]
fn cond_short_circuit_and_or() {
    // First part of && false → second not evaluated
    check("-n $UNSET && $UNSET == foo", &[], false);
    // Both empty → false
    check("-z $UNSET && $UNSET == foo", &[], false);
    // First part of || true → second not evaluated
    check("-z $UNSET || -d /tmp", &[], true);
}

#[test]
fn cond_and_higher_precedence_than_or() {
    // (-n $TDIR && -n $UNSET) || ($TDIR -ef /tmp)
    check("-n $TDIR && -n $UNSET || $TDIR -ef /tmp", &[("TDIR", "/tmp")], true);
    // -n $TDIR || (-n $UNSET && /nonexistent -ef xyz)
    check("-n $TDIR || -n $UNSET && /nonexistent -ef xyz", &[("TDIR", "/tmp")], true);
}

#[test]
fn cond_arith_with_unset_and_set() {
    // unset IVAR; [[ 7 -gt $IVAR ]] -> true (unset → 0)
    check("7 -gt $IVAR", &[], true);
    // [[ $IVAR -gt 7 ]] with IVAR unset -> false
    check("$IVAR -gt 7", &[], false);
    // IVAR=4; [[ $IVAR -gt 7 ]] -> false
    check("$IVAR -gt 7", &[("IVAR", "4")], false);
}

#[test]
fn cond_arith_quoted_operand() {
    // [[ "$IVAR" -eq "7" ]] with IVAR=4 -> false
    check(r#""$IVAR" -eq "7""#, &[("IVAR", "4")], false);
}

#[test]
fn cond_pattern_filename_unset_vs_set() {
    check("$filename == *.c", &[], false);
    check("$filename == *.c", &[("filename", "patmatch.c")], true);
}

#[test]
fn cond_null_pattern_only_matches_null_string() {
    check("$STR = $PAT", &[("STR", "file.c"), ("PAT", "")], false);
    check("$STR = $PAT", &[("STR", ""), ("PAT", "")], true);
}

#[test]
fn cond_regex_match_with_groups() {
    check(
        r"jbig2dec-0.9-i586-001.tgz =~ ([^-]+)-([^-]+)-([^-]+)-0*([1-9][0-9]*)\.tgz",
        &[],
        true,
    );
}

#[test]
fn cond_regex_quoted_metacharacters_are_literal() {
    // The backslash-escaped parens are literal, so there is no match.
    check(
        r"jbig2dec-0.9-i586-001.tgz =~ \([^-]+\)-\([^-]+\)-\([^-]+\)-0*\([1-9][0-9]*\)\.tgz",
        &[],
        false,
    );
}

#[test]
fn cond_regex_quoted_string_substring() {
    let vars = &[(
        "LDD_BASH",
        "libreadline.so.5 => /lib/libreadline.so.5\nlibc.so.6 => /lib/libc.so.6",
    )];
    check(r#""$LDD_BASH" =~ "libc""#, vars, true);
    check(r#""$LDD_BASH" =~ libc"#, vars, true);
}

#[test]
fn cond_regexp1_var_with_quoted_class() {
    check(r"$VAR =~ '[[:alpha:]]'", &[("VAR", "[[:alpha:]]")], true);
    check(r"a =~ '[[:alpha:]]'", &[], false);
    check("a =~ [[:alpha:]]", &[], true);
    check("a =~ $VAR", &[("VAR", "[[:alpha:]]")], true);
    check(r#"a =~ "$VAR""#, &[("VAR", "[[:alpha:]]")], false);
}

#[test]
fn cond_regexp1_aab_optional_group() {
    check("$line =~ [[:space:]]*(a)?b", &[("line", "aab")], true);
}

#[test]
fn cond_regexp1_alphabet_eq_and_match() {
    let v = &[("V", "alphabet")];
    check("$V == alphabet", v, true);
    check(r#"$V == "alphabet""#, v, true);
    check("$V == 'alphabet'", v, true);
    check("$V =~ alphabet", v, true);
    check(r#"$V =~ "alphabet""#, v, true);
    check("$V =~ 'alphabet'", v, true);
}

#[test]
fn cond_regexp1_unquoted_dot_vs_quoted_dot() {
    let v = &[("pattern", "xxx.yyy"), ("string", "xxxAyyy")];
    check("$string =~ $pattern", v, true);
    check(r#"$string =~ "$pattern""#, v, false);
}

#[test]
fn cond_regexp1_substring_anchors() {
    check(r#""helloworld" =~ llo"#, &[], true);
    check(r#""helloworld" =~ world"#, &[], true);
    check(r#""helloworld" =~ world$"#, &[], true);
    check(r#""helloworld" =~ oworld$"#, &[], true);
}

#[test]
fn cond_regexp3_var_holding_backslash_dash() {
    // v='a\-b'; [[ a-b =~ ${v} ]] -> true: `\-` is a literal '-'.
    check("a-b =~ $v", &[("v", r"a\-b")], true);
}
