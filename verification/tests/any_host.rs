//! Evaluation under hosts that keep no model of their own: plain-text
//! primaries, combinators, the `=~` write-back and refused assignments.

use bash_condexp::{parse, AccessMode, Env, EvalError, Evaluator, FileStat, FileSystem};

/// A host that records what it is handed and answers every question with
/// "unset" or "off"; it accepts assignments only when told to.
struct RecordingEnv {
    accept: bool,
    assigned: Vec<(String, String)>,
    rematches: Vec<Vec<Option<String>>>,
    questions: usize,
}

impl RecordingEnv {
    fn new(accept: bool) -> Self {
        RecordingEnv { accept, assigned: Vec::new(), rematches: Vec::new(), questions: 0 }
    }
}

impl Env for RecordingEnv {
    fn var(&self, _name: &str) -> Option<&str> {
        None
    }
    fn is_nameref(&self, _name: &str) -> bool {
        false
    }
    fn shell_opt(&self, _name: &str) -> Option<bool> {
        None
    }
    fn array_element_set(&self, _name: &str, _subscript: &str) -> bool {
        false
    }
    fn set_var(&mut self, name: &str, value: String) -> bool {
        self.questions += 1;
        if self.accept {
            self.assigned.push((name.to_string(), value));
        }
        self.accept
    }
    fn set_bash_rematch(&mut self, groups: &[Option<String>]) {
        self.rematches.push(groups.to_vec());
    }
}

/// A file system that must not be asked anything.
struct UntouchableFs;

impl FileSystem for UntouchableFs {
    fn stat(&self, path: &str) -> Result<FileStat, std::io::Error> {
        panic!("stat asked for {path:?}")
    }
    fn lstat(&self, path: &str) -> Result<FileStat, std::io::Error> {
        panic!("lstat asked for {path:?}")
    }
    fn access(&self, path: &str, _mode: AccessMode) -> bool {
        panic!("access asked for {path:?}")
    }
    fn is_tty(&self, fd: i32) -> bool {
        panic!("is_tty asked for {fd}")
    }
    fn effective_uid(&self) -> u32 {
        panic!("effective uid asked")
    }
    fn effective_gid(&self) -> u32 {
        panic!("effective gid asked")
    }
}

/// A file system where every descriptor is a terminal and nothing exists.
struct TtyFs;

impl FileSystem for TtyFs {
    fn stat(&self, _path: &str) -> Result<FileStat, std::io::Error> {
        Err(std::io::Error::new(std::io::ErrorKind::NotFound, "none"))
    }
    fn lstat(&self, _path: &str) -> Result<FileStat, std::io::Error> {
        Err(std::io::Error::new(std::io::ErrorKind::NotFound, "none"))
    }
    fn access(&self, _path: &str, _mode: AccessMode) -> bool {
        false
    }
    fn is_tty(&self, _fd: i32) -> bool {
        true
    }
    fn effective_uid(&self) -> u32 {
        0
    }
    fn effective_gid(&self) -> u32 {
        0
    }
}

fn run(source: &str, env: &mut RecordingEnv) -> Result<bool, EvalError> {
    let expr = parse(source).unwrap();
    Evaluator::new(env, &UntouchableFs).eval(&expr)
}

#[test]
fn plain_string_tests_under_any_host() {
    let mut env = RecordingEnv::new(false);
    assert!(run("-n foo", &mut env).unwrap());
    assert!(run("-z ''", &mut env).unwrap());
    assert!(run("foo == foo", &mut env).unwrap());
    assert!(!run("foo != foo", &mut env).unwrap());
    assert!(run("apple < banana", &mut env).unwrap());
    assert!(run("banana > apple", &mut env).unwrap());
    assert!(!run("banana < apple", &mut env).unwrap());
    assert_eq!(env.questions, 0);
    assert!(env.rematches.is_empty());
}

#[test]
fn empty_file_operand_is_false_without_asking_the_file_system() {
    let mut env = RecordingEnv::new(false);
    for op in ["-e", "-f", "-d", "-b", "-c", "-h", "-p", "-S", "-r", "-w", "-x", "-s", "-u", "-g", "-k", "-O", "-G", "-N"] {
        assert!(!run(&format!("{op} ''"), &mut env).unwrap(), "{op}");
    }
    assert!(!run("'' -ef ''", &mut env).unwrap());
    assert!(!run("'' -nt ''", &mut env).unwrap());
    assert!(!run("'' -ot ''", &mut env).unwrap());
}

#[test]
fn tty_test_takes_the_answer_or_rejects_the_descriptor() {
    let mut env = RecordingEnv::new(false);
    let yes = parse("-t 1").unwrap();
    assert!(Evaluator::new(&mut env, &TtyFs).eval(&yes).unwrap());
    let bad = parse("-t one").unwrap();
    assert!(matches!(
        Evaluator::new(&mut env, &TtyFs).eval(&bad),
        Err(EvalError::InvalidFd(fd)) if fd == "one"
    ));
}

#[test]
fn combinators_under_any_host() {
    let mut env = RecordingEnv::new(false);
    assert!(!run("-z foo && -e /never/asked", &mut env).unwrap());
    assert!(run("-n foo || -e /never/asked", &mut env).unwrap());
    assert!(!run("! -n foo", &mut env).unwrap());
    assert!(run("! ! -n foo", &mut env).unwrap());
}

#[test]
fn regex_match_hands_the_groups_to_the_host() {
    let mut env = RecordingEnv::new(false);
    assert!(run("user-42 =~ ([a-z]+)-([0-9]+)(x)?", &mut env).unwrap());
    assert_eq!(
        env.rematches,
        vec![vec![Some("user-42".to_string()), Some("user".to_string()), Some("42".to_string()), None]]
    );
    assert!(!run("user =~ [0-9]", &mut env).unwrap());
    assert_eq!(env.rematches.len(), 1);
}

#[test]
fn refused_assignment_fails_under_any_host() {
    let mut env = RecordingEnv::new(false);
    assert!(matches!(
        run("'n=5' -eq 5", &mut env),
        Err(EvalError::ArithmeticAssignmentUnsupported(name)) if name == "n"
    ));
    assert_eq!(env.questions, 1);
    let mut accepting = RecordingEnv::new(true);
    assert!(run("'n=5' -eq 5", &mut accepting).unwrap());
    assert_eq!(accepting.assigned, vec![("n".to_string(), "5".to_string())]);
}

#[test]
fn blank_and_malformed_arithmetic_under_any_host() {
    let mut env = RecordingEnv::new(false);
    assert_eq!(bash_condexp::arith::eval("   ", &mut env).unwrap(), 0);
    assert_eq!(bash_condexp::arith::eval("1+2*3", &mut env).unwrap(), 7);
    assert!(matches!(
        bash_condexp::arith::eval("0x", &mut env),
        Err(EvalError::InvalidArith(text)) if text == "0x"
    ));
    assert_eq!(env.questions, 0);
}

#[test]
fn arithmetic_on_numbers_under_any_host() {
    let mut env = RecordingEnv::new(false);
    assert!(run("3 -lt 5", &mut env).unwrap());
    assert!(run("'2+2' -eq 4", &mut env).unwrap());
    assert!(!run("'7 % 3' -ge 2", &mut env).unwrap());
    assert_eq!(env.questions, 0);
}

#[test]
fn write_back_follows_the_reached_regex_primaries() {
    let mut env = RecordingEnv::new(false);
    assert!(run("ab =~ (a)(b) && cd =~ c(d)", &mut env).unwrap());
    assert_eq!(
        env.rematches,
        vec![
            vec![Some("ab".to_string()), Some("a".to_string()), Some("b".to_string())],
            vec![Some("cd".to_string()), Some("d".to_string())],
        ]
    );
    let mut skipped = RecordingEnv::new(false);
    assert!(run("ab =~ a || cd =~ c", &mut skipped).unwrap());
    assert_eq!(skipped.rematches, vec![vec![Some("a".to_string())]]);
}
