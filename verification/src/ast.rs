//! AST types for bash conditional expressions.

use vstd::prelude::*;

use crate::syntax::{exp_v, expr_v, lemma_word_v_push, op_v, part_v, parts_v, prim_v, word_v};
use crate::text::{owned, push_char, push_str};

verus! {

/// A conditional expression tree. Combinators short-circuit during evaluation.
#[derive(Debug, PartialEq, Eq)]
pub enum Expr {
    And(Box<Expr>, Box<Expr>),
    Or(Box<Expr>, Box<Expr>),
    Not(Box<Expr>),
    Primary(Primary),
}

/// A single primary test.
#[derive(Debug, PartialEq, Eq)]
pub enum Primary {
    Unary { op: UnaryOp, arg: Word },
    Binary { op: BinaryOp, lhs: Word, rhs: Word },
    /// Bare word: `[[ $x ]]` is equivalent to `-n $x`.
    StringNonEmpty(Word),
}

/// Unary operators. The operator token uniquely determines the kind.
#[derive(Debug, Clone, Copy, PartialEq, Eq, Hash, Structural)]
pub enum UnaryOp {
    FileExists,
    FileRegular,
    FileDir,
    FileBlock,
    FileChar,
    FileSymlink,
    FileNamedPipe,
    FileSocket,
    FileReadable,
    FileWritable,
    FileExecutable,
    FileNonEmpty,
    FileSetUid,
    FileSetGid,
    FileSticky,
    FileOwnedByUid,
    FileOwnedByGid,
    FileNewerThanAccess,
    FdIsTty,
    StringEmpty,
    StringNonEmpty,
    VarSet,
    VarIsNameRef,
    ShellOptSet,
}

/// The two-character token `-c`.
pub open spec fn dash(c: char) -> Seq<char> {
    seq!['-', c]
}

/// The canonical token of a unary operator.
pub open spec fn unary_token(op: UnaryOp) -> Seq<char> {
    match op {
        UnaryOp::FileExists => dash('e'),
        UnaryOp::FileRegular => dash('f'),
        UnaryOp::FileDir => dash('d'),
        UnaryOp::FileBlock => dash('b'),
        UnaryOp::FileChar => dash('c'),
        UnaryOp::FileSymlink => dash('h'),
        UnaryOp::FileNamedPipe => dash('p'),
        UnaryOp::FileSocket => dash('S'),
        UnaryOp::FileReadable => dash('r'),
        UnaryOp::FileWritable => dash('w'),
        UnaryOp::FileExecutable => dash('x'),
        UnaryOp::FileNonEmpty => dash('s'),
        UnaryOp::FileSetUid => dash('u'),
        UnaryOp::FileSetGid => dash('g'),
        UnaryOp::FileSticky => dash('k'),
        UnaryOp::FileOwnedByUid => dash('O'),
        UnaryOp::FileOwnedByGid => dash('G'),
        UnaryOp::FileNewerThanAccess => dash('N'),
        UnaryOp::FdIsTty => dash('t'),
        UnaryOp::StringEmpty => dash('z'),
        UnaryOp::StringNonEmpty => dash('n'),
        UnaryOp::VarSet => dash('v'),
        UnaryOp::VarIsNameRef => dash('R'),
        UnaryOp::ShellOptSet => dash('o'),
    }
}

/// The unary operator named by the flag letter of a `-x` token.
pub open spec fn unary_from_letter(c: char) -> Option<UnaryOp> {
    match c {
        'a' | 'e' => Some(UnaryOp::FileExists),
        'f' => Some(UnaryOp::FileRegular),
        'd' => Some(UnaryOp::FileDir),
        'b' => Some(UnaryOp::FileBlock),
        'c' => Some(UnaryOp::FileChar),
        'h' | 'L' => Some(UnaryOp::FileSymlink),
        'p' => Some(UnaryOp::FileNamedPipe),
        'S' => Some(UnaryOp::FileSocket),
        'r' => Some(UnaryOp::FileReadable),
        'w' => Some(UnaryOp::FileWritable),
        'x' => Some(UnaryOp::FileExecutable),
        's' => Some(UnaryOp::FileNonEmpty),
        'u' => Some(UnaryOp::FileSetUid),
        'g' => Some(UnaryOp::FileSetGid),
        'k' => Some(UnaryOp::FileSticky),
        'O' => Some(UnaryOp::FileOwnedByUid),
        'G' => Some(UnaryOp::FileOwnedByGid),
        'N' => Some(UnaryOp::FileNewerThanAccess),
        't' => Some(UnaryOp::FdIsTty),
        'z' => Some(UnaryOp::StringEmpty),
        'n' => Some(UnaryOp::StringNonEmpty),
        'v' => Some(UnaryOp::VarSet),
        'R' => Some(UnaryOp::VarIsNameRef),
        'o' => Some(UnaryOp::ShellOptSet),
        _ => None,
    }
}

/// The unary operator a token names: exactly the two-character `-x` forms.
pub open spec fn unary_from_token(t: Seq<char>) -> Option<UnaryOp> {
    if t.len() == 2 && t[0] == '-' {
        unary_from_letter(t[1])
    } else {
        None
    }
}

fn unary_letter(c: char) -> (r: Option<UnaryOp>)
    ensures
        r == unary_from_letter(c),
{
    match c {
        'a' | 'e' => Some(UnaryOp::FileExists),
        'f' => Some(UnaryOp::FileRegular),
        'd' => Some(UnaryOp::FileDir),
        'b' => Some(UnaryOp::FileBlock),
        'c' => Some(UnaryOp::FileChar),
        'h' | 'L' => Some(UnaryOp::FileSymlink),
        'p' => Some(UnaryOp::FileNamedPipe),
        'S' => Some(UnaryOp::FileSocket),
        'r' => Some(UnaryOp::FileReadable),
        'w' => Some(UnaryOp::FileWritable),
        'x' => Some(UnaryOp::FileExecutable),
        's' => Some(UnaryOp::FileNonEmpty),
        'u' => Some(UnaryOp::FileSetUid),
        'g' => Some(UnaryOp::FileSetGid),
        'k' => Some(UnaryOp::FileSticky),
        'O' => Some(UnaryOp::FileOwnedByUid),
        'G' => Some(UnaryOp::FileOwnedByGid),
        'N' => Some(UnaryOp::FileNewerThanAccess),
        't' => Some(UnaryOp::FdIsTty),
        'z' => Some(UnaryOp::StringEmpty),
        'n' => Some(UnaryOp::StringNonEmpty),
        'v' => Some(UnaryOp::VarSet),
        'R' => Some(UnaryOp::VarIsNameRef),
        'o' => Some(UnaryOp::ShellOptSet),
        _ => None,
    }
}

impl UnaryOp {
    /// The canonical token of this operator.
    pub fn token(self) -> (r: &'static str)
        ensures
            r@ == unary_token(self),
    {
        match self {
            UnaryOp::FileExists => { proof { reveal_strlit("-e"); } "-e" },
            UnaryOp::FileRegular => { proof { reveal_strlit("-f"); } "-f" },
            UnaryOp::FileDir => { proof { reveal_strlit("-d"); } "-d" },
            UnaryOp::FileBlock => { proof { reveal_strlit("-b"); } "-b" },
            UnaryOp::FileChar => { proof { reveal_strlit("-c"); } "-c" },
            UnaryOp::FileSymlink => { proof { reveal_strlit("-h"); } "-h" },
            UnaryOp::FileNamedPipe => { proof { reveal_strlit("-p"); } "-p" },
            UnaryOp::FileSocket => { proof { reveal_strlit("-S"); } "-S" },
            UnaryOp::FileReadable => { proof { reveal_strlit("-r"); } "-r" },
            UnaryOp::FileWritable => { proof { reveal_strlit("-w"); } "-w" },
            UnaryOp::FileExecutable => { proof { reveal_strlit("-x"); } "-x" },
            UnaryOp::FileNonEmpty => { proof { reveal_strlit("-s"); } "-s" },
            UnaryOp::FileSetUid => { proof { reveal_strlit("-u"); } "-u" },
            UnaryOp::FileSetGid => { proof { reveal_strlit("-g"); } "-g" },
            UnaryOp::FileSticky => { proof { reveal_strlit("-k"); } "-k" },
            UnaryOp::FileOwnedByUid => { proof { reveal_strlit("-O"); } "-O" },
            UnaryOp::FileOwnedByGid => { proof { reveal_strlit("-G"); } "-G" },
            UnaryOp::FileNewerThanAccess => { proof { reveal_strlit("-N"); } "-N" },
            UnaryOp::FdIsTty => { proof { reveal_strlit("-t"); } "-t" },
            UnaryOp::StringEmpty => { proof { reveal_strlit("-z"); } "-z" },
            UnaryOp::StringNonEmpty => { proof { reveal_strlit("-n"); } "-n" },
            UnaryOp::VarSet => { proof { reveal_strlit("-v"); } "-v" },
            UnaryOp::VarIsNameRef => { proof { reveal_strlit("-R"); } "-R" },
            UnaryOp::ShellOptSet => { proof { reveal_strlit("-o"); } "-o" },
        }
    }

    /// Parse a token string (without quoting) into an operator.
    pub fn from_token(s: &str) -> (r: Option<Self>)
        ensures
            r == unary_from_token(s@),
    {
        let t = crate::text::chars_of(s);
        Self::from_chars(t.as_slice())
    }

    /// [`UnaryOp::from_token`] on a token given as characters.
    pub fn from_chars(t: &[char]) -> (r: Option<Self>)
        ensures
            r == unary_from_token(t@),
    {
        if t.len() == 2 && t[0] == '-' {
            unary_letter(t[1])
        } else {
            None
        }
    }
}

/// Reading back the canonical token of a unary operator yields that operator.
pub proof fn lemma_unary_token_roundtrip(op: UnaryOp)
    ensures
        unary_from_token(unary_token(op)) == Some(op),
{
}

#[derive(Debug, Clone, Copy, PartialEq, Eq, Hash, Structural)]
pub enum BinaryOp {
    FileSameInode,
    FileNewer,
    FileOlder,
    StrLt,
    StrGt,
    GlobMatch,
    GlobNotMatch,
    RegexMatch,
    ArithEq,
    ArithNe,
    ArithLt,
    ArithLe,
    ArithGt,
    ArithGe,
}

/// The canonical token of a binary operator.
pub open spec fn binary_token(op: BinaryOp) -> Seq<char> {
    match op {
        BinaryOp::FileSameInode => seq!['-', 'e', 'f'],
        BinaryOp::FileNewer => seq!['-', 'n', 't'],
        BinaryOp::FileOlder => seq!['-', 'o', 't'],
        BinaryOp::StrLt => seq!['<'],
        BinaryOp::StrGt => seq!['>'],
        BinaryOp::GlobMatch => seq!['=', '='],
        BinaryOp::GlobNotMatch => seq!['!', '='],
        BinaryOp::RegexMatch => seq!['=', '~'],
        BinaryOp::ArithEq => seq!['-', 'e', 'q'],
        BinaryOp::ArithNe => seq!['-', 'n', 'e'],
        BinaryOp::ArithLt => seq!['-', 'l', 't'],
        BinaryOp::ArithLe => seq!['-', 'l', 'e'],
        BinaryOp::ArithGt => seq!['-', 'g', 't'],
        BinaryOp::ArithGe => seq!['-', 'g', 'e'],
    }
}

/// The binary operator named by a three-character `-xy` token.
pub open spec fn binary_from_dash_pair(a: char, b: char) -> Option<BinaryOp> {
    match (a, b) {
        ('e', 'f') => Some(BinaryOp::FileSameInode),
        ('n', 't') => Some(BinaryOp::FileNewer),
        ('o', 't') => Some(BinaryOp::FileOlder),
        ('e', 'q') => Some(BinaryOp::ArithEq),
        ('n', 'e') => Some(BinaryOp::ArithNe),
        ('l', 't') => Some(BinaryOp::ArithLt),
        ('l', 'e') => Some(BinaryOp::ArithLe),
        ('g', 't') => Some(BinaryOp::ArithGt),
        ('g', 'e') => Some(BinaryOp::ArithGe),
        _ => None,
    }
}

/// The binary operator a token names; `=` is accepted as a synonym of `==`.
pub open spec fn binary_from_token(t: Seq<char>) -> Option<BinaryOp> {
    if t.len() == 1 {
        match t[0] {
            '=' => Some(BinaryOp::GlobMatch),
            '<' => Some(BinaryOp::StrLt),
            '>' => Some(BinaryOp::StrGt),
            _ => None,
        }
    } else if t.len() == 2 {
        match (t[0], t[1]) {
            ('=', '=') => Some(BinaryOp::GlobMatch),
            ('!', '=') => Some(BinaryOp::GlobNotMatch),
            ('=', '~') => Some(BinaryOp::RegexMatch),
            _ => None,
        }
    } else if t.len() == 3 && t[0] == '-' {
        binary_from_dash_pair(t[1], t[2])
    } else {
        None
    }
}

impl BinaryOp {
    /// The canonical token of this operator.
    pub fn token(self) -> (r: &'static str)
        ensures
            r@ == binary_token(self),
    {
        match self {
            BinaryOp::FileSameInode => { proof { reveal_strlit("-ef"); } "-ef" },
            BinaryOp::FileNewer => { proof { reveal_strlit("-nt"); } "-nt" },
            BinaryOp::FileOlder => { proof { reveal_strlit("-ot"); } "-ot" },
            BinaryOp::StrLt => { proof { reveal_strlit("<"); } "<" },
            BinaryOp::StrGt => { proof { reveal_strlit(">"); } ">" },
            BinaryOp::GlobMatch => { proof { reveal_strlit("=="); } "==" },
            BinaryOp::GlobNotMatch => { proof { reveal_strlit("!="); } "!=" },
            BinaryOp::RegexMatch => { proof { reveal_strlit("=~"); } "=~" },
            BinaryOp::ArithEq => { proof { reveal_strlit("-eq"); } "-eq" },
            BinaryOp::ArithNe => { proof { reveal_strlit("-ne"); } "-ne" },
            BinaryOp::ArithLt => { proof { reveal_strlit("-lt"); } "-lt" },
            BinaryOp::ArithLe => { proof { reveal_strlit("-le"); } "-le" },
            BinaryOp::ArithGt => { proof { reveal_strlit("-gt"); } "-gt" },
            BinaryOp::ArithGe => { proof { reveal_strlit("-ge"); } "-ge" },
        }
    }

    /// Parse a token string (without quoting) into an operator.
    pub fn from_token(s: &str) -> (r: Option<Self>)
        ensures
            r == binary_from_token(s@),
    {
        let t = crate::text::chars_of(s);
        Self::from_chars(t.as_slice())
    }

    /// [`BinaryOp::from_token`] on a token given as characters.
    pub fn from_chars(t: &[char]) -> (r: Option<Self>)
        ensures
            r == binary_from_token(t@),
    {
        if t.len() == 1 {
            match t[0] {
                '=' => Some(BinaryOp::GlobMatch),
                '<' => Some(BinaryOp::StrLt),
                '>' => Some(BinaryOp::StrGt),
                _ => None,
            }
        } else if t.len() == 2 {
            match (t[0], t[1]) {
                ('=', '=') => Some(BinaryOp::GlobMatch),
                ('!', '=') => Some(BinaryOp::GlobNotMatch),
                ('=', '~') => Some(BinaryOp::RegexMatch),
                _ => None,
            }
        } else if t.len() == 3 && t[0] == '-' {
            match (t[1], t[2]) {
                ('e', 'f') => Some(BinaryOp::FileSameInode),
                ('n', 't') => Some(BinaryOp::FileNewer),
                ('o', 't') => Some(BinaryOp::FileOlder),
                ('e', 'q') => Some(BinaryOp::ArithEq),
                ('n', 'e') => Some(BinaryOp::ArithNe),
                ('l', 't') => Some(BinaryOp::ArithLt),
                ('l', 'e') => Some(BinaryOp::ArithLe),
                ('g', 't') => Some(BinaryOp::ArithGt),
                ('g', 'e') => Some(BinaryOp::ArithGe),
                _ => None,
            }
        } else {
            None
        }
    }
}

/// Reading back the canonical token of a binary operator yields that operator.
pub proof fn lemma_binary_token_roundtrip(op: BinaryOp)
    ensures
        binary_from_token(binary_token(op)) == Some(op),
{
}

/// A parsed word — a sequence of parts that, at evaluation time, expand into
/// a single string. Per-part quoting is preserved so the evaluator can honor
/// bash's rules for pattern/regex literalness on the RHS of `==` / `=~`.
#[derive(Debug, PartialEq, Eq, Default)]
pub struct Word {
    pub parts: Vec<WordPart>,
}

#[derive(Debug, PartialEq, Eq)]
pub enum WordPart {
    /// Unquoted literal text.
    Literal(String),
    /// Quoted literal text (single- or double-quoted).
    Quoted(String),
    /// An unquoted `$var` / `${var}` reference.
    Var(String),
    /// A `$var` / `${var}` reference that appeared inside double quotes.
    QuotedVar(String),
    /// A braced parameter expansion that transforms or conditionally replaces
    /// the parameter value; `quoted` records whether the whole expansion
    /// appeared in double quotes.
    Expansion { expansion: ParameterExpansion, quoted: bool },
}

/// A structured `${parameter...}` expansion.
#[derive(Debug, PartialEq, Eq)]
pub struct ParameterExpansion {
    pub name: String,
    pub op: ParameterOp,
}

#[derive(Debug, PartialEq, Eq)]
#[allow(inconsistent_fields)]
pub enum ParameterOp {
    Length,
    Remove { kind: RemoveKind, pattern: Word },
    Replace { kind: ReplaceKind, pattern: Word, replacement: Word },
    Substring { offset: Word, length: Option<Word> },
    CaseModify { kind: CaseModifyKind, pattern: Option<Word> },
    DefaultValue { test_null: bool, word: Word },
    AlternateValue { test_null: bool, word: Word },
}

#[derive(Debug, Clone, Copy, PartialEq, Eq, Hash, Structural)]
pub enum RemoveKind {
    ShortestPrefix,
    LongestPrefix,
    ShortestSuffix,
    LongestSuffix,
}

#[derive(Debug, Clone, Copy, PartialEq, Eq, Hash, Structural)]
pub enum ReplaceKind {
    First,
    All,
    Prefix,
    Suffix,
}

#[derive(Debug, Clone, Copy, PartialEq, Eq, Hash, Structural)]
pub enum CaseModifyKind {
    UpperFirst,
    UpperAll,
    LowerFirst,
    LowerAll,
}

/// Whether a word part is quoted (fully or as a whole expansion).
pub open spec fn part_is_quoted(p: WordPart) -> bool {
    match p {
        WordPart::Quoted(_) | WordPart::QuotedVar(_) => true,
        WordPart::Expansion { quoted, .. } => quoted,
        _ => false,
    }
}

/// Whether any part of a sequence of word parts is quoted.
pub open spec fn any_part_quoted(parts: Seq<WordPart>) -> bool {
    exists|i: int| 0 <= i < parts.len() && #[trigger] part_is_quoted(parts[i])
}

impl Word {
    /// A word consisting of one unquoted literal part.
    pub fn literal(s: &str) -> (r: Word)
        ensures
            r.parts@ == seq![WordPart::Literal(r.parts@[0]->Literal_0)],
            r.parts@[0]->Literal_0@ == s@,
    {
        let mut parts = Vec::new();
        parts.push(WordPart::Literal(owned(s)));
        Word { parts }
    }

    /// Was any part of the word quoted? Used by `==` / `=~` to decide
    /// whether the pattern should be treated literally.
    pub fn any_quoted(&self) -> (r: bool)
        ensures
            r == any_part_quoted(self.parts@),
    {
        let mut i: usize = 0;
        while i < self.parts.len()
            invariant
                i <= self.parts@.len(),
                forall|j: int| 0 <= j < i ==> !part_is_quoted(#[trigger] self.parts@[j]),
            decreases self.parts@.len() - i,
        {
            let q = match &self.parts[i] {
                WordPart::Quoted(_) | WordPart::QuotedVar(_) => true,
                WordPart::Expansion { quoted, .. } => *quoted,
                _ => false,
            };
            if q {
                assert(part_is_quoted(self.parts@[i as int]));
                return true;
            }
            i = i + 1;
        }
        false
    }

    /// Appends a part to the word.
    pub fn push(&mut self, part: WordPart)
        ensures
            final(self).parts@ == old(self).parts@.push(part),
    {
        self.parts.push(part);
    }
}

/// The display text of a word: literal text as written, variables as
/// `${name}`, parameter expansions in their `${...}` form.
pub open spec fn word_text(w: Word) -> Seq<char>
    decreases w,
{
    parts_text(w.parts@, 0)
}

pub open spec fn parts_text(parts: Seq<WordPart>, i: int) -> Seq<char>
    decreases parts, parts.len() - i,
{
    if i < 0 || i >= parts.len() {
        Seq::empty()
    } else {
        part_text(parts[i]) + parts_text(parts, i + 1)
    }
}

pub open spec fn part_text(p: WordPart) -> Seq<char>
    decreases p,
{
    match p {
        WordPart::Literal(s) => s@,
        WordPart::Quoted(s) => s@,
        WordPart::Var(name) => seq!['$', '{'] + name@ + seq!['}'],
        WordPart::QuotedVar(name) => seq!['$', '{'] + name@ + seq!['}'],
        WordPart::Expansion { expansion, .. } => expansion_text(expansion),
    }
}

/// The `${...}` display text of a parameter expansion.
pub open spec fn expansion_text(e: ParameterExpansion) -> Seq<char>
    decreases e,
{
    match e.op {
        ParameterOp::Length => seq!['$', '{', '#'] + e.name@ + seq!['}'],
        _ => seq!['$', '{'] + e.name@ + op_text(e.op) + seq!['}'],
    }
}

pub open spec fn remove_op_text(kind: RemoveKind) -> Seq<char> {
    match kind {
        RemoveKind::ShortestPrefix => seq!['#'],
        RemoveKind::LongestPrefix => seq!['#', '#'],
        RemoveKind::ShortestSuffix => seq!['%'],
        RemoveKind::LongestSuffix => seq!['%', '%'],
    }
}

pub open spec fn replace_op_text(kind: ReplaceKind) -> Seq<char> {
    match kind {
        ReplaceKind::First => seq!['/'],
        ReplaceKind::All => seq!['/', '/'],
        ReplaceKind::Prefix => seq!['/', '#'],
        ReplaceKind::Suffix => seq!['/', '%'],
    }
}

pub open spec fn case_op_text(kind: CaseModifyKind) -> Seq<char> {
    match kind {
        CaseModifyKind::UpperFirst => seq!['^'],
        CaseModifyKind::UpperAll => seq!['^', '^'],
        CaseModifyKind::LowerFirst => seq![','],
        CaseModifyKind::LowerAll => seq![',', ','],
    }
}

pub open spec fn optional_word_text(w: Option<Word>, sep: Seq<char>) -> Seq<char>
    decreases w,
{
    match w {
        Some(x) => sep + word_text(x),
        None => Seq::empty(),
    }
}

pub open spec fn op_text(op: ParameterOp) -> Seq<char>
    decreases op,
{
    match op {
        ParameterOp::Length => Seq::empty(),
        ParameterOp::Remove { kind, pattern } => remove_op_text(kind) + word_text(pattern),
        ParameterOp::Replace { kind, pattern, replacement } => replace_op_text(kind) + word_text(
            pattern,
        ) + seq!['/'] + word_text(replacement),
        ParameterOp::Substring { offset, length } => seq![':'] + word_text(offset)
            + optional_word_text(length, seq![':']),
        ParameterOp::CaseModify { kind, pattern } => case_op_text(kind) + optional_word_text(
            pattern,
            Seq::empty(),
        ),
        ParameterOp::DefaultValue { test_null, word } => (if test_null {
            seq![':', '-']
        } else {
            seq!['-']
        }) + word_text(word),
        ParameterOp::AlternateValue { test_null, word } => (if test_null {
            seq![':', '+']
        } else {
            seq!['+']
        }) + word_text(word),
    }
}

fn push_seq2(out: &mut String, a: char, b: char)
    ensures
        final(out)@ == old(out)@ + seq![a, b],
{
    push_char(out, a);
    push_char(out, b);
    assert(final(out)@ == old(out)@ + seq![a, b]);
}

impl Word {
    /// Appends the display text of this word to `out`.
    pub fn write_text(&self, out: &mut String)
        ensures
            final(out)@ == old(out)@ + word_text(*self),
        decreases self,
    {
        let mut i: usize = 0;
        while i < self.parts.len()
            invariant
                i <= self.parts@.len(),
                out@ + parts_text(self.parts@, i as int) == old(out)@ + parts_text(self.parts@, 0),
            decreases self.parts@.len() - i,
        {
            let ghost before = out@;
            match &self.parts[i] {
                WordPart::Literal(s) | WordPart::Quoted(s) => push_str(out, s.as_str()),
                WordPart::Var(name) | WordPart::QuotedVar(name) => {
                    push_seq2(out, '$', '{');
                    push_str(out, name.as_str());
                    push_char(out, '}');
                },
                WordPart::Expansion { expansion, .. } => {
                    assert(decreases_to!(*self => self.parts@[i as int]));
                    expansion.write_text(out);
                },
            }
            assert(out@ == before + part_text(self.parts@[i as int]));
            assert(parts_text(self.parts@, i as int) == part_text(self.parts@[i as int]) + parts_text(
                self.parts@,
                i + 1,
            ));
            i = i + 1;
        }
    }

    /// The display text of this word.
    pub fn to_text(&self) -> (r: String)
        ensures
            r@ == word_text(*self),
    {
        let mut out = String::new();
        self.write_text(&mut out);
        out
    }
}

fn write_op_text(op: &ParameterOp, out: &mut String)
    ensures
        final(out)@ == old(out)@ + op_text(*op),
    decreases op,
{
    let ghost start = out@;
    match op {
        ParameterOp::Length => {},
        ParameterOp::Remove { kind, pattern } => {
            match kind {
                RemoveKind::ShortestPrefix => push_char(out, '#'),
                RemoveKind::LongestPrefix => push_seq2(out, '#', '#'),
                RemoveKind::ShortestSuffix => push_char(out, '%'),
                RemoveKind::LongestSuffix => push_seq2(out, '%', '%'),
            }
            pattern.write_text(out);
            assert(out@ == start + op_text(*op));
        },
        ParameterOp::Replace { kind, pattern, replacement } => {
            match kind {
                ReplaceKind::First => push_char(out, '/'),
                ReplaceKind::All => push_seq2(out, '/', '/'),
                ReplaceKind::Prefix => push_seq2(out, '/', '#'),
                ReplaceKind::Suffix => push_seq2(out, '/', '%'),
            }
            pattern.write_text(out);
            push_char(out, '/');
            replacement.write_text(out);
            assert(out@ == start + op_text(*op));
        },
        ParameterOp::Substring { offset, length } => {
            push_char(out, ':');
            offset.write_text(out);
            match length {
                Some(l) => {
                    push_char(out, ':');
                    l.write_text(out);
                },
                None => {},
            }
            assert(out@ == start + op_text(*op));
        },
        ParameterOp::CaseModify { kind, pattern } => {
            match kind {
                CaseModifyKind::UpperFirst => push_char(out, '^'),
                CaseModifyKind::UpperAll => push_seq2(out, '^', '^'),
                CaseModifyKind::LowerFirst => push_char(out, ','),
                CaseModifyKind::LowerAll => push_seq2(out, ',', ','),
            }
            match pattern {
                Some(p) => p.write_text(out),
                None => {},
            }
            assert(out@ == start + op_text(*op));
        },
        ParameterOp::DefaultValue { test_null, word } => {
            if *test_null {
                push_seq2(out, ':', '-');
            } else {
                push_char(out, '-');
            }
            word.write_text(out);
            assert(out@ == start + op_text(*op));
        },
        ParameterOp::AlternateValue { test_null, word } => {
            if *test_null {
                push_seq2(out, ':', '+');
            } else {
                push_char(out, '+');
            }
            word.write_text(out);
            assert(out@ == start + op_text(*op));
        },
    }
}

impl ParameterExpansion {
    /// Appends the `${...}` display text of this expansion to `out`.
    pub fn write_text(&self, out: &mut String)
        ensures
            final(out)@ == old(out)@ + expansion_text(*self),
        decreases self,
    {
        let ghost start = out@;
        if let ParameterOp::Length = &self.op {
            push_seq2(out, '$', '{');
            push_char(out, '#');
            push_str(out, self.name.as_str());
            push_char(out, '}');
            return;
        }
        push_seq2(out, '$', '{');
        push_str(out, self.name.as_str());
        write_op_text(&self.op, out);
        push_char(out, '}');
        assert(out@ == start + expansion_text(*self));
    }

    /// The `${...}` display text of this expansion.
    pub fn to_text(&self) -> (r: String)
        ensures
            r@ == expansion_text(*self),
    {
        let mut out = String::new();
        self.write_text(&mut out);
        out
    }
}

fn copy_string(s: &String) -> (r: String)
    ensures
        r@ == s@,
{
    owned(s.as_str())
}

fn copy_word(w: &Word) -> (r: Word)
    ensures
        word_v(r) == word_v(*w),
    decreases w,
{
    let mut parts: Vec<WordPart> = Vec::new();
    let mut i: usize = 0;
    assert(parts_v(parts@, 0) =~= parts_v(w.parts@, 0));
    while i < w.parts.len()
        invariant
            i <= w.parts@.len(),
            parts@.len() == i,
            parts_v(parts@, i as int) == parts_v(w.parts@, i as int),
        decreases w.parts@.len() - i,
    {
        assert(decreases_to!(*w => w.parts@[i as int]));
        let c = copy_part(&w.parts[i]);
        proof {
            lemma_word_v_push(parts@, c);
        }
        parts.push(c);
        i = i + 1;
    }
    Word { parts }
}

fn copy_part(p: &WordPart) -> (r: WordPart)
    ensures
        part_v(r) == part_v(*p),
    decreases p,
{
    match p {
        WordPart::Literal(s) => WordPart::Literal(copy_string(s)),
        WordPart::Quoted(s) => WordPart::Quoted(copy_string(s)),
        WordPart::Var(s) => WordPart::Var(copy_string(s)),
        WordPart::QuotedVar(s) => WordPart::QuotedVar(copy_string(s)),
        WordPart::Expansion { expansion, quoted } => WordPart::Expansion {
            expansion: copy_expansion(expansion),
            quoted: *quoted,
        },
    }
}

fn copy_optional_word(w: &Option<Word>) -> (r: Option<Word>)
    ensures
        match (r, *w) {
            (Some(x), Some(y)) => word_v(x) == word_v(y),
            (None, None) => true,
            _ => false,
        },
    decreases w,
{
    match w {
        Some(x) => Some(copy_word(x)),
        None => None,
    }
}

fn copy_expansion(e: &ParameterExpansion) -> (r: ParameterExpansion)
    ensures
        exp_v(r) == exp_v(*e),
    decreases e,
{
    ParameterExpansion { name: copy_string(&e.name), op: copy_op(&e.op) }
}

fn copy_op(op: &ParameterOp) -> (r: ParameterOp)
    ensures
        op_v(r) == op_v(*op),
    decreases op,
{
    match op {
        ParameterOp::Length => ParameterOp::Length,
        ParameterOp::Remove { kind, pattern } => ParameterOp::Remove {
            kind: *kind,
            pattern: copy_word(pattern),
        },
        ParameterOp::Replace { kind, pattern, replacement } => ParameterOp::Replace {
            kind: *kind,
            pattern: copy_word(pattern),
            replacement: copy_word(replacement),
        },
        ParameterOp::Substring { offset, length } => ParameterOp::Substring {
            offset: copy_word(offset),
            length: copy_optional_word(length),
        },
        ParameterOp::CaseModify { kind, pattern } => ParameterOp::CaseModify {
            kind: *kind,
            pattern: copy_optional_word(pattern),
        },
        ParameterOp::DefaultValue { test_null, word } => ParameterOp::DefaultValue {
            test_null: *test_null,
            word: copy_word(word),
        },
        ParameterOp::AlternateValue { test_null, word } => ParameterOp::AlternateValue {
            test_null: *test_null,
            word: copy_word(word),
        },
    }
}

fn copy_primary(p: &Primary) -> (r: Primary)
    ensures
        prim_v(r) == prim_v(*p),
{
    match p {
        Primary::Unary { op, arg } => Primary::Unary { op: *op, arg: copy_word(arg) },
        Primary::Binary { op, lhs, rhs } => Primary::Binary {
            op: *op,
            lhs: copy_word(lhs),
            rhs: copy_word(rhs),
        },
        Primary::StringNonEmpty(w) => Primary::StringNonEmpty(copy_word(w)),
    }
}

fn copy_expr(e: &Expr) -> (r: Expr)
    ensures
        expr_v(r) == expr_v(*e),
    decreases e,
{
    match e {
        Expr::And(l, r) => Expr::And(Box::new(copy_expr(l)), Box::new(copy_expr(r))),
        Expr::Or(l, r) => Expr::Or(Box::new(copy_expr(l)), Box::new(copy_expr(r))),
        Expr::Not(x) => Expr::Not(Box::new(copy_expr(x))),
        Expr::Primary(p) => Expr::Primary(copy_primary(p)),
    }
}

impl Clone for Word {
    /// A copy with the same parts.
    fn clone(&self) -> (r: Self)
        ensures
            word_v(r) == word_v(*self),
    {
        copy_word(self)
    }
}

impl Clone for WordPart {
    /// A copy with the same text and structure.
    fn clone(&self) -> (r: Self)
        ensures
            part_v(r) == part_v(*self),
    {
        copy_part(self)
    }
}

impl Clone for ParameterExpansion {
    /// A copy with the same name and operation.
    fn clone(&self) -> (r: Self)
        ensures
            exp_v(r) == exp_v(*self),
    {
        copy_expansion(self)
    }
}

impl Clone for ParameterOp {
    /// A copy with the same operation and words.
    fn clone(&self) -> (r: Self)
        ensures
            op_v(r) == op_v(*self),
    {
        copy_op(self)
    }
}

impl Clone for Primary {
    /// A copy with the same operator and words.
    fn clone(&self) -> (r: Self)
        ensures
            prim_v(r) == prim_v(*self),
    {
        copy_primary(self)
    }
}

impl Clone for Expr {
    /// A copy with the same tree.
    fn clone(&self) -> (r: Self)
        ensures
            expr_v(r) == expr_v(*self),
    {
        copy_expr(self)
    }
}

} // verus!
