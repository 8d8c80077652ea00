//! Environment abstraction — variable lookup, shell options, and the
//! `BASH_REMATCH` write-back hook used after a successful `=~` match.

use vstd::prelude::*;
use vstd::hash_map::StringHashMap;

use crate::text::{chars_of, owned};

verus! {

/// What an environment answers, as a mathematical object: the variables
/// (`vars`), which names are namerefs, the explicitly set shell options,
/// which array elements are set (as a function of the current variables),
/// which names accept assignment, and the last `BASH_REMATCH` groups, for
/// environments that keep them (`keeps_rematch`).
pub struct EnvModel {
    pub vars: Map<Seq<char>, Seq<char>>,
    pub namerefs: spec_fn(Seq<char>) -> bool,
    pub options: Map<Seq<char>, bool>,
    pub elements: spec_fn(Map<Seq<char>, Seq<char>>, Seq<char>, Seq<char>) -> bool,
    pub assignable: spec_fn(Seq<char>) -> bool,
    pub keeps_rematch: bool,
    pub rematch: Seq<Option<Seq<char>>>,
}

impl EnvModel {
    /// The value of a variable; `None` when unset.
    pub open spec fn lookup(self, name: Seq<char>) -> Option<Seq<char>> {
        self.vars.get(name)
    }

    /// The value of a variable, with unset read as the empty string.
    pub open spec fn value_or_empty(self, name: Seq<char>) -> Seq<char> {
        match self.vars.get(name) {
            Some(v) => v,
            None => Seq::empty(),
        }
    }

    /// The explicitly set value of a shell option; `None` asks for bash's default.
    pub open spec fn option(self, name: Seq<char>) -> Option<bool> {
        self.options.get(name)
    }

    /// Whether `name[subscript]` is set.
    pub open spec fn element_set(self, name: Seq<char>, subscript: Seq<char>) -> bool {
        (self.elements)(self.vars, name, subscript)
    }

    /// The environment after `name` is assigned `value`.
    pub open spec fn assign(self, name: Seq<char>, value: Seq<char>) -> EnvModel {
        EnvModel { vars: self.vars.insert(name, value), ..self }
    }

    /// The environment after `BASH_REMATCH` is handed `groups`.
    pub open spec fn rematched(self, groups: Seq<Option<Seq<char>>>) -> EnvModel {
        if self.keeps_rematch {
            EnvModel { rematch: groups, ..self }
        } else {
            self
        }
    }
}

/// The view of an optional borrowed string.
pub open spec fn opt_str_view(o: Option<&str>) -> Option<Seq<char>> {
    match o {
        Some(s) => Some(s@),
        None => None,
    }
}

/// The view of a list of optional strings.
pub open spec fn groups_view(g: Seq<Option<String>>) -> Seq<Option<Seq<char>>> {
    g.map_values(|o: Option<String>| match o {
        Some(s) => Some(s@),
        None => None,
    })
}

/// The host environment for evaluation.
///
/// An implementation that declares `obeys_env_model()` promises that every
/// method answers according to `model()`: lookups read it, `set_var`
/// updates exactly the assigned variable when it accepts the assignment, and
/// `set_bash_rematch` leaves the model unchanged. The evaluator's contract
/// describes its result only for such environments.
pub trait Env {
    /// Whether this host answers according to its model; a host that does
    /// not say so gets no promise from the evaluator.
    open spec fn obeys_env_model() -> bool {
        false
    }

    /// What this host answers, for hosts that obey it.
    open spec fn model(&self) -> EnvModel {
        arbitrary()
    }

    /// Look up `$name`. Return `None` for unset, `Some("")` for empty.
    fn var(&self, name: &str) -> (r: Option<&str>)
        ensures
            Self::obeys_env_model() ==> opt_str_view(r) == self.model().lookup(name@),
    ;

    /// Whether the variable is a name reference (`declare -n`). Used by `-R`.
    fn is_nameref(&self, name: &str) -> (r: bool)
        ensures
            Self::obeys_env_model() ==> r == (self.model().namerefs)(name@),
    ;

    /// The host value of shell option `name` (e.g. `nocasematch`,
    /// `extglob`); `None` means "use bash's default".
    fn shell_opt(&self, name: &str) -> (r: Option<bool>)
        ensures
            Self::obeys_env_model() ==> r == self.model().option(name@),
    ;

    /// Whether `name[subscript]` is set. Used by `-v` with array subscripts.
    fn array_element_set(&self, name: &str, subscript: &str) -> (r: bool)
        ensures
            Self::obeys_env_model() ==> r == self.model().element_set(name@, subscript@),
    ;

    /// Assign a scalar variable for arithmetic assignment and increment.
    /// Returns `false` when the host does not accept the assignment.
    fn set_var(&mut self, name: &str, value: String) -> (ok: bool)
        ensures
            Self::obeys_env_model() ==> ok == (old(self).model().assignable)(name@),
            Self::obeys_env_model() ==> final(self).model() == (if ok {
                old(self).model().assign(name@, value@)
            } else {
                old(self).model()
            }),
    ;

    /// Called after a successful `=~` match. `groups[0]` is the full match,
    /// `groups[1..]` are capture groups (`None` for groups that did not
    /// participate in the match).
    fn set_bash_rematch(&mut self, groups: &[Option<String>])
        ensures
            Self::obeys_env_model() ==> final(self).model() == old(self).model().rematched(
                groups_view(groups@),
            ),
    ;
}

/// A read gives back what an accepted write wrote: after `name` is assigned
/// `value`, looking `name` up yields `value`, and every other variable reads
/// as before.
pub proof fn lemma_read_after_write(m: EnvModel, name: Seq<char>, value: Seq<char>, other: Seq<char>)
    requires
        other != name,
    ensures
        m.assign(name, value).lookup(name) == Some(value),
        m.assign(name, value).lookup(other) == m.lookup(other),
{
}

/// In-memory `Env` for testing. Captures variables, namerefs, options and
/// the last `BASH_REMATCH`. Each table is a list of name/value entries in
/// the order they were set; a later entry for a name overrides an earlier.
#[derive(Debug, Clone)]
pub struct MapEnv {
    pub vars: Vec<(String, String)>,
    pub namerefs: Vec<(String, bool)>,
    pub options: Vec<(String, bool)>,
    pub last_rematch: Vec<Option<String>>,
}

/// The table a list of entries makes: each entry sets its name, later
/// entries overriding earlier ones.
pub open spec fn entries_map<V>(e: Seq<(String, V)>) -> Map<Seq<char>, V>
    decreases e.len(),
{
    if e.len() == 0 {
        Map::empty()
    } else {
        entries_map(e.drop_last()).insert(e.last().0@, e.last().1)
    }
}

proof fn lemma_entries_push<V>(e: Seq<(String, V)>, x: (String, V))
    ensures
        entries_map(e.push(x)) == entries_map(e).insert(x.0@, x.1),
{
    assert(e.push(x).drop_last() =~= e);
}

/// Looking a name up among the entries from index `i` down.
proof fn lemma_entries_lookup<V>(e: Seq<(String, V)>, name: Seq<char>, i: int)
    requires
        -1 <= i < e.len(),
        forall|j: int| i < j < e.len() ==> (#[trigger] e[j]).0@ != name,
    ensures
        i >= 0 && e[i].0@ == name ==> entries_map(e).contains_key(name) && entries_map(e)[name] == e[i].1,
        (forall|j: int| 0 <= j <= i ==> (#[trigger] e[j]).0@ != name) ==> !entries_map(e).contains_key(name),
    decreases e.len(),
{
    if e.len() > 0 {
        let d = e.drop_last();
        if i == e.len() - 1 {
            if (forall|j: int| 0 <= j <= i ==> (#[trigger] e[j]).0@ != name) {
                assert forall|j: int| -1 < j < d.len() implies (#[trigger] d[j]).0@ != name by {
                    assert(d[j] == e[j]);
                }
                lemma_entries_lookup(d, name, -1);
            }
        } else {
            assert forall|j: int| i < j < d.len() implies (#[trigger] d[j]).0@ != name by {
                assert(d[j] == e[j]);
            }
            lemma_entries_lookup(d, name, i);
            if i >= 0 {
                assert(d[i] == e[i]);
            }
            if (forall|j: int| 0 <= j <= i ==> (#[trigger] e[j]).0@ != name) {
                assert forall|j: int| 0 <= j <= i implies (#[trigger] d[j]).0@ != name by {
                    assert(d[j] == e[j]);
                }
            }
        }
    }
}

/// The index of the entry that decides `name`: the last one for it.
fn find_entry<V>(e: &Vec<(String, V)>, name: &str) -> (r: Option<usize>)
    ensures
        match r {
            Some(i) => i < e@.len() && entries_map(e@).contains_key(name@) && entries_map(e@)[name@]
                == e@[i as int].1,
            None => !entries_map(e@).contains_key(name@),
        },
{
    let mut i = e.len();
    while i > 0
        invariant
            i <= e@.len(),
            forall|j: int| i <= j < e@.len() ==> (#[trigger] e@[j]).0@ != name@,
        decreases i,
    {
        i = i - 1;
        if crate::text::str_eq(e[i].0.as_str(), name) {
            proof {
                lemma_entries_lookup(e@, name@, i as int);
            }
            return Some(i);
        }
    }
    proof {
        lemma_entries_lookup(e@, name@, -1);
    }
    None
}

/// The variables of a map of strings, as character sequences.
pub open spec fn string_map_view(m: Map<Seq<char>, String>) -> Map<Seq<char>, Seq<char>> {
    m.map_values(|v: String| v@)
}

/// `-v name[0]` semantics of a host that does not track arrays: element `0`
/// is the scalar variable itself.
pub open spec fn scalar_elements(
    vars: Map<Seq<char>, Seq<char>>,
    name: Seq<char>,
    subscript: Seq<char>,
) -> bool {
    subscript == seq!['0'] && vars.contains_key(name)
}

impl MapEnv {
    /// An empty environment.
    pub fn new() -> (r: Self)
        ensures
            r.vars@ == Seq::<(String, String)>::empty(),
            r.namerefs@ == Seq::<(String, bool)>::empty(),
            r.options@ == Seq::<(String, bool)>::empty(),
            r.last_rematch@ == Seq::<Option<String>>::empty(),
    {
        MapEnv { vars: Vec::new(), namerefs: Vec::new(), options: Vec::new(), last_rematch: Vec::new() }
    }

    /// This environment with `name` set to `value`.
    pub fn with_var(self, name: &str, value: &str) -> (r: Self)
        ensures
            r.vars@.len() == self.vars@.len() + 1,
            r.vars@.drop_last() == self.vars@,
            r.vars@.last().0@ == name@,
            r.vars@.last().1@ == value@,
            r.model() == self.model().assign(name@, value@),
            r.namerefs@ == self.namerefs@,
            r.options@ == self.options@,
            r.last_rematch@ == self.last_rematch@,
    {
        let ghost before = self.model();
        let mut env = self;
        let entry = (owned(name), owned(value));
        proof {
            lemma_entries_push(env.vars@, entry);
        }
        env.vars.push(entry);
        assert(env.vars@.drop_last() =~= self.vars@);
        assert(string_map_view(entries_map(env.vars@)) =~= before.vars.insert(name@, value@));
        assert(env.model() == before.assign(name@, value@));
        env
    }

    /// This environment with shell option `name` explicitly set to `on`.
    pub fn with_option(self, name: &str, on: bool) -> (r: Self)
        ensures
            r.vars@ == self.vars@,
            r.namerefs@ == self.namerefs@,
            entries_map(r.options@) == entries_map(self.options@).insert(name@, on),
            r.model().option(name@) == Some(on),
            r.last_rematch@ == self.last_rematch@,
    {
        let mut env = self;
        let entry = (owned(name), on);
        proof {
            lemma_entries_push(env.options@, entry);
        }
        env.options.push(entry);
        env
    }
}

impl Default for MapEnv {
    fn default() -> (r: Self)
        ensures
            r.vars@ == Seq::<(String, String)>::empty(),
            r.namerefs@ == Seq::<(String, bool)>::empty(),
            r.options@ == Seq::<(String, bool)>::empty(),
            r.last_rematch@ == Seq::<Option<String>>::empty(),
    {
        MapEnv::new()
    }
}

fn copy_groups(groups: &[Option<String>]) -> (r: Vec<Option<String>>)
    ensures
        groups_view(r@) == groups_view(groups@),
{
    let mut out: Vec<Option<String>> = Vec::new();
    let mut i: usize = 0;
    while i < groups.len()
        invariant
            i <= groups@.len(),
            out@.len() == i,
            forall|j: int|
                0 <= j < i ==> groups_view(out@)[j] == #[trigger] groups_view(groups@)[j],
        decreases groups@.len() - i,
    {
        let g = match &groups[i] {
            Some(s) => Some(owned(s.as_str())),
            None => None,
        };
        out.push(g);
        i = i + 1;
    }
    assert(groups_view(out@) == groups_view(groups@));
    out
}

impl Env for MapEnv {
    open spec fn obeys_env_model() -> bool {
        true
    }

    open spec fn model(&self) -> EnvModel {
        EnvModel {
            vars: string_map_view(entries_map(self.vars@)),
            namerefs: |n: Seq<char>| entries_map(self.namerefs@).contains_key(n) && entries_map(
                self.namerefs@,
            )[n],
            options: entries_map(self.options@),
            elements: |vars: Map<Seq<char>, Seq<char>>, n: Seq<char>, s: Seq<char>|
                scalar_elements(vars, n, s),
            assignable: |n: Seq<char>| true,
            keeps_rematch: true,
            rematch: groups_view(self.last_rematch@),
        }
    }

    fn var(&self, name: &str) -> (r: Option<&str>) {
        match find_entry(&self.vars, name) {
            Some(i) => Some(self.vars[i].1.as_str()),
            None => None,
        }
    }

    fn is_nameref(&self, name: &str) -> (r: bool) {
        match find_entry(&self.namerefs, name) {
            Some(i) => self.namerefs[i].1,
            None => false,
        }
    }

    fn shell_opt(&self, name: &str) -> (r: Option<bool>) {
        match find_entry(&self.options, name) {
            Some(i) => Some(self.options[i].1),
            None => None,
        }
    }

    fn array_element_set(&self, name: &str, subscript: &str) -> (r: bool) {
        let sub = chars_of(subscript);
        if sub.len() == 1 && sub[0] == '0' {
            assert(subscript@ == seq!['0']);
            find_entry(&self.vars, name).is_some()
        } else {
            false
        }
    }

    fn set_var(&mut self, name: &str, value: String) -> (ok: bool) {
        let ghost before = self.model();
        let entry = (owned(name), value);
        proof {
            lemma_entries_push(self.vars@, entry);
        }
        self.vars.push(entry);
        assert(string_map_view(entries_map(self.vars@)) =~= before.vars.insert(name@, entry.1@));
        assert(self.model() == before.assign(name@, entry.1@));
        true
    }

    fn set_bash_rematch(&mut self, groups: &[Option<String>])
        ensures
            groups_view(final(self).last_rematch@) == groups_view(groups@),
    {
        let ghost before = self.model();
        self.last_rematch = copy_groups(groups);
        assert(self.model() == before.rematched(groups_view(groups@)));
    }
}

/// Process environment: variables captured from a snapshot, no
/// array/nameref/option tracking, `BASH_REMATCH` writes are dropped, and
/// assignments are refused.
pub struct StdEnv {
    snapshot: StringHashMap<String>,
}

impl StdEnv {
    /// An environment holding the given variables; a later pair overrides
    /// an earlier one with the same name.
    pub fn from_vars(vars: Vec<(String, String)>) -> (r: Self)
        ensures
            r.model().vars == pairs_map(vars@, vars@.len() as int),
    {
        let mut snapshot: StringHashMap<String> = StringHashMap::new();
        let mut i: usize = 0;
        while i < vars.len()
            invariant
                i <= vars@.len(),
                string_map_view(snapshot@) == pairs_map(vars@, i as int),
            decreases vars@.len() - i,
        {
            let (k, v) = &vars[i];
            snapshot.insert(owned(k.as_str()), owned(v.as_str()));
            i = i + 1;
        }
        StdEnv { snapshot }
    }

    /// The variables this environment holds.
    pub closed spec fn spec_snapshot(&self) -> Map<Seq<char>, Seq<char>> {
        string_map_view(self.snapshot@)
    }
}

/// The map built by inserting the first `n` name/value pairs in order.
pub open spec fn pairs_map(pairs: Seq<(String, String)>, n: int) -> Map<Seq<char>, Seq<char>>
    decreases n,
{
    if n <= 0 || n > pairs.len() {
        Map::empty()
    } else {
        pairs_map(pairs, n - 1).insert(pairs[n - 1].0@, pairs[n - 1].1@)
    }
}

impl Env for StdEnv {
    open spec fn obeys_env_model() -> bool {
        true
    }

    open spec fn model(&self) -> EnvModel {
        EnvModel {
            vars: self.spec_snapshot(),
            namerefs: |n: Seq<char>| false,
            options: Map::empty(),
            elements: |vars: Map<Seq<char>, Seq<char>>, n: Seq<char>, s: Seq<char>|
                scalar_elements(vars, n, s),
            assignable: |n: Seq<char>| false,
            keeps_rematch: false,
            rematch: Seq::empty(),
        }
    }

    fn var(&self, name: &str) -> (r: Option<&str>) {
        match self.snapshot.get(name) {
            Some(v) => Some(v.as_str()),
            None => None,
        }
    }

    fn is_nameref(&self, name: &str) -> (r: bool) {
        false
    }

    fn shell_opt(&self, name: &str) -> (r: Option<bool>) {
        None
    }

    fn array_element_set(&self, name: &str, subscript: &str) -> (r: bool) {
        let sub = chars_of(subscript);
        if sub.len() == 1 && sub[0] == '0' {
            assert(subscript@ == seq!['0']);
            self.snapshot.contains_key(name)
        } else {
            false
        }
    }

    fn set_var(&mut self, name: &str, value: String) -> (ok: bool) {
        false
    }

    fn set_bash_rematch(&mut self, groups: &[Option<String>]) {
    }
}

} // verus!
