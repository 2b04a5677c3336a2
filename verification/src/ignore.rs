//! The rule set that says which paths are left out of the mirror.

use crate::path::{lemma_parts_push, named, text_of, PartName, PartView, PathPart, SyncPath};
use vstd::prelude::*;
use vstd::string::StrSliceExecFns;

verus! {

/// The names held by `names`, each as its characters.
pub open spec fn names_of(names: Seq<String>) -> Seq<Seq<char>> {
    Seq::new(names.len(), |i: int| names[i]@)
}

/// Adding one name adds its characters at the end.
proof fn lemma_names_push(names: Seq<String>, name: String)
    ensures
        names_of(names.push(name)) == names_of(names).push(name@),
{
    assert(names_of(names.push(name)) =~= names_of(names).push(name@));
}

/// The names that are ignored whatever the rule file says.
pub open spec fn builtin_names() -> Set<Seq<char>> {
    set![".git"@, "target"@, "node_modules"@]
}

/// White space, as Unicode defines it.
pub open spec fn is_space(c: char) -> bool {
    let n = c as u32;
    9 <= n <= 13 || n == 0x20 || n == 0x85 || n == 0xA0 || n == 0x1680 || 0x2000 <= n <= 0x200A
        || n == 0x2028 || n == 0x2029 || n == 0x202F || n == 0x205F || n == 0x3000
}

/// `s` without the white space at its start.
pub open spec fn trim_start(s: Seq<char>) -> Seq<char>
    decreases s.len(),
{
    if s.len() > 0 && is_space(s[0]) {
        trim_start(s.skip(1))
    } else {
        s
    }
}

/// `s` without the white space at its end.
pub open spec fn trim_end(s: Seq<char>) -> Seq<char>
    decreases s.len(),
{
    if s.len() > 0 && is_space(s.last()) {
        trim_end(s.drop_last())
    } else {
        s
    }
}

/// `s` without the white space at either end.
pub open spec fn trimmed(s: Seq<char>) -> Seq<char> {
    trim_end(trim_start(s))
}

/// The length of the first line of `s`: the number of characters before its
/// first line feed, or all of them where it has none.
pub open spec fn first_line_len(s: Seq<char>) -> int
    decreases s.len(),
{
    if s.len() == 0 || s[0] == '\n' {
        0
    } else {
        1 + first_line_len(s.skip(1))
    }
}

/// Whether a trimmed line states a rule: it is not blank and is no comment.
pub open spec fn is_rule(line: Seq<char>) -> bool {
    line.len() > 0 && line[0] != '#'
}

/// The names that the rule text `text` adds: one per line, trimmed, but for
/// blank lines and for lines whose first character after trimming is `#`.
pub open spec fn rule_names(text: Seq<char>) -> Set<Seq<char>>
    decreases text.len(),
{
    if text.len() == 0 {
        Set::empty()
    } else {
        let k = first_line_len(text);
        let line = trimmed(text.take(k));
        let rest = if 0 <= k < text.len() {
            rule_names(text.skip(k + 1))
        } else {
            Set::empty()
        };
        if is_rule(line) {
            rest.insert(line)
        } else {
            rest
        }
    }
}

/// Whether `part` is one of `rules`: it is text, and the text is a rule.
pub open spec fn is_ignored_part(rules: Set<Seq<char>>, part: PartView) -> bool {
    text_of(part) is Some && rules.contains(text_of(part)->0)
}

/// Whether some component of `path` is one of `rules`, by its exact name. A
/// component that is not text is none of them.
pub open spec fn has_ignored_component(rules: Set<Seq<char>>, path: Seq<PartView>) -> bool {
    exists|i: int| 0 <= i < path.len() && is_ignored_part(rules, #[trigger] path[i])
}

/// A path with a built-in name among its components is ignored under every
/// rule set that holds the built-in names, whatever else it holds.
pub proof fn lemma_builtin_component_is_ignored(
    rules: Set<Seq<char>>,
    path: Seq<PartView>,
    i: int,
)
    requires
        builtin_names().subset_of(rules),
        0 <= i < path.len(),
        is_ignored_part(builtin_names(), path[i]),
    ensures
        has_ignored_component(rules, path),
{
    assert(is_ignored_part(rules, path[i]));
}

/// The first line ends at `k` when no line feed stands before `k` and one
/// stands at `k`, or the text ends there.
pub proof fn lemma_first_line_len_is(s: Seq<char>, k: int)
    requires
        0 <= k <= s.len(),
        forall|j: int| 0 <= j < k ==> s[j] != '\n',
        k == s.len() || s[k] == '\n',
    ensures
        first_line_len(s) == k,
    decreases s.len(),
{
    if k == 0 {
    } else {
        lemma_first_line_len_is(s.skip(1), k - 1);
    }
}

/// Trimming at the start removes exactly the leading run of white space.
pub proof fn lemma_trim_start_is(s: Seq<char>, a: int)
    requires
        0 <= a <= s.len(),
        forall|j: int| 0 <= j < a ==> is_space(s[j]),
        a == s.len() || !is_space(s[a]),
    ensures
        trim_start(s) == s.skip(a),
    decreases s.len(),
{
    if a == 0 {
        assert(s.skip(0) =~= s);
    } else {
        lemma_trim_start_is(s.skip(1), a - 1);
        assert(s.skip(1).skip(a - 1) =~= s.skip(a));
    }
}

/// Trimming at the end removes exactly the trailing run of white space.
pub proof fn lemma_trim_end_is(s: Seq<char>, b: int)
    requires
        0 <= b <= s.len(),
        forall|j: int| b <= j < s.len() ==> is_space(s[j]),
        b == 0 || !is_space(s[b - 1]),
    ensures
        trim_end(s) == s.take(b),
    decreases s.len(),
{
    if b == s.len() {
        assert(s.take(b) =~= s);
    } else {
        lemma_trim_end_is(s.drop_last(), b);
        assert(s.drop_last().take(b) =~= s.take(b));
    }
}

/// Whether `c` is white space.
pub fn char_is_space(c: char) -> (space: bool)
    ensures
        space == is_space(c),
{
    let n: u32 = c as u32;
    (9 <= n && n <= 13) || n == 0x20 || n == 0x85 || n == 0xA0 || n == 0x1680 || (0x2000 <= n && n
        <= 0x200A) || n == 0x2028 || n == 0x2029 || n == 0x202F || n == 0x205F || n == 0x3000
}

/// Where the rule file of the source root `src_root` lies: directly under the
/// root, under the name `.syncdignore`.
pub fn rule_file_for(src_root: &SyncPath) -> (file: SyncPath)
    ensures
        file@ == src_root@.push(named(".syncdignore"@)),
{
    let mut file = src_root.clone();
    let part = PathPart::named(".syncdignore".to_owned());
    proof {
        lemma_parts_push(file.parts@, part);
    }
    file.parts.push(part);
    file
}

/// What became of the attempt to read the rule file.
#[derive(Debug, PartialEq, Eq)]
pub enum RuleFile {
    /// There is no rule file.
    Missing,
    /// There is one, and it could not be read.
    Unreadable,
    /// The text of the rule file.
    Text(String),
}

/// Why a rule set could not be built.
#[derive(Clone, Copy, Debug, PartialEq, Eq)]
pub enum IgnoreError {
    /// The rule file exists and could not be read.
    RuleFileUnreadable,
}

/// The set of names that exclude a path from the mirror. It is built once and
/// does not change.
#[derive(Debug)]
pub struct IgnoreMatcher {
    names: Vec<String>,
}

impl View for IgnoreMatcher {
    type V = Set<Seq<char>>;

    closed spec fn view(&self) -> Set<Seq<char>> {
        names_of(self.names@).to_set()
    }
}

impl IgnoreMatcher {
    /// No name is held twice.
    #[verifier::type_invariant]
    closed spec fn no_name_twice(&self) -> bool {
        names_of(self.names@).no_duplicates()
    }

    /// The rule set for a source root whose rule file was read with the given
    /// outcome: the built-in names, and with them the names that the file
    /// states. A root without a rule file has the built-in names alone. A
    /// rule file that is there and cannot be read is an error.
    pub fn new(rules: &RuleFile) -> (built: Result<IgnoreMatcher, IgnoreError>)
        ensures
            built is Ok ==> builtin_names().subset_of(built->Ok_0@),
            match *rules {
                RuleFile::Missing => built is Ok && built->Ok_0@ == builtin_names(),
                RuleFile::Unreadable => built == Err::<IgnoreMatcher, IgnoreError>(
                    IgnoreError::RuleFileUnreadable,
                ),
                RuleFile::Text(text) => built is Ok && built->Ok_0@ == builtin_names().union(
                    rule_names(text@),
                ),
            },
    {
        match rules {
            RuleFile::Missing => Ok(IgnoreMatcher { names: builtin_list() }),
            RuleFile::Unreadable => Err(IgnoreError::RuleFileUnreadable),
            RuleFile::Text(text) => {
                let mut names = builtin_list();
                add_rules(&mut names, text.as_str());
                Ok(IgnoreMatcher { names })
            },
        }
    }

    /// Whether `name` is one of the rules.
    pub fn contains(&self, name: &String) -> (held: bool)
        ensures
            held == self@.contains(name@),
    {
        contains_name(&self.names, name)
    }

    /// The number of rules.
    pub fn len(&self) -> (n: usize)
        ensures
            n == self@.len(),
    {
        proof {
            use_type_invariant(self);
            names_of(self.names@).unique_seq_to_set();
        }
        self.names.len()
    }

    /// Whether `path` is left out of the mirror: whether one of its components
    /// is, letter for letter, one of the rules.
    pub fn is_ignored(&self, path: &SyncPath) -> (ignored: bool)
        ensures
            ignored == has_ignored_component(self@, path@),
    {
        let mut i: usize = 0;
        while i < path.parts.len()
            invariant
                i <= path.parts.len(),
                forall|j: int| 0 <= j < i ==> !is_ignored_part(self@, #[trigger] path@[j]),
            decreases path.parts.len() - i,
        {
            let held = match &path.parts[i].name {
                PartName::Text(text) => self.contains(text),
                PartName::Bytes { .. } => false,
            };
            if held {
                assert(is_ignored_part(self@, path@[i as int]));
                return true;
            }
            i += 1;
        }
        false
    }
}

impl Clone for IgnoreMatcher {
    fn clone(&self) -> (copy: IgnoreMatcher)
        ensures
            copy@ == self@,
    {
        proof {
            use_type_invariant(self);
        }
        let names = self.names.clone();
        assert(names_of(names@) =~= names_of(self.names@));
        IgnoreMatcher { names }
    }
}

/// The characters of `text`, in order.
fn chars_of(text: &str) -> (chars: Vec<char>)
    ensures
        chars@ == text@,
{
    let mut chars: Vec<char> = Vec::new();
    for c in it: text.chars()
        invariant
            it.seq() == text@,
            chars@ == text@.take(it.index() as int),
    {
        assert(text@.take(it.index() + 1) =~= text@.take(it.index() as int).push(c));
        chars.push(c);
    }
    assert(text@.take(text@.len() as int) =~= text@);
    chars
}

/// The end of the line that starts at `start`: the place of the next line
/// feed, or the end of the text.
fn line_end(chars: &Vec<char>, start: usize) -> (end: usize)
    requires
        start <= chars@.len(),
    ensures
        start <= end <= chars@.len(),
        forall|j: int| start <= j < end ==> chars@[j] != '\n',
        end == chars@.len() || chars@[end as int] == '\n',
{
    let mut end: usize = start;
    while end < chars.len() && chars[end] != '\n'
        invariant
            start <= end <= chars@.len(),
            forall|j: int| start <= j < end ==> chars@[j] != '\n',
        decreases chars@.len() - end,
    {
        end += 1;
    }
    end
}

/// Where the text between `start` and `end` begins and ends once the white
/// space on both sides is left out.
fn trim_bounds(chars: &Vec<char>, start: usize, end: usize) -> (bounds: (usize, usize))
    requires
        start <= end <= chars@.len(),
    ensures
        start <= bounds.0 <= bounds.1 <= end,
        chars@.subrange(bounds.0 as int, bounds.1 as int) == trimmed(
            chars@.subrange(start as int, end as int),
        ),
{
    let mut a: usize = start;
    while a < end && char_is_space(chars[a])
        invariant
            start <= a <= end <= chars@.len(),
            forall|j: int| start <= j < a ==> is_space(chars@[j]),
        decreases end - a,
    {
        a += 1;
    }
    let mut b: usize = end;
    while b > a && char_is_space(chars[b - 1])
        invariant
            a <= b <= end <= chars@.len(),
            forall|j: int| b <= j < end ==> is_space(chars@[j]),
        decreases b,
    {
        b -= 1;
    }
    proof {
        let line = chars@.subrange(start as int, end as int);
        lemma_trim_start_is(line, a - start);
        assert(line.skip(a - start) =~= chars@.subrange(a as int, end as int));
        let tail = chars@.subrange(a as int, end as int);
        lemma_trim_end_is(tail, b - a);
        assert(tail.take(b - a) =~= chars@.subrange(a as int, b as int));
    }
    (a, b)
}

/// Adds to `names` the rules that `text` states, each once.
fn add_rules(names: &mut Vec<String>, text: &str)
    requires
        names_of(old(names)@).no_duplicates(),
    ensures
        names_of(final(names)@).no_duplicates(),
        names_of(final(names)@).to_set() == names_of(old(names)@).to_set().union(
            rule_names(text@),
        ),
{
    let chars = chars_of(text);
    let n: usize = chars.len();
    let ghost target = names_of(names@).to_set().union(rule_names(text@));
    let mut start: usize = 0;
    assert(text@.skip(0) =~= text@);
    while start < n
        invariant
            n == chars@.len(),
            chars@ == text@,
            start <= n,
            names_of(names@).no_duplicates(),
            names_of(names@).to_set().union(rule_names(text@.skip(start as int))) == target,
        decreases n - start,
    {
        let end = line_end(&chars, start);
        let (a, b) = trim_bounds(&chars, start, end);
        let ghost rest = text@.skip(start as int);
        let ghost line = chars@.subrange(a as int, b as int);
        let next: usize = if end < n {
            end + 1
        } else {
            n
        };
        proof {
            lemma_first_line_len_is(rest, end - start);
            assert(rest.take(end - start) =~= chars@.subrange(start as int, end as int));
            if end < n {
                assert(rest.skip(end - start + 1) =~= text@.skip(next as int));
            } else {
                assert(text@.skip(next as int).len() == 0);
            }
            assert(rule_names(rest) == if is_rule(line) {
                rule_names(text@.skip(next as int)).insert(line)
            } else {
                rule_names(text@.skip(next as int))
            });
        }
        if a < b && chars[a] != '#' {
            let name: String = text.substring_char(a, b).to_owned();
            if !contains_name(names, &name) {
                proof {
                    lemma_names_push(names@, name);
                    names_of(names@).lemma_push_to_set_commute(name@);
                }
                names.push(name);
                assert(names_of(names@).to_set().union(rule_names(text@.skip(next as int)))
                    =~= target);
            } else {
                assert(names_of(names@).to_set().union(rule_names(text@.skip(next as int)))
                    =~= target);
            }
        }
        start = next;
    }
    assert(rule_names(text@.skip(n as int)) =~= Set::<Seq<char>>::empty());
    assert(names_of(names@).to_set().union(Set::<Seq<char>>::empty()) =~= names_of(
        names@,
    ).to_set());
}

/// The built-in names, each once.
fn builtin_list() -> (names: Vec<String>)
    ensures
        names_of(names@).no_duplicates(),
        names_of(names@).to_set() == builtin_names(),
{
    let mut names: Vec<String> = Vec::new();
    names.push(".git".to_owned());
    names.push("target".to_owned());
    names.push("node_modules".to_owned());
    proof {
        reveal_strlit(".git");
        reveal_strlit("target");
        reveal_strlit("node_modules");
        let held = names_of(names@);
        assert(held =~= seq![".git"@, "target"@, "node_modules"@]);
        assert(held[0].len() == 4 && held[1].len() == 6 && held[2].len() == 12);
        assert(held.to_set() =~= builtin_names()) by {
            assert(held.contains(held[0]) && held.contains(held[1]) && held.contains(held[2]));
        }
    }
    names
}

/// Whether `name` is among `names`.
fn contains_name(names: &Vec<String>, name: &String) -> (held: bool)
    ensures
        held == names_of(names@).to_set().contains(name@),
        held == names_of(names@).contains(name@),
{
    let mut i: usize = 0;
    while i < names.len()
        invariant
            i <= names.len(),
            forall|j: int| 0 <= j < i ==> names_of(names@)[j] != name@,
        decreases names.len() - i,
    {
        if names[i] == *name {
            assert(names_of(names@)[i as int] == name@);
            return true;
        }
        i += 1;
    }
    false
}

} // verus!
