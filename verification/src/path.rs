//! Paths as sequences of components.

use vstd::prelude::*;

verus! {

/// What a component of a path is.
#[derive(Clone, Copy, Debug, PartialEq, Eq, Hash, Structural)]
pub enum PartKind {
    /// A volume or share, where the platform has them.
    Prefix,
    /// The root directory.
    Root,
    /// A reference to the current directory, `.`.
    CurDir,
    /// A reference to the parent directory, `..`.
    ParentDir,
    /// The name of a file or directory.
    Normal,
}

/// How a component is written.
#[derive(Debug, PartialEq, Eq, Hash)]
pub enum PartName {
    /// The component is text, and this is it.
    Text(String),
    /// The component is not text. `raw` holds its bytes as the platform
    /// encodes them, and `shown` the text that stands for it where text is
    /// asked for.
    Bytes { raw: Vec<u8>, shown: String },
}

/// The model of a `PartName`.
pub enum NameView {
    Text(Seq<char>),
    Bytes { raw: Seq<u8>, shown: Seq<char> },
}

impl View for PartName {
    type V = NameView;

    open spec fn view(&self) -> NameView {
        match self {
            PartName::Text(text) => NameView::Text(text@),
            PartName::Bytes { raw, shown } => NameView::Bytes { raw: raw@, shown: shown@ },
        }
    }
}

/// One component of a path.
#[derive(Debug, PartialEq, Eq, Hash)]
pub struct PathPart {
    pub kind: PartKind,
    pub name: PartName,
}

/// The model of a `PathPart`.
pub struct PartView {
    pub kind: PartKind,
    pub name: NameView,
}

impl View for PathPart {
    type V = PartView;

    open spec fn view(&self) -> PartView {
        PartView { kind: self.kind, name: self.name@ }
    }
}

/// The component that names a file or directory by the text `name`.
pub open spec fn named(name: Seq<char>) -> PartView {
    PartView { kind: PartKind::Normal, name: NameView::Text(name) }
}

/// The text of a component, where it is text.
pub open spec fn text_of(part: PartView) -> Option<Seq<char>> {
    match part.name {
        NameView::Text(text) => Some(text),
        NameView::Bytes { .. } => None,
    }
}

/// The text that stands for a component: its own text, or what it is shown
/// as where it is not text.
pub open spec fn shown_as(part: PartView) -> Seq<char> {
    match part.name {
        NameView::Text(text) => text,
        NameView::Bytes { raw, shown } => shown,
    }
}

/// The components held by `parts`.
pub open spec fn parts_of(parts: Seq<PathPart>) -> Seq<PartView> {
    Seq::new(parts.len(), |i: int| parts[i]@)
}

/// Adding one component adds its model at the end.
pub proof fn lemma_parts_push(parts: Seq<PathPart>, part: PathPart)
    ensures
        parts_of(parts.push(part)) == parts_of(parts).push(part@),
{
    assert(parts_of(parts.push(part)) =~= parts_of(parts).push(part@));
}

/// The directory that holds what `path` names: `path` without its last
/// component. A path that is empty, or ends in a root or a prefix, has none.
pub open spec fn parent_of(path: Seq<PartView>) -> Option<Seq<PartView>> {
    if path.len() > 0 && !(path.last().kind is Root) && !(path.last().kind is Prefix) {
        Some(path.drop_last())
    } else {
        None
    }
}

/// The last component of `path`, where it names a file or directory.
pub open spec fn file_name_of(path: Seq<PartView>) -> Option<PartView> {
    if path.len() > 0 && path.last().kind is Normal {
        Some(path.last())
    } else {
        None
    }
}

/// Whether `path` is empty or begins with a name or with `..`: adjoined to
/// another path it follows that path as it is.
pub open spec fn is_plain(path: Seq<PartView>) -> bool {
    path.len() == 0 || path[0].kind is Normal || path[0].kind is ParentDir
}

/// `rest` adjoined to `base`. A plain `rest` follows the components of
/// `base`. One that begins with a prefix takes the place of `base`, and one
/// that begins with a root takes the place of all of `base` but its prefix.
/// A `.` at the start of `rest` is left out where something stands before it.
pub open spec fn joined(base: Seq<PartView>, rest: Seq<PartView>) -> Seq<PartView> {
    if is_plain(rest) {
        base + rest
    } else if rest[0].kind is Prefix {
        rest
    } else if rest[0].kind is Root {
        if base.len() > 0 && base[0].kind is Prefix {
            seq![base[0]] + rest
        } else {
            rest
        }
    } else if base.len() > 0 {
        base + rest.skip(1)
    } else {
        rest
    }
}

impl Clone for PartName {
    fn clone(&self) -> (copy: PartName)
        ensures
            copy@ == self@,
    {
        match self {
            PartName::Text(text) => PartName::Text(text.clone()),
            PartName::Bytes { raw, shown } => {
                let bytes = raw.clone();
                assert(bytes@ =~= raw@);
                PartName::Bytes { raw: bytes, shown: shown.clone() }
            },
        }
    }
}

impl PartName {
    /// Whether the two names are written alike.
    pub fn same_as(&self, other: &PartName) -> (same: bool)
        ensures
            same == (self@ == other@),
    {
        match (self, other) {
            (PartName::Text(a), PartName::Text(b)) => *a == *b,
            (PartName::Bytes { raw: a, shown: s }, PartName::Bytes { raw: b, shown: t }) => {
                same_bytes(a, b) && *s == *t
            },
            _ => false,
        }
    }
}

/// Whether the two vectors hold the same bytes.
fn same_bytes(a: &Vec<u8>, b: &Vec<u8>) -> (same: bool)
    ensures
        same == (a@ == b@),
{
    if a.len() != b.len() {
        return false;
    }
    let mut i: usize = 0;
    while i < a.len()
        invariant
            i <= a.len(),
            a.len() == b.len(),
            a@.take(i as int) == b@.take(i as int),
        decreases a.len() - i,
    {
        if a[i] != b[i] {
            return false;
        }
        assert(a@.take(i + 1) =~= a@.take(i as int).push(a@[i as int]));
        assert(b@.take(i + 1) =~= b@.take(i as int).push(b@[i as int]));
        i += 1;
    }
    assert(a@.take(i as int) =~= a@);
    assert(b@.take(i as int) =~= b@);
    true
}

impl Clone for PathPart {
    fn clone(&self) -> (copy: PathPart)
        ensures
            copy@ == self@,
    {
        PathPart { kind: self.kind, name: self.name.clone() }
    }
}

impl PathPart {
    /// The component that names a file or directory by the text `name`.
    pub fn named(name: String) -> (part: PathPart)
        ensures
            part@ == named(name@),
    {
        PathPart { kind: PartKind::Normal, name: PartName::Text(name) }
    }

    /// The text that stands for the component.
    pub fn shown(&self) -> (text: &String)
        ensures
            text@ == shown_as(self@),
    {
        match &self.name {
            PartName::Text(text) => text,
            PartName::Bytes { raw, shown } => shown,
        }
    }

    /// Whether the two components are of one kind and written alike.
    pub fn same_as(&self, other: &PathPart) -> (same: bool)
        ensures
            same == (self@ == other@),
    {
        self.kind == other.kind && self.name.same_as(&other.name)
    }
}

/// A path, held as its components from the outermost inwards. The empty
/// sequence is the empty path.
#[derive(Debug, PartialEq, Eq, Hash)]
pub struct SyncPath {
    pub parts: Vec<PathPart>,
}

impl View for SyncPath {
    type V = Seq<PartView>;

    open spec fn view(&self) -> Seq<PartView> {
        parts_of(self.parts@)
    }
}

/// Adds to `out` the components of `from` at the places `start` to `end`,
/// `end` left out.
fn append_range(out: &mut Vec<PathPart>, from: &Vec<PathPart>, start: usize, end: usize)
    requires
        start <= end <= from@.len(),
    ensures
        parts_of(final(out)@) == parts_of(old(out)@) + parts_of(from@).subrange(
            start as int,
            end as int,
        ),
{
    let ghost before = parts_of(out@);
    let ghost all = parts_of(from@);
    let mut i: usize = start;
    assert(before + all.subrange(start as int, start as int) =~= before);
    while i < end
        invariant
            start <= i <= end <= from@.len(),
            all == parts_of(from@),
            parts_of(out@) == before + all.subrange(start as int, i as int),
        decreases end - i,
    {
        let part = from[i].clone();
        proof {
            lemma_parts_push(out@, part);
            assert(before + all.subrange(start as int, i + 1) =~= (before + all.subrange(
                start as int,
                i as int,
            )).push(all[i as int]));
        }
        out.push(part);
        i += 1;
    }
}

impl Clone for SyncPath {
    fn clone(&self) -> (copy: SyncPath)
        ensures
            copy@ == self@,
    {
        let parts = self.parts.clone();
        assert(parts_of(parts@) =~= self@);
        SyncPath { parts }
    }
}

impl SyncPath {
    /// The path with the given components.
    pub fn from_parts(parts: Vec<PathPart>) -> (path: SyncPath)
        ensures
            path.parts == parts,
    {
        SyncPath { parts }
    }

    /// The number of components.
    pub fn len(&self) -> (n: usize)
        ensures
            n == self@.len(),
    {
        self.parts.len()
    }

    /// Whether `self` and `other` have the same components.
    pub fn same_as(&self, other: &SyncPath) -> (same: bool)
        ensures
            same == (self@ == other@),
    {
        if self.parts.len() != other.parts.len() {
            return false;
        }
        let same = other.starts_with(self);
        assert(other@.subrange(0, self@.len() as int) =~= other@);
        same
    }

    /// Whether the components of `base` are the first components of `self`.
    pub fn starts_with(&self, base: &SyncPath) -> (yes: bool)
        ensures
            yes == base@.is_prefix_of(self@),
    {
        if base.parts.len() > self.parts.len() {
            return false;
        }
        let mut i: usize = 0;
        while i < base.parts.len()
            invariant
                i <= base.parts.len(),
                base.parts.len() <= self.parts.len(),
                base@.take(i as int) == self@.take(i as int),
            decreases base.parts.len() - i,
        {
            if !base.parts[i].same_as(&self.parts[i]) {
                assert(base@[i as int] != self@.subrange(0, base@.len() as int)[i as int]);
                return false;
            }
            assert(base@.take(i + 1) =~= base@.take(i as int).push(base@[i as int]));
            assert(self@.take(i + 1) =~= self@.take(i as int).push(self@[i as int]));
            i += 1;
        }
        assert(base@.take(i as int) =~= base@);
        true
    }

    /// What is left of `self` below `base`, if `self` lies at or below `base`.
    pub fn strip_prefix(&self, base: &SyncPath) -> (rest: Option<SyncPath>)
        ensures
            rest is Some <==> base@.is_prefix_of(self@),
            rest is Some ==> rest->0@ == self@.skip(base@.len() as int),
    {
        if !self.starts_with(base) {
            return None;
        }
        let mut parts: Vec<PathPart> = Vec::new();
        append_range(&mut parts, &self.parts, base.parts.len(), self.parts.len());
        assert(parts_of(parts@) =~= self@.skip(base@.len() as int));
        Some(SyncPath { parts })
    }

    /// The directory that holds what `self` names, if there is one.
    pub fn parent(&self) -> (dir: Option<SyncPath>)
        ensures
            match dir {
                Some(dir) => parent_of(self@) == Some(dir@),
                None => parent_of(self@) is None,
            },
    {
        let n: usize = self.parts.len();
        if n == 0 {
            return None;
        }
        match self.parts[n - 1].kind {
            PartKind::Root | PartKind::Prefix => None,
            _ => {
                let mut parts: Vec<PathPart> = Vec::new();
                append_range(&mut parts, &self.parts, 0, n - 1);
                assert(parts_of(parts@) =~= self@.drop_last());
                Some(SyncPath { parts })
            },
        }
    }

    /// The last component, where it names a file or directory.
    pub fn file_name(&self) -> (name: Option<&PathPart>)
        ensures
            match name {
                Some(part) => file_name_of(self@) == Some(part@),
                None => file_name_of(self@) is None,
            },
    {
        let n: usize = self.parts.len();
        if n == 0 {
            return None;
        }
        match self.parts[n - 1].kind {
            PartKind::Normal => Some(&self.parts[n - 1]),
            _ => None,
        }
    }

    /// `rest` adjoined to `self`.
    pub fn join(&self, rest: &SyncPath) -> (path: SyncPath)
        ensures
            path@ == joined(self@, rest@),
    {
        let mut keep: usize = self.parts.len();
        let mut from: usize = 0;
        if rest.parts.len() > 0 {
            match rest.parts[0].kind {
                PartKind::Prefix => {
                    keep = 0;
                },
                PartKind::Root => {
                    keep = 0;
                    if self.parts.len() > 0 {
                        match self.parts[0].kind {
                            PartKind::Prefix => {
                                keep = 1;
                            },
                            _ => {},
                        }
                    }
                },
                PartKind::CurDir => {
                    if self.parts.len() > 0 {
                        from = 1;
                    }
                },
                _ => {},
            }
        }
        let mut parts: Vec<PathPart> = Vec::new();
        append_range(&mut parts, &self.parts, 0, keep);
        append_range(&mut parts, &rest.parts, from, rest.parts.len());
        proof {
            assert(rest@.subrange(0, rest@.len() as int) =~= rest@);
            assert(self@.subrange(0, self@.len() as int) =~= self@);
            assert(self@.subrange(0, 0) + rest@ =~= rest@);
            if self@.len() > 0 {
                assert(self@.subrange(0, 1) =~= seq![self@[0]]);
            }
            assert(parts_of(parts@) =~= joined(self@, rest@));
        }
        SyncPath { parts }
    }
}

} // verus!
