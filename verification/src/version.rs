//! Versions of image tags: what a tag says, when two tags name the same version,
//! and the order in which versions age.

use std::cmp::Ordering;
use std::hash::{Hash, Hasher};
use vstd::prelude::*;
use vstd::std_specs::cmp::{PartialEqSpecImpl, PartialOrdSpecImpl};
use vstd::string::StringExecFns;
use crate::grammar::{
    append_group, groups_of_parts, lemma_groups_read_tag, lemma_parts_read_back,
    lemma_tag_version, optional_number, optional_suffix, plain_number, spelled, spells,
    tag_version, version_of_groups, TagParts,
};
use crate::pattern::{
    captures, compile, groups_view, regex_captures, regex_compiles, regex_source, Compiled,
};
use crate::text::{
    lemma_lex_connected, lemma_lex_irreflexive, lemma_lex_transitive, lex_lt, precedes,
};

verus! {

/// A version as read from an image tag.
///
/// `minor` and `patch` are `-1` where the tag gives none. `raw` is the tag as it was
/// written; it is kept for display and takes no part in equality or order.
#[derive(Debug)]
pub struct Version {
    pub major: i32,
    pub minor: i32,
    pub patch: i32,
    pub is_snapshot: bool,
    pub branch: Option<String>,
    pub raw: String,
}

/// What identifies a version: everything but the text it was written as.
pub struct VersionKey {
    pub is_snapshot: bool,
    pub branch: Option<Seq<char>>,
    pub major: int,
    pub minor: int,
    pub patch: int,
}

/// The mathematical value of a [`Version`].
pub struct VersionView {
    pub major: int,
    pub minor: int,
    pub patch: int,
    pub is_snapshot: bool,
    pub branch: Option<Seq<char>>,
    pub raw: Seq<char>,
}

/// The view of an optional string.
pub open spec fn opt_text(s: Option<String>) -> Option<Seq<char>> {
    match s {
        Some(t) => Some(t@),
        None => None,
    }
}

/// The view of an optional version.
pub open spec fn opt_version(v: Option<Version>) -> Option<VersionView> {
    match v {
        Some(x) => Some(x@),
        None => None,
    }
}

/// Order of branches: no branch sorts before any branch, two branches sort as strings.
pub open spec fn branch_lt(a: Option<Seq<char>>, b: Option<Seq<char>>) -> bool {
    match (a, b) {
        (None, Some(_)) => true,
        (Some(x), Some(y)) => lex_lt(x, y),
        _ => false,
    }
}

impl VersionKey {
    /// The strict order of versions, oldest first: canonical before snapshot, then by
    /// branch, then by major, minor and patch number.
    pub open spec fn sorts_before(self, other: VersionKey) -> bool {
        if self.is_snapshot != other.is_snapshot {
            !self.is_snapshot
        } else if self.branch != other.branch {
            branch_lt(self.branch, other.branch)
        } else if self.major != other.major {
            self.major < other.major
        } else if self.minor != other.minor {
            self.minor < other.minor
        } else {
            self.patch < other.patch
        }
    }
}

impl VersionView {
    /// What identifies the version.
    pub open spec fn key(self) -> VersionKey {
        VersionKey {
            is_snapshot: self.is_snapshot,
            branch: self.branch,
            major: self.major,
            minor: self.minor,
            patch: self.patch,
        }
    }
}

impl View for Version {
    type V = VersionView;

    open spec fn view(&self) -> VersionView {
        VersionView {
            major: self.major as int,
            minor: self.minor as int,
            patch: self.patch as int,
            is_snapshot: self.is_snapshot,
            branch: opt_text(self.branch),
            raw: self.raw@,
        }
    }
}

/// Whether two optional strings hold the same text, or both none.
pub fn same_text(a: &Option<String>, b: &Option<String>) -> (r: bool)
    ensures
        r == (opt_text(*a) == opt_text(*b)),
{
    match (a, b) {
        (None, None) => true,
        (Some(x), Some(y)) => *x == *y,
        _ => false,
    }
}

/// Whether branch `a` sorts strictly before branch `b`.
pub fn branch_precedes(a: &Option<String>, b: &Option<String>) -> (r: bool)
    ensures
        r == branch_lt(opt_text(*a), opt_text(*b)),
{
    match (a, b) {
        (None, Some(_)) => true,
        (Some(x), Some(y)) => precedes(x.as_str(), y.as_str()),
        _ => false,
    }
}

impl PartialEq for Version {
    fn eq(&self, other: &Self) -> (r: bool) {
        self.major == other.major && self.minor == other.minor && self.patch == other.patch
            && self.is_snapshot == other.is_snapshot && same_text(&self.branch, &other.branch)
    }
}

impl PartialEqSpecImpl for Version {
    open spec fn obeys_eq_spec() -> bool {
        true
    }

    open spec fn eq_spec(&self, other: &Self) -> bool {
        self@.key() == other@.key()
    }
}

impl Eq for Version {

}

/// How two versions compare: the older one is the lesser, and the same version
/// compares as equal however it was written.
pub open spec fn ordering(a: VersionKey, b: VersionKey) -> Ordering {
    if a.sorts_before(b) {
        Ordering::Less
    } else if a == b {
        Ordering::Equal
    } else {
        Ordering::Greater
    }
}

impl PartialOrd for Version {
    fn partial_cmp(&self, other: &Self) -> (r: Option<Ordering>) {
        Some(self.cmp(other))
    }
}

impl PartialOrdSpecImpl for Version {
    open spec fn obeys_partial_cmp_spec() -> bool {
        true
    }

    open spec fn partial_cmp_spec(&self, other: &Self) -> Option<Ordering> {
        Some(ordering(self@.key(), other@.key()))
    }
}

impl Hash for Version {
    /// Feeds the hasher what identifies the version, by `Hash::hash` of a tuple: two
    /// versions that are equal feed it the same. Trusted, and nothing is claimed of
    /// the state that results.
    #[verifier::external_body]
    fn hash<H: Hasher>(&self, state: &mut H) {
        (self.major, self.minor, self.patch, self.is_snapshot, &self.branch).hash(state)
    }
}

impl Clone for Version {
    fn clone(&self) -> (r: Self)
        ensures
            r@ == self@,
    {
        let branch = match &self.branch {
            Some(b) => Some(b.clone()),
            None => None,
        };
        Version {
            major: self.major,
            minor: self.minor,
            patch: self.patch,
            is_snapshot: self.is_snapshot,
            branch,
            raw: self.raw.clone(),
        }
    }
}

impl Version {
    /// Builds the version of the tag `raw` from the capture groups of a match on it.
    ///
    /// The groups are held against the grammar and against `raw`: a version comes
    /// back only where they are numbers and a suffix of the grammar and spell `raw`,
    /// and it is then a version that the grammar reads from `raw`.
    pub fn from_groups(raw: &str, groups: &Vec<Option<String>>) -> (r: Option<Version>)
        ensures
            opt_version(r) == version_of_groups(raw@, groups_view(*groups)),
            r matches Some(v) ==> tag_version(raw@) == Some(v@),
    {
        let ghost g = groups_view(*groups);
        if groups.len() != 5 {
            return None;
        }
        proof {
            assert(g[1] == opt_text(groups[1]));
            assert(g[2] == opt_text(groups[2]));
            assert(g[3] == opt_text(groups[3]));
            assert(g[4] == opt_text(groups[4]));
        }
        let major = match &groups[1] {
            Some(t) => plain_number(t.as_str()),
            None => None,
        };
        let minor = optional_number(&groups[2]);
        let patch = optional_number(&groups[3]);
        let suffix = optional_suffix(&groups[4]);
        if major.is_none() || minor.is_none() || patch.is_none() || suffix.is_none() {
            return None;
        }
        if groups[3].is_some() && groups[2].is_none() {
            return None;
        }
        let mut tail = String::new();
        append_group(&mut tail, &groups[1]);
        append_group(&mut tail, &groups[2]);
        append_group(&mut tail, &groups[3]);
        append_group(&mut tail, &groups[4]);
        proof {
            assert(tail@ =~= spelled(g));
            assert(tail@[0] == (g[1]->0)[0]);
        }
        if !spells(raw, &tail) {
            return None;
        }
        let (branch, is_snapshot) = suffix.unwrap();
        let v = Version {
            major: major.unwrap(),
            minor: minor.unwrap(),
            patch: patch.unwrap(),
            is_snapshot,
            branch,
            raw: String::from_str(raw),
        };
        proof {
            lemma_groups_read_tag(raw@, g);
            lemma_tag_version(raw@, v@);
        }
        Some(v)
    }

    /// The tag exactly as it was written.
    pub fn to_string(&self) -> (r: String)
        ensures
            r@ == self@.raw,
    {
        self.raw.clone()
    }

    /// Whether `self` is strictly older than `other`.
    pub fn is_older_than(&self, other: &Version) -> (r: bool)
        ensures
            r == self@.key().sorts_before(other@.key()),
    {
        if self.is_snapshot != other.is_snapshot {
            !self.is_snapshot
        } else if !same_text(&self.branch, &other.branch) {
            branch_precedes(&self.branch, &other.branch)
        } else if self.major != other.major {
            self.major < other.major
        } else if self.minor != other.minor {
            self.minor < other.minor
        } else {
            self.patch < other.patch
        }
    }

    /// Compares two versions in the order of [`VersionKey::sorts_before`]; versions
    /// that differ only in how they were written compare as equal.
    pub fn cmp(&self, other: &Version) -> (r: Ordering)
        ensures
            r == ordering(self@.key(), other@.key()),
            (r == Ordering::Less) == self@.key().sorts_before(other@.key()),
            (r == Ordering::Equal) == (self@.key() == other@.key()),
            (r == Ordering::Greater) == other@.key().sorts_before(self@.key()),
    {
        proof {
            lemma_order_irreflexive(self@.key());
            lemma_order_connected(self@.key(), other@.key());
            if self@.key().sorts_before(other@.key()) {
                lemma_order_asymmetric(self@.key(), other@.key());
            }
        }
        if self == other {
            Ordering::Equal
        } else if self.is_older_than(other) {
            Ordering::Less
        } else {
            Ordering::Greater
        }
    }
}

/// The grammar of tags, as a regular expression: group `1` captures the major number,
/// groups `2` and `3` a dot and the minor or the patch number, group `4` the suffix.
pub const TAG_PATTERN: &'static str = r"^[vV]?(\d{1,5})(\.\d{1,5})?(\.\d{1,5})?(-.*)?$";

/// The regular-expression engine turned the tag pattern down.
#[derive(Debug)]
pub struct PatternError {}

/// Reads versions from tags.
pub struct VersionParser {
    re: Compiled,
}

/// What a search on the tag `s` comes to: no version where nothing matched, else the
/// version of the capture groups.
pub open spec fn version_of_search(s: Seq<char>, found: Option<Seq<Option<Seq<char>>>>) -> Option<
    VersionView,
> {
    match found {
        Some(groups) => version_of_groups(s, groups),
        None => None,
    }
}

impl VersionParser {
    /// The pattern that the parser searches tags with.
    pub closed spec fn pattern(self) -> Seq<char> {
        regex_source(self.re.re)
    }

    #[verifier::type_invariant]
    spec fn holds_tag_pattern(self) -> bool {
        self.pattern() == TAG_PATTERN@
    }

    /// Reads the version of the tag `s`, or `None` where `s` is no tag.
    ///
    /// The engine searches `s` with the tag pattern; what it captured is then held
    /// against the grammar and against `s`. So whatever the engine answers, a version
    /// that comes back is one that the grammar reads from `s`, it keeps `s` as its
    /// raw text, and a string outside the grammar gives no version.
    pub fn parse(&self, s: &str) -> (r: Option<Version>)
        ensures
            opt_version(r) == version_of_search(s@, regex_captures(TAG_PATTERN@, s@)),
            r matches Some(v) ==> tag_version(s@) == Some(v@) && v@.raw == s@,
            tag_version(s@) is None ==> r is None,
    {
        proof {
            use_type_invariant(self);
        }
        match captures(&self.re, s) {
            Some(groups) => Version::from_groups(s, &groups),
            None => None,
        }
    }
}

/// Compiles the tag pattern and makes a parser of it. Fails only where the engine
/// turns the pattern down.
pub fn parser() -> (r: Result<VersionParser, PatternError>)
    ensures
        r is Ok <==> regex_compiles(TAG_PATTERN@),
        r matches Ok(p) ==> p.pattern() == TAG_PATTERN@,
{
    match compile(TAG_PATTERN) {
        Ok(re) => Ok(VersionParser { re }),
        Err(_) => Err(PatternError {}),
    }
}

/// A search that answers a tag of the grammar with its parts comes to the version of
/// that tag, which keeps the tag as its raw text.
pub proof fn lemma_tag_is_read(p: TagParts)
    requires
        p.well_formed(),
    ensures
        version_of_search(p.text(), Some(groups_of_parts(p))) == tag_version(p.text()),
        tag_version(p.text()) matches Some(v) && v.raw == p.text(),
{
    lemma_parts_read_back(p);
}

/// No version is older than itself.
pub proof fn lemma_order_irreflexive(a: VersionKey)
    ensures
        !a.sorts_before(a),
{
}

/// If `a` is older than `b` and `b` older than `c`, then `a` is older than `c`.
pub proof fn lemma_order_transitive(a: VersionKey, b: VersionKey, c: VersionKey)
    requires
        a.sorts_before(b),
        b.sorts_before(c),
    ensures
        a.sorts_before(c),
{
    match (a.branch, b.branch, c.branch) {
        (Some(x), Some(y), Some(z)) => {
            if lex_lt(x, y) && lex_lt(y, z) {
                lemma_lex_transitive(x, y, z);
            }
            lemma_lex_irreflexive(x);
        },
        _ => {},
    }
}

/// Of two versions one is older than the other, unless they are the same version.
pub proof fn lemma_order_connected(a: VersionKey, b: VersionKey)
    ensures
        a.sorts_before(b) || b.sorts_before(a) || a == b,
{
    match (a.branch, b.branch) {
        (Some(x), Some(y)) => {
            lemma_lex_connected(x, y);
        },
        _ => {},
    }
}

/// Two versions are never older than each other.
pub proof fn lemma_order_asymmetric(a: VersionKey, b: VersionKey)
    requires
        a.sorts_before(b),
    ensures
        !b.sorts_before(a),
{
    if b.sorts_before(a) {
        lemma_order_transitive(a, b, a);
    }
}

/// Of two versions that differ only in their patch number, the one with the greater
/// patch number is the newer.
pub proof fn lemma_patch_decides(a: VersionKey, b: VersionKey)
    requires
        a.is_snapshot == b.is_snapshot,
        a.branch == b.branch,
        a.major == b.major,
        a.minor == b.minor,
    ensures
        a.sorts_before(b) == (a.patch < b.patch),
{
}

/// A tag without a patch number is older than the same tag with any patch number,
/// the absent number being `-1`.
pub proof fn lemma_absent_patch_is_oldest(a: VersionKey, b: VersionKey)
    requires
        a.is_snapshot == b.is_snapshot,
        a.branch == b.branch,
        a.major == b.major,
        a.minor == b.minor,
        a.patch == -1,
        b.patch >= 0,
    ensures
        a.sorts_before(b),
{
}

} // verus!
