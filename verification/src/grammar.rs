//! The grammar of version tags: an optional `v`, up to three dotted numbers of one to
//! five digits each, and an optional suffix that starts with a hyphen.

use vstd::prelude::*;
use vstd::string::StringExecFns;
use crate::numeral::{all_digits, decimal, is_digit, short_number};
use crate::text::chars_of;
use crate::version::{opt_text, VersionView};

verus! {

/// One number of a tag: one to five decimal digits.
pub open spec fn is_number(s: Seq<char>) -> bool {
    1 <= s.len() <= 5 && all_digits(s)
}

/// The text that marks a snapshot.
pub open spec fn marker() -> Seq<char> {
    seq!['-', 'S', 'N', 'A', 'P', 'S', 'H', 'O', 'T']
}

/// The marker stands in `t` at index `i`.
pub open spec fn marker_at(t: Seq<char>, i: int) -> bool {
    0 <= i && i + 9 <= t.len() && t.subrange(i, i + 9) == marker()
}

/// How many times the marker stands in `t` at an index below `n`.
pub open spec fn markers_below(t: Seq<char>, n: int) -> nat
    decreases n,
{
    if n <= 0 {
        0
    } else {
        markers_below(t, n - 1) + if marker_at(t, n - 1) {
            1nat
        } else {
            0nat
        }
    }
}

/// The first index from `i` on at which the marker stands in `t`; the length of `t`
/// where it stands nowhere.
pub open spec fn first_marker_from(t: Seq<char>, i: int) -> int
    decreases t.len() - i,
{
    if i < 0 || i >= t.len() {
        t.len() as int
    } else if marker_at(t, i) {
        i
    } else {
        first_marker_from(t, i + 1)
    }
}

/// A suffix as the grammar admits it: a hyphen, then anything but a line feed.
pub open spec fn is_suffix(t: Seq<char>) -> bool {
    &&& t.len() >= 1
    &&& t[0] == '-'
    &&& forall|i: int| 0 <= i < t.len() ==> #[trigger] t[i] != '\n'
}

/// The branch that a suffix names: what stands between its leading hyphen and the
/// first marker, or its end; none where nothing stands there.
pub open spec fn branch_of_suffix(t: Seq<char>) -> Option<Seq<char>> {
    let end = first_marker_from(t, 0);
    if end > 1 {
        Some(t.subrange(1, end))
    } else {
        None
    }
}

/// The text ends with the marker.
pub open spec fn ends_with_marker(t: Seq<char>) -> bool {
    marker_at(t, t.len() - 9)
}

/// A suffix tells a snapshot where it ends with the marker, and also where the marker
/// stands in it exactly once, wherever that is.
pub open spec fn snapshot_of_suffix(t: Seq<char>) -> bool {
    ends_with_marker(t) || markers_below(t, t.len() as int) == 1
}

/// A dot and the digits of a number, or nothing.
pub open spec fn dotted(n: Option<Seq<char>>) -> Seq<char> {
    match n {
        Some(d) => seq!['.'] + d,
        None => Seq::empty(),
    }
}

/// A text, or nothing.
pub open spec fn or_empty(t: Option<Seq<char>>) -> Seq<char> {
    match t {
        Some(x) => x,
        None => Seq::empty(),
    }
}

/// A number's worth, or `-1` for none.
pub open spec fn number_or_absent(n: Option<Seq<char>>) -> int {
    match n {
        Some(d) => decimal(d) as int,
        None => -1,
    }
}

/// A tag taken apart. `minor` and `patch` hold digits only, `suffix` begins with its
/// hyphen.
pub struct TagParts {
    pub lead: Seq<char>,
    pub major: Seq<char>,
    pub minor: Option<Seq<char>>,
    pub patch: Option<Seq<char>>,
    pub suffix: Option<Seq<char>>,
}

impl TagParts {
    /// The parts are such as the grammar admits.
    pub open spec fn well_formed(self) -> bool {
        &&& self.lead == Seq::<char>::empty() || self.lead == seq!['v'] || self.lead == seq!['V']
        &&& is_number(self.major)
        &&& self.minor matches Some(m) ==> is_number(m)
        &&& self.patch matches Some(p) ==> is_number(p) && self.minor is Some
        &&& self.suffix matches Some(x) ==> is_suffix(x)
    }

    /// The tag that the parts spell.
    pub open spec fn text(self) -> Seq<char> {
        self.lead + self.major + dotted(self.minor) + dotted(self.patch) + or_empty(self.suffix)
    }

    /// The version that the parts tell.
    pub open spec fn version(self) -> VersionView {
        VersionView {
            major: decimal(self.major) as int,
            minor: number_or_absent(self.minor),
            patch: number_or_absent(self.patch),
            is_snapshot: match self.suffix {
                Some(x) => snapshot_of_suffix(x),
                None => false,
            },
            branch: match self.suffix {
                Some(x) => branch_of_suffix(x),
                None => None,
            },
            raw: self.text(),
        }
    }
}

/// `v` is a version that the grammar reads from the tag `s`.
pub open spec fn reads_as(s: Seq<char>, v: VersionView) -> bool {
    exists|p: TagParts| p.well_formed() && p.text() == s && #[trigger] p.version() == v
}

/// `s` is a tag of the grammar.
pub open spec fn is_tag(s: Seq<char>) -> bool {
    exists|p: TagParts| #[trigger] p.well_formed() && p.text() == s
}

/// The `v` that a tag may begin with, or nothing.
pub open spec fn lead_of(raw: Seq<char>) -> Seq<char> {
    if raw.len() > 0 && (raw[0] == 'v' || raw[0] == 'V') {
        raw.take(1)
    } else {
        Seq::empty()
    }
}

/// The text of a capture group that holds a dot and a number, where the group took
/// part in the match.
pub open spec fn is_dotted_number(group: Option<Seq<char>>) -> bool {
    group matches Some(t) ==> t.len() >= 1 && t[0] == '.' && is_number(t.skip(1))
}

/// The worth of a capture group that holds a dot and a number; `-1` where the group
/// took no part in the match.
pub open spec fn dotted_value(group: Option<Seq<char>>) -> int {
    match group {
        Some(t) => decimal(t.skip(1)) as int,
        None => -1,
    }
}

/// The capture groups are five and of the grammar's form: group `1` the major
/// number, groups `2` and `3` a dot and the minor or the patch number, no patch
/// without a minor, group `4` a suffix.
pub open spec fn groups_well_formed(groups: Seq<Option<Seq<char>>>) -> bool {
    &&& groups.len() == 5
    &&& groups[1] matches Some(major) && is_number(major)
    &&& is_dotted_number(groups[2])
    &&& is_dotted_number(groups[3])
    &&& groups[3] is Some ==> groups[2] is Some
    &&& groups[4] matches Some(x) ==> is_suffix(x)
}

/// The texts of groups `1` to `4`, one behind the other.
pub open spec fn spelled(groups: Seq<Option<Seq<char>>>) -> Seq<char>
    recommends
        groups.len() == 5,
{
    or_empty(groups[1]) + or_empty(groups[2]) + or_empty(groups[3]) + or_empty(groups[4])
}

/// The version of the tag `raw`, given the capture groups of a match on it. None
/// where the groups are not of the grammar's form or do not spell `raw` behind its
/// optional `v`.
pub open spec fn version_of_groups(raw: Seq<char>, groups: Seq<Option<Seq<char>>>) -> Option<
    VersionView,
> {
    if groups_well_formed(groups) && raw == lead_of(raw) + spelled(groups) {
        Some(
            VersionView {
                major: decimal(groups[1]->0) as int,
                minor: dotted_value(groups[2]),
                patch: dotted_value(groups[3]),
                is_snapshot: match groups[4] {
                    Some(x) => snapshot_of_suffix(x),
                    None => false,
                },
                branch: match groups[4] {
                    Some(x) => branch_of_suffix(x),
                    None => None,
                },
                raw,
            },
        )
    } else {
        None
    }
}

/// The text of a capture group without its first character.
pub open spec fn behind_first(group: Option<Seq<char>>) -> Option<Seq<char>> {
    match group {
        Some(t) => Some(t.skip(1)),
        None => None,
    }
}

/// A version built from capture groups is one that the grammar reads from the tag.
pub proof fn lemma_groups_read_tag(raw: Seq<char>, groups: Seq<Option<Seq<char>>>)
    requires
        version_of_groups(raw, groups) is Some,
    ensures
        reads_as(raw, version_of_groups(raw, groups)->0),
{
    let p = TagParts {
        lead: lead_of(raw),
        major: groups[1]->0,
        minor: behind_first(groups[2]),
        patch: behind_first(groups[3]),
        suffix: groups[4],
    };
    assert(dotted(p.minor) =~= or_empty(groups[2]));
    assert(dotted(p.patch) =~= or_empty(groups[3]));
    assert(p.text() =~= lead_of(raw) + spelled(groups));
    if raw.len() > 0 {
        assert(raw.take(1) =~= seq![raw[0]]);
    }
    assert(p.well_formed());
    assert(p.version() == version_of_groups(raw, groups)->0);
}

impl TagParts {
    /// Where the major number ends in the tag.
    pub open spec fn major_end(self) -> int {
        (self.lead.len() + self.major.len()) as int
    }

    /// Where the minor number ends in the tag, if there is one.
    pub open spec fn minor_end(self) -> int {
        self.major_end() + dotted(self.minor).len()
    }

    /// Where the patch number ends in the tag, if there is one.
    pub open spec fn patch_end(self) -> int {
        self.minor_end() + dotted(self.patch).len()
    }
}

/// Where the characters of each part stand in the tag, and what follows each number:
/// a dot before a further number, a hyphen before the suffix, or the end.
pub proof fn lemma_layout(p: TagParts)
    requires
        p.well_formed(),
    ensures
        p.text().len() == p.patch_end() + or_empty(p.suffix).len(),
        forall|i: int| 0 <= i < p.lead.len() ==> p.text()[i] == p.lead[i],
        forall|i: int| 0 <= i < p.major.len() ==> p.text()[p.lead.len() + i] == p.major[i],
        p.minor matches Some(m) ==> p.text()[p.major_end()] == '.' && forall|i: int|
            0 <= i < m.len() ==> p.text()[p.major_end() + 1 + i] == m[i],
        p.patch matches Some(n) ==> p.text()[p.minor_end()] == '.' && forall|i: int|
            0 <= i < n.len() ==> p.text()[p.minor_end() + 1 + i] == n[i],
        p.suffix matches Some(x) ==> p.text()[p.patch_end()] == '-' && forall|i: int|
            0 <= i < x.len() ==> p.text()[p.patch_end() + i] == x[i],
{
    let a = p.lead + p.major;
    let b = a + dotted(p.minor);
    let c = b + dotted(p.patch);
    assert(p.text() == c + or_empty(p.suffix));
    assert forall|i: int| 0 <= i < p.major.len() implies p.text()[p.lead.len() + i]
        == p.major[i] by {
        assert(a[p.lead.len() + i] == p.major[i]);
        assert(b[p.lead.len() + i] == a[p.lead.len() + i]);
        assert(c[p.lead.len() + i] == b[p.lead.len() + i]);
    }
    assert forall|i: int| 0 <= i < p.lead.len() implies p.text()[i] == p.lead[i] by {
        assert(a[i] == p.lead[i]);
        assert(b[i] == a[i]);
        assert(c[i] == b[i]);
    }
    if p.minor is Some {
        let m = p.minor->0;
        assert forall|i: int| 0 <= i < m.len() + 1 implies p.text()[p.major_end() + i] == dotted(
            p.minor,
        )[i] by {
            assert(b[p.major_end() + i] == dotted(p.minor)[i]);
            assert(c[p.major_end() + i] == b[p.major_end() + i]);
        }
        assert(p.text()[p.major_end() + 0] == dotted(p.minor)[0]);
        assert forall|i: int| 0 <= i < m.len() implies p.text()[p.major_end() + 1 + i] == m[i] by {
            assert(p.text()[p.major_end() + (i + 1)] == dotted(p.minor)[i + 1]);
        }
    }
    if p.patch is Some {
        let n = p.patch->0;
        assert forall|i: int| 0 <= i < n.len() + 1 implies p.text()[p.minor_end() + i] == dotted(
            p.patch,
        )[i] by {
            assert(c[p.minor_end() + i] == dotted(p.patch)[i]);
        }
        assert(p.text()[p.minor_end() + 0] == dotted(p.patch)[0]);
        assert forall|i: int| 0 <= i < n.len() implies p.text()[p.minor_end() + 1 + i] == n[i] by {
            assert(p.text()[p.minor_end() + (i + 1)] == dotted(p.patch)[i + 1]);
        }
    }
    if p.suffix is Some {
        let x = p.suffix->0;
        assert forall|i: int| 0 <= i < x.len() implies p.text()[p.patch_end() + i] == x[i] by {}
        assert(p.text()[p.patch_end() + 0] == x[0]);
    }
}

/// What follows a number in a tag is no digit, and tells what comes next: a dot a
/// further number, anything else the suffix.
pub proof fn lemma_number_ends(p: TagParts)
    requires
        p.well_formed(),
    ensures
        p.major_end() <= p.minor_end() <= p.patch_end() <= p.text().len(),
        p.text().len() > p.major_end() ==> !is_digit(p.text()[p.major_end()]) && (
        p.text()[p.major_end()] == '.' <==> p.minor is Some),
        p.text().len() > p.minor_end() ==> !is_digit(p.text()[p.minor_end()]) && (p.minor is Some
            ==> (p.text()[p.minor_end()] == '.' <==> p.patch is Some)),
        p.text().len() > p.patch_end() <==> p.suffix is Some,
        p.minor is Some ==> p.text().len() > p.major_end(),
        p.patch is Some ==> p.text().len() > p.minor_end(),
{
    lemma_layout(p);
}

/// A tag comes apart in one way only.
pub proof fn lemma_parts_unique(p: TagParts, q: TagParts)
    requires
        p.well_formed(),
        q.well_formed(),
        p.text() == q.text(),
    ensures
        p == q,
{
    let s = p.text();
    lemma_layout(p);
    lemma_layout(q);
    lemma_number_ends(p);
    lemma_number_ends(q);
    // the lead
    let pl = p.lead.len() as int;
    let ql = q.lead.len() as int;
    assert(p.major[0] == s[pl + 0]);
    assert(q.major[0] == s[ql + 0]);
    assert(is_digit(p.major[0]) && is_digit(q.major[0]));
    assert(p.lead.len() == q.lead.len());
    assert(p.lead =~= q.lead);
    // the major number
    if p.major.len() < q.major.len() {
        assert(s[ql + p.major.len()] == q.major[p.major.len() as int]);
        assert(is_digit(q.major[p.major.len() as int]));
    }
    if q.major.len() < p.major.len() {
        assert(s[pl + q.major.len()] == p.major[q.major.len() as int]);
        assert(is_digit(p.major[q.major.len() as int]));
    }
    assert(p.major.len() == q.major.len());
    assert(p.major =~= q.major) by {
        assert forall|i: int| 0 <= i < p.major.len() implies p.major[i] == q.major[i] by {
            assert(s[p.lead.len() + i] == p.major[i]);
            assert(s[q.lead.len() + i] == q.major[i]);
        }
    }
    // the minor number
    assert(p.minor is Some <==> q.minor is Some);
    if p.minor is Some {
        let m = p.minor->0;
        let n = q.minor->0;
        let at = p.major_end() + 1;
        if m.len() < n.len() {
            assert(s[at + m.len()] == n[m.len() as int]);
            assert(is_digit(n[m.len() as int]));
        }
        if n.len() < m.len() {
            assert(s[at + n.len()] == m[n.len() as int]);
            assert(is_digit(m[n.len() as int]));
        }
        assert(m.len() == n.len());
        assert(m =~= n) by {
            assert forall|i: int| 0 <= i < m.len() implies m[i] == n[i] by {
                assert(s[at + i] == m[i]);
                assert(s[at + i] == n[i]);
            }
        }
    }
    assert(p.minor == q.minor);
    // the patch number
    assert(p.patch is Some <==> q.patch is Some);
    if p.patch is Some {
        let m = p.patch->0;
        let n = q.patch->0;
        let at = p.minor_end() + 1;
        if m.len() < n.len() {
            assert(s[at + m.len()] == n[m.len() as int]);
            assert(is_digit(n[m.len() as int]));
        }
        if n.len() < m.len() {
            assert(s[at + n.len()] == m[n.len() as int]);
            assert(is_digit(m[n.len() as int]));
        }
        assert(m.len() == n.len());
        assert(m =~= n) by {
            assert forall|i: int| 0 <= i < m.len() implies m[i] == n[i] by {
                assert(s[at + i] == m[i]);
                assert(s[at + i] == n[i]);
            }
        }
    }
    assert(p.patch == q.patch);
    // the suffix
    assert(p.suffix is Some <==> q.suffix is Some);
    if p.suffix is Some {
        let x = p.suffix->0;
        let y = q.suffix->0;
        assert(x =~= y) by {
            assert forall|i: int| 0 <= i < x.len() implies x[i] == y[i] by {
                assert(s[p.patch_end() + i] == x[i]);
                assert(s[q.patch_end() + i] == y[i]);
            }
        }
    }
    assert(p.suffix == q.suffix);
}

/// The grammar reads at most one version from a tag.
pub proof fn lemma_reading_unique(s: Seq<char>, v: VersionView, w: VersionView)
    requires
        reads_as(s, v),
        reads_as(s, w),
    ensures
        v == w,
{
    let p = choose|p: TagParts| p.well_formed() && p.text() == s && #[trigger] p.version() == v;
    let q = choose|q: TagParts| q.well_formed() && q.text() == s && #[trigger] q.version() == w;
    lemma_parts_unique(p, q);
}

/// The version of the tag `s`: what the grammar reads from it, or none where `s` is no
/// tag of the grammar.
pub open spec fn tag_version(s: Seq<char>) -> Option<VersionView> {
    if is_tag(s) {
        Some((choose|p: TagParts| #[trigger] p.well_formed() && p.text() == s).version())
    } else {
        None
    }
}

/// The version of a tag is the one version that the grammar reads from it.
pub proof fn lemma_tag_version(s: Seq<char>, v: VersionView)
    ensures
        reads_as(s, v) <==> tag_version(s) == Some(v),
{
    if reads_as(s, v) {
        let p = choose|p: TagParts| p.well_formed() && p.text() == s && #[trigger] p.version() == v;
        let q = choose|q: TagParts| #[trigger] q.well_formed() && q.text() == s;
        lemma_parts_unique(p, q);
    }
    if tag_version(s) == Some(v) {
        let q = choose|q: TagParts| #[trigger] q.well_formed() && q.text() == s;
        assert(q.well_formed() && q.text() == s && q.version() == v);
    }
}

/// The version of a tag keeps the tag as its raw text.
pub proof fn lemma_tag_version_keeps_text(s: Seq<char>)
    ensures
        tag_version(s) matches Some(v) ==> v.raw == s,
{
}

/// A dot and the digits of a number as a capture group holds them, or no group.
pub open spec fn dotted_group(n: Option<Seq<char>>) -> Option<Seq<char>> {
    match n {
        Some(d) => Some(seq!['.'] + d),
        None => None,
    }
}

/// The capture groups that tell the parts of a tag: the whole tag, the major number,
/// the minor and the patch number each behind its dot, and the suffix.
pub open spec fn groups_of_parts(p: TagParts) -> Seq<Option<Seq<char>>> {
    seq![Some(p.text()), Some(p.major), dotted_group(p.minor), dotted_group(p.patch), p.suffix]
}

/// From the capture groups that tell the parts of a tag comes the version of that tag,
/// with the tag as its raw text, and it is the one version that the grammar reads from
/// the tag. So where the engine answers a tag of the grammar with its parts, the tag
/// is read, and read as itself.
pub proof fn lemma_parts_read_back(p: TagParts)
    requires
        p.well_formed(),
    ensures
        version_of_groups(p.text(), groups_of_parts(p)) == Some(p.version()),
        tag_version(p.text()) == Some(p.version()),
        p.version().raw == p.text(),
{
    let s = p.text();
    let g = groups_of_parts(p);
    lemma_layout(p);
    let at = p.lead.len() as int;
    assert(s[at + 0] == p.major[0]);
    assert(is_digit(p.major[0]));
    if at == 1 {
        assert(s[0] == p.lead[0]);
        assert(s.take(1) =~= p.lead);
    }
    assert(lead_of(s) =~= p.lead);
    if p.minor is Some {
        assert(g[2]->0.skip(1) =~= p.minor->0);
    }
    if p.patch is Some {
        assert(g[3]->0.skip(1) =~= p.patch->0);
    }
    assert(or_empty(g[2]) =~= dotted(p.minor));
    assert(or_empty(g[3]) =~= dotted(p.patch));
    assert(spelled(g) =~= p.major + dotted(p.minor) + dotted(p.patch) + or_empty(p.suffix));
    assert(s =~= lead_of(s) + spelled(g));
    assert(groups_well_formed(g));
    assert(version_of_groups(s, g) == Some(p.version()));
    lemma_tag_version(s, p.version());
}

/// A tag begins with a digit, or with a `v` and then a digit: any other string is no
/// tag of the grammar.
pub proof fn lemma_tag_begins_with_number(s: Seq<char>)
    requires
        is_tag(s),
    ensures
        s.len() >= 1,
        is_digit(s[0]) || ((s[0] == 'v' || s[0] == 'V') && s.len() >= 2 && is_digit(s[1])),
{
    let p = choose|p: TagParts| #[trigger] p.well_formed() && p.text() == s;
    lemma_layout(p);
    lemma_number_ends(p);
    let at = p.lead.len() as int;
    assert(s[at + 0] == p.major[0]);
    assert(is_digit(p.major[0]));
    if at == 1 {
        assert(s[0] == p.lead[0]);
    }
}

/// Whether the marker stands in `t` at index `i`.
pub fn has_marker_at(t: &Vec<char>, i: usize) -> (r: bool)
    ensures
        r == marker_at(t@, i as int),
{
    if i >= t.len() || t.len() - i < 9 {
        return false;
    }
    let r = t[i] == '-' && t[i + 1] == 'S' && t[i + 2] == 'N' && t[i + 3] == 'A' && t[i + 4] == 'P'
        && t[i + 5] == 'S' && t[i + 6] == 'H' && t[i + 7] == 'O' && t[i + 8] == 'T';
    proof {
        let w = t@.subrange(i as int, i + 9);
        if r {
            assert(w =~= marker());
        } else {
            assert(w[0] == t[i as int] && w[1] == t[i + 1] && w[2] == t[i + 2] && w[3] == t[i + 3]
                && w[4] == t[i + 4] && w[5] == t[i + 5] && w[6] == t[i + 6] && w[7] == t[i + 7]
                && w[8] == t[i + 8]);
        }
    }
    r
}

/// Takes a suffix apart into its branch and whether it tells a snapshot; `None` where
/// the text is no suffix of the grammar.
pub fn split_suffix(suffix: &str) -> (r: Option<(Option<String>, bool)>)
    ensures
        r is Some <==> is_suffix(suffix@),
        r matches Some(pair) ==> opt_text(pair.0) == branch_of_suffix(suffix@) && pair.1
            == snapshot_of_suffix(suffix@),
{
    let t = chars_of(suffix);
    if t.len() == 0 || t[0] != '-' {
        return None;
    }
    let mut count: usize = 0;
    let mut first: Option<usize> = None;
    let mut i: usize = 0;
    while i < t.len()
        invariant
            i <= t.len(),
            t@ == suffix@,
            count == markers_below(t@, i as int),
            count <= i,
            forall|j: int| 0 <= j < i ==> #[trigger] t@[j] != '\n',
            match first {
                Some(f) => f < i && first_marker_from(t@, 0) == f,
                None => first_marker_from(t@, 0) == first_marker_from(t@, i as int),
            },
        decreases t.len() - i,
    {
        if t[i] == '\n' {
            return None;
        }
        if has_marker_at(&t, i) {
            count = count + 1;
            if first.is_none() {
                first = Some(i);
            }
        }
        i = i + 1;
    }
    let end = match first {
        Some(f) => f,
        None => t.len(),
    };
    let branch = if end > 1 {
        Some(String::from_str(suffix.substring_char(1, end)))
    } else {
        None
    };
    let at_end = t.len() >= 9 && has_marker_at(&t, t.len() - 9);
    Some((branch, at_end || count == 1))
}

/// Reads a dot and a number of one to five digits.
pub fn dotted_number(text: &str) -> (r: Option<i32>)
    ensures
        r is Some <==> text@.len() >= 1 && text@[0] == '.' && is_number(text@.skip(1)),
        r matches Some(n) ==> n == decimal(text@.skip(1)),
{
    let t = chars_of(text);
    if t.len() == 0 || t[0] != '.' {
        return None;
    }
    short_number(&t, 1)
}

/// Reads a number of one to five digits.
pub fn plain_number(text: &str) -> (r: Option<i32>)
    ensures
        r is Some <==> is_number(text@),
        r matches Some(n) ==> n == decimal(text@),
{
    let t = chars_of(text);
    proof {
        assert(t@.skip(0) =~= t@);
    }
    short_number(&t, 0)
}

/// Reads a capture group that holds a dot and a number; an absent group reads as
/// `-1`. `None` where the group holds anything else.
pub(crate) fn optional_number(group: &Option<String>) -> (r: Option<i32>)
    ensures
        r is Some <==> is_dotted_number(opt_text(*group)),
        r matches Some(n) ==> n == dotted_value(opt_text(*group)),
{
    match group {
        Some(t) => dotted_number(t.as_str()),
        None => Some(-1),
    }
}

/// Reads a capture group that holds a suffix; an absent group names no branch and
/// tells no snapshot. `None` where the group holds anything else.
pub(crate) fn optional_suffix(group: &Option<String>) -> (r: Option<(Option<String>, bool)>)
    ensures
        r is Some <==> (opt_text(*group) matches Some(x) ==> is_suffix(x)),
        r matches Some(pair) ==> match opt_text(*group) {
            Some(x) => opt_text(pair.0) == branch_of_suffix(x) && pair.1 == snapshot_of_suffix(x),
            None => pair.0 is None && !pair.1,
        },
{
    match group {
        Some(t) => split_suffix(t.as_str()),
        None => Some((None, false)),
    }
}

/// Appends the text of a capture group, if it has one.
pub(crate) fn append_group(text: &mut String, group: &Option<String>)
    ensures
        final(text)@ == old(text)@ + or_empty(opt_text(*group)),
{
    match group {
        Some(t) => {
            text.append(t.as_str());
        },
        None => {
            assert(text@ + Seq::<char>::empty() =~= text@);
        },
    }
}

/// Whether `tail` is all of `raw` behind its optional `v`.
pub(crate) fn spells(raw: &str, tail: &String) -> (r: bool)
    requires
        tail@.len() > 0,
        is_digit(tail@[0]),
    ensures
        r == (raw@ == lead_of(raw@) + tail@),
{
    let whole = String::from_str(raw);
    let lower = String::from_str("v").concat(tail.as_str());
    let upper = String::from_str("V").concat(tail.as_str());
    proof {
        reveal_strlit("v");
        reveal_strlit("V");
        assert(lower@ =~= seq!['v'] + tail@);
        assert(upper@ =~= seq!['V'] + tail@);
        assert(Seq::<char>::empty() + tail@ =~= tail@);
        if raw@.len() > 0 {
            assert(raw@.take(1) =~= seq![raw@[0]]);
        }
    }
    whole == *tail || whole == lower || whole == upper
}

} // verus!
