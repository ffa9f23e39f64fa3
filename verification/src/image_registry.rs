//! What is said to a registry and what it answers: the commands that list and remove
//! images, and the lines of a listing.
//!
//! Nothing here runs a command. A caller runs what [`list_command`] or
//! [`remove_command`] returns and hands each line of the answer to [`add_line`].

use vstd::prelude::*;
use vstd::string::StringExecFns;
use crate::docker_registry_type::DockerRegistryType;
use crate::image::{with_entry, ImageEntry, ImageEntryView, Images};
use crate::pattern::regex_captures;
use crate::text::chars_of;
use crate::version::{version_of_search, Version, VersionParser, TAG_PATTERN};

verus! {

/// The texts of a list of words.
pub open spec fn words_view(words: Seq<String>) -> Seq<Seq<char>> {
    Seq::new(words.len(), |i: int| words[i]@)
}

/// How an image is named to a registry: the repository, a colon, and the tag as it
/// was written.
pub open spec fn reference_of(repository: Seq<char>, raw: Seq<char>) -> Seq<char> {
    repository + ":"@ + raw
}

/// The words of the command that lists the images of a registry, one line for each
/// with its id, its repository and its tag, a tab between them.
pub open spec fn list_words(kind: DockerRegistryType) -> Seq<Seq<char>> {
    match kind {
        DockerRegistryType::Docker => seq![
            "docker"@,
            "images"@,
            "--format"@,
            "{{.ID}}\t{{.Repository}}\t{{.Tag}}"@,
        ],
        DockerRegistryType::IbmCloudRegistry => seq![
            "ibmcloud"@,
            "cr"@,
            "images"@,
            "--format"@,
            "{{.Digest}}\t{{.Repository}}\t{{.Tag}}"@,
        ],
    }
}

/// The words of the command that removes the image `reference` from a registry.
pub open spec fn remove_words(kind: DockerRegistryType, reference: Seq<char>) -> Seq<Seq<char>> {
    match kind {
        DockerRegistryType::Docker => seq!["docker"@, "rmi"@, reference],
        DockerRegistryType::IbmCloudRegistry => seq!["ibmcloud"@, "cr"@, "image-rm"@, reference],
    }
}

/// The line that a dry run shows in place of removing the image `reference`.
pub open spec fn dry_run_text(kind: DockerRegistryType, reference: Seq<char>) -> Seq<char> {
    match kind {
        DockerRegistryType::Docker => "docker rmi "@ + reference,
        DockerRegistryType::IbmCloudRegistry => "ibmcloud cr image-rm "@ + reference,
    }
}

/// Names the version `ver` of the repository `image_name` to a registry.
pub fn image_reference(image_name: &str, ver: &Version) -> (r: String)
    ensures
        r@ == reference_of(image_name@, ver@.raw),
{
    String::from_str(image_name).concat(":").concat(ver.raw.as_str())
}

/// The command that lists the images of a registry of the kind `kind`: the program
/// first, then its arguments.
pub fn list_command(kind: &DockerRegistryType) -> (r: Vec<String>)
    ensures
        words_view(r@) == list_words(*kind),
{
    let mut words: Vec<String> = Vec::new();
    match kind {
        DockerRegistryType::Docker => {
            words.push(String::from_str("docker"));
            words.push(String::from_str("images"));
            words.push(String::from_str("--format"));
            words.push(String::from_str("{{.ID}}\t{{.Repository}}\t{{.Tag}}"));
        },
        DockerRegistryType::IbmCloudRegistry => {
            words.push(String::from_str("ibmcloud"));
            words.push(String::from_str("cr"));
            words.push(String::from_str("images"));
            words.push(String::from_str("--format"));
            words.push(String::from_str("{{.Digest}}\t{{.Repository}}\t{{.Tag}}"));
        },
    }
    assert(words_view(words@) =~= list_words(*kind));
    words
}

/// The command that removes the version `ver` of the repository `image_name` from a
/// registry of the kind `kind`: the program first, then its arguments.
pub fn remove_command(kind: &DockerRegistryType, image_name: &str, ver: &Version) -> (r: Vec<
    String,
>)
    ensures
        words_view(r@) == remove_words(*kind, reference_of(image_name@, ver@.raw)),
{
    let mut words: Vec<String> = Vec::new();
    match kind {
        DockerRegistryType::Docker => {
            words.push(String::from_str("docker"));
            words.push(String::from_str("rmi"));
        },
        DockerRegistryType::IbmCloudRegistry => {
            words.push(String::from_str("ibmcloud"));
            words.push(String::from_str("cr"));
            words.push(String::from_str("image-rm"));
        },
    }
    words.push(image_reference(image_name, ver));
    assert(words_view(words@) =~= remove_words(*kind, reference_of(image_name@, ver@.raw)));
    words
}

/// The line that a dry run shows in place of removing the version `ver` of the
/// repository `image_name`.
pub fn dry_run_line(kind: &DockerRegistryType, image_name: &str, ver: &Version) -> (r: String)
    ensures
        r@ == dry_run_text(*kind, reference_of(image_name@, ver@.raw)),
{
    let reference = image_reference(image_name, ver);
    match kind {
        DockerRegistryType::Docker => String::from_str("docker rmi ").concat(reference.as_str()),
        DockerRegistryType::IbmCloudRegistry => String::from_str("ibmcloud cr image-rm ").concat(
            reference.as_str(),
        ),
    }
}

/// The first index from `i` on at which `line` holds a tab; the length of `line`
/// where it holds none.
pub open spec fn tab_from(line: Seq<char>, i: int) -> int
    decreases line.len() - i,
{
    if i < 0 || i >= line.len() {
        line.len() as int
    } else if line[i] == '\t' {
        i
    } else {
        tab_from(line, i + 1)
    }
}

/// The first three fields of a line of a listing.
pub struct Fields {
    pub id: Seq<char>,
    pub repository: Seq<char>,
    pub tag: Seq<char>,
}

/// The id, the repository and the tag that a line of a listing holds: its first three
/// fields, a tab between them; what follows a third tab is not looked at. None where
/// the line has fewer than three fields.
pub open spec fn fields_of(line: Seq<char>) -> Option<Fields> {
    let first = tab_from(line, 0);
    let second = tab_from(line, first + 1);
    let third = tab_from(line, second + 1);
    if first < line.len() && second < line.len() {
        Some(
            Fields {
                id: line.subrange(0, first),
                repository: line.subrange(first + 1, second),
                tag: line.subrange(second + 1, third),
            },
        )
    } else {
        None
    }
}

/// The index of the first tab of `t` from `from` on, or the length of `t`.
fn find_tab(t: &Vec<char>, from: usize) -> (r: usize)
    requires
        from <= t.len(),
    ensures
        r == tab_from(t@, from as int),
        from <= r <= t.len(),
{
    let mut i: usize = from;
    while i < t.len()
        invariant
            from <= i <= t.len(),
            tab_from(t@, from as int) == tab_from(t@, i as int),
        decreases t.len() - i,
    {
        if t[i] == '\t' {
            return i;
        }
        i = i + 1;
    }
    i
}

/// What became of a line of a listing.
#[derive(PartialEq, Eq, Debug)]
pub enum Listed {
    /// The image stands in the catalog.
    Added,
    /// The tag of the line, which is held here, is no version: the line was passed
    /// over.
    Unrecognized(String),
    /// The line has fewer than three fields: it was passed over.
    Malformed,
}

/// The tag that a line was passed over for, where it was the tag.
pub open spec fn passed_over_tag(r: Listed) -> Option<Seq<char>> {
    match r {
        Listed::Unrecognized(tag) => Some(tag@),
        _ => None,
    }
}

/// Takes one line of a listing into the catalog: the image of its id, under its
/// repository, with the version of its tag. A line whose tag is no version, or which
/// has fewer than three fields, leaves the catalog as it is.
pub fn add_line(images: &mut Images, parser: &VersionParser, line: &str) -> (r: Listed)
    ensures
        match fields_of(line@) {
            None => r is Malformed && final(images)@ == old(images)@,
            Some(fields) => match version_of_search(
                fields.tag,
                regex_captures(TAG_PATTERN@, fields.tag),
            ) {
                None => passed_over_tag(r) == Some(fields.tag) && final(images)@ == old(images)@,
                Some(ver) => r is Added && final(images)@ == with_entry(
                    old(images)@,
                    fields.repository,
                    ImageEntryView { id: fields.id, ver },
                ),
            },
        },
{
    let t = chars_of(line);
    let first = find_tab(&t, 0);
    if first == t.len() {
        return Listed::Malformed;
    }
    let second = find_tab(&t, first + 1);
    if second == t.len() {
        return Listed::Malformed;
    }
    let third = find_tab(&t, second + 1);
    let id = line.substring_char(0, first);
    let repository = line.substring_char(first + 1, second);
    let tag = line.substring_char(second + 1, third);
    match parser.parse(tag) {
        Some(ver) => {
            images.insert(repository, ImageEntry { id: String::from_str(id), ver });
            Listed::Added
        },
        None => Listed::Unrecognized(String::from_str(tag)),
    }
}

} // verus!
