//! Image references: `[docker://][host/]<path>[:<tag>|@<alg>:<hex>]`.

use crate::errors::ReferenceError;
use crate::pattern::{is_match, regex_matches};
use crate::text::{
    chars_of, find_first, find_last, join, leading_run, segment_bounds, segments, slices,
    starts_with, trim_start,
};
use vstd::prelude::*;
use vstd::string::*;

verus! {

/// The registry of a reference that names none.
pub const DEFAULT_REGISTRY: &'static str = "registry-1.docker.io";

/// The tag of a reference that names no version.
pub const DEFAULT_TAG: &'static str = "latest";

/// What a reference written as a URL begins with.
pub const SCHEME_PREFIX: &'static str = "docker://";

/// The namespace of an image that is named without one.
pub const DEFAULT_NAMESPACE: &'static str = "library";

/// The regular expression of a repository path component. A leading name
/// that matches it belongs to the repository; one that does not is a host.
pub const PATH_COMPONENT_PATTERN: &'static str = "^[a-z0-9]+(?:[._-][a-z0-9]+)*$";

/// The greatest length of a repository name, in bytes.
pub const MAX_REPOSITORY_BYTES: usize = 127;

/// Image version, either a tag or a digest.
#[derive(Debug)]
pub enum Version {
    /// A tag, such as `latest`.
    Tag(String),
    /// A digest: its algorithm and its hex value.
    Digest(String, String),
}

/// What a `Version` stands for.
pub enum VersionView {
    Tag(Seq<char>),
    Digest(Seq<char>, Seq<char>),
}

impl View for Version {
    type V = VersionView;

    open spec fn view(&self) -> VersionView {
        match self {
            Version::Tag(tag) => VersionView::Tag(tag@),
            Version::Digest(algorithm, hex) => VersionView::Digest(algorithm@, hex@),
        }
    }
}

impl VersionView {
    /// The version as it is shown alone: `<tag>` or `<alg>:<hex>`.
    pub open spec fn text(self) -> Seq<char> {
        match self {
            VersionView::Tag(tag) => tag,
            VersionView::Digest(algorithm, hex) => algorithm + seq![':'] + hex,
        }
    }

    /// The version as it is written behind an image name: `:<tag>` or
    /// `@<alg>:<hex>`.
    pub open spec fn suffix(self) -> Seq<char> {
        match self {
            VersionView::Tag(tag) => seq![':'] + tag,
            VersionView::Digest(algorithm, hex) => seq!['@'] + algorithm + seq![':'] + hex,
        }
    }
}

/// The version that `s` spells. A leading run of `:` introduces a tag. A
/// leading run of `@` introduces a digest, whose algorithm ends at the first
/// `:` behind the run.
pub open spec fn parse_version(s: Seq<char>) -> Result<VersionView, ReferenceError> {
    if s.len() == 0 {
        Err(ReferenceError::VersionTooShort)
    } else if s[0] == ':' {
        Ok(VersionView::Tag(trim_start(s, ':')))
    } else if s[0] == '@' {
        let digest = trim_start(s, '@');
        match digest.index_of_first(':') {
            Some(colon) => Ok(VersionView::Digest(digest.take(colon), digest.skip(colon + 1))),
            None => Err(ReferenceError::WrongDigestFormat),
        }
    } else {
        Err(ReferenceError::UnknownVersionPrefix)
    }
}

impl Version {
    /// Reads a version with its leading `:` or `@`.
    pub fn from_str(s: &str) -> (r: Result<Version, ReferenceError>)
        ensures
            match r {
                Ok(version) => parse_version(s@) == Ok::<VersionView, ReferenceError>(version@),
                Err(e) => parse_version(s@) == Err::<VersionView, ReferenceError>(e),
            },
    {
        let text = chars_of(s);
        let n = text.len();
        if n == 0 {
            return Err(ReferenceError::VersionTooShort);
        }
        if text[0] == ':' {
            let from = leading_run(&text, ':');
            Ok(Version::Tag(s.substring_char(from, n).to_owned()))
        } else if text[0] == '@' {
            let from = leading_run(&text, '@');
            match find_first(&text, from, n, ':') {
                Some(colon) => {
                    let algorithm = s.substring_char(from, colon).to_owned();
                    let hex = s.substring_char(colon + 1, n).to_owned();
                    proof {
                        let digest = text@.skip(from as int);
                        assert(digest =~= text@.subrange(from as int, n as int));
                        assert(digest.take(colon - from) =~= s@.subrange(
                            from as int,
                            colon as int,
                        ));
                        assert(digest.skip(colon - from + 1) =~= s@.subrange(
                            colon + 1,
                            n as int,
                        ));
                    }
                    Ok(Version::Digest(algorithm, hex))
                },
                None => {
                    assert(text@.skip(from as int) =~= text@.subrange(from as int, n as int));
                    Err(ReferenceError::WrongDigestFormat)
                },
            }
        } else {
            Err(ReferenceError::UnknownVersionPrefix)
        }
    }

    /// The version alone: `<tag>` or `<alg>:<hex>`.
    pub fn to_string(&self) -> (r: String)
        ensures
            r@ == self@.text(),
    {
        match self {
            Version::Tag(tag) => tag.clone(),
            Version::Digest(algorithm, hex) => {
                let mut r = algorithm.clone();
                r.append(":");
                r.append(hex.as_str());
                proof {
                    reveal_strlit(":");
                    assert(":"@ =~= seq![':']);
                }
                r
            },
        }
    }

    /// The version as written behind an image name: `:<tag>` or
    /// `@<alg>:<hex>`.
    pub fn to_suffix(&self) -> (r: String)
        ensures
            r@ == self@.suffix(),
    {
        proof {
            reveal_strlit(":");
            reveal_strlit("@");
            assert(":"@ =~= seq![':']);
            assert("@"@ =~= seq!['@']);
        }
        match self {
            Version::Tag(tag) => {
                let mut r = ":".to_owned();
                r.append(tag.as_str());
                r
            },
            Version::Digest(algorithm, hex) => {
                let mut r = "@".to_owned();
                r.append(algorithm.as_str());
                r.append(":");
                r.append(hex.as_str());
                r
            },
        }
    }
}

impl Clone for Version {
    fn clone(&self) -> (r: Version)
        ensures
            r@ == self@,
    {
        match self {
            Version::Tag(tag) => Version::Tag(tag.clone()),
            Version::Digest(algorithm, hex) => Version::Digest(algorithm.clone(), hex.clone()),
        }
    }
}

impl Default for Version {
    /// The tag `latest`.
    fn default() -> (r: Version)
        ensures
            r@ == VersionView::Tag(DEFAULT_TAG@),
    {
        Version::Tag(DEFAULT_TAG.to_owned())
    }
}

impl std::str::FromStr for Version {
    type Err = ReferenceError;

    /// Reads a version with its leading `:` or `@`, as the method of the
    /// same name on `Version` does.
    fn from_str(s: &str) -> (r: Result<Version, ReferenceError>)
        ensures
            match r {
                Ok(version) => parse_version(s@) == Ok::<VersionView, ReferenceError>(version@),
                Err(e) => parse_version(s@) == Err::<VersionView, ReferenceError>(e),
            },
    {
        Version::from_str(s)
    }
}

/// The length of `s` in bytes once encoded as UTF-8.
pub open spec fn byte_len(s: Seq<char>) -> nat {
    vstd::utf8::encode_utf8(s).len()
}

/// Whether `s` can be the repository of a reference: it is not empty and
/// takes at most 127 bytes.
pub open spec fn valid_repository(s: Seq<char>) -> bool {
    s.len() > 0 && byte_len(s) <= MAX_REPOSITORY_BYTES
}

/// Whether `s` is a repository path component: it matches the pattern of
/// one. The default namespace is known to match.
pub open spec fn is_path_component(s: Seq<char>) -> bool {
    s == DEFAULT_NAMESPACE@ || regex_matches(PATH_COMPONENT_PATTERN@, s)
}

/// Whether `s` is a single name: it holds a character and no `/`.
pub open spec fn single_name(s: Seq<char>) -> bool {
    s.len() > 0 && !s.contains('/')
}

/// The repository as a reference holds it: a single name in the default
/// registry goes to the default namespace, `library/<name>`; any other
/// repository stays as it is.
pub open spec fn normalized_repository(registry: Seq<char>, repository: Seq<char>) -> Seq<char> {
    if registry == DEFAULT_REGISTRY@ && single_name(repository) {
        DEFAULT_NAMESPACE@ + seq!['/'] + repository
    } else {
        repository
    }
}

/// The registry of a reference built from its parts: the one given, else
/// the default one.
pub open spec fn registry_or_default(registry: Option<String>) -> Seq<char> {
    match registry {
        Some(name) => name@,
        None => DEFAULT_REGISTRY@,
    }
}

/// What building a reference from a registry and a repository gives: the
/// normalized repository must hold a character and at most 127 bytes.
pub open spec fn checked_repository(registry: Seq<char>, repository: Seq<char>) -> Result<
    Seq<char>,
    ReferenceError,
> {
    let normalized = normalized_repository(registry, repository);
    if normalized.len() == 0 {
        Err(ReferenceError::EmptyRepositoryName)
    } else if byte_len(normalized) > MAX_REPOSITORY_BYTES {
        Err(ReferenceError::RepositoryNameTooLong)
    } else {
        Ok(normalized)
    }
}

/// The texts that the strings hold, in order.
pub open spec fn texts(names: Seq<String>) -> Seq<Seq<char>> {
    Seq::new(names.len(), |k: int| names[k]@)
}

/// Where the version begins in the last segment of a reference: at the last
/// `@` if there is one, else at the last `:`, if any.
pub open spec fn version_start(last: Seq<char>) -> Option<int> {
    match last.index_of_last('@') {
        Some(at) => Some(at),
        None => last.index_of_last(':'),
    }
}

/// The image name in the last segment of a reference: what stands in front
/// of the version.
pub open spec fn image_name(last: Seq<char>) -> Seq<char> {
    match version_start(last) {
        Some(at) => last.take(at),
        None => last,
    }
}

/// The version in the last segment of a reference; the default tag where
/// the segment names none.
pub open spec fn version_of(last: Seq<char>) -> Result<VersionView, ReferenceError> {
    match version_start(last) {
        Some(at) => parse_version(last.skip(at)),
        None => Ok(VersionView::Tag(DEFAULT_TAG@)),
    }
}

/// `input` without the scheme prefix, if it begins with it.
pub open spec fn strip_scheme(input: Seq<char>) -> Seq<char> {
    if SCHEME_PREFIX@.is_prefix_of(input) {
        input.skip(SCHEME_PREFIX@.len() as int)
    } else {
        input
    }
}

/// A reference taken apart, before it is settled whether its leading name
/// is a registry host or the start of the repository.
#[derive(Debug)]
pub struct Components {
    /// Whether the input began with `docker://`.
    pub has_schema: bool,
    /// The input as it was given.
    pub raw_input: String,
    /// The names in front of the version: the path segments, the last one
    /// cut down to the image name, behind `library` where it stands alone.
    pub names: Vec<String>,
    /// The version.
    pub version: Version,
}

/// What a `Components` stands for.
pub struct ComponentsView {
    pub has_schema: bool,
    pub raw_input: Seq<char>,
    pub names: Seq<Seq<char>>,
    pub version: VersionView,
}

impl View for Components {
    type V = ComponentsView;

    open spec fn view(&self) -> ComponentsView {
        ComponentsView {
            has_schema: self.has_schema,
            raw_input: self.raw_input@,
            names: texts(self.names@),
            version: self.version@,
        }
    }
}

/// What a `Reference` stands for.
pub struct ReferenceView {
    pub has_schema: bool,
    pub raw_input: Seq<char>,
    pub registry: Seq<char>,
    pub repository: Seq<char>,
    pub version: VersionView,
}

impl ReferenceView {
    /// The reference as it is shown: `<registry>/<repository>` and the
    /// version behind it.
    pub open spec fn text(self) -> Seq<char> {
        self.registry + seq!['/'] + self.repository + self.version.suffix()
    }

    /// The reference as a URL: the scheme prefix, then the shown form.
    pub open spec fn url(self) -> Seq<char> {
        SCHEME_PREFIX@ + self.text()
    }

    /// Whether both name the same image: registry, repository and version
    /// agree. How the input was written plays no part.
    pub open spec fn same_image(self, other: ReferenceView) -> bool {
        &&& self.registry == other.registry
        &&& self.repository == other.repository
        &&& self.version == other.version
    }
}

/// The components that `input` spells: the scheme prefix is taken off, the
/// rest is split at `/` into its non-empty segments, and the last segment
/// is parted into image name and version.
pub open spec fn decomposed(input: Seq<char>) -> Result<ComponentsView, ReferenceError> {
    let found = segments(strip_scheme(input));
    if found.len() == 0 {
        Err(ReferenceError::MissingImageName)
    } else {
        match version_of(found.last()) {
            Err(e) => Err(e),
            Ok(version) => if image_name(found.last()).len() == 0 {
                Err(ReferenceError::EmptyImageName)
            } else {
                let namespace = if found.len() == 1 {
                    seq![DEFAULT_NAMESPACE@]
                } else {
                    found.drop_last()
                };
                Ok(
                    ComponentsView {
                        has_schema: SCHEME_PREFIX@.is_prefix_of(input),
                        raw_input: input,
                        names: namespace.push(image_name(found.last())),
                        version,
                    },
                )
            },
        }
    }
}

impl ComponentsView {
    /// The reference that the components give once it is known whether the
    /// leading name is a path component. If it is, the registry is the
    /// default one and every name belongs to the repository; if not, the
    /// leading name is the registry and the others make up the repository.
    pub open spec fn resolved(self, leading_is_path: bool) -> Result<
        ReferenceView,
        ReferenceError,
    > {
        if self.names.len() == 0 {
            Err(ReferenceError::MissingImageName)
        } else {
            let registry = if leading_is_path {
                DEFAULT_REGISTRY@
            } else {
                self.names[0]
            };
            let path = if leading_is_path {
                self.names
            } else {
                self.names.drop_first()
            };
            let repository = join(path, seq!['/']);
            if repository.len() == 0 {
                Err(ReferenceError::EmptyRepositoryName)
            } else if byte_len(repository) > MAX_REPOSITORY_BYTES {
                Err(ReferenceError::RepositoryNameTooLong)
            } else {
                Ok(
                    ReferenceView {
                        has_schema: self.has_schema,
                        raw_input: self.raw_input,
                        registry,
                        repository,
                        version: self.version,
                    },
                )
            }
        }
    }
}

/// The reference that `input` spells.
pub open spec fn parsed(input: Seq<char>) -> Result<ReferenceView, ReferenceError> {
    match decomposed(input) {
        Err(e) => Err(e),
        Ok(components) => components.resolved(is_path_component(components.names[0])),
    }
}

/// Takes `input` apart into scheme, names and version.
pub fn decompose(input: &str) -> (r: Result<Components, ReferenceError>)
    ensures
        match r {
            Ok(components) => decomposed(input@) == Ok::<ComponentsView, ReferenceError>(
                components@,
            ),
            Err(e) => decomposed(input@) == Err::<ComponentsView, ReferenceError>(e),
        },
{
    let text = chars_of(input);
    let prefix = chars_of(SCHEME_PREFIX);
    let has_schema = starts_with(&text, &prefix);
    let start = if has_schema {
        prefix.len()
    } else {
        0
    };
    assert(text@.skip(start as int) =~= strip_scheme(input@));
    let bounds = segment_bounds(&text, start);
    let ghost found = segments(strip_scheme(input@));
    if bounds.len() == 0 {
        return Err(ReferenceError::MissingImageName);
    }
    let count = bounds.len();
    let (first, end) = bounds[count - 1];
    let ghost last = text@.subrange(first as int, end as int);
    assert(last == found.last()) by {
        assert(slices(text@, bounds@)[count - 1] == last);
    }
    let cut = match find_last(&text, first, end, '@') {
        Some(at) => Some(at),
        None => find_last(&text, first, end, ':'),
    };
    let (name_end, version) = match cut {
        Some(at) => {
            assert(input@.subrange(at as int, end as int) =~= last.skip(at - first));
            assert(input@.subrange(first as int, at as int) =~= last.take(at - first));
            match Version::from_str(input.substring_char(at, end)) {
                Ok(version) => (at, version),
                Err(e) => {
                    return Err(e);
                },
            }
        },
        None => (end, Version::default()),
    };
    if name_end == first {
        return Err(ReferenceError::EmptyImageName);
    }
    let mut names: Vec<String> = Vec::new();
    if count == 1 {
        names.push(DEFAULT_NAMESPACE.to_owned());
        assert(texts(names@) =~= seq![DEFAULT_NAMESPACE@]);
    } else {
        let mut k: usize = 0;
        assert(texts(names@) =~= found.drop_last().take(0));
        while k < count - 1
            invariant
                k <= count - 1,
                count == bounds.len(),
                text@ == input@,
                slices(text@, bounds@) == found,
                forall|j: int|
                    0 <= j < bounds.len() ==> (#[trigger] bounds[j]).0 < bounds[j].1
                        <= text.len(),
                texts(names@) == found.drop_last().take(k as int),
            decreases count - 1 - k,
        {
            let (a, b) = bounds[k];
            let ghost before = names@;
            names.push(input.substring_char(a, b).to_owned());
            proof {
                assert(slices(text@, bounds@)[k as int] == text@.subrange(a as int, b as int));
                assert(texts(names@) =~= texts(before).push(found[k as int]));
                assert(found.drop_last().take(k + 1) =~= found.drop_last().take(k as int).push(
                    found[k as int],
                ));
            }
            k += 1;
        }
        assert(found.drop_last().take(count - 1) =~= found.drop_last());
    }
    let ghost namespace = texts(names@);
    names.push(input.substring_char(first, name_end).to_owned());
    assert(texts(names@) =~= namespace.push(image_name(last)));
    Ok(Components { has_schema, raw_input: input.to_owned(), names, version })
}

/// A registry image reference.
#[derive(Debug)]
pub struct Reference {
    has_schema: bool,
    raw_input: String,
    registry: String,
    repository: String,
    version: Version,
}

impl Reference {
    /// Every reference has a repository that is not empty and takes at most
    /// 127 bytes.
    #[verifier::type_invariant]
    spec fn well_formed(&self) -> bool {
        valid_repository(self.repository@)
    }
}

impl View for Reference {
    type V = ReferenceView;

    closed spec fn view(&self) -> ReferenceView {
        ReferenceView {
            has_schema: self.has_schema,
            raw_input: self.raw_input@,
            registry: self.registry@,
            repository: self.repository@,
            version: self.version@,
        }
    }
}

/// Writes the names from position `from` on one after another, with `/`
/// between neighbours.
fn join_names(names: &Vec<String>, from: usize) -> (r: String)
    requires
        from <= names.len(),
    ensures
        r@ == join(texts(names@).skip(from as int), seq!['/']),
{
    let ghost path = texts(names@).skip(from as int);
    let mut r = String::new();
    let mut k: usize = from;
    proof {
        reveal_strlit("/");
        assert("/"@ =~= seq!['/']);
        assert(path.take(0) =~= Seq::<Seq<char>>::empty());
    }
    while k < names.len()
        invariant
            from <= k <= names.len(),
            path == texts(names@).skip(from as int),
            "/"@ == seq!['/'],
            r@ == join(path.take(k - from), seq!['/']),
        decreases names.len() - k,
    {
        let ghost done = path.take(k - from);
        let ghost more = path.take(k - from + 1);
        proof {
            assert(more.drop_last() =~= done);
            assert(more.last() == names@[k as int]@);
        }
        if k > from {
            r.append("/");
        } else {
            assert(r@ + names@[k as int]@ =~= names@[k as int]@);
        }
        r.append(names[k].as_str());
        k += 1;
    }
    assert(path.take(names.len() - from) =~= path);
    r
}

impl Components {
    /// Settles the registry and the repository, given what the search of
    /// the leading name for the path-component pattern gave.
    ///
    /// Without any name there is no image. A pattern that the engine
    /// refused gives `Pattern`. Otherwise the outcome is `resolved` of the
    /// search's answer.
    pub fn resolve(self, leading_is_path: Result<bool, regex::Error>) -> (r: Result<
        Reference,
        ReferenceError,
    >)
        ensures
            r matches Ok(reference) ==> valid_repository(reference@.repository),
            match r {
                Ok(reference) => leading_is_path matches Ok(is_path) && self@.resolved(is_path)
                    == Ok::<ReferenceView, ReferenceError>(reference@),
                Err(e) => if self@.names.len() == 0 {
                    e == ReferenceError::MissingImageName
                } else {
                    match leading_is_path {
                        Ok(is_path) => self@.resolved(is_path) == Err::<
                            ReferenceView,
                            ReferenceError,
                        >(e),
                        Err(_) => e == ReferenceError::Pattern,
                    }
                },
            },
    {
        let Components { has_schema, raw_input, names, version } = self;
        if names.len() == 0 {
            return Err(ReferenceError::MissingImageName);
        }
        let is_path = match leading_is_path {
            Ok(is_path) => is_path,
            Err(_) => {
                return Err(ReferenceError::Pattern);
            },
        };
        let registry = if is_path {
            DEFAULT_REGISTRY.to_owned()
        } else {
            names[0].clone()
        };
        let repository = if is_path {
            join_names(&names, 0)
        } else {
            join_names(&names, 1)
        };
        proof {
            assert(texts(names@).skip(0) =~= texts(names@));
            assert(texts(names@).skip(1) =~= texts(names@).drop_first());
        }
        if repository.as_str().is_empty() {
            return Err(ReferenceError::EmptyRepositoryName);
        }
        if repository.as_str().as_bytes().len() > MAX_REPOSITORY_BYTES {
            return Err(ReferenceError::RepositoryNameTooLong);
        }
        Ok(Reference { has_schema, raw_input, registry, repository, version })
    }
}

/// Reads an image reference: the result is `parsed` of the input, a
/// reference or the error that says why there is none.
pub fn parse_url(input: &str) -> (r: Result<Reference, ReferenceError>)
    ensures
        r matches Ok(reference) ==> valid_repository(reference@.repository),
        match r {
            Ok(reference) => parsed(input@) == Ok::<ReferenceView, ReferenceError>(reference@),
            Err(e) => parsed(input@) == Err::<ReferenceView, ReferenceError>(e),
        },
{
    let components = match decompose(input) {
        Ok(components) => components,
        Err(e) => {
            return Err(e);
        },
    };
    assert(components@.names.len() >= 2);
    let leading_is_path = is_match(PATH_COMPONENT_PATTERN, components.names[0].as_str());
    assert(leading_is_path == Ok::<bool, regex::Error>(
        is_path_component(components@.names[0]),
    ));
    components.resolve(leading_is_path)
}

/// Puts a single name in the default registry into the default namespace.
fn normalize(registry: &String, repository: String) -> (r: String)
    ensures
        r@ == normalized_repository(registry@, repository@),
{
    let text = chars_of(repository.as_str());
    let n = text.len();
    let default = DEFAULT_REGISTRY.to_owned();
    let slash = find_first(&text, 0, n, '/');
    proof {
        assert(text@.subrange(0, n as int) =~= repository@);
        repository@.index_of_first_ensures('/');
        reveal_strlit("/");
        assert("/"@ =~= seq!['/']);
    }
    if *registry == default && n > 0 && slash.is_none() {
        let mut r = DEFAULT_NAMESPACE.to_owned();
        r.append("/");
        r.append(repository.as_str());
        r
    } else {
        repository
    }
}

impl Reference {
    /// Builds a reference from its parts. Without a registry the default
    /// registry is taken, without a version the default tag. A single name
    /// in the default registry goes to the default namespace.
    ///
    /// The repository that results must hold a character and at most 127
    /// bytes; `try_new` tests that.
    pub fn new(registry: Option<String>, repository: String, version: Option<Version>) -> (r:
        Reference)
        requires
            valid_repository(
                normalized_repository(registry_or_default(registry), repository@),
            ),
        ensures
            r@ == (ReferenceView {
                has_schema: false,
                raw_input: Seq::<char>::empty(),
                registry: registry_or_default(registry),
                repository: normalized_repository(registry_or_default(registry), repository@),
                version: match version {
                    Some(given) => given@,
                    None => VersionView::Tag(DEFAULT_TAG@),
                },
            }),
    {
        let reg = match registry {
            Some(name) => name,
            None => DEFAULT_REGISTRY.to_owned(),
        };
        let ver = match version {
            Some(given) => given,
            None => Version::Tag(DEFAULT_TAG.to_owned()),
        };
        let repo = normalize(&reg, repository);
        Reference {
            has_schema: false,
            raw_input: String::new(),
            registry: reg,
            repository: repo,
            version: ver,
        }
    }

    /// Builds a reference from its parts as `new` does, or says why the
    /// repository cannot be one: it is empty, or it takes more than 127
    /// bytes once a single name has gone to the default namespace.
    pub fn try_new(registry: Option<String>, repository: String, version: Option<Version>) -> (r:
        Result<Reference, ReferenceError>)
        ensures
            match r {
                Ok(reference) => {
                    &&& checked_repository(registry_or_default(registry), repository@) == Ok::<
                        Seq<char>,
                        ReferenceError,
                    >(reference@.repository)
                    &&& reference@ == (ReferenceView {
                        has_schema: false,
                        raw_input: Seq::<char>::empty(),
                        registry: registry_or_default(registry),
                        repository: normalized_repository(
                            registry_or_default(registry),
                            repository@,
                        ),
                        version: match version {
                            Some(given) => given@,
                            None => VersionView::Tag(DEFAULT_TAG@),
                        },
                    })
                },
                Err(e) => checked_repository(registry_or_default(registry), repository@) == Err::<
                    Seq<char>,
                    ReferenceError,
                >(e),
            },
    {
        let reg = match &registry {
            Some(name) => name.clone(),
            None => DEFAULT_REGISTRY.to_owned(),
        };
        let normalized = normalize(&reg, repository.clone());
        if normalized.as_str().is_empty() {
            return Err(ReferenceError::EmptyRepositoryName);
        }
        if normalized.as_str().as_bytes().len() > MAX_REPOSITORY_BYTES {
            return Err(ReferenceError::RepositoryNameTooLong);
        }
        Ok(Reference::new(registry, repository, version))
    }

    /// Reads an image reference, as `parse_url` does.
    pub fn from_str(s: &str) -> (r: Result<Reference, ReferenceError>)
        ensures
            r matches Ok(reference) ==> valid_repository(reference@.repository),
            match r {
                Ok(reference) => parsed(s@) == Ok::<ReferenceView, ReferenceError>(reference@),
                Err(e) => parsed(s@) == Err::<ReferenceView, ReferenceError>(e),
            },
    {
        parse_url(s)
    }

    /// The registry host, with its port if it has one.
    pub fn registry(&self) -> (r: String)
        ensures
            r@ == self@.registry,
    {
        self.registry.clone()
    }

    /// The repository, which is never empty nor longer than 127 bytes.
    pub fn repository(&self) -> (r: String)
        ensures
            r@ == self@.repository,
            valid_repository(r@),
    {
        proof {
            use_type_invariant(self);
        }
        self.repository.clone()
    }

    /// The version alone: `<tag>` or `<alg>:<hex>`.
    pub fn version(&self) -> (r: String)
        ensures
            r@ == self@.version.text(),
    {
        self.version.to_string()
    }

    /// The text that the reference was read from; empty for one that was
    /// built from its parts.
    pub fn to_raw_string(&self) -> (r: String)
        ensures
            r@ == self@.raw_input,
    {
        self.raw_input.clone()
    }

    /// Whether the text that the reference was read from began with
    /// `docker://`.
    pub fn has_schema(&self) -> (r: bool)
        ensures
            r == self@.has_schema,
    {
        self.has_schema
    }

    /// The reference as it is shown: `<registry>/<repository>:<tag>` or
    /// `<registry>/<repository>@<alg>:<hex>`.
    pub fn to_string(&self) -> (r: String)
        ensures
            r@ == self@.text(),
    {
        let mut r = self.registry.clone();
        r.append("/");
        r.append(self.repository.as_str());
        r.append(self.version.to_suffix().as_str());
        proof {
            reveal_strlit("/");
            assert("/"@ =~= seq!['/']);
        }
        r
    }

    /// The reference as a URL: `docker://` and the shown form.
    pub fn to_url(&self) -> (r: String)
        ensures
            r@ == self@.url(),
    {
        let mut r = SCHEME_PREFIX.to_owned();
        r.append(self.to_string().as_str());
        r
    }
}

impl Clone for Reference {
    fn clone(&self) -> (r: Reference)
        ensures
            r@ == self@,
    {
        proof {
            use_type_invariant(self);
        }
        Reference {
            has_schema: self.has_schema,
            raw_input: self.raw_input.clone(),
            registry: self.registry.clone(),
            repository: self.repository.clone(),
            version: self.version.clone(),
        }
    }
}

impl std::str::FromStr for Reference {
    type Err = ReferenceError;

    /// Reads an image reference, as `parse_url` does.
    fn from_str(s: &str) -> (r: Result<Reference, ReferenceError>)
        ensures
            r matches Ok(reference) ==> valid_repository(reference@.repository),
            match r {
                Ok(reference) => parsed(s@) == Ok::<ReferenceView, ReferenceError>(reference@),
                Err(e) => parsed(s@) == Err::<ReferenceView, ReferenceError>(e),
            },
    {
        parse_url(s)
    }
}

} // verus!
