use dkregistry::errors::ReferenceError;
use dkregistry::reference::{decompose, parse_url, Components, Reference, Version};

fn tag_of(reference: &Reference) -> String {
    reference.version()
}

#[test]
fn default_namespace() {
    let r = Reference::from_str("docker://busybox").unwrap();
    assert_eq!(r.registry(), "registry-1.docker.io");
    assert_eq!(r.repository(), "library/busybox");
    assert_eq!(r.version(), "latest");
    assert!(r.has_schema());
    assert_eq!(r.to_raw_string(), "docker://busybox");
}

#[test]
fn default_namespace_without_scheme() {
    let r = parse_url("busybox").unwrap();
    assert_eq!(r.registry(), "registry-1.docker.io");
    assert_eq!(r.repository(), "library/busybox");
    assert_eq!(tag_of(&r), "latest");
    assert!(!r.has_schema());
    assert_eq!(r.to_raw_string(), "busybox");
}

#[test]
fn explicit_registry_and_digest() {
    let r = parse_url("docker://quay.io:443/coreos/etcd@sha256:abc123").unwrap();
    assert_eq!(r.registry(), "quay.io:443");
    assert_eq!(r.repository(), "coreos/etcd");
    assert_eq!(r.version(), "sha256:abc123");
    assert_eq!(r.to_string(), "quay.io:443/coreos/etcd@sha256:abc123");
    assert_eq!(r.to_url(), "docker://quay.io:443/coreos/etcd@sha256:abc123");
}

#[test]
fn lowercase_dotted_leading_name_is_a_path_component() {
    let r = parse_url("docker://quay.io/coreos/etcd@sha256:abc123").unwrap();
    assert_eq!(r.registry(), "registry-1.docker.io");
    assert_eq!(r.repository(), "quay.io/coreos/etcd");
    assert_eq!(r.version(), "sha256:abc123");
}

#[test]
fn leading_name_is_host_or_path_by_the_pattern() {
    for (input, registry, repository) in [
        ("a.b-c_d/x", "registry-1.docker.io", "a.b-c_d/x"),
        ("abc123/x", "registry-1.docker.io", "abc123/x"),
        ("a__b/x", "a__b", "x"),
        ("a..b/x", "a..b", "x"),
        ("-a/x", "-a", "x"),
        ("a-/x", "a-", "x"),
        ("Quay.io/x", "Quay.io", "x"),
        ("localhost:5000/x", "localhost:5000", "x"),
        ("a b/x", "a b", "x"),
        ("a\n/x", "a\n", "x"),
    ] {
        let r = parse_url(input).unwrap();
        assert_eq!(r.registry(), registry);
        assert_eq!(r.repository(), repository);
    }
}

#[test]
fn tag_after_last_colon() {
    let r = parse_url("localhost:5000/foo/bar:v1.2").unwrap();
    assert_eq!(r.registry(), "localhost:5000");
    assert_eq!(r.repository(), "foo/bar");
    assert_eq!(r.version(), "v1.2");
    assert_eq!(r.to_string(), "localhost:5000/foo/bar:v1.2");
}

#[test]
fn empty_tag_is_kept() {
    let r = parse_url("busybox:").unwrap();
    assert_eq!(r.repository(), "library/busybox");
    assert_eq!(r.version(), "");
    assert_eq!(r.to_string(), "registry-1.docker.io/library/busybox:");
}

#[test]
fn digest_wins_over_tag() {
    let r = parse_url("Host/foo:tag@sha256:abc:def").unwrap();
    assert_eq!(r.repository(), "foo:tag");
    assert_eq!(r.version(), "sha256:abc:def");
    let again = parse_url(&r.to_string()).unwrap();
    assert_eq!(again.repository(), "foo:tag");
    assert_eq!(again.version(), "sha256:abc:def");
}

#[test]
fn empty_segments_are_discarded() {
    let r = parse_url("docker:///a//b///c/").unwrap();
    assert_eq!(r.registry(), "registry-1.docker.io");
    assert_eq!(r.repository(), "a/b/c");
}

#[test]
fn scheme_is_taken_off_once() {
    let r = parse_url("docker://docker://busybox").unwrap();
    assert!(r.has_schema());
    assert_eq!(r.registry(), "docker:");
    assert_eq!(r.repository(), "busybox");
}

#[test]
fn text_beyond_ascii() {
    let r = parse_url("hôte/dépôt/imagé:étiquette").unwrap();
    assert_eq!(r.registry(), "hôte");
    assert_eq!(r.repository(), "dépôt/imagé");
    assert_eq!(r.version(), "étiquette");
}

#[test]
fn missing_image_name() {
    for input in ["", "docker://", "/", "docker:////"] {
        assert_eq!(parse_url(input).unwrap_err(), ReferenceError::MissingImageName);
    }
}

#[test]
fn empty_image_name() {
    for input in [":tag", "foo/:tag", "foo/@sha256:abc", "docker://:"] {
        assert_eq!(parse_url(input).unwrap_err(), ReferenceError::EmptyImageName);
    }
}

#[test]
fn wrong_digest_format() {
    for input in ["busybox@sha256", "@", "foo:tag@"] {
        assert_eq!(parse_url(input).unwrap_err(), ReferenceError::WrongDigestFormat);
    }
}

#[test]
fn repository_of_127_bytes_is_accepted() {
    let name = "a".repeat(127 - "library/".len());
    let r = parse_url(&name).unwrap();
    assert_eq!(r.repository().len(), 127);
}

#[test]
fn repository_of_128_bytes_is_rejected() {
    let name = "a".repeat(128 - "library/".len());
    assert_eq!(parse_url(&name).unwrap_err(), ReferenceError::RepositoryNameTooLong);
    let hosted = format!("Host/{}", "b".repeat(128));
    assert_eq!(parse_url(&hosted).unwrap_err(), ReferenceError::RepositoryNameTooLong);
    let fits = format!("Host/{}", "b".repeat(127));
    assert_eq!(parse_url(&fits).unwrap().repository().len(), 127);
}

#[test]
fn repository_length_counts_bytes() {
    let name = "é".repeat(64);
    assert_eq!(name.chars().count(), 64);
    let hosted = format!("Host/{}", name);
    assert_eq!(parse_url(&hosted).unwrap_err(), ReferenceError::RepositoryNameTooLong);
    let fits = format!("Host/{}a", "é".repeat(63));
    assert_eq!(parse_url(&fits).unwrap().repository().len(), 127);
}

#[test]
fn shown_form_reads_back() {
    for input in [
        "localhost:5000/ns/name",
        "docker://localhost:5000/ns/name:tag",
        "Quay.io/coreos/etcd@sha256:abc123",
        "docker:/x",
        "H/a//b:",
    ] {
        let first = parse_url(input).unwrap();
        let again = parse_url(&first.to_string()).unwrap();
        assert_eq!(again.registry(), first.registry());
        assert_eq!(again.repository(), first.repository());
        assert_eq!(again.version(), first.version());
    }
}

#[test]
fn shown_form_of_default_registry_reads_as_path() {
    let first = parse_url("docker://busybox").unwrap();
    assert_eq!(first.to_string(), "registry-1.docker.io/library/busybox:latest");
    let again = parse_url(&first.to_string()).unwrap();
    assert_eq!(again.registry(), "registry-1.docker.io");
    assert_eq!(again.repository(), "registry-1.docker.io/library/busybox");
}

#[test]
fn single_name_gets_library() {
    for (input, repository) in [
        ("ubuntu", "library/ubuntu"),
        ("docker://ubuntu:18.04", "library/ubuntu"),
        ("/ubuntu@sha256:0f", "library/ubuntu"),
        ("UBUNTU", "library/UBUNTU"),
    ] {
        let r = parse_url(input).unwrap();
        assert_eq!(r.registry(), "registry-1.docker.io");
        assert_eq!(r.repository(), repository);
    }
}

#[test]
fn decompose_gives_names_and_version() {
    let c = decompose("docker://Host/a/b:v").unwrap();
    assert!(c.has_schema);
    assert_eq!(c.raw_input, "docker://Host/a/b:v");
    assert_eq!(c.names, vec!["Host", "a", "b"]);
    assert!(matches!(c.version, Version::Tag(ref t) if t == "v"));
    let c = decompose("busybox@sha256:abc").unwrap();
    assert!(!c.has_schema);
    assert_eq!(c.names, vec!["library", "busybox"]);
    assert!(matches!(c.version, Version::Digest(ref a, ref h) if a == "sha256" && h == "abc"));
    assert_eq!(decompose("").unwrap_err(), ReferenceError::MissingImageName);
}

fn components(names: &[&str]) -> Components {
    Components {
        has_schema: false,
        raw_input: String::from("raw"),
        names: names.iter().map(|n| n.to_string()).collect(),
        version: Version::Tag(String::from("v")),
    }
}

#[test]
fn resolve_follows_the_answer() {
    let r = components(&["a", "b", "c"]).resolve(Ok(true)).unwrap();
    assert_eq!(r.registry(), "registry-1.docker.io");
    assert_eq!(r.repository(), "a/b/c");
    assert_eq!(r.version(), "v");
    assert_eq!(r.to_raw_string(), "raw");
    let r = components(&["a", "b", "c"]).resolve(Ok(false)).unwrap();
    assert_eq!(r.registry(), "a");
    assert_eq!(r.repository(), "b/c");
}

#[test]
fn resolve_errors() {
    assert_eq!(
        components(&[]).resolve(Ok(true)).unwrap_err(),
        ReferenceError::MissingImageName
    );
    assert_eq!(
        components(&["a"]).resolve(Ok(false)).unwrap_err(),
        ReferenceError::EmptyRepositoryName
    );
    assert_eq!(
        components(&[""]).resolve(Ok(true)).unwrap_err(),
        ReferenceError::EmptyRepositoryName
    );
    let long = "x".repeat(128);
    assert_eq!(
        components(&["a", &long]).resolve(Ok(false)).unwrap_err(),
        ReferenceError::RepositoryNameTooLong
    );
    let refused = regex::Regex::new("(").unwrap_err();
    assert_eq!(
        components(&["a", "b"]).resolve(Err(refused.clone())).unwrap_err(),
        ReferenceError::Pattern
    );
    assert_eq!(
        components(&[]).resolve(Err(refused)).unwrap_err(),
        ReferenceError::MissingImageName
    );
}

#[test]
fn version_from_str() {
    assert!(matches!(Version::from_str(":v1").unwrap(), Version::Tag(ref t) if t == "v1"));
    assert!(matches!(Version::from_str("::v1").unwrap(), Version::Tag(ref t) if t == "v1"));
    assert!(matches!(Version::from_str(":").unwrap(), Version::Tag(ref t) if t.is_empty()));
    assert!(matches!(
        Version::from_str("@sha256:abc").unwrap(),
        Version::Digest(ref a, ref h) if a == "sha256" && h == "abc"
    ));
    assert!(matches!(
        Version::from_str("@@a:b:c").unwrap(),
        Version::Digest(ref a, ref h) if a == "a" && h == "b:c"
    ));
    assert!(matches!(
        Version::from_str("@:").unwrap(),
        Version::Digest(ref a, ref h) if a.is_empty() && h.is_empty()
    ));
    assert_eq!(Version::from_str("@sha256").unwrap_err(), ReferenceError::WrongDigestFormat);
    assert_eq!(Version::from_str("v1").unwrap_err(), ReferenceError::UnknownVersionPrefix);
    assert_eq!(Version::from_str("").unwrap_err(), ReferenceError::VersionTooShort);
}

#[test]
fn version_shown() {
    let tag = Version::Tag(String::from("v1"));
    assert_eq!(tag.to_string(), "v1");
    assert_eq!(tag.to_suffix(), ":v1");
    let digest = Version::Digest(String::from("sha256"), String::from("abc"));
    assert_eq!(digest.to_string(), "sha256:abc");
    assert_eq!(digest.to_suffix(), "@sha256:abc");
    assert_eq!(digest.clone().to_suffix(), "@sha256:abc");
    assert_eq!(Version::default().to_string(), "latest");
}

#[test]
fn from_str_traits() {
    let r: Reference = "docker://busybox".parse().unwrap();
    assert_eq!(r.repository(), "library/busybox");
    let v: Version = "@sha256:abc".parse().unwrap();
    assert_eq!(v.to_string(), "sha256:abc");
    let e = "".parse::<Reference>().unwrap_err();
    assert_eq!(e, ReferenceError::MissingImageName);
}

#[test]
fn new_takes_defaults() {
    let r = Reference::new(None, String::from("library/busybox"), None);
    assert_eq!(r.registry(), "registry-1.docker.io");
    assert_eq!(r.repository(), "library/busybox");
    assert_eq!(r.version(), "latest");
    assert_eq!(r.to_raw_string(), "");
    assert!(!r.has_schema());
    assert_eq!(r.to_url(), "docker://registry-1.docker.io/library/busybox:latest");
    assert_eq!(r.clone().to_string(), "registry-1.docker.io/library/busybox:latest");
}

#[test]
fn new_takes_what_is_given() {
    let r = Reference::new(
        Some(String::from("quay.io")),
        String::from("coreos/etcd"),
        Some(Version::Digest(String::from("sha256"), String::from("abc123"))),
    );
    assert_eq!(r.registry(), "quay.io");
    assert_eq!(r.repository(), "coreos/etcd");
    assert_eq!(r.version(), "sha256:abc123");
    assert_eq!(r.to_string(), "quay.io/coreos/etcd@sha256:abc123");
    assert_eq!(r.to_url(), "docker://quay.io/coreos/etcd@sha256:abc123");
}

#[test]
fn error_messages() {
    assert_eq!(ReferenceError::MissingImageName.message(), "missing image name");
    assert_eq!(ReferenceError::EmptyImageName.message(), "empty image name");
    assert_eq!(ReferenceError::EmptyRepositoryName.message(), "empty repository name");
    assert_eq!(ReferenceError::RepositoryNameTooLong.message(), "repository name too long");
    assert_eq!(ReferenceError::WrongDigestFormat.message(), "wrong digest format");
    assert_eq!(ReferenceError::UnknownVersionPrefix.message(), "unknown version prefix");
    assert_eq!(ReferenceError::VersionTooShort.message(), "too short");
    assert_eq!(ReferenceError::Pattern.message(), "path component pattern refused");
}

#[test]
fn new_puts_single_name_into_library() {
    let r = Reference::new(None, String::from("busybox"), None);
    assert_eq!(r.registry(), "registry-1.docker.io");
    assert_eq!(r.repository(), "library/busybox");
    assert_eq!(r.to_string(), "registry-1.docker.io/library/busybox:latest");
    let r = Reference::new(
        Some(String::from("registry-1.docker.io")),
        String::from("busybox"),
        None,
    );
    assert_eq!(r.repository(), "library/busybox");
}

#[test]
fn new_keeps_other_repositories() {
    let r = Reference::new(None, String::from("coreos/etcd"), None);
    assert_eq!(r.repository(), "coreos/etcd");
    let r = Reference::new(Some(String::from("quay.io")), String::from("etcd"), None);
    assert_eq!(r.registry(), "quay.io");
    assert_eq!(r.repository(), "etcd");
    let r = Reference::new(Some(String::from("quay.io")), String::from("/etcd"), None);
    assert_eq!(r.repository(), "/etcd");
}

#[test]
fn try_new_builds_what_new_builds() {
    let r = Reference::try_new(None, String::from("busybox"), None).unwrap();
    assert_eq!(r.registry(), "registry-1.docker.io");
    assert_eq!(r.repository(), "library/busybox");
    assert_eq!(r.version(), "latest");
    assert_eq!(r.to_raw_string(), "");
    assert!(!r.has_schema());
    let r = Reference::try_new(
        Some(String::from("quay.io")),
        String::from("coreos/etcd"),
        Some(Version::Tag(String::from("v3"))),
    )
    .unwrap();
    assert_eq!(r.to_string(), "quay.io/coreos/etcd:v3");
}

#[test]
fn try_new_refuses_empty_repository() {
    assert_eq!(
        Reference::try_new(None, String::new(), None).unwrap_err(),
        ReferenceError::EmptyRepositoryName
    );
    assert_eq!(
        Reference::try_new(Some(String::from("quay.io")), String::new(), None).unwrap_err(),
        ReferenceError::EmptyRepositoryName
    );
}

#[test]
fn try_new_refuses_long_repository() {
    assert_eq!(
        Reference::try_new(Some(String::from("quay.io")), "a".repeat(128), None).unwrap_err(),
        ReferenceError::RepositoryNameTooLong
    );
    let fits = Reference::try_new(Some(String::from("quay.io")), "a".repeat(127), None).unwrap();
    assert_eq!(fits.repository().len(), 127);
    assert_eq!(
        Reference::try_new(None, "a".repeat(120), None).unwrap_err(),
        ReferenceError::RepositoryNameTooLong
    );
    let fits = Reference::try_new(None, "a".repeat(119), None).unwrap();
    assert_eq!(fits.repository().len(), 127);
    let fits = Reference::try_new(None, format!("a/{}", "b".repeat(125)), None).unwrap();
    assert_eq!(fits.repository().len(), 127);
}
