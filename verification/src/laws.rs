//! What holds of reading and showing image references, whatever the input.

use crate::errors::ReferenceError;
use crate::reference::{
    byte_len, decomposed, image_name, is_path_component, parsed, strip_scheme,
    valid_repository, version_of, version_start, ComponentsView, VersionView, DEFAULT_NAMESPACE,
    DEFAULT_REGISTRY, DEFAULT_TAG, MAX_REPOSITORY_BYTES, SCHEME_PREFIX,
};
use crate::text::{
    free_of, join, lemma_index_of_absent, lemma_index_of_last_at, lemma_join_extend_last,
    lemma_join_from_front, lemma_join_head, lemma_pieces_of_join, lemma_segments_are_names,
    lemma_segments_of_join, pieces, segments, trim_start,
};
use vstd::prelude::*;

verus! {

/// Whether `input` names its registry: it can be taken apart, and its
/// leading name is no path component, hence a host.
pub open spec fn names_registry(input: Seq<char>) -> bool {
    decomposed(input) matches Ok(components) && !is_path_component(components.names[0])
}

/// A last segment whose version can be read is spelled again by its image
/// name followed by the version's suffix: both texts have the same image
/// name and the same version, and the second holds a `/` only if the first
/// does.
pub proof fn lemma_last_segment_respelled(last: Seq<char>)
    requires
        version_of(last) is Ok,
    ensures
        ({
            let version = version_of(last)->Ok_0;
            let again = image_name(last) + version.suffix();
            &&& image_name(again) == image_name(last)
            &&& version_of(again) == Ok::<VersionView, ReferenceError>(version)
            &&& free_of(last, '/') ==> free_of(again, '/')
        }),
{
    let version = version_of(last)->Ok_0;
    let again = image_name(last) + version.suffix();
    last.index_of_last_ensures('@');
    last.index_of_last_ensures(':');
    match version_start(last) {
        Some(at) => {
            let spelled = last.skip(at);
            let behind = spelled.drop_first();
            assert(behind =~= last.skip(at + 1));
            if last.index_of_last('@') is Some {
                assert(behind.len() > 0 ==> behind[0] == last[at + 1] && last[at + 1] != '@');
                assert(spelled[0] == last[at]);
                assert(trim_start(behind, '@') == behind);
                assert(trim_start(spelled, '@') == behind);
                behind.index_of_first_ensures(':');
                let colon = behind.index_of_first(':')->Some_0;
                assert(version.suffix() =~= spelled);
            } else {
                assert(behind.len() > 0 ==> behind[0] == last[at + 1] && last[at + 1] != ':');
                assert(spelled[0] == last[at]);
                assert(trim_start(behind, ':') == behind);
                assert(trim_start(spelled, ':') == behind);
                assert(version.suffix() =~= spelled);
            }
            assert(again =~= last);
        },
        None => {
            reveal_strlit("latest");
            let tag = DEFAULT_TAG@;
            let mark = last.len() as int;
            assert(again =~= last + seq![':'] + tag);
            assert forall|i: int| 0 <= i < again.len() implies again[i] != '@' by {
                if i < mark {
                    assert(last[i] == again[i]);
                    if last[i] == '@' {
                        assert(last.contains('@'));
                    }
                } else if i > mark {
                    assert(again[i] == tag[i - mark - 1]);
                }
            }
            lemma_index_of_absent(again, '@');
            assert forall|j: int| mark < j < again.len() implies again[j] != ':' by {
                assert(again[j] == tag[j - mark - 1]);
            }
            lemma_index_of_last_at(again, ':', mark);
            assert(again.take(mark) =~= last);
            let spelled = again.skip(mark);
            assert(spelled =~= seq![':'] + tag);
            assert(spelled.drop_first() =~= tag);
            assert(trim_start(tag, ':') == tag);
            assert(trim_start(spelled, ':') == tag);
            if free_of(last, '/') {
                assert forall|i: int| 0 <= i < again.len() implies again[i] != '/' by {
                    if i < mark {
                        assert(last[i] == again[i]);
                    } else if i > mark {
                        assert(again[i] == tag[i - mark - 1]);
                    }
                }
            }
        },
    }
}

/// The names of an input that can be taken apart: there are at least two,
/// and each holds a character and no `/`.
pub proof fn lemma_names_of_decomposed(input: Seq<char>)
    requires
        decomposed(input) is Ok,
    ensures
        ({
            let names = decomposed(input)->Ok_0.names;
            &&& names.len() >= 2
            &&& forall|k: int|
                0 <= k < names.len() ==> (#[trigger] names[k]).len() > 0 && free_of(
                    names[k],
                    '/',
                )
        }),
{
    reveal_strlit("library");
    let found = segments(strip_scheme(input));
    let names = decomposed(input)->Ok_0.names;
    let last = found.last();
    lemma_segments_are_names(strip_scheme(input));
    last.index_of_last_ensures('@');
    last.index_of_last_ensures(':');
    assert forall|k: int| 0 <= k < names.len() implies (#[trigger] names[k]).len() > 0 && free_of(
        names[k],
        '/',
    ) by {
        if k == names.len() - 1 {
            let image = image_name(last);
            assert(names[k] == image);
            assert forall|i: int| 0 <= i < image.len() implies image[i] != '/' by {
                assert(image[i] == last[i]);
            }
        } else if found.len() == 1 {
            assert(names[k] == DEFAULT_NAMESPACE@);
        } else {
            assert(names[k] == found[k]);
        }
    }
}

/// A text that begins with a name free of `/`, then `/`, then anything but
/// a second `/`, does not begin with the scheme prefix.
pub proof fn lemma_shown_form_has_no_scheme(first: Seq<char>, rest: Seq<char>)
    requires
        free_of(first, '/'),
        rest.len() > 0,
        rest[0] != '/',
    ensures
        !SCHEME_PREFIX@.is_prefix_of(first + seq!['/'] + rest),
{
    reveal_strlit("docker://");
    let shown = first + seq!['/'] + rest;
    let prefix = SCHEME_PREFIX@;
    if prefix.is_prefix_of(shown) {
        let head = shown.subrange(0, prefix.len() as int);
        let m = first.len() as int;
        assert(head =~= prefix);
        assert(shown[m] == '/');
        if m < 7 {
            assert(head[m] == shown[m]);
            assert(prefix[m] != '/');
        } else if m > 7 {
            assert(head[7] == shown[7]);
            assert(shown[7] == first[7]);
        } else {
            assert(head[8] == shown[8]);
            assert(shown[8] == rest[0]);
        }
    }
}

/// Reading, showing and reading again gives the same image.
///
/// For every input that is read as a reference and names its registry, the
/// shown form `<registry>/<repository>` with the version's suffix is read
/// as a reference too, and the two agree in registry, repository and
/// version.
pub proof fn lemma_shown_form_reads_back(input: Seq<char>)
    requires
        parsed(input) is Ok,
        names_registry(input),
    ensures
        parsed(parsed(input)->Ok_0.text()) matches Ok(again) && again.same_image(
            parsed(input)->Ok_0,
        ),
{
    let slash = seq!['/'];
    let found = segments(strip_scheme(input));
    let last = found.last();
    let image = image_name(last);
    let version = version_of(last)->Ok_0;
    let components = decomposed(input)->Ok_0;
    let names = components.names;
    let namespace = names.drop_last();
    let reference = parsed(input)->Ok_0;
    let shown = reference.text();
    let respelled = image + version.suffix();
    let renamed = namespace.push(respelled);

    lemma_names_of_decomposed(input);
    lemma_last_segment_respelled(last);
    assert(names =~= namespace.push(image));
    assert(free_of(last, '/')) by {
        lemma_segments_are_names(strip_scheme(input));
    }

    // The shown form is the join of the names, the last one respelled.
    assert(names.drop_first() =~= namespace.drop_first().push(image));
    assert(renamed.drop_first() =~= namespace.drop_first().push(respelled));
    lemma_join_extend_last(namespace.drop_first(), image, version.suffix(), slash);
    lemma_join_from_front(renamed, slash);
    let rest = join(renamed.drop_first(), slash);
    assert(shown =~= names[0] + slash + rest);
    assert(shown == join(renamed, slash));

    // Its segments are those names, and it has no scheme prefix.
    assert forall|k: int| 0 <= k < renamed.len() implies (#[trigger] renamed[k]).len() > 0
        && free_of(renamed[k], '/') by {
        if k < namespace.len() {
            assert(renamed[k] == names[k]);
        }
    }
    lemma_segments_of_join(renamed);
    lemma_join_head(renamed.drop_first(), slash);
    assert(rest[0] != '/') by {
        let head = renamed.drop_first()[0];
        assert(head == renamed[1]);
        assert(head[0] != '/');
    }
    lemma_shown_form_has_no_scheme(names[0], rest);
    assert(strip_scheme(shown) == shown);

    // So it is taken apart into the same names and version.
    assert(renamed.last() == respelled);
    assert(renamed.drop_last() =~= namespace);
    let second = decomposed(shown)->Ok_0;
    assert(decomposed(shown) is Ok);
    assert(second.names == names);
    assert(second.version == version);
}

/// A name alone goes to the default namespace.
///
/// An input with a single path segment is read as a reference exactly if
/// the segment's version can be read, its image name holds a character, and
/// `library/` with the image name takes at most 127 bytes. The reference is
/// then in the default registry, and its repository is `library/` and the
/// image name.
pub proof fn lemma_single_name_in_library(input: Seq<char>)
    requires
        segments(strip_scheme(input)).len() == 1,
    ensures
        ({
            let only = segments(strip_scheme(input))[0];
            let repository = DEFAULT_NAMESPACE@ + seq!['/'] + image_name(only);
            &&& parsed(input) is Ok <==> version_of(only) is Ok && image_name(only).len() > 0
                && byte_len(repository) <= MAX_REPOSITORY_BYTES
            &&& parsed(input) matches Ok(reference) ==> reference.registry == DEFAULT_REGISTRY@
                && reference.repository == repository
        }),
{
    let only = segments(strip_scheme(input))[0];
    let image = image_name(only);
    if decomposed(input) is Ok {
        let names = decomposed(input)->Ok_0.names;
        assert(names =~= seq![DEFAULT_NAMESPACE@, image]);
        assert(is_path_component(names[0]));
        assert(names.drop_last() =~= seq![DEFAULT_NAMESPACE@]);
        assert(join(names.drop_last(), seq!['/']) == DEFAULT_NAMESPACE@);
        assert(join(names, seq!['/']) == DEFAULT_NAMESPACE@ + seq!['/'] + image);
        assert(join(names, seq!['/']).len() > 0);
    }
}

/// No reference has a repository longer than 127 bytes, nor an empty one:
/// components whose path is longer are refused, and whatever is read or
/// resolved has a valid repository.
pub proof fn lemma_long_repository_rejected(components: ComponentsView, leading_is_path: bool)
    ensures
        components.resolved(leading_is_path) matches Ok(reference) ==> valid_repository(
            reference.repository,
        ),
        ({
            let path = if leading_is_path {
                components.names
            } else {
                components.names.drop_first()
            };
            byte_len(join(path, seq!['/'])) > MAX_REPOSITORY_BYTES ==> components.resolved(
                leading_is_path,
            ) is Err
        }),
{
}

/// Whatever is read as a reference has a repository of at most 127 bytes.
pub proof fn lemma_read_repository_is_valid(input: Seq<char>)
    ensures
        parsed(input) matches Ok(reference) ==> valid_repository(reference.repository),
{
}

/// The repository of whatever is read is a path of names: split at `/`, it
/// falls into the names it was joined from, and each holds a character.
pub proof fn lemma_read_repository_is_a_path(input: Seq<char>)
    requires
        parsed(input) is Ok,
    ensures
        ({
            let names = decomposed(input)->Ok_0.names;
            let parts = pieces(parsed(input)->Ok_0.repository, '/');
            &&& parts == if is_path_component(names[0]) {
                names
            } else {
                names.drop_first()
            }
            &&& forall|k: int| 0 <= k < parts.len() ==> (#[trigger] parts[k]).len() > 0
        }),
{
    let names = decomposed(input)->Ok_0.names;
    let path = if is_path_component(names[0]) {
        names
    } else {
        names.drop_first()
    };
    lemma_names_of_decomposed(input);
    assert forall|k: int| 0 <= k < path.len() implies (#[trigger] path[k]).len() > 0 && free_of(
        path[k],
        '/',
    ) by {
        if !is_path_component(names[0]) {
            assert(path[k] == names[k + 1]);
        }
    }
    lemma_pieces_of_join(path, '/');
}

} // verus!
