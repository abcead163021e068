//! Character sequences: splitting, searching, trimming and joining.
//!
//! Text is modelled as `Seq<char>`, the view of `str` and `String`. The
//! executable functions work on a `Vec<char>` copy of the text and report
//! positions, so that callers cut the pieces out of the text itself.

use vstd::prelude::*;

verus! {

/// The pieces of `s` that lie between occurrences of `sep`, in order and
/// with the empty ones kept. There is always at least one piece.
pub open spec fn pieces(s: Seq<char>, sep: char) -> Seq<Seq<char>>
    decreases s.len(),
{
    if s.len() == 0 {
        seq![Seq::<char>::empty()]
    } else {
        let before = pieces(s.drop_last(), sep);
        if s.last() == sep {
            before.push(Seq::<char>::empty())
        } else {
            before.drop_last().push(before.last().push(s.last()))
        }
    }
}

/// The test that keeps the pieces holding at least one character.
pub open spec fn non_empty() -> spec_fn(Seq<char>) -> bool {
    |p: Seq<char>| p.len() > 0
}

/// The path segments of `s`: its pieces between `/`, empty ones discarded.
pub open spec fn segments(s: Seq<char>) -> Seq<Seq<char>> {
    pieces(s, '/').filter(non_empty())
}

/// The parts written one after another with `sep` between neighbours.
pub open spec fn join(parts: Seq<Seq<char>>, sep: Seq<char>) -> Seq<char>
    decreases parts.len(),
{
    if parts.len() <= 1 {
        if parts.len() == 1 {
            parts.last()
        } else {
            Seq::<char>::empty()
        }
    } else {
        join(parts.drop_last(), sep) + sep + parts.last()
    }
}

/// `s` without its leading run of `c`.
pub open spec fn trim_start(s: Seq<char>, c: char) -> Seq<char>
    decreases s.len(),
{
    if s.len() > 0 && s[0] == c {
        trim_start(s.drop_first(), c)
    } else {
        s
    }
}

/// The stretches of `s` that the position pairs delimit, each pair giving
/// the first position of a stretch and the position just behind it.
pub open spec fn slices(s: Seq<char>, bounds: Seq<(usize, usize)>) -> Seq<Seq<char>> {
    Seq::new(bounds.len(), |k: int| s.subrange(bounds[k].0 as int, bounds[k].1 as int))
}

/// Whether no character of `s` is `c`.
pub open spec fn free_of(s: Seq<char>, c: char) -> bool {
    forall|i: int| 0 <= i < s.len() ==> s[i] != c
}

/// Splitting always yields a piece.
pub proof fn lemma_pieces_len(s: Seq<char>, sep: char)
    ensures
        pieces(s, sep).len() >= 1,
    decreases s.len(),
{
    if s.len() > 0 {
        lemma_pieces_len(s.drop_last(), sep);
    }
}

/// The position `i` is where `c` occurs last in `s` as soon as `c` stands
/// there and nowhere behind it.
pub proof fn lemma_index_of_last_at(s: Seq<char>, c: char, i: int)
    requires
        0 <= i < s.len(),
        s[i] == c,
        forall|j: int| i < j < s.len() ==> s[j] != c,
    ensures
        s.index_of_last(c) == Some(i),
{
    s.index_of_last_ensures(c);
    assert(s.contains(c));
}

/// The position `i` is where `c` occurs first in `s` as soon as `c` stands
/// there and nowhere in front of it.
pub proof fn lemma_index_of_first_at(s: Seq<char>, c: char, i: int)
    requires
        0 <= i < s.len(),
        s[i] == c,
        forall|j: int| 0 <= j < i ==> s[j] != c,
    ensures
        s.index_of_first(c) == Some(i),
{
    s.index_of_first_ensures(c);
    assert(s.contains(c));
}

/// A text without `c` has neither a first nor a last occurrence of it.
pub proof fn lemma_index_of_absent(s: Seq<char>, c: char)
    requires
        free_of(s, c),
    ensures
        s.index_of_first(c) is None,
        s.index_of_last(c) is None,
{
    s.index_of_first_ensures(c);
    s.index_of_last_ensures(c);
}

/// A text without the separator is a single piece.
pub proof fn lemma_pieces_of_plain(s: Seq<char>, sep: char)
    requires
        free_of(s, sep),
    ensures
        pieces(s, sep) == seq![s],
    decreases s.len(),
{
    if s.len() > 0 {
        lemma_pieces_of_plain(s.drop_last(), sep);
        assert(s.drop_last().push(s.last()) =~= s);
        assert(seq![s.drop_last()].drop_last().push(s) =~= seq![s]);
    } else {
        assert(s =~= Seq::<char>::empty());
    }
}

/// No piece holds the separator.
pub proof fn lemma_pieces_are_plain(s: Seq<char>, sep: char)
    ensures
        forall|k: int|
            0 <= k < pieces(s, sep).len() ==> free_of(#[trigger] pieces(s, sep)[k], sep),
    decreases s.len(),
{
    if s.len() > 0 {
        lemma_pieces_are_plain(s.drop_last(), sep);
        lemma_pieces_len(s.drop_last(), sep);
    }
}

/// The pieces of two texts written with a separator between them are the
/// pieces of the first followed by those of the second.
pub proof fn lemma_pieces_of_pair(a: Seq<char>, b: Seq<char>, sep: char)
    ensures
        pieces(a + seq![sep] + b, sep) == pieces(a, sep) + pieces(b, sep),
    decreases b.len(),
{
    let whole = a + seq![sep] + b;
    if b.len() == 0 {
        assert(whole.drop_last() =~= a);
        assert(pieces(a, sep).push(Seq::<char>::empty()) =~= pieces(a, sep) + pieces(b, sep));
    } else {
        let shorter = b.drop_last();
        lemma_pieces_of_pair(a, shorter, sep);
        lemma_pieces_len(shorter, sep);
        assert(whole.drop_last() =~= a + seq![sep] + shorter);
        assert(whole.last() == b.last());
        let front = pieces(a, sep);
        let back = pieces(shorter, sep);
        if b.last() == sep {
            assert((front + back).push(Seq::<char>::empty()) =~= front + back.push(
                Seq::<char>::empty(),
            ));
        } else {
            assert((front + back).drop_last() =~= front + back.drop_last());
            assert((front + back).drop_last().push((front + back).last().push(b.last()))
                =~= front + back.drop_last().push(back.last().push(b.last())));
        }
    }
}

/// Splitting undoes joining: parts that are free of the separator come back
/// as the pieces of their join.
pub proof fn lemma_pieces_of_join(parts: Seq<Seq<char>>, sep: char)
    requires
        parts.len() >= 1,
        forall|k: int| 0 <= k < parts.len() ==> free_of(#[trigger] parts[k], sep),
    ensures
        pieces(join(parts, seq![sep]), sep) == parts,
    decreases parts.len(),
{
    if parts.len() == 1 {
        lemma_pieces_of_plain(parts[0], sep);
        assert(seq![parts[0]] =~= parts);
    } else {
        let front = parts.drop_last();
        lemma_pieces_of_join(front, sep);
        lemma_pieces_of_plain(parts.last(), sep);
        lemma_pieces_of_pair(join(front, seq![sep]), parts.last(), sep);
        assert(front + seq![parts.last()] =~= parts);
    }
}

/// Joining undoes splitting: the pieces of a text, joined by the separator,
/// give the text back.
pub proof fn lemma_join_of_pieces(s: Seq<char>, sep: char)
    ensures
        join(pieces(s, sep), seq![sep]) == s,
    decreases s.len(),
{
    if s.len() == 0 {
        assert(s =~= Seq::<char>::empty());
    } else {
        let shorter = s.drop_last();
        let before = pieces(shorter, sep);
        lemma_join_of_pieces(shorter, sep);
        lemma_pieces_len(shorter, sep);
        assert(shorter.push(s.last()) =~= s);
        if s.last() == sep {
            assert(before.push(Seq::<char>::empty()).drop_last() =~= before);
            assert(join(before, seq![sep]) + seq![sep] + Seq::<char>::empty() =~= s);
        } else {
            let grown = before.drop_last().push(before.last().push(s.last()));
            assert(grown.drop_last() =~= before.drop_last());
            if before.len() == 1 {
                assert(before.last().push(s.last()) =~= s);
            } else {
                assert(join(before.drop_last(), seq![sep]) + seq![sep] + before.last().push(
                    s.last(),
                ) =~= (join(before.drop_last(), seq![sep]) + seq![sep] + before.last()).push(
                    s.last(),
                ));
            }
        }
    }
}

/// Nothing is discarded from parts that all hold a character.
pub proof fn lemma_keep_non_empty(parts: Seq<Seq<char>>)
    requires
        forall|k: int| 0 <= k < parts.len() ==> (#[trigger] parts[k]).len() > 0,
    ensures
        parts.filter(non_empty()) == parts,
    decreases parts.len(),
{
    reveal(Seq::filter);
    if parts.len() > 0 {
        lemma_keep_non_empty(parts.drop_last());
        assert(parts.drop_last().push(parts.last()) =~= parts);
    }
}

/// Every path segment holds a character and no `/`.
pub proof fn lemma_segments_are_names(s: Seq<char>)
    ensures
        forall|k: int|
            0 <= k < segments(s).len() ==> (#[trigger] segments(s)[k]).len() > 0 && free_of(
                segments(s)[k],
                '/',
            ),
{
    let all = pieces(s, '/');
    lemma_pieces_are_plain(s, '/');
    assert forall|k: int| 0 <= k < segments(s).len() implies (#[trigger] segments(s)[k]).len() > 0
        && free_of(segments(s)[k], '/') by {
        let x = segments(s)[k];
        all.lemma_filter_pred(non_empty(), k);
        assert(all.filter(non_empty()).contains(x));
        all.lemma_filter_contains_rev(non_empty(), x);
        let j = choose|j: int| 0 <= j < all.len() && all[j] == x;
        assert(free_of(all[j], '/'));
    }
}

/// Names that hold a character and no `/` are the path segments of their
/// join by `/`.
pub proof fn lemma_segments_of_join(parts: Seq<Seq<char>>)
    requires
        parts.len() >= 1,
        forall|k: int|
            0 <= k < parts.len() ==> (#[trigger] parts[k]).len() > 0 && free_of(parts[k], '/'),
    ensures
        segments(join(parts, seq!['/'])) == parts,
{
    lemma_pieces_of_join(parts, '/');
    lemma_keep_non_empty(parts);
}

/// A join of two or more parts begins with the first part and the
/// separator; the join of the others follows.
pub proof fn lemma_join_from_front(parts: Seq<Seq<char>>, sep: Seq<char>)
    requires
        parts.len() >= 2,
    ensures
        join(parts, sep) == parts[0] + sep + join(parts.drop_first(), sep),
    decreases parts.len(),
{
    let rest = parts.drop_first();
    if parts.len() == 2 {
        assert(join(parts.drop_last(), sep) == parts[0]);
        assert(join(rest, sep) == parts[1]);
    } else {
        lemma_join_from_front(parts.drop_last(), sep);
        assert(parts.drop_last().drop_first() =~= rest.drop_last());
        assert(join(rest, sep) == join(rest.drop_last(), sep) + sep + parts.last());
        assert(parts[0] + sep + join(rest.drop_last(), sep) + sep + parts.last() =~= parts[0]
            + sep + (join(rest.drop_last(), sep) + sep + parts.last()));
    }
}

/// What is written behind the last part of a join stands behind the join.
pub proof fn lemma_join_extend_last(
    front: Seq<Seq<char>>,
    last: Seq<char>,
    more: Seq<char>,
    sep: Seq<char>,
)
    ensures
        join(front.push(last + more), sep) == join(front.push(last), sep) + more,
{
    assert(front.push(last + more).drop_last() =~= front);
    assert(front.push(last).drop_last() =~= front);
    if front.len() > 0 {
        assert(join(front, sep) + sep + (last + more) =~= join(front, sep) + sep + last + more);
    }
}

/// A join whose first part holds a character begins with that character.
pub proof fn lemma_join_head(parts: Seq<Seq<char>>, sep: Seq<char>)
    requires
        parts.len() >= 1,
        parts[0].len() > 0,
    ensures
        join(parts, sep).len() > 0,
        join(parts, sep)[0] == parts[0][0],
    decreases parts.len(),
{
    if parts.len() > 1 {
        lemma_join_head(parts.drop_last(), sep);
    }
}

/// Copies the characters of `s` into a vector.
pub(crate) fn chars_of(s: &str) -> (v: Vec<char>)
    ensures
        v@ == s@,
{
    let mut v: Vec<char> = Vec::new();
    let chars = s.chars();
    for c in it: chars
        invariant
            it.seq() == s@,
            v@ == it.seq().take(it.index()),
    {
        v.push(c);
    }
    v
}

/// Whether `text` begins with `prefix`.
pub(crate) fn starts_with(text: &Vec<char>, prefix: &Vec<char>) -> (r: bool)
    ensures
        r == prefix@.is_prefix_of(text@),
{
    if prefix.len() > text.len() {
        return false;
    }
    let mut i: usize = 0;
    while i < prefix.len()
        invariant
            i <= prefix.len() <= text.len(),
            forall|j: int| 0 <= j < i ==> prefix@[j] == text@[j],
        decreases prefix.len() - i,
    {
        if prefix[i] != text[i] {
            assert(text@.subrange(0, prefix@.len() as int)[i as int] != prefix@[i as int]);
            return false;
        }
        i += 1;
    }
    assert(prefix@ =~= text@.subrange(0, prefix@.len() as int));
    true
}

/// The position of the last `c` among `text[from..to]`.
pub(crate) fn find_last(text: &Vec<char>, from: usize, to: usize, c: char) -> (r: Option<usize>)
    requires
        from <= to <= text.len(),
    ensures
        match r {
            Some(i) => from <= i < to && text@.subrange(from as int, to as int).index_of_last(c)
                == Some(i - from),
            None => text@.subrange(from as int, to as int).index_of_last(c) is None,
        },
{
    let ghost window = text@.subrange(from as int, to as int);
    let mut i: usize = to;
    while i > from
        invariant
            from <= i <= to <= text.len(),
            window == text@.subrange(from as int, to as int),
            forall|j: int| i - from <= j < window.len() ==> window[j] != c,
        decreases i,
    {
        i -= 1;
        if text[i] == c {
            proof {
                lemma_index_of_last_at(window, c, i - from);
            }
            return Some(i);
        }
    }
    proof {
        lemma_index_of_absent(window, c);
    }
    None
}

/// The position of the first `c` among `text[from..to]`.
pub(crate) fn find_first(text: &Vec<char>, from: usize, to: usize, c: char) -> (r: Option<usize>)
    requires
        from <= to <= text.len(),
    ensures
        match r {
            Some(i) => from <= i < to && text@.subrange(from as int, to as int).index_of_first(c)
                == Some(i - from),
            None => text@.subrange(from as int, to as int).index_of_first(c) is None,
        },
{
    let ghost window = text@.subrange(from as int, to as int);
    let mut i: usize = from;
    while i < to
        invariant
            from <= i <= to <= text.len(),
            window == text@.subrange(from as int, to as int),
            forall|j: int| 0 <= j < i - from ==> window[j] != c,
        decreases to - i,
    {
        if text[i] == c {
            proof {
                lemma_index_of_first_at(window, c, i - from);
            }
            return Some(i);
        }
        i += 1;
    }
    proof {
        lemma_index_of_absent(window, c);
    }
    None
}

/// The length of the leading run of `c` in `text`.
pub(crate) fn leading_run(text: &Vec<char>, c: char) -> (k: usize)
    ensures
        k <= text.len(),
        text@.skip(k as int) == trim_start(text@, c),
{
    let mut k: usize = 0;
    assert(text@.skip(0) =~= text@);
    while k < text.len() && text[k] == c
        invariant
            k <= text.len(),
            trim_start(text@.skip(k as int), c) == trim_start(text@, c),
        decreases text.len() - k,
    {
        assert(text@.skip(k as int).drop_first() =~= text@.skip(k + 1));
        k += 1;
    }
    k
}

/// The bounds of the path segments of `text[start..]`, in order.
pub(crate) fn segment_bounds(text: &Vec<char>, start: usize) -> (bounds: Vec<(usize, usize)>)
    requires
        start <= text.len(),
    ensures
        slices(text@, bounds@) == segments(text@.skip(start as int)),
        forall|k: int|
            0 <= k < bounds.len() ==> start <= (#[trigger] bounds[k]).0 < bounds[k].1
                <= text.len(),
{
    let n = text.len();
    let mut bounds: Vec<(usize, usize)> = Vec::new();
    let mut begin: usize = start;
    let mut i: usize = start;
    proof {
        assert(text@.subrange(start as int, start as int) =~= Seq::<char>::empty());
        assert(pieces(Seq::<char>::empty(), '/').drop_last() =~= Seq::<Seq<char>>::empty());
        reveal_with_fuel(Seq::filter, 1);
        assert(slices(text@, bounds@) =~= Seq::<Seq<char>>::empty());
    }
    while i < n
        invariant
            start <= begin <= i <= n == text.len(),
            forall|k: int|
                0 <= k < bounds.len() ==> start <= (#[trigger] bounds[k]).0 < bounds[k].1
                    <= text.len(),
            slices(text@, bounds@) == pieces(
                text@.subrange(start as int, i as int),
                '/',
            ).drop_last().filter(non_empty()),
            pieces(text@.subrange(start as int, i as int), '/').last() == text@.subrange(
                begin as int,
                i as int,
            ),
        decreases n - i,
    {
        let ghost seen = text@.subrange(start as int, i as int);
        let ghost next = text@.subrange(start as int, i + 1);
        let ghost parts = pieces(seen, '/');
        let ghost open = text@.subrange(begin as int, i as int);
        proof {
            lemma_pieces_len(seen, '/');
            assert(next.drop_last() =~= seen);
            assert(next.last() == text@[i as int]);
            assert(parts =~= parts.drop_last().push(open));
        }
        if text[i] == '/' {
            proof {
                assert(pieces(next, '/').drop_last() =~= parts);
                parts.drop_last().lemma_filter_push(open, non_empty());
                assert(pieces(next, '/').last() =~= text@.subrange(i + 1, i + 1));
            }
            if begin < i {
                let ghost old_bounds = bounds@;
                bounds.push((begin, i));
                assert(slices(text@, bounds@) =~= slices(text@, old_bounds).push(open));
            }
            begin = i + 1;
        } else {
            proof {
                assert(pieces(next, '/').drop_last() =~= parts.drop_last());
                assert(pieces(next, '/').last() =~= text@.subrange(begin as int, i + 1));
            }
        }
        i += 1;
    }
    let ghost all = text@.subrange(start as int, n as int);
    let ghost parts = pieces(all, '/');
    let ghost open = text@.subrange(begin as int, n as int);
    proof {
        lemma_pieces_len(all, '/');
        assert(all =~= text@.skip(start as int));
        assert(parts =~= parts.drop_last().push(open));
        parts.drop_last().lemma_filter_push(open, non_empty());
    }
    if begin < n {
        let ghost old_bounds = bounds@;
        bounds.push((begin, n));
        assert(slices(text@, bounds@) =~= slices(text@, old_bounds).push(open));
    }
    bounds
}

} // verus!
