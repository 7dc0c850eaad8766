//! Splitting a sequence on a separator and joining the parts again.
//!
//! Both the canonical encoding of a hash list (characters, split on a newline)
//! and the fingerprinting of a text (bytes, split on a newline) are stated
//! over these two functions.

use vstd::prelude::*;

verus! {

/// The parts of `s` between occurrences of `sep`, in order.
///
/// There is always at least one part: a sequence without `sep` is its own
/// single part, and a separator at either end leaves an empty part there.
pub open spec fn split_on<T>(s: Seq<T>, sep: T) -> Seq<Seq<T>>
    decreases s.len(),
{
    if s.len() == 0 {
        seq![Seq::<T>::empty()]
    } else {
        let before = split_on(s.drop_last(), sep);
        if s.last() == sep {
            before.push(Seq::<T>::empty())
        } else {
            before.update(before.len() - 1, before.last().push(s.last()))
        }
    }
}

/// The parts laid end to end with one `sep` between neighbours.
pub open spec fn join_with<T>(parts: Seq<Seq<T>>, sep: T) -> Seq<T>
    decreases parts.len(),
{
    if parts.len() == 0 {
        Seq::<T>::empty()
    } else if parts.len() == 1 {
        parts[0]
    } else {
        join_with(parts.drop_last(), sep).push(sep) + parts.last()
    }
}

/// No element of `s` is `sep`.
pub open spec fn free_of<T>(s: Seq<T>, sep: T) -> bool {
    forall|i: int| 0 <= i < s.len() ==> s[i] != sep
}

/// No part holds `sep`.
pub open spec fn parts_free_of<T>(parts: Seq<Seq<T>>, sep: T) -> bool {
    forall|i: int| 0 <= i < parts.len() ==> free_of(#[trigger] parts[i], sep)
}

/// `p` is an initial stretch of `s`.
pub open spec fn is_prefix_of<T>(p: Seq<T>, s: Seq<T>) -> bool {
    p.len() <= s.len() && s.subrange(0, p.len() as int) == p
}

/// A split has at least one part, and no part holds the separator.
pub proof fn lemma_split_parts<T>(s: Seq<T>, sep: T)
    ensures
        split_on(s, sep).len() >= 1,
        split_on(s, sep).len() <= s.len() + 1,
        parts_free_of(split_on(s, sep), sep),
    decreases s.len(),
{
    if s.len() > 0 {
        lemma_split_parts(s.drop_last(), sep);
        let before = split_on(s.drop_last(), sep);
        let parts = split_on(s, sep);
        assert forall|i: int| 0 <= i < parts.len() implies free_of(#[trigger] parts[i], sep) by {
            if i < before.len() - 1 {
                assert(parts[i] == before[i]);
            } else if s.last() != sep {
                assert(free_of(before[i], sep));
            }
        }
    }
}

/// Joining the parts of a split gives the sequence back.
pub proof fn lemma_join_split<T>(s: Seq<T>, sep: T)
    ensures
        join_with(split_on(s, sep), sep) == s,
    decreases s.len(),
{
    if s.len() > 0 {
        let init = s.drop_last();
        lemma_join_split(init, sep);
        lemma_split_parts(init, sep);
        let before = split_on(init, sep);
        let parts = split_on(s, sep);
        if s.last() == sep {
            assert(parts.drop_last() == before);
            assert(join_with(parts, sep) == init.push(sep) + Seq::<T>::empty());
            assert(init.push(sep) + Seq::<T>::empty() == s);
        } else if before.len() == 1 {
            assert(parts[0] == before[0].push(s.last()));
            assert(init.push(s.last()) == s);
        } else {
            assert(parts.drop_last() == before.drop_last());
            let head = join_with(before.drop_last(), sep).push(sep);
            assert(head + before.last().push(s.last()) == (head + before.last()).push(s.last()));
            assert(init.push(s.last()) == s);
        }
    }
}

/// Appending elements other than the separator lengthens the last part only.
pub proof fn lemma_split_append_plain<T>(s: Seq<T>, tail: Seq<T>, sep: T)
    requires
        free_of(tail, sep),
    ensures
        split_on(s, sep).len() >= 1,
        split_on(s + tail, sep) == split_on(s, sep).update(
            split_on(s, sep).len() - 1,
            split_on(s, sep).last() + tail,
        ),
    decreases tail.len(),
{
    lemma_split_parts(s, sep);
    let parts = split_on(s, sep);
    if tail.len() == 0 {
        assert(s + tail == s);
        assert(parts.last() + tail == parts.last());
        assert(parts.update(parts.len() - 1, parts.last()) == parts);
    } else {
        let shorter = tail.drop_last();
        assert(free_of(shorter, sep)) by {
            assert forall|i: int| 0 <= i < shorter.len() implies shorter[i] != sep by {
                assert(shorter[i] == tail[i]);
            }
        }
        lemma_split_append_plain(s, shorter, sep);
        assert((s + tail).drop_last() == s + shorter);
        assert((s + tail).last() == tail.last());
        assert(tail.last() != sep);
        let mid = parts.update(parts.len() - 1, parts.last() + shorter);
        assert(mid.last().push(tail.last()) == parts.last() + tail);
        assert(mid.update(mid.len() - 1, parts.last() + tail) == parts.update(
            parts.len() - 1,
            parts.last() + tail,
        ));
    }
}

/// Splitting what was joined gives the parts back, as long as there is at
/// least one part and none holds the separator.
pub proof fn lemma_split_join<T>(parts: Seq<Seq<T>>, sep: T)
    requires
        parts.len() >= 1,
        parts_free_of(parts, sep),
    ensures
        split_on(join_with(parts, sep), sep) == parts,
    decreases parts.len(),
{
    let last = parts.last();
    assert(free_of(last, sep));
    if parts.len() == 1 {
        let nothing = Seq::<T>::empty();
        lemma_split_append_plain(nothing, last, sep);
        assert(nothing + last == last);
        assert(split_on(nothing, sep) == seq![nothing]);
        assert(seq![nothing].update(0, nothing + last) == parts);
    } else {
        let init = parts.drop_last();
        assert(parts_free_of(init, sep)) by {
            assert forall|i: int| 0 <= i < init.len() implies free_of(#[trigger] init[i], sep) by {
                assert(init[i] == parts[i]);
            }
        }
        lemma_split_join(init, sep);
        let head = join_with(init, sep).push(sep);
        assert(head.drop_last() == join_with(init, sep));
        assert(split_on(head, sep) == init.push(Seq::<T>::empty()));
        lemma_split_append_plain(head, last, sep);
        assert(Seq::<T>::empty() + last == last);
        assert(init.push(Seq::<T>::empty()).update(init.len() as int, last) == parts);
    }
}

/// Reading further never changes a completed part, and only lengthens the
/// part that was open: the parts of a prefix, but for its last one, are parts
/// of the whole, and its last part is a prefix of the part at that place.
pub proof fn lemma_split_prefix<T>(p: Seq<T>, rest: Seq<T>, sep: T)
    ensures
        1 <= split_on(p, sep).len() <= split_on(p + rest, sep).len(),
        forall|i: int|
            0 <= i < split_on(p, sep).len() - 1 ==> #[trigger] split_on(p + rest, sep)[i]
                == split_on(p, sep)[i],
        is_prefix_of(
            split_on(p, sep).last(),
            split_on(p + rest, sep)[split_on(p, sep).len() - 1],
        ),
    decreases rest.len(),
{
    lemma_split_parts(p, sep);
    let short = split_on(p, sep);
    if rest.len() == 0 {
        assert(p + rest == p);
        assert(short.last().subrange(0, short.last().len() as int) == short.last());
    } else {
        let init = rest.drop_last();
        lemma_split_prefix(p, init, sep);
        assert((p + rest).drop_last() == p + init);
        let mid = split_on(p + init, sep);
        let long = split_on(p + rest, sep);
        let k = short.len() - 1;
        if rest.last() == sep {
            assert(long == mid.push(Seq::<T>::empty()));
            assert(long[k] == mid[k]);
        } else if k == mid.len() - 1 {
            assert(long[k] == mid[k].push(rest.last()));
            assert(long[k].subrange(0, short.last().len() as int) == mid[k].subrange(
                0,
                short.last().len() as int,
            ));
        } else {
            assert(long[k] == mid[k]);
        }
    }
}

} // verus!
