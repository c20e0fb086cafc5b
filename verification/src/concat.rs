//! Small facts about concatenation and prefixes of byte sequences.

use vstd::prelude::*;

verus! {

/// Concatenation may be grouped either way.
pub proof fn lemma_regroup(a: Seq<u8>, b: Seq<u8>, c: Seq<u8>)
    ensures
        a + b + c == a + (b + c),
{
    assert(a + b + c =~= a + (b + c));
}

/// What starts with `front` has it as a prefix, and skipping it leaves the
/// rest.
pub proof fn lemma_skip_front(front: Seq<u8>, rest: Seq<u8>)
    ensures
        front.is_prefix_of(front + rest),
        (front + rest).skip(front.len() as int) == rest,
{
    assert(front =~= (front + rest).subrange(0, front.len() as int));
    assert((front + rest).skip(front.len() as int) =~= rest);
}

/// What has `front` as a prefix is `front` followed by the rest.
pub proof fn lemma_split_front(front: Seq<u8>, whole: Seq<u8>)
    requires
        front.is_prefix_of(whole),
    ensures
        whole == front + whole.skip(front.len() as int),
{
    assert(whole =~= front + whole.skip(front.len() as int));
}

/// A prefix of `whole` is a prefix of `whole` followed by anything.
pub proof fn lemma_prefix_of_longer(part: Seq<u8>, whole: Seq<u8>, more: Seq<u8>)
    requires
        part.is_prefix_of(whole),
    ensures
        part.is_prefix_of(whole + more),
{
    assert(part =~= (whole + more).subrange(0, part.len() as int));
}

/// A prefix of a prefix is a prefix.
pub proof fn lemma_prefix_chain(first: Seq<u8>, second: Seq<u8>, third: Seq<u8>)
    requires
        first.is_prefix_of(second),
        second.is_prefix_of(third),
    ensures
        first.is_prefix_of(third),
{
    assert(first =~= third.subrange(0, first.len() as int));
}

/// Two sequences that start alike and then go on with different bytes are
/// different.
pub proof fn lemma_fronts_differ(
    front: Seq<u8>,
    one: Seq<u8>,
    other: Seq<u8>,
    whole: Seq<u8>,
    tail: Seq<u8>,
)
    requires
        (front + one).is_prefix_of(whole),
        one.len() > 0,
        other.len() > 0,
        one[0] != other[0],
    ensures
        whole != front + other + tail,
{
    let at = front.len() as int;
    assert(whole.subrange(0, (front + one).len() as int)[at] == (front + one)[at]);
    assert((front + other + tail)[at] == other[0]);
}

} // verus!
