//! Splitting a sequence at separators.
use vstd::prelude::*;

verus! {

/// The fields of `s` between the items that satisfy `sep`. A sequence with
/// `n` separators has `n + 1` fields, some of which may be empty.
pub open spec fn split_on<A>(s: Seq<A>, sep: spec_fn(A) -> bool) -> Seq<Seq<A>>
    decreases s.len(),
{
    if s.len() == 0 {
        seq![Seq::empty()]
    } else {
        let before = split_on(s.drop_last(), sep);
        if sep(s.last()) {
            before.push(Seq::empty())
        } else {
            before.drop_last().push(before.last().push(s.last()))
        }
    }
}

/// No item of `s` satisfies `sep`.
pub open spec fn free_of<A>(s: Seq<A>, sep: spec_fn(A) -> bool) -> bool {
    forall|i: int| 0 <= i < s.len() ==> !sep(#[trigger] s[i])
}

/// There is at least one field, and no field holds a separator.
pub proof fn lemma_split_fields<A>(s: Seq<A>, sep: spec_fn(A) -> bool)
    ensures
        split_on(s, sep).len() > 0,
        forall|i: int|
            0 <= i < split_on(s, sep).len() ==> free_of(#[trigger] split_on(s, sep)[i], sep),
    decreases s.len(),
{
    if s.len() > 0 {
        lemma_split_fields(s.drop_last(), sep);
    }
}

/// Without separators there is one field, the whole sequence.
pub proof fn lemma_split_free<A>(s: Seq<A>, sep: spec_fn(A) -> bool)
    requires
        free_of(s, sep),
    ensures
        split_on(s, sep) == seq![s],
    decreases s.len(),
{
    if s.len() == 0 {
        assert(s =~= Seq::empty());
    } else {
        let front = s.drop_last();
        assert forall|i: int| 0 <= i < front.len() implies !sep(#[trigger] front[i]) by {
            assert(front[i] == s[i]);
        }
        lemma_split_free(front, sep);
        assert(!sep(s[s.len() - 1]));
        assert(front.push(s.last()) =~= s);
    }
    assert(split_on(s, sep) =~= seq![s]);
}

/// A separator between two sequences keeps their fields apart.
pub proof fn lemma_split_concat<A>(a: Seq<A>, c: A, b: Seq<A>, sep: spec_fn(A) -> bool)
    requires
        sep(c),
    ensures
        split_on(a.push(c) + b, sep) == split_on(a, sep) + split_on(b, sep),
    decreases b.len(),
{
    let whole = a.push(c) + b;
    lemma_split_fields(b, sep);
    if b.len() == 0 {
        assert(whole =~= a.push(c));
        assert(whole.drop_last() =~= a);
        assert(split_on(whole, sep) =~= split_on(a, sep) + split_on(b, sep));
    } else {
        lemma_split_concat(a, c, b.drop_last(), sep);
        lemma_split_fields(b.drop_last(), sep);
        assert(whole.drop_last() =~= a.push(c) + b.drop_last());
        assert(split_on(whole, sep) =~= split_on(a, sep) + split_on(b, sep));
    }
}

/// The first separator.
proof fn lemma_first_separator<A>(s: Seq<A>, sep: spec_fn(A) -> bool) -> (k: int)
    ensures
        0 <= k <= s.len(),
        free_of(s.take(k), sep),
        k < s.len() ==> sep(s[k]),
    decreases s.len(),
{
    if s.len() == 0 {
        0
    } else {
        let front = s.drop_last();
        let k = lemma_first_separator(front, sep);
        assert(front.take(k) =~= s.take(k));
        if k < front.len() || sep(s.last()) {
            k
        } else {
            assert forall|i: int| 0 <= i < s.len() implies !sep(#[trigger] s.take(k + 1)[i]) by {
                if i < k {
                    assert(s.take(k)[i] == s[i]);
                }
            }
            k + 1
        }
    }
}

/// The last separator.
proof fn lemma_last_separator<A>(s: Seq<A>, sep: spec_fn(A) -> bool) -> (k: int)
    ensures
        -1 <= k < s.len(),
        free_of(s.skip(k + 1), sep),
        k >= 0 ==> sep(s[k]),
    decreases s.len(),
{
    if s.len() == 0 {
        -1
    } else if sep(s.last()) {
        s.len() - 1
    } else {
        let front = s.drop_last();
        let k = lemma_last_separator(front, sep);
        assert forall|i: int| 0 <= i < s.skip(k + 1).len() implies !sep(
            #[trigger] s.skip(k + 1)[i],
        ) by {
            if i < front.len() - k - 1 {
                assert(front.skip(k + 1)[i] == s.skip(k + 1)[i]);
            }
        }
        k
    }
}

/// The first field stands at the beginning. Behind it comes a separator, and
/// then the other fields, unless it is the only one.
pub proof fn lemma_first_field<A>(s: Seq<A>, sep: spec_fn(A) -> bool)
    ensures
        ({
            let first = split_on(s, sep)[0];
            let n = first.len() as int;
            &&& n <= s.len()
            &&& first == s.take(n)
            &&& n == s.len() ==> split_on(s, sep) == seq![s]
            &&& n < s.len() ==> sep(s[n]) && split_on(s, sep) == seq![first] + split_on(
                s.skip(n + 1),
                sep,
            )
        }),
{
    let k = lemma_first_separator(s, sep);
    let head = s.take(k);
    lemma_split_free(head, sep);
    if k < s.len() {
        assert(head.push(s[k]) + s.skip(k + 1) =~= s);
        lemma_split_concat(head, s[k], s.skip(k + 1), sep);
    } else {
        assert(head =~= s);
    }
}

/// The last field stands at the end. Before it comes a separator, and before
/// that the other fields, unless it is the only one.
pub proof fn lemma_last_field<A>(s: Seq<A>, sep: spec_fn(A) -> bool)
    ensures
        split_on(s, sep).len() > 0,
        ({
            let last = split_on(s, sep).last();
            let n = s.len() - last.len();
            &&& n >= 0
            &&& last == s.skip(n)
            &&& free_of(last, sep)
            &&& n == 0 ==> split_on(s, sep) == seq![s]
            &&& n > 0 ==> sep(s[n - 1]) && split_on(s, sep) == split_on(s.take(n - 1), sep).push(
                last,
            )
        }),
{
    let k = lemma_last_separator(s, sep);
    let end = s.skip(k + 1);
    lemma_split_free(end, sep);
    lemma_split_fields(s, sep);
    if k >= 0 {
        assert(s.take(k).push(s[k]) + end =~= s);
        lemma_split_concat(s.take(k), s[k], end, sep);
        assert(split_on(s, sep) =~= split_on(s.take(k), sep).push(end));
    } else {
        assert(end =~= s);
    }
}

} // verus!
