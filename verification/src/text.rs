//! Finding a value in a sequence, and splitting text on a separator
//! character.

use vstd::prelude::*;

verus! {

/// The position of the first `sep` in `s`, or `s.len()` if there is none.
pub open spec fn first_index<T>(s: Seq<T>, sep: T) -> int
    decreases s.len(),
{
    if s.len() == 0 || s[0] == sep {
        0
    } else {
        1 + first_index(s.drop_first(), sep)
    }
}

/// The fields of `s` between occurrences of `sep`, empty fields included.
/// A text without `sep` is its own single field.
pub open spec fn split(s: Seq<char>, sep: char) -> Seq<Seq<char>>
    decreases s.len(),
{
    let k = first_index(s, sep);
    if 0 <= k < s.len() {
        seq![s.take(k)] + split(s.skip(k + 1), sep)
    } else {
        seq![s]
    }
}

/// `first_index` lies within the text, nothing before it is `sep`, and the
/// character at it is, unless it is the end.
pub proof fn lemma_first_index<T>(s: Seq<T>, sep: T)
    ensures
        0 <= first_index(s, sep) <= s.len(),
        forall|i: int| 0 <= i < first_index(s, sep) ==> s[i] != sep,
        first_index(s, sep) < s.len() ==> s[first_index(s, sep)] == sep,
    decreases s.len(),
{
    if s.len() != 0 && s[0] != sep {
        let t = s.drop_first();
        lemma_first_index(t, sep);
        assert forall|i: int| 0 <= i < first_index(s, sep) implies s[i] != sep by {
            if i > 0 {
                assert(s[i] == t[i - 1]);
            }
        }
    }
}

/// A position `k` that holds `sep`, or is the end, with no `sep` before it,
/// is the first index.
pub proof fn lemma_first_index_is<T>(s: Seq<T>, sep: T, k: int)
    requires
        0 <= k <= s.len(),
        forall|i: int| 0 <= i < k ==> s[i] != sep,
        k < s.len() ==> s[k] == sep,
    ensures
        first_index(s, sep) == k,
{
    lemma_first_index(s, sep);
}

/// Every field is free of `sep`.
pub proof fn lemma_split_fields(s: Seq<char>, sep: char)
    ensures
        split(s, sep).len() >= 1,
        forall|j: int, i: int|
            0 <= j < split(s, sep).len() && 0 <= i < split(s, sep)[j].len() ==> split(
                s,
                sep,
            )[j][i] != sep,
    decreases s.len(),
{
    lemma_first_index(s, sep);
    let k = first_index(s, sep);
    if k < s.len() {
        lemma_split_fields(s.skip(k + 1), sep);
    }
}

/// A separator at the end adds one empty field and changes no other.
pub proof fn lemma_split_push_sep(s: Seq<char>, sep: char)
    ensures
        split(s.push(sep), sep) == split(s, sep).push(Seq::<char>::empty()),
    decreases s.len(),
{
    lemma_first_index(s, sep);
    let k = first_index(s, sep);
    let t = s.push(sep);
    lemma_first_index_is(t, sep, k);
    if k < s.len() {
        assert(t.take(k) == s.take(k));
        assert(t.skip(k + 1) == s.skip(k + 1).push(sep));
        lemma_split_push_sep(s.skip(k + 1), sep);
        assert(split(t, sep) == seq![s.take(k)] + split(s.skip(k + 1), sep).push(
            Seq::<char>::empty(),
        ));
    } else {
        assert(t.take(k) == s);
        assert(t.skip(k + 1) == Seq::<char>::empty());
        assert(first_index(Seq::<char>::empty(), sep) == 0);
        assert(split(Seq::<char>::empty(), sep) == seq![Seq::<char>::empty()]);
        assert(split(t, sep) == seq![s] + seq![Seq::<char>::empty()]);
    }
}

/// Splits `s` on `sep` as `str::split` does: every field, empty ones
/// included, in order.
pub fn split_on(s: &str, sep: char) -> (fields: Vec<String>)
    ensures
        fields.deep_view() == split(s@, sep),
{
    let n = s.unicode_len();
    let mut fields: Vec<String> = Vec::new();
    let mut start: usize = 0;
    let mut i: usize = 0;
    assert(s@.skip(0) == s@);
    assert(fields.deep_view() == Seq::<Seq<char>>::empty());
    for c in it: s.chars()
        invariant
            n == s@.len(),
            it.seq() == s@,
            i == it.index(),
            start <= i <= n,
            forall|j: int| start <= j < i ==> s@[j] != sep,
            split(s@, sep) == fields.deep_view() + split(s@.skip(start as int), sep),
    {
        if c == sep {
            let field = String::from_str(s.substring_char(start, i));
            proof {
                let rest = s@.skip(start as int);
                lemma_first_index_is(rest, sep, i - start);
                assert(rest.take(i - start) == s@.subrange(start as int, i as int));
                assert(rest.skip(i - start + 1) == s@.skip(i + 1));
                assert(fields.deep_view().push(field@) + split(s@.skip(i + 1), sep)
                    == fields.deep_view() + split(rest, sep));
            }
            let ghost before = fields.deep_view();
            fields.push(field);
            assert(fields.deep_view() == before.push(field@));
            start = i + 1;
        }
        i += 1;
    }
    let field = String::from_str(s.substring_char(start, n));
    proof {
        let rest = s@.skip(start as int);
        lemma_first_index_is(rest, sep, n - start);
        assert(rest == s@.subrange(start as int, n as int));
        assert(split(rest, sep) == seq![rest]);
    }
    let ghost before = fields.deep_view();
    fields.push(field);
    assert(fields.deep_view() == before.push(field@));
    fields
}

} // verus!
