//! Paths as sequences of segments.

use crate::text::{lemma_split_fields, lemma_split_push_sep, split, split_on};
use vstd::prelude::*;

verus! {

/// The segments of a path: its fields between slashes, without the empty
/// ones that leading, doubled and trailing slashes leave. The path `/` has
/// no segments.
pub open spec fn segments(path: Seq<char>) -> Seq<Seq<char>> {
    split(path, '/').filter(|field: Seq<char>| field.len() > 0)
}

/// Every segment has at least one character and none of them is a slash.
pub proof fn lemma_segments_plain(path: Seq<char>)
    ensures
        forall|j: int|
            0 <= j < segments(path).len() ==> (#[trigger] segments(path)[j]).len() > 0,
        forall|j: int, i: int|
            0 <= j < segments(path).len() && 0 <= i < segments(path)[j].len() ==> segments(
                path,
            )[j][i] != '/',
{
    let fields = split(path, '/');
    let keep = |field: Seq<char>| field.len() > 0;
    lemma_split_fields(path, '/');
    assert forall|j: int| 0 <= j < segments(path).len() implies (#[trigger] segments(
        path,
    )[j]).len() > 0 by {
        fields.lemma_filter_pred(keep, j);
    }
    assert forall|j: int, i: int|
        0 <= j < segments(path).len() && 0 <= i < segments(path)[j].len() implies segments(
        path,
    )[j][i] != '/' by {
        let seg = fields.filter(keep)[j];
        assert(fields.filter(keep).contains(seg));
        fields.lemma_filter_contains_rev(keep, seg);
        let m = choose|m: int| 0 <= m < fields.len() && fields[m] == seg;
        assert(fields[m][i] != '/');
    }
}

/// A slash at the end of a path changes none of its segments.
pub proof fn lemma_segments_trailing_slash(path: Seq<char>)
    ensures
        segments(path.push('/')) == segments(path),
{
    let keep = |field: Seq<char>| field.len() > 0;
    let fields = split(path, '/');
    let longer = fields.push(Seq::<char>::empty());
    lemma_split_push_sep(path, '/');
    reveal(Seq::filter);
    assert(longer.drop_last() == fields);
    assert(!keep(longer.last()));
}

/// The path `/` has no segments, and neither has the empty path.
pub proof fn lemma_segments_root()
    ensures
        segments(seq!['/']) == Seq::<Seq<char>>::empty(),
        segments(Seq::<char>::empty()) == Seq::<Seq<char>>::empty(),
{
    let none = Seq::<char>::empty();
    assert(seq!['/'] == none.push('/'));
    lemma_segments_trailing_slash(none);
    let keep = |field: Seq<char>| field.len() > 0;
    reveal_with_fuel(Seq::filter, 2);
    assert(split(none, '/') == seq![none]);
    assert(seq![none].drop_last() == Seq::<Seq<char>>::empty());
    assert(!keep(seq![none].last()));
}

/// Splits a path into its segments.
pub fn split_path(path: &str) -> (segs: Vec<String>)
    ensures
        segs.deep_view() == segments(path@),
{
    let fields = split_on(path, '/');
    let ghost keep = |field: Seq<char>| field.len() > 0;
    let ghost all = fields.deep_view();
    let mut segs: Vec<String> = Vec::new();
    assert(all.take(0).filter(keep) == Seq::<Seq<char>>::empty()) by {
        reveal(Seq::filter);
    }
    assert(segs.deep_view() == Seq::<Seq<char>>::empty());
    for field in it: fields
        invariant
            it.seq().len() == all.len(),
            forall|f: Seq<char>| #[trigger] keep(f) == (f.len() > 0),
            forall|j: int| 0 <= j < all.len() ==> (#[trigger] it.seq()[j])@ == all[j],
            segs.deep_view() == all.take(it.index() as int).filter(keep),
    {
        let ghost done = it.index() as int;
        let ghost before = segs.deep_view();
        proof {
            reveal(Seq::filter);
            assert(all.take(done + 1).drop_last() == all.take(done));
            assert(all.take(done + 1).last() == field@);
            assert(all.take(done + 1).filter(keep) == if keep(field@) {
                before.push(field@)
            } else {
                before
            });
        }
        if field.unicode_len() > 0 {
            segs.push(field);
            assert(segs.deep_view() == before.push(field@));
        }
    }
    assert(all.take(all.len() as int) == all);
    segs
}

} // verus!
