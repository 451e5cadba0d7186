//! The display order of directory listings, and a stable sort that realises
//! it: directory-like entries first, then case-insensitive name order; among
//! entries that compare equal, the original relative order is kept.
//!
//! The order is a total preorder, not antisymmetric: two distinct entries may
//! compare equal (names equal up to case). The sort is therefore pinned down
//! as [`spec_sort`], a stable insertion sort at the specification level, and
//! the executable code is proved to return exactly that sequence.

use vstd::multiset::Multiset;
use vstd::prelude::*;

use crate::strings::lemma_lex_le_refl;
use crate::strings::lemma_lex_le_total;
use crate::strings::lemma_lex_le_trans;
use crate::strings::lex_le;
use crate::strings::lex_le_exec;
use crate::strings::lower_of;
use crate::strings::to_lower;
use crate::types::EntryModel;
use crate::types::FileEntry;

verus! {

/// The models of a sequence of entries.
pub open spec fn views(s: Seq<FileEntry>) -> Seq<EntryModel> {
    s.map_values(|e: FileEntry| e@)
}

/// The names of a sequence of entry models.
pub open spec fn names_of(s: Seq<EntryModel>) -> Seq<Seq<char>> {
    s.map_values(|e: EntryModel| e.name())
}

/// The display order, pairwise: a directory-like entry sorts before one that
/// is not; among entries with equal directory-likeness, lowercased names
/// compare lexicographically.
pub open spec fn entry_le(a: EntryModel, b: EntryModel) -> bool {
    if a.is_dir_like() != b.is_dir_like() {
        a.is_dir_like()
    } else {
        lex_le(lower_of(a.name()), lower_of(b.name()))
    }
}

/// [`entry_le`] is reflexive.
pub proof fn lemma_entry_le_refl(a: EntryModel)
    ensures
        entry_le(a, a),
{
    lemma_lex_le_refl(lower_of(a.name()));
}

/// [`entry_le`] is total: any two entries compare one way or the other.
pub proof fn lemma_entry_le_total(a: EntryModel, b: EntryModel)
    ensures
        entry_le(a, b) || entry_le(b, a),
{
    if a.is_dir_like() == b.is_dir_like() {
        lemma_lex_le_total(lower_of(a.name()), lower_of(b.name()));
    }
}

/// [`entry_le`] is transitive.
pub proof fn lemma_entry_le_trans(a: EntryModel, b: EntryModel, c: EntryModel)
    requires
        entry_le(a, b),
        entry_le(b, c),
    ensures
        entry_le(a, c),
{
    if a.is_dir_like() == b.is_dir_like() && b.is_dir_like() == c.is_dir_like() {
        lemma_lex_le_trans(lower_of(a.name()), lower_of(b.name()), lower_of(c.name()));
    }
}

/// Every adjacent pair is in order: directory-likeness is non-increasing,
/// and within equal directory-likeness, lowercase names are non-decreasing.
pub open spec fn sorted(s: Seq<EntryModel>) -> bool {
    forall|i: int| 0 <= i < s.len() - 1 ==> #[trigger] entry_le(s[i], s[i + 1])
}

/// Inserts `x` into `s` after every element that sorts no later than it:
/// where `s` is sorted this keeps it sorted, and an element equal to `x`
/// under the order stays before `x`.
pub open spec fn spec_insert(s: Seq<EntryModel>, x: EntryModel) -> Seq<EntryModel>
    decreases s.len(),
{
    if s.len() == 0 {
        seq![x]
    } else if entry_le(s.last(), x) {
        s.push(x)
    } else {
        spec_insert(s.drop_last(), x).push(s.last())
    }
}

/// Stable insertion sort: inserts the elements into an initially empty
/// sequence, left to right.
pub open spec fn spec_sort(s: Seq<EntryModel>) -> Seq<EntryModel>
    decreases s.len(),
{
    if s.len() == 0 {
        Seq::empty()
    } else {
        spec_insert(spec_sort(s.drop_last()), s.last())
    }
}

/// The length and the last element of an insertion.
proof fn lemma_spec_insert_shape(s: Seq<EntryModel>, x: EntryModel)
    ensures
        spec_insert(s, x).len() == s.len() + 1,
        spec_insert(s, x).last() == x || (s.len() > 0 && spec_insert(s, x).last() == s.last()),
    decreases s.len(),
{
    if s.len() == 0 {
    } else if entry_le(s.last(), x) {
    } else {
        lemma_spec_insert_shape(s.drop_last(), x);
    }
}

/// Inserting into a sorted sequence keeps it sorted.
proof fn lemma_spec_insert_sorted(s: Seq<EntryModel>, x: EntryModel)
    requires
        sorted(s),
    ensures
        sorted(spec_insert(s, x)),
    decreases s.len(),
{
    lemma_spec_insert_shape(s, x);
    if s.len() == 0 {
    } else if entry_le(s.last(), x) {
        let r = s.push(x);
        assert forall|i: int| 0 <= i < r.len() - 1 implies #[trigger] entry_le(r[i], r[i + 1]) by {
            if i < s.len() - 1 {
                assert(entry_le(s[i], s[i + 1]));
            }
        }
    } else {
        let t = s.drop_last();
        assert(sorted(t)) by {
            assert forall|i: int| 0 <= i < t.len() - 1 implies #[trigger] entry_le(
                t[i],
                t[i + 1],
            ) by {
                assert(entry_le(s[i], s[i + 1]));
            }
        }
        lemma_spec_insert_sorted(t, x);
        lemma_spec_insert_shape(t, x);
        let r0 = spec_insert(t, x);
        let r = r0.push(s.last());
        assert(entry_le(r0.last(), s.last())) by {
            if r0.last() == x {
                lemma_entry_le_total(x, s.last());
            } else {
                assert(t.len() > 0 && r0.last() == t.last());
                let i = s.len() - 2;
                assert(entry_le(s[i], s[i + 1]));
            }
        }
        assert forall|i: int| 0 <= i < r.len() - 1 implies #[trigger] entry_le(r[i], r[i + 1]) by {
            if i < r0.len() - 1 {
                assert(entry_le(r0[i], r0[i + 1]));
            }
        }
    }
}

/// Insertion adds exactly `x` to the multiset of elements, and `x`'s name to
/// the multiset of names.
proof fn lemma_spec_insert_multiset(s: Seq<EntryModel>, x: EntryModel)
    ensures
        spec_insert(s, x).to_multiset() == s.to_multiset().insert(x),
        names_of(spec_insert(s, x)).to_multiset() == names_of(s).to_multiset().insert(x.name()),
    decreases s.len(),
{
    broadcast use vstd::seq_lib::group_to_multiset_ensures;

    if s.len() == 0 {
        assert(seq![x] =~= Seq::<EntryModel>::empty().push(x));
        assert(Seq::<EntryModel>::empty().to_multiset() =~= Multiset::<EntryModel>::empty());
        assert(names_of(seq![x]) =~= Seq::<Seq<char>>::empty().push(x.name()));
        assert(names_of(Seq::<EntryModel>::empty()) =~= Seq::<Seq<char>>::empty());
        assert(Seq::<Seq<char>>::empty().to_multiset() =~= Multiset::<Seq<char>>::empty());
    } else if entry_le(s.last(), x) {
        assert(names_of(s.push(x)) =~= names_of(s).push(x.name()));
    } else {
        let t = s.drop_last();
        lemma_spec_insert_multiset(t, x);
        assert(s =~= t.push(s.last()));
        assert(spec_insert(s, x).to_multiset() == s.to_multiset().insert(x)) by {
            assert(spec_insert(t, x).push(s.last()).to_multiset() == spec_insert(
                t,
                x,
            ).to_multiset().insert(s.last()));
            assert(t.to_multiset().insert(x).insert(s.last()) =~= t.to_multiset().insert(
                s.last(),
            ).insert(x));
        }
        assert(names_of(spec_insert(s, x)).to_multiset() == names_of(s).to_multiset().insert(
            x.name(),
        )) by {
            assert(names_of(spec_insert(t, x).push(s.last())) =~= names_of(
                spec_insert(t, x),
            ).push(s.last().name()));
            assert(names_of(t.push(s.last())) =~= names_of(t).push(s.last().name()));
            assert(names_of(t).to_multiset().insert(x.name()).insert(s.last().name())
                =~= names_of(t).to_multiset().insert(s.last().name()).insert(x.name()));
        }
    }
}

/// The sorted sequence is sorted: after sorting, for every adjacent pair,
/// directory-likeness is non-increasing, and within equal directory-likeness,
/// lowercase name is non-decreasing.
pub proof fn lemma_spec_sort_sorted(s: Seq<EntryModel>)
    ensures
        sorted(spec_sort(s)),
    decreases s.len(),
{
    if s.len() > 0 {
        lemma_spec_sort_sorted(s.drop_last());
        lemma_spec_insert_sorted(spec_sort(s.drop_last()), s.last());
    }
}

/// Sorting preserves the count of entries, the multiset of entries, and the
/// multiset of names.
pub proof fn lemma_spec_sort_multiset(s: Seq<EntryModel>)
    ensures
        spec_sort(s).len() == s.len(),
        spec_sort(s).to_multiset() == s.to_multiset(),
        names_of(spec_sort(s)).to_multiset() == names_of(s).to_multiset(),
    decreases s.len(),
{
    broadcast use vstd::seq_lib::group_to_multiset_ensures;

    if s.len() > 0 {
        let t = s.drop_last();
        lemma_spec_sort_multiset(t);
        lemma_spec_insert_shape(spec_sort(t), s.last());
        lemma_spec_insert_multiset(spec_sort(t), s.last());
        assert(s =~= t.push(s.last()));
        assert(names_of(t.push(s.last())) =~= names_of(t).push(s.last().name()));
    }
}

/// Every element of the sorted sequence is an element of the input, and the
/// other way round.
pub proof fn lemma_spec_sort_contains(s: Seq<EntryModel>, x: EntryModel)
    ensures
        spec_sort(s).contains(x) <==> s.contains(x),
{
    broadcast use vstd::seq_lib::group_to_multiset_ensures;

    lemma_spec_sort_multiset(s);
    assert(spec_sort(s).to_multiset().count(x) == s.to_multiset().count(x));
}

/// Sorting an already sorted sequence returns it unchanged.
pub proof fn lemma_spec_sort_of_sorted(s: Seq<EntryModel>)
    requires
        sorted(s),
    ensures
        spec_sort(s) == s,
    decreases s.len(),
{
    if s.len() > 0 {
        let t = s.drop_last();
        assert(sorted(t)) by {
            assert forall|i: int| 0 <= i < t.len() - 1 implies #[trigger] entry_le(
                t[i],
                t[i + 1],
            ) by {
                assert(entry_le(s[i], s[i + 1]));
            }
        }
        lemma_spec_sort_of_sorted(t);
        if t.len() == 0 {
            assert(spec_sort(s) =~= s);
        } else {
            assert(entry_le(t.last(), s.last())) by {
                assert(entry_le(s[s.len() - 2], s[s.len() - 1]));
            }
            assert(spec_sort(s) == t.push(s.last()));
            assert(t.push(s.last()) =~= s);
        }
    }
}

/// Sorting is idempotent: sorting a second time changes nothing.
pub proof fn lemma_spec_sort_idempotent(s: Seq<EntryModel>)
    ensures
        spec_sort(spec_sort(s)) == spec_sort(s),
{
    lemma_spec_sort_sorted(s);
    lemma_spec_sort_of_sorted(spec_sort(s));
}

/// Decides [`entry_le`] on two entries.
fn entry_le_exec(a: &FileEntry, b: &FileEntry) -> (r: bool)
    ensures
        r == entry_le(a@, b@),
{
    let ad = a.is_dir();
    let bd = b.is_dir();
    if ad != bd {
        ad
    } else {
        let la = to_lower(a.name());
        let lb = to_lower(b.name());
        lex_le_exec(la.as_str(), lb.as_str())
    }
}

/// Where the tail of `s` from position `j` on sorts strictly after `x` and
/// the element before position `j` (if any) does not, inserting is exactly
/// splicing `x` in at position `j`.
proof fn lemma_spec_insert_at(s: Seq<EntryModel>, x: EntryModel, j: int)
    requires
        0 <= j <= s.len(),
        forall|k: int| j <= k < s.len() ==> !#[trigger] entry_le(s[k], x),
        j > 0 ==> entry_le(s[j - 1], x),
    ensures
        spec_insert(s, x) == s.subrange(0, j) + seq![x] + s.subrange(j, s.len() as int),
    decreases s.len(),
{
    if j == s.len() {
        if s.len() == 0 {
            assert(spec_insert(s, x) =~= s.subrange(0, j) + seq![x] + s.subrange(
                j,
                s.len() as int,
            ));
        } else {
            assert(entry_le(s.last(), x));
            assert(s.push(x) =~= s.subrange(0, j) + seq![x] + s.subrange(j, s.len() as int));
        }
    } else {
        assert(!entry_le(s.last(), x));
        let t = s.drop_last();
        assert(forall|k: int| j <= k < t.len() ==> !#[trigger] entry_le(t[k], x));
        lemma_spec_insert_at(t, x, j);
        assert((t.subrange(0, j) + seq![x] + t.subrange(j, t.len() as int)).push(s.last()) =~= (
        s.subrange(0, j) + seq![x] + s.subrange(j, s.len() as int)));
    }
}

/// Inserts one entry into an already ordered vector, after every element
/// that sorts no later than it.
fn insert_entry(v: &mut Vec<FileEntry>, x: FileEntry)
    ensures
        views(final (v)@) == spec_insert(views(old(v)@), x@),
{
    let mut j = v.len();
    loop
        invariant_except_break
            j <= v@.len(),
            v@ == old(v)@,
            forall|k: int| j <= k < v@.len() ==> !#[trigger] entry_le(views(v@)[k], x@),
        ensures
            j <= v@.len(),
            v@ == old(v)@,
            forall|k: int| j <= k < v@.len() ==> !#[trigger] entry_le(views(v@)[k], x@),
            j > 0 ==> entry_le(views(v@)[j - 1], x@),
        decreases j,
    {
        if j == 0 {
            break ;
        }
        if entry_le_exec(&v[j - 1], &x) {
            break ;
        }
        j -= 1;
    }
    proof {
        lemma_spec_insert_at(views(v@), x@, j as int);
    }
    let ghost before = v@;
    v.insert(j, x);
    proof {
        assert(views(v@) =~= views(before).subrange(0, j as int) + seq![x@] + views(
            before,
        ).subrange(j as int, views(before).len() as int));
    }
}

/// Sorts entries into display order: directory-like entries first, then
/// case-insensitive name order, stably. Returns exactly [`spec_sort`] of the
/// input, so count, entries and names are all preserved (see
/// [`lemma_spec_sort_multiset`]) and the result is sorted (see
/// [`lemma_spec_sort_sorted`]).
pub fn sort_entries(entries: Vec<FileEntry>) -> (r: Vec<FileEntry>)
    ensures
        views(r@) == spec_sort(views(entries@)),
{
    let ghost orig = entries@;
    let mut rest = entries;
    let mut result: Vec<FileEntry> = Vec::new();
    let ghost done = Seq::<FileEntry>::empty();
    proof {
        assert(orig =~= done + rest@);
        assert(views(done) =~= Seq::<EntryModel>::empty());
    }
    while rest.len() > 0
        invariant
            orig == done + rest@,
            views(result@) == spec_sort(views(done)),
        decreases rest@.len(),
    {
        let ghost done_before = done;
        let e = rest.remove(0);
        insert_entry(&mut result, e);
        proof {
            done = done_before.push(e);
            assert(orig =~= done + rest@);
            assert(views(done).drop_last() =~= views(done_before));
            assert(views(done).last() == e@);
            assert(views(result@) == spec_sort(views(done)));
        }
    }
    proof {
        assert(done =~= orig);
    }
    result
}

} // verus!
