//! The enumeration cursor: per-directory, per-epoch state that is filled by a
//! source, sorted once, and then read out entry by entry by the host.

use vstd::prelude::*;

use crate::collation::compare_names;
use crate::collation::lemma_name_cmp_antisym;
use crate::collation::lemma_name_cmp_trans;
use crate::collation::name_cmp;
use crate::collation::name_le;
use vstd::multiset::Multiset;

verus! {

/// Mathematical model of one directory entry.
#[verifier::ext_equal]
pub ghost struct EntryModel {
    pub name: Seq<char>,
    pub is_directory: bool,
    pub size: i64,
}

/// Mathematical model of the cursor: the directory path, the cursor position,
/// the fill flag of the current epoch, and the cached entries in order.
#[verifier::ext_equal]
pub ghost struct CursorModel {
    pub path: Seq<char>,
    pub index: int,
    pub filled: bool,
    pub entries: Seq<EntryModel>,
}

/// The entries are pairwise non-decreasing under the host collation.
pub open spec fn entries_sorted(s: Seq<EntryModel>) -> bool {
    forall|i: int, j: int| 0 <= i < j < s.len() ==> #[trigger] name_le(s[i].name, s[j].name)
}

/// The cursor a fresh construction yields: empty, unfilled, at position zero.
pub open spec fn fresh_cursor(path: Seq<char>) -> CursorModel {
    CursorModel { path: path, index: 0, filled: false, entries: Seq::empty() }
}

/// The model of a reset: the path survives, everything else starts over.
pub open spec fn reset_model(v: CursorModel) -> CursorModel {
    CursorModel { path: v.path, index: 0, filled: false, entries: Seq::empty() }
}

/// The model of one cursor advance: the position moves forward by one while
/// an entry remains, and stays clamped at the length once exhausted.
pub open spec fn step_model(v: CursorModel) -> CursorModel {
    if v.index < v.entries.len() {
        CursorModel { path: v.path, index: v.index + 1, filled: v.filled, entries: v.entries }
    } else {
        v
    }
}

/// The cursor model after `n` advances.
pub open spec fn advance_model(v: CursorModel, n: nat) -> CursorModel
    decreases n,
{
    if n == 0 {
        v
    } else {
        step_model(advance_model(v, (n - 1) as nat))
    }
}

impl CursorModel {
    /// Well-formedness: the position stays within the inclusive range
    /// `[0, len]`, and a filled epoch holds a sorted cache.
    pub open spec fn wf(self) -> bool {
        &&& 0 <= self.index <= self.entries.len()
        &&& self.filled ==> entries_sorted(self.entries)
    }
}

/// A sorted cache is non-decreasing at every adjacent pair: iterating from
/// the start yields entries whose neighbouring names compare at most zero
/// under the host collation.
pub proof fn lemma_sorted_adjacent(s: Seq<EntryModel>, i: int)
    requires
        entries_sorted(s),
        0 <= i,
        i + 1 < s.len(),
    ensures
        name_cmp(s[i].name, s[i + 1].name) <= 0,
{
    assert(name_le(s[i].name, s[i + 1].name));
}

/// Resumability: `n` advances leave the path, the fill flag and the cached
/// entries untouched, and move the position to `index + n`, clamped at the
/// entry count. So after `n` advances from the start of a filled cursor the
/// current entry is the `n`-th of the sorted sequence while one remains, each
/// entry is visited exactly once, and the cursor then reports invalid.
pub proof fn lemma_resumability(v: CursorModel, n: nat)
    requires
        v.wf(),
    ensures
        advance_model(v, n).path == v.path,
        advance_model(v, n).filled == v.filled,
        advance_model(v, n).entries == v.entries,
        advance_model(v, n).index == if v.index + n <= v.entries.len() {
            v.index + n
        } else {
            v.entries.len() as int
        },
        advance_model(v, n).wf(),
    decreases n,
{
    if n > 0 {
        lemma_resumability(v, (n - 1) as nat);
    }
}

/// Reset idempotence: resetting twice in a row is the same as resetting
/// once, and resetting a freshly constructed cursor leaves it exactly as
/// constructed.
pub proof fn lemma_reset_idempotent(v: CursorModel, path: Seq<char>)
    ensures
        reset_model(reset_model(v)) == reset_model(v),
        reset_model(fresh_cursor(path)) == fresh_cursor(path),
{
}

/// Single-epoch isolation: a sort serves exactly the entries that were
/// filled in the current epoch — an entry absent from the filled sequence is
/// absent from any rearrangement of it, so after a reset and a second fill
/// no entry of the first epoch can ever be served.
pub proof fn lemma_epoch_isolation(
    filled_entries: Seq<EntryModel>,
    served: Seq<EntryModel>,
    e: EntryModel,
)
    requires
        served.to_multiset() == filled_entries.to_multiset(),
        !filled_entries.contains(e),
    ensures
        !served.contains(e),
{
    vstd::seq_lib::to_multiset_contains(filled_entries, e);
    vstd::seq_lib::to_multiset_contains(served, e);
    assert(served.to_multiset().count(e) == filled_entries.to_multiset().count(e));
}

/// The entry models of a cached entry sequence, in the same order.
spec fn models(s: Seq<DirEntry>) -> Seq<EntryModel> {
    s.map_values(|e: DirEntry| e@)
}

/// One child of the enumerated directory, as cached for the current epoch.
struct DirEntry {
    filename: String,
    is_directory: bool,
    size: i64,
}

impl View for DirEntry {
    type V = EntryModel;

    closed spec fn view(&self) -> EntryModel {
        EntryModel { name: self.filename@, is_directory: self.is_directory, size: self.size }
    }
}

/// Taking the models of a sequence commutes with removing one element.
proof fn lemma_models_remove(s: Seq<DirEntry>, i: int)
    requires
        0 <= i < s.len(),
    ensures
        models(s.remove(i)) =~= models(s).remove(i),
{
    s.remove_ensures(i);
    models(s).remove_ensures(i);
    assert forall|j: int| 0 <= j < models(s.remove(i)).len() implies models(s.remove(i))[j]
        == models(s).remove(i)[j] by {
        if j < i {
            assert(s.remove(i)[j] == s[j]);
        } else {
            assert(s.remove(i)[j] == s[j + 1]);
        }
    }
}

/// Taking the models of a sequence commutes with inserting one element.
proof fn lemma_models_insert(s: Seq<DirEntry>, i: int, e: DirEntry)
    requires
        0 <= i <= s.len(),
    ensures
        models(s.insert(i, e)) =~= models(s).insert(i, e@),
{
    s.insert_ensures(i, e);
    models(s).insert_ensures(i, e@);
    assert forall|j: int| 0 <= j < models(s.insert(i, e)).len() implies models(s.insert(i, e))[j]
        == models(s).insert(i, e@)[j] by {
        if j < i {
            assert(s.insert(i, e)[j] == s[j]);
        } else if j == i {
            assert(s.insert(i, e)[j] == e);
        } else {
            assert(s.insert(i, e)[j] == s[j - 1]);
        }
    }
}

/// Removing one occurrence of a present value and putting it back leaves a
/// multiset unchanged.
proof fn lemma_multiset_remove_insert<A>(m: Multiset<A>, x: A)
    requires
        m.count(x) >= 1,
    ensures
        m.remove(x).insert(x) == m,
{
    broadcast use vstd::multiset::group_multiset_axioms;

    assert(m.remove(x).insert(x) =~= m);
}

/// Insertion sort over the cached entries, in place, under the host
/// collation: afterwards the entries are pairwise ordered and form exactly
/// the multiset that went in. Each entry is inserted after every earlier
/// entry that compares at most equal, so entries with equal names keep their
/// arrival order (stability is not part of the stated contract).
fn sort_entries(v: &mut Vec<DirEntry>)
    ensures
        final(v)@.len() == old(v)@.len(),
        entries_sorted(models(final(v)@)),
        models(final(v)@).to_multiset() == models(old(v)@).to_multiset(),
{
    let ghost m0 = models(old(v)@);
    let mut i: usize = 0;
    while i < v.len()
        invariant
            i <= v@.len(),
            v@.len() == m0.len(),
            models(v@).to_multiset() == m0.to_multiset(),
            entries_sorted(models(v@).take(i as int)),
        decreases v@.len() - i,
    {
        let ghost ev0 = v@;
        let e = v.remove(i);
        let mut p: usize = 0;
        while p < i
            invariant
                p <= i,
                i <= v@.len(),
                forall|q: int|
                    0 <= q < p ==> #[trigger] name_le(models(v@)[q].name, e@.name),
            ensures
                p <= i,
                i <= v@.len(),
                forall|q: int|
                    0 <= q < p ==> #[trigger] name_le(models(v@)[q].name, e@.name),
                p == i || name_cmp(models(v@)[p as int].name, e@.name) > 0,
            decreases i - p,
        {
            let c = compare_names(v[p].filename.as_str(), e.filename.as_str());
            if c > 0 {
                break;
            }
            p = p + 1;
        }
        v.insert(p, e);
        proof {
            broadcast use vstd::seq_lib::group_to_multiset_ensures;

            lemma_models_remove(ev0, i as int);
            lemma_models_insert(ev0.remove(i as int), p as int, e);
            let s_old = models(ev0);
            let s_rm = s_old.remove(i as int);
            let s_new = s_rm.insert(p as int, e@);
            assert(models(v@) =~= s_new);
            // The multiset of models is preserved: one occurrence went out
            // at position i and came back at position p.
            assert(e@ == s_old[i as int]);
            assert(s_old.contains(e@));
            lemma_multiset_remove_insert(s_old.to_multiset(), e@);
            assert(s_new.to_multiset() == m0.to_multiset());
            // The sorted prefix grew by one: everything before p is at most
            // the inserted entry, everything from p on is at least it.
            s_old.remove_ensures(i as int);
            s_rm.insert_ensures(p as int, e@);
            if (p as int) < i as int {
                lemma_name_cmp_antisym(s_rm[p as int].name, e@.name);
            }
            assert forall|a: int, b: int| 0 <= a < b < i + 1 implies #[trigger] name_le(
                s_new[a].name,
                s_new[b].name,
            ) by {
                lemma_sorted_insert_case(s_old, s_rm, s_new, i as int, p as int, e@, a, b);
            }
            assert forall|a: int, b: int|
                0 <= a < b < s_new.take(i + 1).len() implies #[trigger] name_le(
                s_new.take(i + 1)[a].name,
                s_new.take(i + 1)[b].name,
            ) by {
                assert(s_new.take(i + 1)[a] == s_new[a]);
                assert(s_new.take(i + 1)[b] == s_new[b]);
                assert(name_le(s_new[a].name, s_new[b].name));
            }
            assert(entries_sorted(models(v@).take(i as int + 1)));
        }
        i = i + 1;
    }
    proof {
        assert(models(v@).take(v@.len() as int) =~= models(v@));
    }
}

/// One case split of the insertion-sort step: with the prefix of length `i`
/// of `s_old` sorted, the entry `em` taken out at `i` and put back at `p`,
/// any two positions of the new prefix of length `i + 1` are ordered.
#[verifier::rlimit(50)]
proof fn lemma_sorted_insert_case(
    s_old: Seq<EntryModel>,
    s_rm: Seq<EntryModel>,
    s_new: Seq<EntryModel>,
    i: int,
    p: int,
    em: EntryModel,
    a: int,
    b: int,
)
    requires
        0 <= i < s_old.len(),
        0 <= p <= i,
        s_rm == s_old.remove(i),
        s_new == s_rm.insert(p, em),
        entries_sorted(s_old.take(i)),
        forall|q: int| 0 <= q < p ==> #[trigger] name_le(s_rm[q].name, em.name),
        p == i || name_le(em.name, s_rm[p].name),
        0 <= a < b < i + 1,
    ensures
        name_le(s_new[a].name, s_new[b].name),
{
    s_old.remove_ensures(i);
    s_rm.insert_ensures(p, em);
    if b < p {
        assert(name_le(s_old.take(i)[a].name, s_old.take(i)[b].name));
    } else if a < p && b == p {
        assert(name_le(s_rm[a].name, em.name));
    } else if a < p && b > p {
        assert(name_le(s_old.take(i)[a].name, s_old.take(i)[b - 1].name));
    } else if a == p {
        // b > p, so p < i and the entry at p of the remainder bounds em.
        assert(name_le(em.name, s_rm[p].name));
        if p < b - 1 {
            assert(name_le(s_old.take(i)[p].name, s_old.take(i)[b - 1].name));
            lemma_name_cmp_trans(em.name, s_rm[p].name, s_rm[b - 1].name);
        }
    } else {
        // p < a < b
        assert(name_le(s_old.take(i)[a - 1].name, s_old.take(i)[b - 1].name));
    }
}

/// The fixed-shape basic-information record handed back for the current
/// entry: the directory flag and the byte size. The size field always
/// carries the value the source supplied, for directories as well as files;
/// directory sizes are meaningless to the host and may be ignored by it.
#[derive(Clone, Copy, Debug, PartialEq, Eq, Structural)]
pub struct FileBasicInfo {
    pub is_directory: bool,
    pub size: i64,
}

/// The enumeration state for one directory path, one scan epoch at a time.
pub struct DirInfo {
    path: String,
    index: usize,
    filled: bool,
    entries: Vec<DirEntry>,
}

impl View for DirInfo {
    type V = CursorModel;

    closed spec fn view(&self) -> CursorModel {
        CursorModel {
            path: self.path@,
            index: self.index as int,
            filled: self.filled,
            entries: models(self.entries@),
        }
    }
}

impl DirInfo {
    /// A new cursor bound to `path`: epoch uninitialized, nothing cached,
    /// position zero. Performs no I/O.
    pub fn new(path: String) -> (r: DirInfo)
        ensures
            r@ == fresh_cursor(path@),
            r@.wf(),
    {
        DirInfo { path: path, index: 0, filled: false, entries: Vec::new() }
    }

    /// Invalidates the current epoch unconditionally: clears the cache, moves
    /// the position back to zero, and marks the cursor unfilled. Idempotent,
    /// callable in any state.
    pub fn reset(&mut self)
        ensures
            final(self)@ == reset_model(old(self)@),
            final(self)@.wf(),
    {
        self.index = 0;
        self.filled = false;
        self.entries = Vec::new();
    }

    /// Whether this epoch's fill-and-sort has completed.
    pub fn filled(&self) -> (b: bool)
        ensures
            b == self@.filled,
    {
        self.filled
    }

    /// Whether the cursor currently designates a real entry; false means the
    /// scan is exhausted.
    pub fn current_is_valid(&self) -> (b: bool)
        ensures
            b == (self@.index < self@.entries.len()),
    {
        self.index < self.entries.len()
    }

    /// The filename of the current entry. Reading past the end is a contract
    /// violation: the documented precondition is that the cursor still
    /// designates a real entry.
    pub fn current_file_name(&self) -> (r: &String)
        requires
            self@.index < self@.entries.len(),
        ensures
            r@ == self@.entries[self@.index].name,
    {
        &self.entries[self.index].filename
    }

    /// The fixed-shape basic information of the current entry: its directory
    /// flag and its supplied size. Same precondition as `current_file_name`.
    pub fn current_basic_info(&self) -> (r: FileBasicInfo)
        requires
            self@.index < self@.entries.len(),
        ensures
            r.is_directory == self@.entries[self@.index].is_directory,
            r.size == self@.entries[self@.index].size,
    {
        let e = &self.entries[self.index];
        FileBasicInfo { is_directory: e.is_directory, size: e.size }
    }

    /// Advances the cursor by one entry and reports whether it still
    /// designates one. An exhausted cursor stays exhausted: the position is
    /// clamped at the entry count and never moves past it.
    pub fn move_next(&mut self) -> (b: bool)
        requires
            old(self)@.wf(),
        ensures
            final(self)@ == step_model(old(self)@),
            final(self)@.wf(),
            b == (final(self)@.index < final(self)@.entries.len()),
    {
        if self.index < self.entries.len() {
            self.index = self.index + 1;
        }
        self.index < self.entries.len()
    }

    /// Appends one entry in arrival order, as the source pushes entries
    /// during a fill pass. Appending also marks the cursor unfilled: a fill
    /// that arrives after a sort re-requires an explicit re-sort before any
    /// read is trusted again (the chosen policy for out-of-order calls).
    pub fn fill_item_entry(&mut self, filename: String, size: i64, is_directory: bool)
        requires
            old(self)@.wf(),
        ensures
            final(self)@.path == old(self)@.path,
            final(self)@.index == old(self)@.index,
            final(self)@.filled == false,
            final(self)@.entries == old(self)@.entries.push(
                EntryModel { name: filename@, is_directory: is_directory, size: size },
            ),
            final(self)@.wf(),
    {
        self.filled = false;
        self.entries.push(DirEntry { filename, size, is_directory });
        proof {
            assert(models(self.entries@) =~= models(old(self).entries@).push(
                EntryModel { name: filename@, is_directory: is_directory, size: size },
            ));
        }
    }

    /// Sorts the cached entries into the host collation and marks the epoch
    /// filled. The cache afterwards holds exactly the entries that were
    /// filled — the same multiset — in non-decreasing collation order.
    /// Calling it again in the same epoch re-sorts, which is harmless.
    pub fn sort_entries_and_mark_filled(&mut self)
        requires
            old(self)@.wf(),
        ensures
            final(self)@.path == old(self)@.path,
            final(self)@.index == old(self)@.index,
            final(self)@.filled == true,
            final(self)@.entries.len() == old(self)@.entries.len(),
            entries_sorted(final(self)@.entries),
            final(self)@.entries.to_multiset() == old(self)@.entries.to_multiset(),
            final(self)@.wf(),
    {
        self.filled = true;
        sort_entries(&mut self.entries);
    }
}

} // verus!
