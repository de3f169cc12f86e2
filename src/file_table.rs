use vstd::prelude::*;
use vstd::multiset::Multiset;
use vstd::string::StringSliceAdditionalSpecFns;

use crate::error::FsError;
use crate::BLOCK_SIZE;

verus! {

broadcast use vstd::multiset::group_multiset_axioms;

/// Bytes in a stored file name.
pub const NAME_LEN: usize = 16;

/// A stored name without the zero bytes that pad it at the end.
pub open spec fn trim_zeros(s: Seq<u8>) -> Seq<u8>
    decreases s.len(),
{
    if s.len() > 0 && s.last() == 0 {
        trim_zeros(s.drop_last())
    } else {
        s
    }
}

/// A name as it is stored: its bytes, then zeros up to `NAME_LEN`.
pub open spec fn pad_name(q: Seq<u8>) -> Seq<u8> {
    q + Seq::new((NAME_LEN - q.len()) as nat, |i: int| 0u8)
}

/// How many blocks a file of `size` bytes owns: enough for its bytes, and never none.
pub open spec fn blocks_for(size: nat) -> nat {
    if size == 0 {
        1
    } else {
        ((size + BLOCK_SIZE - 1) / (BLOCK_SIZE as int)) as nat
    }
}

/// The usable block ids of a table of `blocks_amount` blocks: 1 to
/// `blocks_amount`; block 0 holds the superblock and is never among them.
pub open spec fn usable_ids(blocks_amount: nat) -> Seq<usize> {
    Seq::new(blocks_amount, |i: int| (i + 1) as usize)
}

/// A directory record as a value.
pub struct EntryView {
    pub name: Seq<u8>,
    pub blocks: Seq<usize>,
    pub size: nat,
    pub flags: u8,
}

impl EntryView {
    pub open spec fn trimmed_name(self) -> Seq<u8> {
        trim_zeros(self.name)
    }
}

/// The file table as a value: the entries in insertion order, the free list
/// (allocation takes from its end), and the number of usable blocks.
pub struct TableView {
    pub entries: Seq<EntryView>,
    pub free: Seq<usize>,
    pub blocks_amount: nat,
}

/// All block ids owned by the entries, counted with multiplicity.
pub open spec fn owned_ids(entries: Seq<EntryView>) -> Multiset<usize>
    decreases entries.len(),
{
    if entries.len() == 0 {
        Multiset::empty()
    } else {
        owned_ids(entries.drop_last()).add(entries.last().blocks.to_multiset())
    }
}

/// The total number of blocks owned by the entries.
pub open spec fn owned_count(entries: Seq<EntryView>) -> nat
    decreases entries.len(),
{
    if entries.len() == 0 {
        0
    } else {
        owned_count(entries.drop_last()) + entries.last().blocks.len()
    }
}

impl TableView {
    /// Each usable block is free, owned by an entry, or in `held`, exactly once,
    /// and nothing else is.
    pub open spec fn accounts_for(self, held: Seq<usize>) -> bool {
        &&& self.blocks_amount <= usize::MAX
        &&& self.free.to_multiset().add(owned_ids(self.entries)).add(held.to_multiset())
            == usable_ids(self.blocks_amount).to_multiset()
    }

    /// Each entry has a stored name and the number of blocks its size asks for,
    /// and no two entries share a trimmed name.
    pub open spec fn entries_ok(self) -> bool {
        &&& forall|i: int|
            0 <= i < self.entries.len() ==> {
                &&& (#[trigger] self.entries[i]).name.len() == NAME_LEN
                &&& self.entries[i].blocks.len() == blocks_for(self.entries[i].size)
            }
        &&& forall|i: int, j: int|
            0 <= i < j < self.entries.len() ==> (#[trigger] self.entries[i]).trimmed_name()
                != (#[trigger] self.entries[j]).trimmed_name()
    }

    /// The table is consistent, except that the blocks of `held` are out in the
    /// caller's hands, neither free nor owned.
    pub open spec fn wf_with(self, held: Seq<usize>) -> bool {
        self.accounts_for(held) && self.entries_ok()
    }

    /// The table is consistent: free and owned blocks partition the usable blocks.
    pub open spec fn wf(self) -> bool {
        self.wf_with(Seq::empty())
    }

    pub open spec fn has_file(self, q: Seq<u8>) -> bool {
        exists|i: int| 0 <= i < self.entries.len() && (#[trigger] self.entries[i]).trimmed_name() == q
    }

    /// The index of the entry named `q`, where there is one.
    pub open spec fn index_of(self, q: Seq<u8>) -> int {
        choose|i: int| 0 <= i < self.entries.len() && (#[trigger] self.entries[i]).trimmed_name() == q
    }

    /// The names of the live files, in insertion order.
    pub open spec fn names(self) -> Seq<Seq<u8>> {
        self.entries.map_values(|e: EntryView| e.trimmed_name())
    }

    /// The ids that `count` pops from the free list give, in the order they come.
    pub open spec fn popped(self, count: nat) -> Seq<usize> {
        Seq::new(count, |j: int| self.free[self.free.len() - 1 - j])
    }
}

/// A freshly formatted table: no entries, every usable block free.
pub open spec fn fresh_table(blocks_amount: nat) -> TableView {
    TableView { entries: Seq::empty(), free: usable_ids(blocks_amount), blocks_amount }
}

/// What `create` answers for the query `q`.
pub open spec fn create_outcome(t: TableView, q: Seq<u8>) -> Result<(), FsError> {
    if q.len() > NAME_LEN {
        Err(FsError::NameTooLong)
    } else if t.has_file(trim_zeros(q)) {
        Err(FsError::NameInUse)
    } else if t.free.len() == 0 {
        Err(FsError::NoSpace)
    } else {
        Ok(())
    }
}

/// The table after a successful `create` of `q`: one new entry of size zero that
/// owns the last free block.
pub open spec fn after_create(t: TableView, q: Seq<u8>) -> TableView {
    TableView {
        entries: t.entries.push(
            EntryView { name: pad_name(q), blocks: seq![t.free.last()], size: 0, flags: 0 },
        ),
        free: t.free.drop_last(),
        blocks_amount: t.blocks_amount,
    }
}

/// What asking for `count` more blocks answers.
pub open spec fn allocate_outcome(t: TableView, count: nat) -> Result<Seq<usize>, FsError> {
    if count > t.free.len() {
        Err(FsError::NoSpace)
    } else {
        Ok(t.popped(count))
    }
}

/// The table after handing out `count` blocks from the end of the free list.
pub open spec fn after_allocate(t: TableView, count: nat) -> TableView {
    TableView { free: t.free.take(t.free.len() - count), ..t }
}

/// What resizing entry `i` to `size` bytes answers: the blocks it gives up, if any.
pub open spec fn resize_outcome(t: TableView, i: int, size: nat) -> Result<Seq<usize>, FsError> {
    let have = t.entries[i].blocks.len();
    let need = blocks_for(size);
    if need > have + t.free.len() {
        Err(FsError::NoSpace)
    } else if need >= have {
        Ok(Seq::empty())
    } else {
        Ok(t.entries[i].blocks.skip(need as int))
    }
}

/// The table after resizing entry `i` to `size` bytes: it takes the missing
/// blocks from the end of the free list, or keeps only the leading blocks it
/// still needs.
pub open spec fn after_resize(t: TableView, i: int, size: nat) -> TableView {
    let e = t.entries[i];
    let have = e.blocks.len();
    let need = blocks_for(size);
    if need >= have {
        let extra = (need - have) as nat;
        TableView {
            entries: t.entries.update(
                i,
                EntryView { blocks: e.blocks + t.popped(extra), size, ..e },
            ),
            free: t.free.take(t.free.len() - extra),
            blocks_amount: t.blocks_amount,
        }
    } else {
        TableView {
            entries: t.entries.update(i, EntryView { blocks: e.blocks.take(need as int), size, ..e }),
            ..t
        }
    }
}

/// What removing the entry named `q` answers: the blocks it owned.
pub open spec fn remove_outcome(t: TableView, q: Seq<u8>) -> Result<Seq<usize>, FsError> {
    if t.has_file(q) {
        Ok(t.entries[t.index_of(q)].blocks)
    } else {
        Err(FsError::NotFound)
    }
}

/// The table after removing the entry named `q`.
pub open spec fn after_remove(t: TableView, q: Seq<u8>) -> TableView {
    TableView { entries: t.entries.remove(t.index_of(q)), ..t }
}

/// The table after `blocks` went back on the free list.
pub open spec fn after_release(t: TableView, blocks: Seq<usize>) -> TableView {
    TableView { free: t.free + blocks, ..t }
}

// ---------------------------------------------------------------------------
// Lemmas on names
// ---------------------------------------------------------------------------

proof fn lemma_trim_padding(q: Seq<u8>, k: nat)
    ensures
        trim_zeros(q + Seq::new(k, |i: int| 0u8)) == trim_zeros(q),
    decreases k,
{
    let s = q + Seq::new(k, |i: int| 0u8);
    if k == 0 {
        assert(s =~= q);
    } else {
        assert(s.drop_last() =~= q + Seq::new((k - 1) as nat, |i: int| 0u8));
        lemma_trim_padding(q, (k - 1) as nat);
    }
}

proof fn lemma_trim_pad_name(q: Seq<u8>)
    requires
        q.len() <= NAME_LEN,
    ensures
        trim_zeros(pad_name(q)) == trim_zeros(q),
        pad_name(q).len() == NAME_LEN,
{
    lemma_trim_padding(q, (NAME_LEN - q.len()) as nat);
}

// ---------------------------------------------------------------------------
// Lemmas on block accounting
// ---------------------------------------------------------------------------

proof fn lemma_owned_push(es: Seq<EntryView>, e: EntryView)
    ensures
        owned_ids(es.push(e)) == owned_ids(es).add(e.blocks.to_multiset()),
        owned_count(es.push(e)) == owned_count(es) + e.blocks.len(),
{
    assert(es.push(e).drop_last() =~= es);
}

proof fn lemma_owned_update(es: Seq<EntryView>, i: int, e: EntryView)
    requires
        0 <= i < es.len(),
    ensures
        owned_ids(es.update(i, e)).add(es[i].blocks.to_multiset()) =~= owned_ids(es).add(
            e.blocks.to_multiset(),
        ),
        owned_count(es.update(i, e)) + es[i].blocks.len() == owned_count(es) + e.blocks.len(),
    decreases es.len(),
{
    let u = es.update(i, e);
    if i == es.len() - 1 {
        assert(u.drop_last() =~= es.drop_last());
        assert(u.last() == e);
        assert(owned_ids(u) == owned_ids(es.drop_last()).add(e.blocks.to_multiset()));
        assert(owned_ids(es) == owned_ids(es.drop_last()).add(es[i].blocks.to_multiset()));
    } else {
        let ud = u.drop_last();
        let ed = es.drop_last();
        assert(ud =~= ed.update(i, e));
        assert(u.last() == es.last());
        assert(ed[i] == es[i]);
        lemma_owned_update(ed, i, e);
        assert(owned_ids(u) == owned_ids(ud).add(es.last().blocks.to_multiset()));
        assert(owned_ids(es) == owned_ids(ed).add(es.last().blocks.to_multiset()));
        assert(owned_ids(ud).add(es[i].blocks.to_multiset()) == owned_ids(ed).add(e.blocks.to_multiset()));
        assert forall|x: usize| owned_ids(ud).count(x) + es[i].blocks.to_multiset().count(x)
            == owned_ids(ed).count(x) + e.blocks.to_multiset().count(x) by {
            assert(owned_ids(ud).add(es[i].blocks.to_multiset()).count(x) == owned_ids(ed).add(e.blocks.to_multiset()).count(x));
        }
    }
    let lhs = owned_ids(u).add(es[i].blocks.to_multiset());
    let rhs = owned_ids(es).add(e.blocks.to_multiset());
    assert forall|x: usize| lhs.count(x) == rhs.count(x) by {}
}

proof fn lemma_owned_remove(es: Seq<EntryView>, i: int)
    requires
        0 <= i < es.len(),
    ensures
        owned_ids(es.remove(i)).add(es[i].blocks.to_multiset()) =~= owned_ids(es),
        owned_count(es.remove(i)) + es[i].blocks.len() == owned_count(es),
    decreases es.len(),
{
    let r = es.remove(i);
    if i == es.len() - 1 {
        assert(r =~= es.drop_last());
    } else {
        assert(r.drop_last() =~= es.drop_last().remove(i));
        lemma_owned_remove(es.drop_last(), i);
    }
}

proof fn lemma_owned_len(es: Seq<EntryView>)
    ensures
        owned_ids(es).len() == owned_count(es),
    decreases es.len(),
{
    if es.len() > 0 {
        lemma_owned_len(es.drop_last());
        es.last().blocks.to_multiset_ensures();
    }
}

proof fn lemma_usable_unique(n: nat)
    requires
        n <= usize::MAX,
    ensures
        usable_ids(n).no_duplicates(),
        forall|x: usize| #[trigger]
            usable_ids(n).to_multiset().count(x) <= 1,
        forall|x: usize| #[trigger]
            usable_ids(n).to_multiset().count(x) > 0 ==> 1 <= x <= n,
{
    let u = usable_ids(n);
    assert forall|i: int, j: int| 0 <= i < u.len() && 0 <= j < u.len() && i != j implies u[i]
        != u[j] by {}
    u.lemma_multiset_has_no_duplicates();
    u.to_multiset_ensures();
    assert forall|x: usize| #[trigger] u.to_multiset().count(x) > 0 implies 1 <= x <= n by {
        assert(u.contains(x));
        let k = choose|k: int| 0 <= k < u.len() && u[k] == x;
        assert(u[k] == (k + 1) as usize);
    }
}

/// A part of the usable blocks has no repeated id, only usable ids, and shares
/// no id with the rest.
proof fn lemma_part_of_usable(s: Seq<usize>, rest: Multiset<usize>, n: nat)
    requires
        n <= usize::MAX,
        s.to_multiset().add(rest) == usable_ids(n).to_multiset(),
    ensures
        s.no_duplicates(),
        forall|k: int| 0 <= k < s.len() ==> 1 <= #[trigger] s[k] <= n,
        forall|k: int| 0 <= k < s.len() ==> rest.count(#[trigger] s[k]) == 0,
{
    lemma_usable_unique(n);
    s.to_multiset_ensures();
    assert forall|x: usize| s.to_multiset().contains(x) implies s.to_multiset().count(x) == 1 by {
        assert(usable_ids(n).to_multiset().count(x) <= 1);
    }
    s.lemma_multiset_has_no_duplicates_conv();
    assert forall|k: int| 0 <= k < s.len() implies 1 <= #[trigger] s[k] <= n && rest.count(s[k]) == 0 by {
        assert(s.contains(s[k]));
        assert(s.to_multiset().count(s[k]) > 0);
        assert(usable_ids(n).to_multiset().count(s[k]) > 0);
        assert(usable_ids(n).to_multiset().count(s[k]) <= 1);
    }
}

/// In a consistent table each entry's blocks are distinct usable ids that no
/// other entry owns, that are not free and not held.
pub proof fn lemma_entry_blocks(t: TableView, held: Seq<usize>, i: int)
    requires
        t.accounts_for(held),
        0 <= i < t.entries.len(),
    ensures
        t.entries[i].blocks.no_duplicates(),
        forall|k: int|
            0 <= k < t.entries[i].blocks.len() ==> 1 <= #[trigger] t.entries[i].blocks[k]
                <= t.blocks_amount,
        forall|k: int|
            0 <= k < t.entries[i].blocks.len() ==> !t.free.contains(
                #[trigger] t.entries[i].blocks[k],
            ) && !held.contains(t.entries[i].blocks[k]),
        forall|j: int, k: int|
            #![trigger t.entries[j].blocks.contains(t.entries[i].blocks[k])]
            0 <= j < t.entries.len() && j != i && 0 <= k < t.entries[i].blocks.len()
                ==> !t.entries[j].blocks.contains(t.entries[i].blocks[k]),
{
    let e = t.entries[i].blocks;
    lemma_owned_remove(t.entries, i);
    let rest = t.free.to_multiset().add(owned_ids(t.entries.remove(i))).add(held.to_multiset());
    assert(e.to_multiset().add(rest) =~= usable_ids(t.blocks_amount).to_multiset());
    lemma_part_of_usable(e, rest, t.blocks_amount);
    t.free.to_multiset_ensures();
    held.to_multiset_ensures();
    assert forall|j: int, k: int|
        #![trigger t.entries[j].blocks.contains(e[k])]
        0 <= j < t.entries.len() && j != i && 0 <= k < e.len() implies !t.entries[j].blocks.contains(
        e[k],
    ) by {
        let jj = if j < i {
            j
        } else {
            j - 1
        };
        assert(t.entries.remove(i)[jj] == t.entries[j]);
        lemma_owned_remove(t.entries.remove(i), jj);
        t.entries[j].blocks.to_multiset_ensures();
        if t.entries[j].blocks.contains(e[k]) {
            assert(t.entries[j].blocks.to_multiset().count(e[k]) > 0);
            assert(owned_ids(t.entries.remove(i)).count(e[k]) > 0);
            assert(rest.count(e[k]) > 0);
        }
    }
}

/// In a consistent table the free list has no repeated id, holds only usable
/// ids, and shares none with the entries or with `held`.
pub proof fn lemma_free_blocks(t: TableView, held: Seq<usize>)
    requires
        t.accounts_for(held),
    ensures
        t.free.no_duplicates(),
        forall|k: int| 0 <= k < t.free.len() ==> 1 <= #[trigger] t.free[k] <= t.blocks_amount,
        forall|k: int| 0 <= k < t.free.len() ==> !held.contains(#[trigger] t.free[k]),
        forall|i: int, k: int|
            #![trigger t.entries[i].blocks.contains(t.free[k])]
            0 <= i < t.entries.len() && 0 <= k < t.free.len() ==> !t.entries[i].blocks.contains(
                t.free[k],
            ),
{
    let rest = owned_ids(t.entries).add(held.to_multiset());
    assert(t.free.to_multiset().add(rest) =~= usable_ids(t.blocks_amount).to_multiset());
    lemma_part_of_usable(t.free, rest, t.blocks_amount);
    held.to_multiset_ensures();
    assert forall|i: int, k: int|
        #![trigger t.entries[i].blocks.contains(t.free[k])]
        0 <= i < t.entries.len() && 0 <= k < t.free.len() implies !t.entries[i].blocks.contains(
        t.free[k],
    ) by {
        lemma_owned_remove(t.entries, i);
        t.entries[i].blocks.to_multiset_ensures();
        if t.entries[i].blocks.contains(t.free[k]) {
            assert(t.entries[i].blocks.to_multiset().count(t.free[k]) > 0);
            assert(owned_ids(t.entries).count(t.free[k]) > 0);
        }
    }
}

/// Held blocks are distinct usable ids.
pub proof fn lemma_held_blocks(t: TableView, held: Seq<usize>)
    requires
        t.accounts_for(held),
    ensures
        held.no_duplicates(),
        forall|k: int| 0 <= k < held.len() ==> 1 <= #[trigger] held[k] <= t.blocks_amount,
{
    let rest = t.free.to_multiset().add(owned_ids(t.entries));
    assert(held.to_multiset().add(rest) =~= usable_ids(t.blocks_amount).to_multiset());
    lemma_part_of_usable(held, rest, t.blocks_amount);
}

proof fn lemma_fresh_wf(n: nat)
    requires
        n <= usize::MAX,
    ensures
        fresh_table(n).wf(),
{
    Seq::<usize>::empty().to_multiset_ensures();
    let t = fresh_table(n);
    assert(owned_ids(t.entries) == Multiset::<usize>::empty());
    assert(t.free.to_multiset().add(owned_ids(t.entries)).add(Seq::<usize>::empty().to_multiset())
        =~= usable_ids(n).to_multiset());
}

/// Popping `count` ids off the end of the free list moves them, as a multiset,
/// from the free list to the popped sequence.
proof fn lemma_popped(t: TableView, count: nat)
    requires
        count <= t.free.len(),
    ensures
        t.free.take(t.free.len() - count).to_multiset().add(t.popped(count).to_multiset())
            =~= t.free.to_multiset(),
    decreases count,
{
    let n = t.free.len();
    if count == 0 {
        assert(t.free.take(n as int) =~= t.free);
        assert(t.popped(0) =~= Seq::<usize>::empty());
        t.popped(0).to_multiset_ensures();
    } else {
        lemma_popped(t, (count - 1) as nat);
        let short = t.free.take(n - count);
        assert(t.free.take(n - (count - 1)) =~= short.push(t.free[n - count]));
        assert(t.popped(count) =~= t.popped((count - 1) as nat).push(t.free[n - count]));
        short.to_multiset_ensures();
        t.popped((count - 1) as nat).to_multiset_ensures();
    }
}

/// `s` and its split at `k` hold the same ids.
proof fn lemma_split_multiset(s: Seq<usize>, k: int)
    requires
        0 <= k <= s.len(),
    ensures
        s.take(k).to_multiset().add(s.skip(k).to_multiset()) =~= s.to_multiset(),
{
    assert(s =~= s.take(k) + s.skip(k));
    vstd::seq_lib::lemma_multiset_commutative(s.take(k), s.skip(k));
}

// ---------------------------------------------------------------------------
// Records and the table
// ---------------------------------------------------------------------------

/// The blocks in a block-id result, as a value.
pub open spec fn ids_result(r: Result<Vec<usize>, FsError>) -> Result<Seq<usize>, FsError> {
    match r {
        Ok(v) => Ok(v@),
        Err(e) => Err(e),
    }
}

/// The contents of a sequence of byte vectors.
pub open spec fn byte_strings(v: Seq<Vec<u8>>) -> Seq<Seq<u8>> {
    v.map_values(|b: Vec<u8>| b@)
}

/// Computes `blocks_for`.
pub fn blocks_needed(size: usize) -> (r: usize)
    ensures
        r == blocks_for(size as nat),
{
    if size == 0 {
        1
    } else if size % BLOCK_SIZE == 0 {
        size / BLOCK_SIZE
    } else {
        size / BLOCK_SIZE + 1
    }
}

/// The length of `s` without the zero bytes at its end.
pub fn trim_len(s: &[u8]) -> (r: usize)
    ensures
        r <= s@.len(),
        s@.take(r as int) == trim_zeros(s@),
{
    let mut n: usize = s.len();
    assert(s@.take(n as int) =~= s@);
    while n > 0 && s[n - 1] == 0
        invariant
            n <= s@.len(),
            trim_zeros(s@.take(n as int)) == trim_zeros(s@),
        decreases n,
    {
        assert(s@.take(n as int).drop_last() =~= s@.take(n - 1));
        n -= 1;
    }
    n
}

/// A directory record: a name padded with zeros to `NAME_LEN` bytes, the blocks
/// the file owns in the order its bytes are laid out, its size in bytes, and
/// flags kept for later attributes.
pub struct FileEntry {
    pub name: [u8; 16],
    pub blocks: Vec<usize>,
    pub size: usize,
    pub flags: u8,
}

impl View for FileEntry {
    type V = EntryView;

    open spec fn view(&self) -> EntryView {
        EntryView {
            name: self.name@,
            blocks: self.blocks@,
            size: self.size as nat,
            flags: self.flags,
        }
    }
}

impl FileEntry {
    /// A record of size zero named `name` that owns `start_block`.
    pub fn new(name: &str, start_block: usize) -> (r: FileEntry)
        requires
            name.spec_bytes().len() <= NAME_LEN,
        ensures
            r@ == (EntryView {
                name: pad_name(name.spec_bytes()),
                blocks: seq![start_block],
                size: 0,
                flags: 0,
            }),
    {
        let bytes = name.as_bytes();
        let mut buf: [u8; 16] = [0u8; 16];
        let mut i: usize = 0;
        while i < bytes.len()
            invariant
                i <= bytes@.len(),
                bytes@.len() <= NAME_LEN,
                bytes@ == name.spec_bytes(),
                buf@.len() == NAME_LEN,
                forall|k: int| 0 <= k < i ==> buf@[k] == bytes@[k],
                forall|k: int| i <= k < NAME_LEN ==> buf@[k] == 0,
            decreases bytes.len() - i,
        {
            buf[i] = bytes[i];
            i += 1;
        }
        assert(buf@ =~= pad_name(bytes@));
        let mut blocks: Vec<usize> = Vec::new();
        blocks.push(start_block);
        assert(blocks@ =~= seq![start_block]);
        FileEntry { name: buf, blocks, size: 0, flags: 0 }
    }

    /// The length of the stored name without its zero padding.
    pub fn name_len(&self) -> (r: usize)
        ensures
            r <= NAME_LEN,
            self.name@.take(r as int) == trim_zeros(self.name@),
    {
        trim_len(self.name.as_slice())
    }

    /// Whether the stored name, trimmed of its padding, is exactly `q`.
    pub fn name_is(&self, q: &[u8]) -> (r: bool)
        ensures
            r == (self@.trimmed_name() == q@),
    {
        let n = self.name_len();
        assert(self@.trimmed_name() == self.name@.take(n as int));
        if n != q.len() {
            return false;
        }
        let mut k: usize = 0;
        while k < n
            invariant
                n == q@.len(),
                n <= NAME_LEN,
                self@.trimmed_name() == self.name@.take(n as int),
                self.name@.len() == NAME_LEN,
                k <= n,
                forall|j: int| 0 <= j < k ==> self.name@[j] == q@[j],
            decreases n - k,
        {
            if self.name[k] != q[k] {
                assert(self.name@.take(n as int)[k as int] != q@[k as int]);
                return false;
            }
            k += 1;
        }
        assert(self.name@.take(n as int) =~= q@);
        true
    }

    /// The stored name, trimmed of its padding.
    pub fn trimmed_name(&self) -> (r: Vec<u8>)
        ensures
            r@ == self@.trimmed_name(),
    {
        let n = self.name_len();
        let mut out: Vec<u8> = Vec::new();
        let mut k: usize = 0;
        while k < n
            invariant
                n <= NAME_LEN,
                self.name@.len() == NAME_LEN,
                k <= n,
                out@ =~= self.name@.take(k as int),
            decreases n - k,
        {
            out.push(self.name[k]);
            k += 1;
            assert(out@ =~= self.name@.take(k as int));
        }
        out
    }
}

/// The directory of a formatted device and its block allocator. Blocks are
/// handed out from the end of the free list, so the most recently freed block
/// is the first to be reused.
pub struct FileTable {
    pub entries: Vec<FileEntry>,
    pub available_blocks: Vec<usize>,
    pub blocks_amount: usize,
}

impl View for FileTable {
    type V = TableView;

    open spec fn view(&self) -> TableView {
        TableView {
            entries: self.entries@.map_values(|e: FileEntry| e@),
            free: self.available_blocks@,
            blocks_amount: self.blocks_amount as nat,
        }
    }
}

impl FileTable {
    /// A table of `blocks_amount` usable blocks: no files, and blocks 1 to
    /// `blocks_amount` free (block 0 holds the superblock).
    pub fn new(blocks_amount: usize) -> (r: FileTable)
        ensures
            r@ == fresh_table(blocks_amount as nat),
            r@.free == Seq::new(blocks_amount as nat, |i: int| (i + 1) as usize),
            r@.entries.len() == 0,
            r@.wf(),
    {
        let mut free: Vec<usize> = Vec::new();
        let mut k: usize = 0;
        while k < blocks_amount
            invariant
                k <= blocks_amount,
                free@ =~= Seq::new(k as nat, |i: int| (i + 1) as usize),
            decreases blocks_amount - k,
        {
            free.push(k + 1);
            k += 1;
        }
        assert(free@ =~= usable_ids(blocks_amount as nat));
        let r = FileTable { entries: Vec::new(), available_blocks: free, blocks_amount: blocks_amount };
        assert(r@.entries =~= Seq::<EntryView>::empty());
        proof {
            lemma_fresh_wf(blocks_amount as nat);
        }
        r
    }

    /// The index of the entry whose trimmed name is exactly `q`.
    pub fn position(&self, q: &[u8]) -> (r: Option<usize>)
        requires
            self@.entries_ok(),
        ensures
            match r {
                Some(i) => self@.has_file(q@) && i == self@.index_of(q@),
                None => !self@.has_file(q@),
            },
    {
        let mut i: usize = 0;
        while i < self.entries.len()
            invariant
                i <= self.entries@.len(),
                self@.entries_ok(),
                forall|j: int| 0 <= j < i ==> (#[trigger] self@.entries[j]).trimmed_name() != q@,
            decreases self.entries.len() - i,
        {
            if self.entries[i].name_is(q) {
                proof {
                    assert(self@.entries[i as int].trimmed_name() == q@);
                    assert(self@.has_file(q@));
                    let c = self@.index_of(q@);
                    if c != i {
                        if c < i {
                            assert(self@.entries[c].trimmed_name() != self@.entries[i as int].trimmed_name());
                        } else {
                            assert(self@.entries[i as int].trimmed_name() != self@.entries[c].trimmed_name());
                        }
                    }
                }
                return Some(i);
            }
            i += 1;
        }
        None
    }

    /// The entry whose trimmed name is exactly `filename`.
    pub fn find_file(&self, filename: &str) -> (r: Option<&FileEntry>)
        requires
            self@.entries_ok(),
        ensures
            match r {
                Some(e) => self@.has_file(filename.spec_bytes()) && e@ == self@.entries[self@.index_of(
                    filename.spec_bytes(),
                )],
                None => !self@.has_file(filename.spec_bytes()),
            },
    {
        match self.position(filename.as_bytes()) {
            Some(i) => Some(&self.entries[i]),
            None => None,
        }
    }

    /// The size of the file named `filename`, or 0 when there is none.
    pub fn get_file_size(&self, filename: &str) -> (r: usize)
        requires
            self@.entries_ok(),
        ensures
            r == if self@.has_file(filename.spec_bytes()) {
                self@.entries[self@.index_of(filename.spec_bytes())].size
            } else {
                0
            },
    {
        match self.find_file(filename) {
            Some(e) => e.size,
            None => 0,
        }
    }

    /// Creates an empty file named `filename` that owns one block, the last on
    /// the free list. Fails, changing nothing, when the name is too long, when a
    /// live file has the name the new entry would have, or when no block is free.
    pub fn add_file(&mut self, filename: &str) -> (r: Result<(), FsError>)
        requires
            old(self)@.wf(),
        ensures
            r == create_outcome(old(self)@, filename.spec_bytes()),
            r is Ok ==> final(self)@ == after_create(old(self)@, filename.spec_bytes()),
            r is Err ==> *final(self) == *old(self),
            final(self)@.wf(),
    {
        let bytes = filename.as_bytes();
        if bytes.len() > NAME_LEN {
            return Err(FsError::NameTooLong);
        }
        let n = trim_len(bytes);
        let stored = vstd::slice::slice_subrange(bytes, 0, n);
        assert(stored@ =~= trim_zeros(bytes@));
        if self.position(stored).is_some() {
            return Err(FsError::NameInUse);
        }
        if self.available_blocks.len() == 0 {
            return Err(FsError::NoSpace);
        }
        let start = self.available_blocks.pop().unwrap();
        let entry = FileEntry::new(filename, start);
        let ghost old_view = old(self)@;
        self.entries.push(entry);
        proof {
            let t = after_create(old_view, bytes@);
            assert(self@.entries =~= t.entries);
            assert(self@.free =~= t.free);
            lemma_trim_pad_name(bytes@);
            lemma_owned_push(old_view.entries, t.entries.last());
            assert(old_view.free =~= t.free.push(start));
            t.free.to_multiset_ensures();
            let e = t.entries.last();
            assert(e.blocks.to_multiset() =~= Multiset::<usize>::empty().insert(start)) by {
                assert(e.blocks =~= Seq::<usize>::empty().push(start));
                Seq::<usize>::empty().to_multiset_ensures();
            }
            let held = Seq::<usize>::empty().to_multiset();
            let lhs = t.free.to_multiset().add(owned_ids(t.entries)).add(held);
            let rhs = old_view.free.to_multiset().add(owned_ids(old_view.entries)).add(held);
            assert forall|x: usize| lhs.count(x) == rhs.count(x) by {}
            assert(lhs =~= rhs);
            assert forall|i: int, j: int| 0 <= i < j < t.entries.len() implies
                (#[trigger] t.entries[i]).trimmed_name() != (#[trigger] t.entries[j]).trimmed_name() by {
                if j == t.entries.len() - 1 {
                    assert(old_view.entries[i] == t.entries[i]);
                } else {
                    assert(old_view.entries[i] == t.entries[i]);
                    assert(old_view.entries[j] == t.entries[j]);
                }
            }
        }
        Ok(())
    }

    /// Takes `count` blocks off the end of the free list, the last first.
    /// All or nothing: when fewer are free, fails and changes nothing.
    pub fn allocate_additional(&mut self, count: usize) -> (r: Result<Vec<usize>, FsError>)
        requires
            old(self)@.wf(),
        ensures
            ids_result(r) == allocate_outcome(old(self)@, count as nat),
            match r {
                Ok(v) => final(self)@ == after_allocate(old(self)@, count as nat) && final(self)@.wf_with(v@),
                Err(_) => *final(self) == *old(self),
            },
    {
        if count > self.available_blocks.len() {
            return Err(FsError::NoSpace);
        }
        let ghost old_view = old(self)@;
        let mut out: Vec<usize> = Vec::new();
        let mut k: usize = 0;
        while k < count
            invariant
                k <= count,
                count <= old_view.free.len(),
                self.available_blocks@ =~= old_view.free.take(old_view.free.len() - k),
                out@ =~= old_view.popped(k as nat),
                self.entries == old(self).entries,
                self.blocks_amount == old(self).blocks_amount,
            decreases count - k,
        {
            let b = self.available_blocks.pop().unwrap();
            out.push(b);
            k += 1;
        }
        proof {
            let t = after_allocate(old_view, count as nat);
            assert(self@ == t);
            lemma_popped(old_view, count as nat);
            let lhs = t.free.to_multiset().add(owned_ids(t.entries)).add(out@.to_multiset());
            let rhs = old_view.free.to_multiset().add(owned_ids(old_view.entries)).add(
                Seq::<usize>::empty().to_multiset(),
            );
            Seq::<usize>::empty().to_multiset_ensures();
            assert forall|x: usize| lhs.count(x) == rhs.count(x) by {}
            assert(lhs =~= rhs);
        }
        Ok(out)
    }

    /// Puts `blocks` back at the end of the free list. The caller zeroes their
    /// contents first.
    pub fn release(&mut self, blocks: Vec<usize>)
        requires
            old(self)@.wf_with(blocks@),
        ensures
            final(self)@ == after_release(old(self)@, blocks@),
            final(self)@.wf(),
    {
        let ghost old_view = old(self)@;
        let mut blocks = blocks;
        let ghost given = blocks@;
        self.available_blocks.append(&mut blocks);
        proof {
            let t = after_release(old_view, given);
            assert(self@ == t);
            vstd::seq_lib::lemma_multiset_commutative(old_view.free, given);
            Seq::<usize>::empty().to_multiset_ensures();
            let lhs = t.free.to_multiset().add(owned_ids(t.entries)).add(
                Seq::<usize>::empty().to_multiset(),
            );
            let rhs = old_view.free.to_multiset().add(owned_ids(old_view.entries)).add(
                given.to_multiset(),
            );
            assert forall|x: usize| lhs.count(x) == rhs.count(x) by {}
            assert(lhs =~= rhs);
        }
    }

    /// Removes the entry named `filename` and hands its blocks to the caller,
    /// who zeroes them and gives them back with `release`.
    pub fn delete_file_by_name(&mut self, filename: &str) -> (r: Result<Vec<usize>, FsError>)
        requires
            old(self)@.wf(),
        ensures
            ids_result(r) == remove_outcome(old(self)@, filename.spec_bytes()),
            match r {
                Ok(v) => final(self)@ == after_remove(old(self)@, filename.spec_bytes()) && final(self)@.wf_with(v@),
                Err(_) => *final(self) == *old(self),
            },
    {
        let i = match self.position(filename.as_bytes()) {
            Some(i) => i,
            None => {
                return Err(FsError::NotFound);
            },
        };
        let ghost old_view = old(self)@;
        let entry = self.entries.remove(i);
        proof {
            let t = after_remove(old_view, filename.spec_bytes());
            assert(self@.entries =~= t.entries);
            assert(self@ == t);
            lemma_owned_remove(old_view.entries, i as int);
            let lhs = t.free.to_multiset().add(owned_ids(t.entries)).add(entry.blocks@.to_multiset());
            let rhs = old_view.free.to_multiset().add(owned_ids(old_view.entries)).add(
                Seq::<usize>::empty().to_multiset(),
            );
            Seq::<usize>::empty().to_multiset_ensures();
            assert forall|x: usize| lhs.count(x) == rhs.count(x) by {}
            assert(lhs =~= rhs);
            assert forall|a: int, b: int| 0 <= a < b < t.entries.len() implies
                (#[trigger] t.entries[a]).trimmed_name() != (#[trigger] t.entries[b]).trimmed_name() by {
                let a2 = if a < i { a } else { a + 1 };
                let b2 = if b < i { b } else { b + 1 };
                assert(t.entries[a] == old_view.entries[a2]);
                assert(t.entries[b] == old_view.entries[b2]);
            }
            assert forall|a: int| 0 <= a < t.entries.len() implies
                (#[trigger] t.entries[a]).name.len() == NAME_LEN
                && t.entries[a].blocks.len() == blocks_for(t.entries[a].size) by {
                let a2 = if a < i { a } else { a + 1 };
                assert(t.entries[a] == old_view.entries[a2]);
            }
        }
        Ok(entry.blocks)
    }

    /// Sets the size of entry `idx` to `size` bytes and gives it the number of
    /// blocks that size asks for: missing blocks come off the end of the free
    /// list, surplus trailing blocks are handed to the caller, who zeroes them
    /// and gives them back with `release`. When too few blocks are free, fails
    /// and changes nothing.
    pub fn resize_entry(&mut self, idx: usize, size: usize) -> (r: Result<Vec<usize>, FsError>)
        requires
            old(self)@.wf(),
            idx < old(self)@.entries.len(),
        ensures
            ids_result(r) == resize_outcome(old(self)@, idx as int, size as nat),
            match r {
                Ok(v) => final(self)@ == after_resize(old(self)@, idx as int, size as nat) && final(self)@.wf_with(v@),
                Err(_) => *final(self) == *old(self),
            },
    {
        let ghost old_view = old(self)@;
        let have = self.entries[idx].blocks.len();
        let need = blocks_needed(size);
        let ghost e0 = old_view.entries[idx as int];
        if need >= have {
            let mut more = match self.allocate_additional(need - have) {
                Ok(v) => v,
                Err(e) => {
                    return Err(e);
                },
            };
            let ghost mid = self@;
            let ghost extra = more@;
            let mut entry = self.entries.remove(idx);
            entry.blocks.append(&mut more);
            entry.size = size;
            self.entries.insert(idx, entry);
            proof {
                let t = after_resize(old_view, idx as int, size as nat);
                assert(self@.entries =~= t.entries);
                assert(self@ == t);
                let e1 = t.entries[idx as int];
                lemma_owned_update(old_view.entries, idx as int, e1);
                vstd::seq_lib::lemma_multiset_commutative(e0.blocks, extra);
                Seq::<usize>::empty().to_multiset_ensures();
                let lhs = t.free.to_multiset().add(owned_ids(t.entries)).add(
                    Seq::<usize>::empty().to_multiset(),
                );
                let rhs = mid.free.to_multiset().add(owned_ids(mid.entries)).add(extra.to_multiset());
                assert(extra == old_view.popped((need - have) as nat));
                assert(e1.blocks == e0.blocks + extra);
                assert(mid.entries == old_view.entries);
                assert forall|x: usize| lhs.count(x) == rhs.count(x) by {
                    assert(owned_ids(t.entries).add(e0.blocks.to_multiset()).count(x)
                        == owned_ids(old_view.entries).add(e1.blocks.to_multiset()).count(x));
                    assert((e0.blocks + extra).to_multiset().count(x)
                        == e0.blocks.to_multiset().add(extra.to_multiset()).count(x));
                }
                assert(lhs =~= rhs);
                assert forall|a: int, b: int| 0 <= a < b < t.entries.len() implies
                    (#[trigger] t.entries[a]).trimmed_name() != (#[trigger] t.entries[b]).trimmed_name() by {
                    assert(t.entries[a].trimmed_name() == old_view.entries[a].trimmed_name());
                    assert(t.entries[b].trimmed_name() == old_view.entries[b].trimmed_name());
                }
            }
            Ok(Vec::new())
        } else {
            let mut entry = self.entries.remove(idx);
            let surplus = entry.blocks.split_off(need);
            entry.size = size;
            self.entries.insert(idx, entry);
            proof {
                let t = after_resize(old_view, idx as int, size as nat);
                assert(self@.entries =~= t.entries);
                assert(self@ == t);
                let e1 = t.entries[idx as int];
                lemma_owned_update(old_view.entries, idx as int, e1);
                lemma_split_multiset(e0.blocks, need as int);
                assert(surplus@ == e0.blocks.skip(need as int));
                Seq::<usize>::empty().to_multiset_ensures();
                let lhs = t.free.to_multiset().add(owned_ids(t.entries)).add(surplus@.to_multiset());
                let rhs = old_view.free.to_multiset().add(owned_ids(old_view.entries)).add(
                    Seq::<usize>::empty().to_multiset(),
                );
                assert(e1.blocks == e0.blocks.take(need as int));
                assert forall|x: usize| lhs.count(x) == rhs.count(x) by {
                    assert(owned_ids(t.entries).add(e0.blocks.to_multiset()).count(x)
                        == owned_ids(old_view.entries).add(e1.blocks.to_multiset()).count(x));
                    assert(e0.blocks.take(need as int).to_multiset().add(
                        e0.blocks.skip(need as int).to_multiset()).count(x)
                        == e0.blocks.to_multiset().count(x));
                }
                assert(lhs =~= rhs);
                assert forall|a: int, b: int| 0 <= a < b < t.entries.len() implies
                    (#[trigger] t.entries[a]).trimmed_name() != (#[trigger] t.entries[b]).trimmed_name() by {
                    assert(t.entries[a].trimmed_name() == old_view.entries[a].trimmed_name());
                    assert(t.entries[b].trimmed_name() == old_view.entries[b].trimmed_name());
                }
            }
            Ok(surplus)
        }
    }

    /// A copy of the block list of entry `idx`.
    pub fn blocks_of(&self, idx: usize) -> (r: Vec<usize>)
        requires
            idx < self@.entries.len(),
        ensures
            r@ == self@.entries[idx as int].blocks,
    {
        let src = &self.entries[idx].blocks;
        let mut out: Vec<usize> = Vec::new();
        let mut k: usize = 0;
        while k < src.len()
            invariant
                k <= src@.len(),
                out@ =~= src@.take(k as int),
            decreases src.len() - k,
        {
            out.push(src[k]);
            k += 1;
            assert(out@ =~= src@.take(k as int));
        }
        assert(src@.take(k as int) =~= src@);
        out
    }

    /// The trimmed names of the live files, in insertion order.
    pub fn list_files(&self) -> (r: Vec<Vec<u8>>)
        ensures
            byte_strings(r@) == self@.names(),
    {
        let mut out: Vec<Vec<u8>> = Vec::new();
        let mut i: usize = 0;
        while i < self.entries.len()
            invariant
                i <= self.entries@.len(),
                out@.len() == i,
                byte_strings(out@) =~= self@.names().take(i as int),
            decreases self.entries.len() - i,
        {
            let name = self.entries[i].trimmed_name();
            assert(name@ == self@.names()[i as int]);
            let ghost before = out@;
            out.push(name);
            i += 1;
            assert(out@ =~= before.push(name));
            assert forall|j: int| 0 <= j < i implies byte_strings(out@)[j] == self@.names()[j] by {
                if j < i - 1 {
                    assert(out@[j] == before[j]);
                    assert(byte_strings(before)[j] == self@.names().take(i - 1)[j]);
                }
            }
            assert(byte_strings(out@) =~= self@.names().take(i as int));
        }
        assert(self@.names().take(i as int) =~= self@.names());
        out
    }
}

// ---------------------------------------------------------------------------
// Laws of the table
// ---------------------------------------------------------------------------

/// Conservation: in a consistent table the free blocks and the blocks owned by
/// the entries together number exactly the usable blocks.
pub proof fn lemma_conservation(t: TableView)
    requires
        t.wf(),
    ensures
        t.free.len() + owned_count(t.entries) == t.blocks_amount,
{
    lemma_owned_len(t.entries);
    t.free.to_multiset_ensures();
    usable_ids(t.blocks_amount).to_multiset_ensures();
    Seq::<usize>::empty().to_multiset_ensures();
}

/// A free block is owned by no entry.
pub proof fn lemma_free_not_owned(t: TableView, b: usize)
    requires
        t.wf(),
        t.free.contains(b),
    ensures
        forall|i: int| 0 <= i < t.entries.len() ==> !(#[trigger] t.entries[i]).blocks.contains(b),
{
    lemma_free_blocks(t, Seq::empty());
}

/// The table after `create` was called for each name of `qs` in turn, from `t`.
pub open spec fn create_each(t: TableView, qs: Seq<Seq<u8>>) -> TableView
    decreases qs.len(),
{
    if qs.len() == 0 {
        t
    } else {
        let s = create_each(t, qs.drop_last());
        if create_outcome(s, qs.last()) is Ok {
            after_create(s, qs.last())
        } else {
            s
        }
    }
}

proof fn lemma_create_prefix(n: nat, qs: Seq<Seq<u8>>, k: nat)
    requires
        n <= usize::MAX,
        k <= qs.len() <= n,
        forall|i: int| 0 <= i < qs.len() ==> (#[trigger] qs[i]).len() <= NAME_LEN,
        forall|i: int, j: int|
            0 <= i < j < qs.len() ==> trim_zeros(#[trigger] qs[i]) != trim_zeros(#[trigger] qs[j]),
    ensures
        ({
            let t = create_each(fresh_table(n), qs.take(k as int));
            &&& t.free.len() == n - k
            &&& t.entries.len() == k
            &&& forall|i: int| 0 <= i < k ==> (#[trigger] t.entries[i]).trimmed_name() == trim_zeros(qs[i])
        }),
    decreases k,
{
    if k > 0 {
        lemma_create_prefix(n, qs, (k - 1) as nat);
        let p = qs.take(k - 1);
        assert(qs.take(k as int).drop_last() =~= p);
        let s = create_each(fresh_table(n), p);
        let q = qs[k - 1];
        assert(!s.has_file(trim_zeros(q))) by {
            if s.has_file(trim_zeros(q)) {
                let i = choose|i: int| 0 <= i < s.entries.len() && (#[trigger] s.entries[i]).trimmed_name() == trim_zeros(q);
                assert(trim_zeros(qs[i]) != trim_zeros(qs[k - 1]));
            }
        }
        lemma_trim_pad_name(q);
        let t = after_create(s, q);
        assert forall|i: int| 0 <= i < k implies (#[trigger] t.entries[i]).trimmed_name() == trim_zeros(qs[i]) by {
            if i < k - 1 {
                assert(t.entries[i] == s.entries[i]);
            }
        }
    } else {
        assert(qs.take(0) =~= Seq::<Seq<u8>>::empty());
    }
}

/// Exhaustion: on a table fresh from formatting with `n` usable blocks, `n`
/// creates of distinct names that fit all succeed, and a create of one more
/// name fails with `NoSpace` (and `add_file` then changes nothing).
pub proof fn lemma_exhaustion(n: nat, qs: Seq<Seq<u8>>, extra: Seq<u8>)
    requires
        n <= usize::MAX,
        qs.len() == n,
        forall|i: int| 0 <= i < qs.len() ==> (#[trigger] qs[i]).len() <= NAME_LEN,
        forall|i: int, j: int|
            0 <= i < j < qs.len() ==> trim_zeros(#[trigger] qs[i]) != trim_zeros(#[trigger] qs[j]),
        extra.len() <= NAME_LEN,
        forall|i: int| 0 <= i < qs.len() ==> trim_zeros(#[trigger] qs[i]) != trim_zeros(extra),
    ensures
        forall|k: int|
            0 <= k < n ==> create_outcome(
                create_each(fresh_table(n), qs.take(k)),
                #[trigger] qs[k],
            ) is Ok,
        create_outcome(create_each(fresh_table(n), qs), extra) == Err::<(), FsError>(
            FsError::NoSpace,
        ),
{
    assert forall|k: int| 0 <= k < n implies create_outcome(
        create_each(fresh_table(n), qs.take(k)),
        #[trigger] qs[k],
    ) is Ok by {
        lemma_create_prefix(n, qs, k as nat);
        let s = create_each(fresh_table(n), qs.take(k));
        if s.has_file(trim_zeros(qs[k])) {
            let i = choose|i: int| 0 <= i < s.entries.len() && (#[trigger] s.entries[i]).trimmed_name() == trim_zeros(qs[k]);
            assert(trim_zeros(qs[i]) != trim_zeros(qs[k]));
        }
    }
    lemma_create_prefix(n, qs, n);
    assert(qs.take(n as int) =~= qs);
    let s = create_each(fresh_table(n), qs);
    if s.has_file(trim_zeros(extra)) {
        let i = choose|i: int| 0 <= i < s.entries.len() && (#[trigger] s.entries[i]).trimmed_name() == trim_zeros(extra);
        assert(trim_zeros(qs[i]) != trim_zeros(extra));
    }
}

} // verus!
