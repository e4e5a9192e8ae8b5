//! Call stacks that events share, each kept once for as long as an event names it.

use vstd::prelude::*;

verus! {

/// The most frames that are kept of a call stack.
pub const MAX_TRACKED_STACK_FRAMES: usize = 24;
pub const HASH_START: u64 = 0xcbf2_9ce4_8422_2325;
pub const HASH_FACTOR: u64 = 0x1000_0000_01b3;

/// The hash of the frames so far.
pub open spec fn hashed(frames: Seq<usize>) -> u64
    decreases frames.len(),
{
    if frames.len() == 0 {
        HASH_START
    } else {
        (hashed(frames.drop_last()) ^ (frames.last() as u64)).wrapping_mul(HASH_FACTOR)
    }
}

/// The hash of a call stack, which is never 0.
pub open spec fn hash_of(frames: Seq<usize>) -> u64 {
    if hashed(frames) == 0 {
        1
    } else {
        hashed(frames)
    }
}

pub fn stack_hash(frames: &Vec<usize>) -> (hash: u64)
    ensures
        hash == hash_of(frames@),
        hash != 0,
{
    let mut hash: u64 = HASH_START;
    let mut at: usize = 0;
    assert(frames@.take(0) =~= Seq::empty());
    while at < frames.len()
        invariant
            at <= frames@.len(),
            hash == hashed(frames@.take(at as int)),
        decreases frames@.len() - at,
    {
        proof {
            assert(frames@.take(at + 1).drop_last() =~= frames@.take(at as int));
            assert(frames@.take(at + 1).last() == frames@[at as int]);
        }
        hash = (hash ^ (frames[at] as u64)).wrapping_mul(HASH_FACTOR);
        at = at + 1;
    }
    assert(frames@.take(at as int) =~= frames@);
    if hash == 0 {
        1
    } else {
        hash
    }
}

pub struct StackEntry {
    /// The hash of the frames, or 0 where the entry was never used.
    pub hash: u64,
    /// How many events name the stack.
    pub references: usize,
    pub frames: Vec<usize>,
}

#[verifier::ext_equal]
pub struct EntryModel {
    pub hash: u64,
    pub references: usize,
    pub frames: Seq<usize>,
}

impl View for StackEntry {
    type V = EntryModel;

    open spec fn view(&self) -> EntryModel {
        EntryModel { hash: self.hash, references: self.references, frames: self.frames@ }
    }
}

pub open spec fn empty_entry() -> EntryModel {
    EntryModel { hash: 0, references: 0, frames: Seq::empty() }
}

impl EntryModel {
    pub open spec fn matches(self, frames: Seq<usize>) -> bool {
        self.references != 0 && self.hash == hash_of(frames) && self.frames == frames
    }
}

pub struct StackTable {
    pub entries: Vec<StackEntry>,
}

impl View for StackTable {
    type V = Seq<EntryModel>;

    open spec fn view(&self) -> Seq<EntryModel> {
        Seq::new(self.entries@.len(), |at: int| self.entries@[at]@)
    }
}

/// Where a search ends.
pub enum Probe {
    /// The stack is there already.
    Match(int),
    /// The stack goes here.
    Vacant(int),
    Full,
}

pub open spec fn next_index(index: int, length: int) -> int {
    if index + 1 >= length {
        0
    } else {
        index + 1
    }
}

pub open spec fn probe(entries: Seq<EntryModel>, frames: Seq<usize>, index: int, left: int, available: Option<int>) -> Probe
    decreases left,
{
    if left <= 0 {
        match available {
            Some(place) => Probe::Vacant(place),
            None => Probe::Full,
        }
    } else {
        let entry = entries[index];
        let place = match available {
            Some(place) => Some(place),
            None => if entry.references == 0 {
                Some(index)
            } else {
                None
            },
        };
        if entry.matches(frames) {
            Probe::Match(index)
        } else if entry.references == 0 && entry.hash == 0 {
            Probe::Vacant(place->0)
        } else {
            probe(entries, frames, next_index(index, entries.len() as int), left - 1, place)
        }
    }
}

pub open spec fn search(entries: Seq<EntryModel>, frames: Seq<usize>) -> Probe {
    probe(entries, frames, (hash_of(frames) as int) % (entries.len() as int), entries.len() as int, None)
}

/// The entries after an event stopped naming a stack.
pub open spec fn dropped(entries: Seq<EntryModel>, stack_id: int) -> Seq<EntryModel> {
    if stack_id == 0 {
        entries
    } else {
        let entry = entries[stack_id - 1];
        entries.update(stack_id - 1, EntryModel { references: (entry.references - 1) as usize, ..entry })
    }
}

/// The entries after an event started naming a stack, and the stack's number.
pub open spec fn named(entries: Seq<EntryModel>, frames: Seq<usize>) -> (Seq<EntryModel>, int) {
    if frames.len() == 0 {
        (entries, 0)
    } else {
        match search(entries, frames) {
            Probe::Match(index) => (
                entries.update(index, EntryModel { references: (entries[index].references + 1) as usize, ..entries[index] }),
                index + 1,
            ),
            Probe::Vacant(index) => (entries.update(index, EntryModel { hash: hash_of(frames), references: 1, frames }), index + 1),
            Probe::Full => (entries, 0),
        }
    }
}

/// Whether an entry is there that nothing names.
pub open spec fn has_vacancy(entries: Seq<EntryModel>) -> bool {
    exists|at: int| 0 <= at < entries.len() && (#[trigger] entries[at]).references == 0
}

pub proof fn lemma_probe(entries: Seq<EntryModel>, frames: Seq<usize>, index: int, left: int, available: Option<int>)
    requires
        0 <= index < entries.len(),
        left <= entries.len(),
        available matches Some(place) ==> 0 <= place < entries.len() && entries[place].references == 0,
    ensures
        match probe(entries, frames, index, left, available) {
            Probe::Match(at) => 0 <= at < entries.len() && entries[at].matches(frames),
            Probe::Vacant(at) => 0 <= at < entries.len() && entries[at].references == 0,
            Probe::Full => available is None && forall|at: int|
                0 <= at < entries.len() && index <= at < index + left ==> (#[trigger] entries[at]).references != 0,
        },
        probe(entries, frames, index, left, available) is Full ==> forall|at: int|
            0 <= at < entries.len() && at < index + left - entries.len() ==> (#[trigger] entries[at]).references != 0,
    decreases left,
{
    if left > 0 {
        let entry = entries[index];
        let place = match available {
            Some(place) => Some(place),
            None => if entry.references == 0 {
                Some(index)
            } else {
                None
            },
        };
        let next = next_index(index, entries.len() as int);
        lemma_probe(entries, frames, next, left - 1, place);
        if probe(entries, frames, index, left, available) is Full {
            assert(probe(entries, frames, next, left - 1, place) is Full);
            assert forall|at: int|
                0 <= at < entries.len() && (index <= at < index + left || at < index + left - entries.len()) implies (#[trigger] entries[at]).references
                != 0 by {}
        }
    }
}

fn same_frames(left: &Vec<usize>, right: &Vec<usize>) -> (same: bool)
    ensures
        same == (left@ == right@),
{
    if left.len() != right.len() {
        return false;
    }
    let mut at: usize = 0;
    while at < left.len()
        invariant
            at <= left@.len(),
            left@.len() == right@.len(),
            forall|i: int| 0 <= i < at ==> left@[i] == right@[i],
        decreases left@.len() - at,
    {
        if left[at] != right[at] {
            return false;
        }
        at = at + 1;
    }
    assert(left@ =~= right@);
    true
}

pub fn copy_frames(frames: &Vec<usize>) -> (copy: Vec<usize>)
    ensures
        copy@ == frames@,
{
    let mut copy: Vec<usize> = Vec::new();
    let mut at: usize = 0;
    while at < frames.len()
        invariant
            at <= frames@.len(),
            copy@ == frames@.take(at as int),
        decreases frames@.len() - at,
    {
        copy.push(frames[at]);
        at = at + 1;
        assert(copy@ =~= frames@.take(at as int));
    }
    assert(copy@ =~= frames@);
    copy
}

impl StackTable {
    pub fn new(event_capacity: usize) -> (table: StackTable)
        ensures
            table@ == Seq::new(event_capacity as nat, |at: int| empty_entry()),
    {
        let mut entries: Vec<StackEntry> = Vec::new();
        while entries.len() < event_capacity
            invariant
                entries@.len() <= event_capacity,
                forall|at: int| 0 <= at < entries@.len() ==> (#[trigger] entries@[at])@ == empty_entry(),
            decreases event_capacity - entries@.len(),
        {
            let entry = StackEntry { hash: 0, references: 0, frames: Vec::new() };
            assert(entry@ =~= empty_entry());
            entries.push(entry);
        }
        let table = StackTable { entries };
        assert(table@ =~= Seq::new(event_capacity as nat, |at: int| empty_entry()));
        table
    }

    fn find(&self, frames: &Vec<usize>, hash: u64) -> (found: (bool, usize))
        requires
            self@.len() > 0,
            hash == hash_of(frames@),
            has_vacancy(self@),
        ensures
            found.1 < self@.len(),
            search(self@, frames@) == (if found.0 {
                Probe::Match(found.1 as int)
            } else {
                Probe::Vacant(found.1 as int)
            }),
    {
        let length: usize = self.entries.len();
        let mut index: usize = (hash % (length as u64)) as usize;
        let mut left: usize = length;
        let mut available: Option<usize> = None;
        let ghost start = index as int;
        let ghost target = search(self@, frames@);
        proof {
            lemma_probe(self@, frames@, start, length as int, None);
            let vacant = choose|at: int| 0 <= at < self@.len() && (#[trigger] self@[at]).references == 0;
            assert(!(target is Full)) by {
                if target is Full {
                    assert(self@[vacant].references != 0);
                }
            }
        }
        while left > 0
            invariant
                length == self@.len(),
                length == self.entries@.len(),
                length > 0,
                hash == hash_of(frames@),
                index < length,
                left <= length,
                available matches Some(place) ==> place < length && self@[place as int].references == 0,
                target == search(self@, frames@),
                !(target is Full),
                target == probe(
                    self@,
                    frames@,
                    index as int,
                    left as int,
                    match available {
                        Some(place) => Some(place as int),
                        None => None,
                    },
                ),
            decreases left,
        {
            let entry = &self.entries[index];
            assert(self@[index as int] == entry@);
            if entry.references != 0 && entry.hash == hash && same_frames(&entry.frames, frames) {
                return (true, index);
            }
            if entry.references == 0 {
                if available.is_none() {
                    available = Some(index);
                }
                if entry.hash == 0 {
                    return (false, available.unwrap());
                }
            }
            index = if index >= length - 1 {
                0
            } else {
                index + 1
            };
            left = left - 1;
        }
        (false, available.unwrap())
    }

    /// Makes an event name another stack than before. Returns the number of the stack, or 0
    /// where there is none.
    pub fn replace(&mut self, previous_stack_id: usize, frames: &Vec<usize>) -> (stack_id: usize)
        requires
            old(self)@.len() > 0,
            previous_stack_id <= old(self)@.len(),
            previous_stack_id != 0 ==> old(self)@[previous_stack_id - 1].references > 0,
            has_vacancy(dropped(old(self)@, previous_stack_id as int)),
            forall|at: int|
                0 <= at < old(self)@.len() ==> (#[trigger] dropped(old(self)@, previous_stack_id as int)[at]).references < usize::MAX,
        ensures
            final(self)@ == named(dropped(old(self)@, previous_stack_id as int), frames@).0,
            stack_id == named(dropped(old(self)@, previous_stack_id as int), frames@).1,
    {
        let ghost before = self@;
        if previous_stack_id != 0 {
            let at: usize = previous_stack_id - 1;
            assert(self@[at as int] == self.entries@[at as int]@);
            self.entries[at].references = self.entries[at].references - 1;
            assert(self@ =~= dropped(before, previous_stack_id as int));
        }
        let ghost middle = self@;
        if frames.len() == 0 {
            return 0;
        }
        let hash: u64 = stack_hash(frames);
        let (found, index) = self.find(frames, hash);
        let length: usize = self.entries.len();
        assert(index < length);
        assert(middle[index as int] == self.entries@[index as int]@);
        if found {
            assert(middle[index as int].references < usize::MAX);
            self.entries[index].references = self.entries[index].references + 1;
        } else {
            let copy = copy_frames(frames);
            self.entries.set(index, StackEntry { hash, references: 1, frames: copy });
        }
        proof {
            assert(self@ =~= named(middle, frames@).0);
        }
        index + 1
    }

    /// The frames of a stack.
    pub fn resolve(&self, stack_id: usize) -> (frames: Vec<usize>)
        requires
            stack_id <= self@.len(),
        ensures
            frames@ == resolved(self@, stack_id as int),
    {
        if stack_id == 0 {
            return Vec::new();
        }
        assert(self@[stack_id - 1] == self.entries@[stack_id - 1]@);
        copy_frames(&self.entries[stack_id - 1].frames)
    }
}

pub open spec fn resolved(entries: Seq<EntryModel>, stack_id: int) -> Seq<usize> {
    if stack_id == 0 {
        Seq::empty()
    } else {
        entries[stack_id - 1].frames
    }
}

/// A stack resolves to the frames that it was named with, and stacks that are still named
/// resolve as before.
pub proof fn law_stack_resolves_to_its_frames(entries: Seq<EntryModel>, frames: Seq<usize>)
    requires
        entries.len() > 0,
        has_vacancy(entries),
    ensures
        ({
            let (after, stack_id) = named(entries, frames);
            &&& after.len() == entries.len()
            &&& 0 <= stack_id <= entries.len()
            &&& stack_id == 0 <==> frames.len() == 0
            &&& resolved(after, stack_id) == frames
            &&& forall|other: int|
                0 <= other <= entries.len() && (other == 0 || entries[other - 1].references > 0) ==> #[trigger] resolved(after, other)
                    == resolved(entries, other)
        }),
{
    lemma_search(entries, frames);
    if frames.len() == 0 {
        assert(frames =~= Seq::empty());
    }
}

pub proof fn lemma_search(entries: Seq<EntryModel>, frames: Seq<usize>)
    requires
        entries.len() > 0,
        has_vacancy(entries),
    ensures
        match search(entries, frames) {
            Probe::Match(at) => 0 <= at < entries.len() && entries[at].matches(frames),
            Probe::Vacant(at) => 0 <= at < entries.len() && entries[at].references == 0,
            Probe::Full => false,
        },
{
    let length = entries.len() as int;
    let start = (hash_of(frames) as int) % length;
    lemma_probe(entries, frames, start, length, None);
    let vacant = choose|at: int| 0 <= at < entries.len() && (#[trigger] entries[at]).references == 0;
    if search(entries, frames) is Full {
        assert(entries[vacant].references != 0);
    }
}

} // verus!
