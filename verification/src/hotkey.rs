//! The hotkey table: an immutable mapping from a trigger note number to the
//! ordered list of output notes it expands into.

use std::collections::HashMap;
use vstd::prelude::*;

verus! {

broadcast use vstd::std_specs::hash::group_hash_axioms;

/// One output note of a hotkey entry: the note number to emit and the
/// velocity to emit it with.
///
/// The remapper never interprets a velocity; it only copies it through, so a
/// velocity is carried as the bit pattern of the host's 32-bit float value.
/// The one velocity the engine writes itself is the forced zero of a
/// note-off expansion, whose bit pattern is 0.
#[derive(Clone, Copy, PartialEq, Eq, Structural, Debug)]
pub struct Note {
    pub note: u8,
    pub velocity: u32,
}

/// The ordered list of output notes one trigger note expands into. The order
/// is significant: it is the emission order of the fan-out. An empty list
/// silently absorbs the trigger.
#[derive(Debug)]
pub struct HotkeyEntry {
    pub outputs: Vec<Note>,
}

impl View for HotkeyEntry {
    type V = Seq<Note>;

    open spec fn view(&self) -> Seq<Note> {
        self.outputs@
    }
}

impl Clone for HotkeyEntry {
    fn clone(&self) -> (r: Self)
        ensures
            r@ == self@,
    {
        let outputs = self.outputs.clone();
        proof {
            assert(outputs@ =~= self.outputs@);
        }
        HotkeyEntry { outputs }
    }
}

/// The hotkey table, immutable once built: trigger note number to
/// [`HotkeyEntry`]. Keys are unique; a note without an entry passes through
/// the remapper unchanged.
#[derive(Debug)]
pub struct HotkeyMap {
    pub hotkeys: HashMap<u8, HotkeyEntry>,
}

/// The abstract table a key/entry map stands for: the same keys, each
/// entry replaced by the sequence of its output notes.
pub open spec fn table_view(hotkeys: Map<u8, HotkeyEntry>) -> Map<u8, Seq<Note>> {
    Map::new(|k: u8| hotkeys.contains_key(k), |k: u8| hotkeys[k]@)
}

impl View for HotkeyMap {
    type V = Map<u8, Seq<Note>>;

    open spec fn view(&self) -> Map<u8, Seq<Note>> {
        table_view(self.hotkeys@)
    }
}

/// The table a sequence of (trigger, entry) pairs loads into: the pairs
/// taken in order, a later pair whose trigger was already seen overriding
/// the earlier one (last wins).
pub open spec fn entries_map(entries: Seq<(u8, HotkeyEntry)>) -> Map<u8, Seq<Note>>
    decreases entries.len(),
{
    if entries.len() == 0 {
        Map::<u8, Seq<Note>>::empty()
    } else {
        entries_map(entries.drop_last()).insert(entries.last().0, entries.last().1@)
    }
}

impl HotkeyMap {
    /// The empty table: every note passes through.
    pub fn new() -> (r: HotkeyMap)
        ensures
            r@ == Map::<u8, Seq<Note>>::empty(),
    {
        let r = HotkeyMap { hotkeys: HashMap::new() };
        proof {
            assert(r@ =~= Map::<u8, Seq<Note>>::empty());
        }
        r
    }

    /// A pure read: the entry for a trigger note, or `None` when the note
    /// has no mapping and must be forwarded unchanged.
    pub fn lookup(&self, trigger_note: u8) -> (r: Option<&HotkeyEntry>)
        ensures
            match r {
                Some(entry) => self@.contains_key(trigger_note) && entry@ == self@[trigger_note],
                None => !self@.contains_key(trigger_note),
            },
    {
        self.hotkeys.get(&trigger_note)
    }

    /// Builds a table from (trigger, entry) pairs, in order, a duplicate
    /// trigger collapsing to the last pair that carries it. This is the
    /// only way a table is built from loaded configuration data.
    pub fn from_entries(entries: &Vec<(u8, HotkeyEntry)>) -> (r: HotkeyMap)
        ensures
            r@ == entries_map(entries@),
    {
        let mut hotkeys: HashMap<u8, HotkeyEntry> = HashMap::new();
        proof {
            assert(table_view(hotkeys@) =~= entries_map(entries@.take(0)));
        }
        let n = entries.len();
        for i in 0..n
            invariant
                n == entries@.len(),
                table_view(hotkeys@) == entries_map(entries@.take(i as int)),
        {
            let ghost prefix = entries@.take(i as int);
            let trigger_note = entries[i].0;
            let entry = entries[i].1.clone();
            hotkeys.insert(trigger_note, entry);
            proof {
                assert(entries@.take(i + 1).drop_last() =~= prefix);
                assert(entries@.take(i + 1).last() == entries@[i as int]);
                assert(table_view(hotkeys@) =~= entries_map(prefix).insert(
                    entries@[i as int].0,
                    entries@[i as int].1@,
                ));
            }
        }
        proof {
            assert(entries@.take(n as int) =~= entries@);
        }
        HotkeyMap { hotkeys }
    }

    /// Writes the table out as (trigger, entry) pairs, one per trigger, in
    /// ascending trigger order: the pairs a serializer emits, and exactly
    /// what [`HotkeyMap::from_entries`] rebuilds the table from.
    pub fn to_entries(&self) -> (r: Vec<(u8, HotkeyEntry)>)
        ensures
            forall|i: int, j: int| 0 <= i < j < r@.len() ==> r@[i].0 < r@[j].0,
            forall|i: int|
                0 <= i < r@.len() ==> self@.contains_key(#[trigger] r@[i].0) && r@[i].1@
                    == self@[r@[i].0],
            forall|k: u8|
                #[trigger] self@.contains_key(k) ==> exists|i: int|
                    0 <= i < r@.len() && r@[i].0 == k,
    {
        let mut r: Vec<(u8, HotkeyEntry)> = Vec::new();
        for key in 0..256usize
            invariant
                forall|i: int, j: int| 0 <= i < j < r@.len() ==> r@[i].0 < r@[j].0,
                forall|i: int| 0 <= i < r@.len() ==> (#[trigger] r@[i].0) < key,
                forall|i: int|
                    0 <= i < r@.len() ==> self@.contains_key(#[trigger] r@[i].0) && r@[i].1@
                        == self@[r@[i].0],
                forall|k: u8|
                    k < key && #[trigger] self@.contains_key(k) ==> exists|i: int|
                        0 <= i < r@.len() && r@[i].0 == k,
        {
            let trigger_note = key as u8;
            match self.lookup(trigger_note) {
                Some(entry) => {
                    let ghost r_pre = r@;
                    r.push((trigger_note, entry.clone()));
                    proof {
                        assert(r@[r@.len() - 1].0 == trigger_note);
                        assert forall|k: u8|
                            k < key + 1 && #[trigger] self@.contains_key(k) implies exists|i: int|
                            0 <= i < r@.len() && r@[i].0 == k by {
                            if k < key {
                                let i = choose|i: int|
                                    0 <= i < r_pre.len() && (#[trigger] r_pre[i].0) == k;
                                assert(r@[i] == r_pre[i]);
                                assert(r@[i].0 == k);
                            } else {
                                assert(r@[r@.len() - 1].0 == k);
                            }
                        }
                    }
                },
                None => {},
            }
        }
        r
    }
}

/// Law: reloading a faithful serialization of a table yields identical
/// lookup results for every trigger. `entries` stands for the pairs the
/// serializer wrote out — distinct triggers, each pair carrying the table's
/// own list for its trigger, every trigger of the table present — and
/// `entries_map` is the table that loading those pairs builds.
pub proof fn lemma_entries_round_trip(entries: Seq<(u8, HotkeyEntry)>, m: Map<u8, Seq<Note>>)
    requires
        forall|i: int, j: int| 0 <= i < j < entries.len() ==> entries[i].0 != entries[j].0,
        forall|i: int|
            0 <= i < entries.len() ==> m.contains_key(#[trigger] entries[i].0) && entries[i].1@
                == m[entries[i].0],
        forall|k: u8|
            #[trigger] m.contains_key(k) ==> exists|i: int|
                0 <= i < entries.len() && entries[i].0 == k,
    ensures
        entries_map(entries) == m,
    decreases entries.len(),
{
    if entries.len() == 0 {
        assert forall|k: u8| !(#[trigger] m.contains_key(k)) by {
            if m.contains_key(k) {
                let i = choose|i: int| 0 <= i < entries.len() && (#[trigger] entries[i].0) == k;
            }
        }
        assert(entries_map(entries) =~= m);
    } else {
        let prefix = entries.drop_last();
        let last = entries.last();
        let sub = m.remove(last.0);
        assert forall|i: int|
            0 <= i < prefix.len() implies sub.contains_key(#[trigger] prefix[i].0) && prefix[i].1@
            == sub[prefix[i].0] by {
            assert(entries[i].0 != entries[entries.len() - 1].0);
        }
        assert forall|k: u8| #[trigger] sub.contains_key(k) implies exists|i: int|
            0 <= i < prefix.len() && prefix[i].0 == k by {
            let i = choose|i: int| 0 <= i < entries.len() && (#[trigger] entries[i].0) == k;
            assert(k != last.0);
            assert(i < entries.len() - 1);
            assert(prefix[i].0 == k);
        }
        lemma_entries_round_trip(prefix, sub);
        assert(entries[entries.len() - 1].0 == last.0);
        assert(m.contains_key(last.0) && last.1@ == m[last.0]);
        assert(entries_map(entries) =~= m);
    }
}

} // verus!
