//! The field-data map of a parsed message: field name to raw content bytes.

use vstd::prelude::*;

verus! {

/// A mapping from field names to the field's raw content octets, viewed as a
/// `Map<Seq<char>, Seq<u8>>`.
#[derive(Debug)]
pub struct FieldMap {
    entries: Vec<(String, Vec<u8>)>,
}

/// The map denoted by an entry sequence; a later entry for the same name
/// supersedes an earlier one.
closed spec fn entries_map(s: Seq<(String, Vec<u8>)>) -> Map<Seq<char>, Seq<u8>>
    decreases s.len(),
{
    if s.len() == 0 {
        Map::empty()
    } else {
        entries_map(s.drop_last()).insert(s.last().0@, s.last().1@)
    }
}

impl View for FieldMap {
    type V = Map<Seq<char>, Seq<u8>>;

    closed spec fn view(&self) -> Map<Seq<char>, Seq<u8>> {
        entries_map(self.entries@)
    }
}

/// The denoted map holds `k` exactly when some entry carries it, and then its
/// value is the latest such entry's.
proof fn lemma_entries_map_get(s: Seq<(String, Vec<u8>)>, k: Seq<char>, i: int)
    requires
        0 <= i < s.len(),
        s[i].0@ == k,
        forall|j: int| i < j < s.len() ==> (#[trigger] s[j]).0@ != k,
    ensures
        entries_map(s).contains_key(k),
        entries_map(s)[k] == s[i].1@,
    decreases s.len(),
{
    if i == s.len() - 1 {
    } else {
        lemma_entries_map_get(s.drop_last(), k, i);
        assert(s.last().0@ != k);
    }
}

/// A name carried by no entry is not in the denoted map.
proof fn lemma_entries_map_absent(s: Seq<(String, Vec<u8>)>, k: Seq<char>)
    requires
        forall|j: int| 0 <= j < s.len() ==> (#[trigger] s[j]).0@ != k,
    ensures
        !entries_map(s).contains_key(k),
    decreases s.len(),
{
    if s.len() > 0 {
        lemma_entries_map_absent(s.drop_last(), k);
    }
}

impl FieldMap {
    /// The empty map.
    pub fn new() -> (r: FieldMap)
        ensures
            r@ == Map::<Seq<char>, Seq<u8>>::empty(),
    {
        FieldMap { entries: Vec::new() }
    }

    /// Binds `name` to `val`, superseding any earlier binding.
    pub fn insert(&mut self, name: String, val: Vec<u8>)
        ensures
            final(self)@ == old(self)@.insert(name@, val@),
    {
        let ghost before = self.entries@;
        self.entries.push((name, val));
        proof {
            assert(self.entries@.drop_last() =~= before);
        }
    }

    /// The content bytes bound to `name`, if any.
    pub fn get(&self, name: &String) -> (r: Option<&Vec<u8>>)
        ensures
            match r {
                Some(v) => self@.contains_key(name@) && v@ == self@[name@],
                None => !self@.contains_key(name@),
            },
    {
        let mut i: usize = self.entries.len();
        while i > 0
            invariant
                i <= self.entries.len(),
                forall|j: int| i <= j < self.entries@.len() ==> (#[trigger] self.entries@[j]).0@
                    != name@,
            decreases i,
        {
            i = i - 1;
            if self.entries[i].0.eq(name) {
                proof {
                    lemma_entries_map_get(self.entries@, name@, i as int);
                }
                return Some(&self.entries[i].1);
            }
        }
        proof {
            lemma_entries_map_absent(self.entries@, name@);
        }
        None
    }

    /// Whether `name` is bound.
    pub fn contains_key(&self, name: &String) -> (r: bool)
        ensures
            r == self@.contains_key(name@),
    {
        self.get(name).is_some()
    }

}

} // verus!
