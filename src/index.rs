//! The index: an ordered concurrent map from key to the position of the
//! key's live record.
use crossbeam_skiplist::SkipMap;
use vstd::prelude::*;

verus! {

/// `crossbeam_skiplist::SkipMap`, whose contents `index_entries` names.
#[verifier::external_type_specification]
#[verifier::external_body]
#[verifier::reject_recursive_types(K)]
#[verifier::reject_recursive_types(V)]
pub struct ExSkipMap<K, V>(SkipMap<K, V>);

/// The index's map from key to position.
pub type IndexMap = SkipMap<String, CommandPos>;

/// Where a record lies: its segment's generation, its byte offset in the
/// segment and its length in bytes.
#[derive(Clone, Copy, PartialEq, Eq, Structural, Debug)]
pub struct CommandPos {
    pub gen: u64,
    pub offset: u64,
    pub len: u64,
}

impl CommandPos {
    pub open spec fn view(&self) -> (u64, u64, u64) {
        (self.gen, self.offset, self.len)
    }
}

/// What a skip map of the index holds: each key's text and the position,
/// as `(gen, offset, len)`, that it maps to.
pub uninterp spec fn index_entries(m: IndexMap) -> Map<Seq<char>, (u64, u64, u64)>;

/// Relies on `SkipMap::new`: a new map is empty.
#[verifier::external_body]
pub(crate) fn index_new() -> (r: IndexMap)
    ensures
        index_entries(r).dom() == Set::<Seq<char>>::empty(),
{
    SkipMap::new()
}

/// Relies on `SkipMap::get`: the entry of the key, if there is one.
#[verifier::external_body]
pub(crate) fn index_get(m: &IndexMap, key: &str) -> (r: Option<CommandPos>)
    ensures
        r is Some <==> index_entries(*m).contains_key(key@),
        r matches Some(p) ==> p@ == index_entries(*m)[key@],
{
    m.get(key).map(|e| *e.value())
}

/// Relies on `SkipMap::insert`: the key now maps to the value, whether or
/// not it was there before; other keys keep theirs.
#[verifier::external_body]
pub(crate) fn index_insert(m: &mut IndexMap, key: String, pos: CommandPos)
    ensures
        index_entries(*final(m)) == index_entries(*old(m)).insert(key@, pos@),
{
    m.insert(key, pos);
}

/// Relies on `SkipMap::remove`: the key's entry leaves the map and is
/// handed back.
#[verifier::external_body]
pub(crate) fn index_remove(m: &mut IndexMap, key: &str) -> (r: Option<CommandPos>)
    ensures
        r is Some <==> index_entries(*old(m)).contains_key(key@),
        r matches Some(p) ==> p@ == index_entries(*old(m))[key@],
        index_entries(*final(m)) == index_entries(*old(m)).remove(key@),
{
    m.remove(key).map(|e| *e.value())
}

/// Relies on `SkipMap::iter`: it visits every entry of the map once.
#[verifier::external_body]
pub(crate) fn index_list(m: &IndexMap) -> (r: Vec<(String, CommandPos)>)
    ensures
        forall|i: int|
            0 <= i < r@.len() ==> #[trigger] index_entries(*m).contains_key(r@[i].0@)
                && index_entries(*m)[r@[i].0@] == r@[i].1@,
        forall|k: Seq<char>|
            #[trigger] index_entries(*m).contains_key(k) ==> exists|i: int|
                0 <= i < r@.len() && (#[trigger] r@[i]).0@ == k,
        forall|i: int, j: int|
            0 <= i < j < r@.len() ==> (#[trigger] r@[i]).0@ != (#[trigger] r@[j]).0@,
{
    m.iter().map(|e| (e.key().clone(), *e.value())).collect()
}

} // verus!
