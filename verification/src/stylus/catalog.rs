//! What there is to trace: every registry key with its id.
use vstd::prelude::*;

use crate::keys::texts;
use crate::registry::{keys, names_by_id, site_names, Registry};

verus! {

/// A registry key and its id.
#[derive(Debug, Clone, Copy)]
pub struct FunctionEntry {
    /// The registry key.
    pub name: &'static str,
    /// The id of the key: its index among the sorted keys.
    pub id: u64,
}

/// Every registry key with its id.
#[derive(Debug, Clone)]
pub struct Catalog {
    /// One entry per key, in the order of the ids.
    pub functions: Vec<FunctionEntry>,
}

impl Catalog {
    /// Whether this is the catalog of the given keys.
    pub open spec fn lists(self, keys: Seq<Seq<char>>) -> bool {
        &&& self.functions@.len() == keys.len()
        &&& forall|i: int|
            0 <= i < keys.len() ==> (#[trigger] self.functions@[i]).name@ == keys[i]
                && self.functions@[i].id == i
    }
}

/// Every registry key with its id.
pub fn catalog(registry: &Registry) -> (catalog: Catalog)
    ensures
        catalog.lists(registry.keys()),
{
    let names = names_by_id(registry);
    let count = names.len();
    let mut functions: Vec<FunctionEntry> = Vec::new();
    let mut i: usize = 0;
    while i < count
        invariant
            i <= count,
            count == names@.len(),
            functions@.len() == i,
            forall|k: int|
                0 <= k < i ==> (#[trigger] functions@[k]).name@ == texts(names@)[k]
                    && functions@[k].id == k,
        decreases count - i,
    {
        functions.push(FunctionEntry { name: names[i], id: i as u64 });
        i = i + 1;
    }
    Catalog { functions }
}

/// The name of every site, in the order of the registry.
pub fn all_names(registry: &Registry) -> (names: Vec<&'static str>)
    ensures
        texts(names@) == site_names(registry@),
{
    registry.names()
}

/// The ids of a catalog are dense: they run from zero without a gap, and each occurs
/// once.
pub proof fn lemma_catalog_ids_are_dense(catalog: Catalog, keys: Seq<Seq<char>>, id: u64)
    requires
        catalog.lists(keys),
    ensures
        id < keys.len() <==> exists|i: int|
            0 <= i < catalog.functions@.len() && (#[trigger] catalog.functions@[i]).id == id,
        forall|i: int, j: int|
            0 <= i < catalog.functions@.len() && 0 <= j < catalog.functions@.len() && (
            #[trigger] catalog.functions@[i]).id == (#[trigger] catalog.functions@[j]).id ==> i == j,
{
    if id < keys.len() {
        assert(catalog.functions@[id as int].id == id);
    }
}

/// A catalog has one entry per key of the registry, in the order of the keys, and numbers them
/// from zero.
pub proof fn lemma_a_catalog_numbers_the_keys(
    registry: Registry,
    list: Vec<&'static str>,
    made: Catalog,
    i: int,
)
    requires
        call_ensures(keys, (&registry,), list),
        call_ensures(catalog, (&registry,), made),
        0 <= i < list@.len(),
    ensures
        made.functions@.len() == list@.len(),
        made.functions@[i].name@ == list@[i]@,
        made.functions@[i].id == i,
{
    assert(texts(list@).len() == list@.len());
    assert(texts(list@)[i] == list@[i]@);
}

} // verus!
