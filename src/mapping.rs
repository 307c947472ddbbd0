use crate::value::{key_index, lemma_key_index_found};
use vstd::prelude::*;

verus! {

pub open spec fn table_model(table: Seq<(String, String)>) -> Seq<(Seq<char>, Seq<char>)> {
    table.map_values(|p: (String, String)| (p.0@, p.1@))
}

/// The new name of a key under a renaming table: the target of its first
/// entry, or the key itself when the table does not name it.
pub open spec fn mapped_key(table: Seq<(Seq<char>, Seq<char>)>, k: Seq<char>) -> Seq<char> {
    let i = key_index(table, k);
    if i < 0 {
        k
    } else {
        table[i].1
    }
}

/// Renames `key` by `table`.
pub fn map_key(table: &Vec<(String, String)>, key: &String) -> (r: String)
    ensures
        r@ == mapped_key(table_model(table@), key@),
{
    let ghost t = table_model(table@);
    let mut j: usize = 0;
    while j < table.len()
        invariant
            j <= table.len(),
            t == table_model(table@),
            forall|i: int| 0 <= i < j ==> t[i].0 != key@,
        decreases table.len() - j,
    {
        if table[j].0 == *key {
            proof {
                lemma_key_index_found(t, key@, j as int);
            }
            return table[j].1.clone();
        }
        j = j + 1;
    }
    proof {
        lemma_key_index_found(t, key@, j as int);
    }
    key.clone()
}

} // verus!
