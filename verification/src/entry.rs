use vstd::prelude::*;

verus! {

/// A key together with a payload. Only the key is ever compared.
#[derive(Debug)]
pub struct HeapEntry<K, D> {
    pub key: K,
    pub data: D,
}

} // verus!
