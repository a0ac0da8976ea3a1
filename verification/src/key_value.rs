use vstd::prelude::*;

verus! {

/// An item that is made of a key and a value.
///
/// The key decides which items replace one another; the value is carried
/// through untouched. Splitting an item and putting the two parts together
/// again gives the parts back.
pub trait KeyValue<K, V>: Sized {
    /// The key and the value that the item is made of.
    open spec fn parts(self) -> (K, V) {
        arbitrary()
    }

    /// Takes the item apart.
    fn split(self) -> (kv: (K, V))
        ensures
            kv == self.parts(),
    ;

    /// Builds the item that has the key `k` and the value `v`.
    fn unsplit(k: K, v: V) -> (item: Self)
        ensures
            item.parts() == (k, v),
    ;
}

impl<K, V> KeyValue<K, V> for (K, V) {
    open spec fn parts(self) -> (K, V) {
        self
    }

    fn split(self) -> (kv: (K, V)) {
        self
    }

    fn unsplit(k: K, v: V) -> (item: Self) {
        (k, v)
    }
}

} // verus!
