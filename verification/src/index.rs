//! A map keyed by 32-byte hashes. `hashbrown::HashMap` finds the position of a
//! key's value in a vector.
use vstd::prelude::*;
use hashbrown::HashMap;

verus! {

/// `hashbrown::HashMap`, seen from outside.
#[verifier::external_type_specification]
#[verifier::external_body]
#[verifier::reject_recursive_types(K)]
#[verifier::reject_recursive_types(V)]
#[verifier::reject_recursive_types(S)]
pub struct ExHashMap<K, V, S>(hashbrown::HashMap<K, V, S>);

/// The hasher that `hashbrown::HashMap` uses by default, seen from outside.
#[verifier::external_type_specification]
#[verifier::external_body]
pub struct ExDefaultHashBuilder(hashbrown::hash_map::DefaultHashBuilder);

/// The keys that a `hashbrown::HashMap` holds, by their bytes, and the value of each.
pub uninterp spec fn contents(m: HashMap<[u8; 32], usize>) -> Map<Seq<u8>, usize>;

/// `hashbrown::HashMap::new`: the new map holds no key.
#[verifier::external_body]
fn hashbrown_new() -> (m: HashMap<[u8; 32], usize>)
    ensures
        contents(m).dom().is_empty(),
{
    HashMap::new()
}

/// `hashbrown::HashMap::get`: the value of the key, if the map holds the key.
#[verifier::external_body]
fn hashbrown_get(m: &HashMap<[u8; 32], usize>, key: &[u8; 32]) -> (found: Option<usize>)
    ensures
        found == (if contents(*m).dom().contains(key@) {
            Some(contents(*m)[key@])
        } else {
            None
        }),
{
    m.get(key).copied()
}

/// `hashbrown::HashMap::insert`: the key has the value from now on, every other
/// key keeps its own, and the value that the key had is handed back.
#[verifier::external_body]
fn hashbrown_insert(m: &mut HashMap<[u8; 32], usize>, key: [u8; 32], value: usize) -> (before:
    Option<usize>)
    ensures
        contents(*final(m)) == contents(*old(m)).insert(key@, value),
        before == (if contents(*old(m)).dom().contains(key@) {
            Some(contents(*old(m))[key@])
        } else {
            None
        }),
{
    m.insert(key, value)
}

/// A map from 32-byte hashes to values.
pub struct HashIndex<V> {
    positions: HashMap<[u8; 32], usize>,
    /// The keys, in the order of their values.
    keys: Vec<[u8; 32]>,
    values: Vec<V>,
}

/// Some keys by their bytes.
pub open spec fn bytes_of(keys: Seq<[u8; 32]>) -> Seq<Seq<u8>> {
    keys.map_values(|key: [u8; 32]| key@)
}

impl<V> View for HashIndex<V> {
    type V = Map<Seq<u8>, V>;

    closed spec fn view(&self) -> Map<Seq<u8>, V> {
        contents(self.positions).map_values(|position: usize| self.values@[position as int])
    }
}

impl<V> HashIndex<V> {
    /// The invariant of the type: every key has a position, at which the vectors
    /// hold the key itself and its value.
    pub closed spec fn wf(&self) -> bool {
        &&& self.keys@.len() == self.values@.len()
        &&& forall|k: Seq<u8>| #[trigger]
            contents(self.positions).dom().contains(k) ==> {
                let position = contents(self.positions)[k];
                position < self.keys@.len() && self.keys@[position as int]@ == k
            }
        &&& forall|i: int|
            0 <= i < self.keys@.len() ==> {
                let k = (#[trigger] self.keys@[i])@;
                contents(self.positions).dom().contains(k) && contents(self.positions)[k] == i
            }
    }

    /// A map that holds no key.
    pub fn new() -> (index: Self)
        ensures
            index.wf(),
            index@ == Map::<Seq<u8>, V>::empty(),
    {
        let index = HashIndex {
            positions: hashbrown_new(),
            keys: Vec::new(),
            values: Vec::new(),
        };
        assert(index@ =~= Map::<Seq<u8>, V>::empty());
        index
    }

    /// The value of a key, if the map holds the key.
    pub fn get(&self, key: &[u8; 32]) -> (found: Option<&V>)
        requires
            self.wf(),
        ensures
            match found {
                Some(value) => self@.dom().contains(key@) && *value == self@[key@],
                None => !self@.dom().contains(key@),
            },
    {
        match hashbrown_get(&self.positions, key) {
            Some(position) => Some(&self.values[position]),
            None => None,
        }
    }

    /// How many keys the map holds.
    pub fn len(&self) -> (len: usize)
        requires
            self.wf(),
        ensures
            self@.dom().finite(),
            len == self@.dom().len(),
    {
        proof {
            self.lemma_keys();
        }
        self.keys.len()
    }

    /// The keys that the map holds, each one once, in no particular order.
    pub fn keys(&self) -> (keys: &Vec<[u8; 32]>)
        requires
            self.wf(),
        ensures
            bytes_of(keys@).no_duplicates(),
            bytes_of(keys@).to_set() == self@.dom(),
    {
        proof {
            self.lemma_keys();
        }
        &self.keys
    }

    /// The keys are those of the map, each one once.
    proof fn lemma_keys(&self)
        requires
            self.wf(),
        ensures
            bytes_of(self.keys@).no_duplicates(),
            bytes_of(self.keys@).to_set() == self@.dom(),
            self@.dom().finite(),
            self@.dom().len() == self.keys@.len(),
    {
        let keys = bytes_of(self.keys@);
        assert forall|k: Seq<u8>| keys.to_set().contains(k) <==> #[trigger] self@.dom().contains(
            k,
        ) by {
            if self@.dom().contains(k) {
                let position = contents(self.positions)[k] as int;
                assert(keys[position] == k);
            }
            if keys.contains(k) {
                let i = choose|i: int| 0 <= i < keys.len() && keys[i] == k;
                assert(self.keys@[i]@ == k);
            }
        }
        assert forall|i: int, j: int| 0 <= i < keys.len() && 0 <= j < keys.len() && i
            != j implies keys[i] != keys[j] by {
            assert(contents(self.positions)[self.keys@[i]@] == i);
            assert(contents(self.positions)[self.keys@[j]@] == j);
        }
        assert(keys.to_set() =~= self@.dom());
        keys.unique_seq_to_set();
    }

    /// Gives a key a value, in place of the one that it had.
    pub fn insert(&mut self, key: [u8; 32], value: V)
        requires
            old(self).wf(),
        ensures
            final(self).wf(),
            final(self)@ == old(self)@.insert(key@, value),
    {
        match hashbrown_get(&self.positions, &key) {
            Some(position) => {
                self.values[position] = value;
            },
            None => {
                let position: usize = self.values.len();
                hashbrown_insert(&mut self.positions, key, position);
                self.keys.push(key);
                self.values.push(value);
            },
        }
        assert(self@ =~= old(self)@.insert(key@, value));
    }
}

/// The lists of a map of lists, as sequences.
pub open spec fn lists_of<T>(index: HashIndex<Vec<T>>) -> Map<Seq<u8>, Seq<T>> {
    index@.map_values(|list: Vec<T>| list@)
}

impl<T> HashIndex<Vec<T>> {
    /// Puts an item at the end of the list of a key, or starts the list with it.
    pub fn append(&mut self, key: [u8; 32], item: T)
        requires
            old(self).wf(),
        ensures
            final(self).wf(),
            lists_of(*final(self)) == lists_of(*old(self)).insert(
                key@,
                if old(self)@.dom().contains(key@) {
                    lists_of(*old(self))[key@].push(item)
                } else {
                    seq![item]
                },
            ),
    {
        match hashbrown_get(&self.positions, &key) {
            Some(position) => {
                self.values[position].push(item);
                assert(lists_of(*self) =~= lists_of(*old(self)).insert(
                    key@,
                    lists_of(*old(self))[key@].push(item),
                ));
            },
            None => {
                let mut list: Vec<T> = Vec::new();
                list.push(item);
                assert(list@ =~= seq![item]);
                self.insert(key, list);
                assert(lists_of(*self) =~= lists_of(*old(self)).insert(key@, seq![item]));
            },
        }
    }
}

/// A map of lists holds the same keys as sequences, with the same items.
pub proof fn law_lists_hold_the_items<T>(index: HashIndex<Vec<T>>, key: Seq<u8>)
    ensures
        lists_of(index).dom().contains(key) <==> index@.dom().contains(key),
        index@.dom().contains(key) ==> lists_of(index)[key] == index@[key]@,
{
}

/// Keys by their bytes are as many, each with the bytes of the key.
pub proof fn law_keys_have_their_bytes(keys: Seq<[u8; 32]>, i: int)
    requires
        0 <= i < keys.len(),
    ensures
        bytes_of(keys).len() == keys.len(),
        bytes_of(keys)[i] == keys[i]@,
{
}

} // verus!
