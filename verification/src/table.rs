//! A map from the requests of clients to values.

use crate::types::{ClientId, SeqNum};
use std::collections::HashMap;
use vstd::prelude::*;
use vstd::std_specs::hash::*;

verus! {

broadcast use vstd::std_specs::hash::group_hash_axioms;

/// The number under which a request is filed: the client in the upper half, the
/// sequence number in the lower.
pub open spec fn packed(client: ClientId, seq: SeqNum) -> int {
    client.0 * 0x1_0000_0000_0000_0000 + seq.0
}

fn pack(client: ClientId, seq: SeqNum) -> (r: u128)
    ensures
        r == packed(client, seq),
{
    client.0 as u128 * 0x1_0000_0000_0000_0000u128 + seq.0 as u128
}

fn unpack(key: u128) -> (r: (ClientId, SeqNum))
    ensures
        packed(r.0, r.1) == key,
{
    let client: u64 = (key / 0x1_0000_0000_0000_0000u128) as u64;
    let seq: u64 = (key % 0x1_0000_0000_0000_0000u128) as u64;
    (ClientId(client), SeqNum(seq))
}

/// One more element in a prefix of a sequence.
pub(crate) proof fn lemma_take_contains<A>(s: Seq<A>, i: int)
    requires
        0 <= i < s.len(),
    ensures
        forall|a: A| #[trigger]
            s.take(i + 1).contains(a) <==> s.take(i).contains(a) || a == s[i],
{
    assert forall|a: A| #[trigger] s.take(i + 1).contains(a) <==> s.take(i).contains(a) || a
        == s[i] by {
        assert(s.take(i + 1)[i] == s[i]);
        if s.take(i).contains(a) {
            let j = choose|j: int| 0 <= j < i && s.take(i)[j] == a;
            assert(s.take(i + 1)[j] == a);
        }
    }
}

/// A map keyed by a client and one of its sequence numbers.
#[derive(Debug)]
pub struct RequestTable<V> {
    map: HashMap<u128, V>,
}

impl<V> View for RequestTable<V> {
    type V = Map<(ClientId, SeqNum), V>;

    closed spec fn view(&self) -> Map<(ClientId, SeqNum), V> {
        Map::new(
            |k: (ClientId, SeqNum)| self.map@.contains_key(packed(k.0, k.1) as u128),
            |k: (ClientId, SeqNum)| self.map@[packed(k.0, k.1) as u128],
        )
    }
}

impl<V> RequestTable<V> {
    pub fn new() -> (r: Self)
        ensures
            r@ == Map::<(ClientId, SeqNum), V>::empty(),
    {
        let table = RequestTable { map: HashMap::new() };
        assert(table@ =~= Map::<(ClientId, SeqNum), V>::empty());
        table
    }

    pub fn contains(&self, client: ClientId, seq: SeqNum) -> (r: bool)
        ensures
            r == self@.contains_key((client, seq)),
    {
        self.map.contains_key(&pack(client, seq))
    }

    pub fn get(&self, client: ClientId, seq: SeqNum) -> (r: Option<&V>)
        ensures
            match r {
                Some(v) => self@.contains_key((client, seq)) && self@[(client, seq)] == *v,
                None => !self@.contains_key((client, seq)),
            },
    {
        self.map.get(&pack(client, seq))
    }

    pub fn insert(&mut self, client: ClientId, seq: SeqNum, value: V)
        ensures
            final(self)@ == old(self)@.insert((client, seq), value),
    {
        self.map.insert(pack(client, seq), value);
        assert(self@ =~= old(self)@.insert((client, seq), value));
    }

    pub fn remove(&mut self, client: ClientId, seq: SeqNum) -> (r: Option<V>)
        ensures
            final(self)@ == old(self)@.remove((client, seq)),
            match r {
                Some(v) => old(self)@.contains_key((client, seq)) && old(self)@[(client, seq)] == v,
                None => !old(self)@.contains_key((client, seq)),
            },
    {
        let r = self.map.remove(&pack(client, seq));
        assert(self@ =~= old(self)@.remove((client, seq)));
        r
    }

    /// The keys of the map, each once, in no particular order.
    fn packed_keys(&self) -> (r: Vec<u128>)
        ensures
            r@.no_duplicates(),
            r@.to_set() == self.map@.dom(),
    {
        let mut found: Vec<u128> = Vec::new();
        for k in iter: self.map.keys()
            invariant
                found@ == iter.seq().unref().take(iter.index() as int),
                iter.seq().no_duplicates(),
                iter.seq().unref().to_set() == self.map@.dom(),
                iter.index() == iter.seq().len() ==> found@ == iter.seq().unref(),
        {
            found.push(*k);
        }
        found
    }

    /// The requests that have a value, each once, in no particular order.
    pub fn keys(&self) -> (r: Vec<(ClientId, SeqNum)>)
        ensures
            r@.no_duplicates(),
            r@.to_set() == self@.dom(),
    {
        let keys = self.packed_keys();
        let mut found: Vec<(ClientId, SeqNum)> = Vec::new();
        let mut i: usize = 0;
        while i < keys.len()
            invariant
                found@.len() == i <= keys@.len(),
                forall|j: int|
                    0 <= j < i ==> packed((#[trigger] found@[j]).0, found@[j].1) == keys@[j],
            decreases keys.len() - i,
        {
            found.push(unpack(keys[i]));
            i = i + 1;
        }
        proof {
            self.lemma_keys_complete(keys@, found@);
        }
        found
    }

    /// Unpacking the keys of the map one by one gives the domain of the table.
    proof fn lemma_keys_complete(&self, keys: Seq<u128>, pairs: Seq<(ClientId, SeqNum)>)
        requires
            keys.no_duplicates(),
            keys.to_set() == self.map@.dom(),
            pairs.len() == keys.len(),
            forall|i: int|
                0 <= i < pairs.len() ==> packed((#[trigger] pairs[i]).0, pairs[i].1) == keys[i],
        ensures
            pairs.no_duplicates(),
            pairs.to_set() == self@.dom(),
    {
        assert forall|p: (ClientId, SeqNum)| #[trigger]
            self@.dom().contains(p) implies pairs.to_set().contains(p) by {
            let key = packed(p.0, p.1) as u128;
            assert(keys.to_set().contains(key));
            let i = choose|i: int| 0 <= i < keys.len() && keys[i] == key;
            assert(pairs[i] == p);
        }
        assert forall|p: (ClientId, SeqNum)| #[trigger]
            pairs.to_set().contains(p) implies self@.dom().contains(p) by {
            let i = choose|i: int| 0 <= i < pairs.len() && pairs[i] == p;
            assert(keys.to_set().contains(keys[i]));
        }
        assert(pairs.to_set() =~= self@.dom());
    }

    /// Drops what is filed under a request of `client` up to `up_to`.
    pub fn forget(&mut self, client: ClientId, up_to: SeqNum)
        ensures
            final(self)@ == old(self)@.remove_keys(client.requests_up_to(up_to)),
    {
        let keys = self.keys();
        let mut i: usize = 0;
        while i < keys.len()
            invariant
                keys@.to_set() == old(self)@.dom(),
                i <= keys.len(),
                forall|k: (ClientId, SeqNum)| #[trigger]
                    self@.contains_key(k) <==> old(self)@.contains_key(k) && !(
                    client.requests_up_to(up_to).contains(k) && keys@.take(i as int).contains(k)),
                forall|k: (ClientId, SeqNum)| #[trigger]
                    self@.contains_key(k) ==> self@[k] == old(self)@[k],
            decreases keys.len() - i,
        {
            let key = keys[i];
            proof {
                lemma_take_contains(keys@, i as int);
            }
            if key.0 == client && key.1.0 <= up_to.0 {
                self.remove(key.0, key.1);
            }
            i = i + 1;
        }
        proof {
            assert(keys@.take(i as int) =~= keys@);
            assert forall|k: (ClientId, SeqNum)| #[trigger] old(self)@.contains_key(k) implies keys@.contains(k) by {
                assert(keys@.to_set().contains(k));
            }
            assert(self@ =~= old(self)@.remove_keys(client.requests_up_to(up_to)));
        }
    }

    /// Takes every value out, each with its request, in no particular order.
    pub fn drain(&mut self) -> (r: Vec<((ClientId, SeqNum), V)>)
        ensures
            final(self)@ == Map::<(ClientId, SeqNum), V>::empty(),
            Self::lists(r@, old(self)@),
    {
        let keys = self.keys();
        let mut found: Vec<((ClientId, SeqNum), V)> = Vec::new();
        let mut i: usize = 0;
        while i < keys.len()
            invariant
                keys@.no_duplicates(),
                keys@.to_set() == old(self)@.dom(),
                i <= keys.len(),
                found@.len() == i,
                forall|j: int|
                    0 <= j < i ==> (#[trigger] found@[j]).0 == keys@[j] && found@[j].1 == old(
                        self,
                    )@[keys@[j]],
                forall|j: int| i <= j < keys.len() ==> self@.contains_key(#[trigger] keys@[j]),
                forall|j: int| 0 <= j < i ==> !self@.contains_key(#[trigger] keys@[j]),
                forall|k: (ClientId, SeqNum)| #[trigger]
                    self@.contains_key(k) ==> old(self)@.contains_key(k) && self@[k] == old(
                        self,
                    )@[k],
            decreases keys.len() - i,
        {
            let key = keys[i];
            if let Some(value) = self.remove(key.0, key.1) {
                found.push((key, value));
            }
            i = i + 1;
        }
        proof {
            assert forall|k: (ClientId, SeqNum)| !self@.contains_key(k) by {
                if self@.contains_key(k) {
                    assert(keys@.to_set().contains(k));
                    let j = choose|j: int| 0 <= j < keys.len() && keys@[j] == k;
                    assert(!self@.contains_key(keys@[j]));
                }
            }
            assert(self@ =~= Map::<(ClientId, SeqNum), V>::empty());
            assert forall|k: (ClientId, SeqNum)| #[trigger] old(self)@.contains_key(k) implies exists|j: int|
                0 <= j < found@.len() && (#[trigger] found@[j]).0 == k by {
                assert(keys@.to_set().contains(k));
                let j = choose|j: int| 0 <= j < keys.len() && keys@[j] == k;
                assert(found@[j].0 == k);
            }
        }
        found
    }

    /// `pairs` lists the map `m`: every request once, with its value.
    pub open spec fn lists(
        pairs: Seq<((ClientId, SeqNum), V)>,
        m: Map<(ClientId, SeqNum), V>,
    ) -> bool {
        &&& forall|i: int|
            0 <= i < pairs.len() ==> m.contains_key((#[trigger] pairs[i]).0) && m[pairs[i].0]
                == pairs[i].1
        &&& forall|i: int, j: int|
            0 <= i < j < pairs.len() ==> (#[trigger] pairs[i]).0 != (#[trigger] pairs[j]).0
        &&& forall|k: (ClientId, SeqNum)| #[trigger]
            m.contains_key(k) ==> exists|i: int| 0 <= i < pairs.len() && (#[trigger] pairs[i]).0 == k
    }
}

} // verus!
