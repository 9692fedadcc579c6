//! The store of one shard: at most one share per key, under a fixed identity.
use vstd::prelude::*;
use vstd::slice::slice_to_vec;
use vstd::string::StringSliceAdditionalSpecFns;

verus! {

#[derive(Clone, Copy, Debug, PartialEq, Eq, Structural)]
pub enum ShardError {
    /// The identity breaks `1 <= threshold <= total_shares` or `id < total_shares`.
    InvalidConfig,
    /// A share is already stored under the key.
    AlreadyExists,
    /// No share is stored under the key.
    NotFound,
    /// Saved bytes are not a well-formed snapshot.
    Corrupt,
}

impl ShardError {
    /// The text that the protocol reports for this error.
    pub fn message(&self) -> (r: &'static str)
        ensures
            r@ == error_message(*self),
    {
        match self {
            ShardError::InvalidConfig => "Invalid shard configuration",
            ShardError::AlreadyExists => "Key already exists",
            ShardError::NotFound => "Key not found",
            ShardError::Corrupt => "Corrupt storage",
        }
    }
}

pub open spec fn error_message(e: ShardError) -> Seq<char> {
    match e {
        ShardError::InvalidConfig => "Invalid shard configuration"@,
        ShardError::AlreadyExists => "Key already exists"@,
        ShardError::NotFound => "Key not found"@,
        ShardError::Corrupt => "Corrupt storage"@,
    }
}

/// One shard's identity and its stored shares.
pub struct VaultShard {
    pub id: u8,
    pub threshold: u8,
    pub total_shares: u8,
    /// Each stored key with its share, in order of storing.
    pub records: Vec<(Vec<u8>, Vec<u8>)>,
}

pub open spec fn entries_map(e: Seq<(Seq<u8>, Seq<u8>)>) -> Map<Seq<u8>, Seq<u8>>
    decreases e.len(),
{
    if e.len() == 0 {
        Map::empty()
    } else {
        entries_map(e.drop_last()).insert(e.last().0, e.last().1)
    }
}

pub open spec fn keys_unique(e: Seq<(Seq<u8>, Seq<u8>)>) -> bool {
    forall|i: int, j: int| 0 <= i < j < e.len() ==> e[i].0 != e[j].0
}

pub open spec fn valid_identity(id: int, threshold: int, total: int) -> bool {
    1 <= threshold <= total && 0 <= id < total
}

/// What storing `share` under `key` does to the contents `m`, and what it returns.
pub open spec fn store_outcome(m: Map<Seq<u8>, Seq<u8>>, key: Seq<u8>, share: Seq<u8>) -> (Map<
    Seq<u8>,
    Seq<u8>,
>, Result<(), ShardError>) {
    if m.contains_key(key) {
        (m, Err(ShardError::AlreadyExists))
    } else {
        (m.insert(key, share), Ok(()))
    }
}

/// What looking up `key` in the contents `m` returns.
pub open spec fn get_outcome(m: Map<Seq<u8>, Seq<u8>>, key: Seq<u8>) -> Result<Seq<u8>, ShardError> {
    if m.contains_key(key) {
        Ok(m[key])
    } else {
        Err(ShardError::NotFound)
    }
}

pub open spec fn bytes_outcome(r: Result<Vec<u8>, ShardError>) -> Result<Seq<u8>, ShardError> {
    match r {
        Ok(v) => Ok(v@),
        Err(e) => Err(e),
    }
}

proof fn lemma_entries_map(e: Seq<(Seq<u8>, Seq<u8>)>)
    requires
        keys_unique(e),
    ensures
        entries_map(e).dom().finite(),
        entries_map(e).dom().len() == e.len(),
        forall|k: Seq<u8>| #[trigger]
            entries_map(e).contains_key(k) <==> exists|i: int| 0 <= i < e.len() && e[i].0 == k,
        forall|i: int| 0 <= i < e.len() ==> #[trigger] entries_map(e)[e[i].0] == e[i].1,
    decreases e.len(),
{
    if e.len() > 0 {
        let p = e.drop_last();
        assert(keys_unique(p));
        lemma_entries_map(p);
        let n = e.len() - 1;
        assert forall|k: Seq<u8>| #[trigger]
            entries_map(e).contains_key(k) <==> exists|i: int| 0 <= i < e.len() && e[i].0 == k by {
            if entries_map(p).contains_key(k) {
                let i = choose|i: int| 0 <= i < p.len() && p[i].0 == k;
                assert(e[i].0 == k);
            }
            if exists|i: int| 0 <= i < e.len() && e[i].0 == k {
                let i = choose|i: int| 0 <= i < e.len() && e[i].0 == k;
                if i < n {
                    assert(p[i].0 == k);
                }
            }
        }
        assert(!entries_map(p).contains_key(e[n].0)) by {
            if entries_map(p).contains_key(e[n].0) {
                let i = choose|i: int| 0 <= i < p.len() && p[i].0 == e[n].0;
                assert(e[i].0 == e[n].0);
            }
        }
        assert forall|i: int| 0 <= i < e.len() implies #[trigger] entries_map(e)[e[i].0] == e[i].1 by {
            if i < n {
                assert(p[i] == e[i]);
                assert(e[i].0 != e[n].0);
            }
        }
    }
}

impl VaultShard {
    pub open spec fn entries(&self) -> Seq<(Seq<u8>, Seq<u8>)> {
        self.records@.map_values(|r: (Vec<u8>, Vec<u8>)| (r.0@, r.1@))
    }

    /// The stored shares, by key.
    pub open spec fn contents(&self) -> Map<Seq<u8>, Seq<u8>> {
        entries_map(self.entries())
    }

    /// The identity is valid and no key is stored twice.
    pub open spec fn wf(&self) -> bool {
        &&& valid_identity(self.id as int, self.threshold as int, self.total_shares as int)
        &&& keys_unique(self.entries())
    }

    /// An empty shard with the given identity; fails on an invalid identity.
    pub fn new(id: u8, threshold: u8, total_shares: u8) -> (r: Result<VaultShard, ShardError>)
        ensures
            r is Ok <==> valid_identity(id as int, threshold as int, total_shares as int),
            r is Err ==> r == Err::<VaultShard, ShardError>(ShardError::InvalidConfig),
            r matches Ok(s) ==> s.wf() && s.id == id && s.threshold == threshold && s.total_shares
                == total_shares && s.contents() == Map::<Seq<u8>, Seq<u8>>::empty(),
    {
        if threshold == 0 || threshold > total_shares || id >= total_shares {
            return Err(ShardError::InvalidConfig);
        }
        let s = VaultShard { id, threshold, total_shares, records: Vec::new() };
        assert(s.entries() =~= Seq::empty());
        Ok(s)
    }

    /// The position of `key` among the records, if it is stored.
    fn find(&self, key: &[u8]) -> (r: Option<usize>)
        requires
            self.wf(),
        ensures
            r is None <==> !self.contents().contains_key(key@),
            r matches Some(i) ==> i < self.records.len() && self.entries()[i as int].0 == key@
                && self.contents()[key@] == self.entries()[i as int].1,
    {
        proof {
            lemma_entries_map(self.entries());
        }
        let mut i: usize = 0;
        while i < self.records.len()
            invariant
                self.wf(),
                i <= self.records.len(),
                forall|j: int| 0 <= j < i ==> self.entries()[j].0 != key@,
            decreases self.records.len() - i,
        {
            if bytes_equal(self.records[i].0.as_slice(), key) {
                proof {
                    lemma_entries_map(self.entries());
                    assert(self.entries()[i as int].0 == self.records@[i as int].0@);
                }
                return Some(i);
            }
            i = i + 1;
        }
        proof {
            lemma_entries_map(self.entries());
        }
        None
    }

    /// Stores `share` under `key`, unless a share is already stored there.
    pub fn store(&mut self, key: &[u8], share: &[u8]) -> (r: Result<(), ShardError>)
        requires
            old(self).wf(),
        ensures
            final(self).wf(),
            final(self).id == old(self).id,
            final(self).threshold == old(self).threshold,
            final(self).total_shares == old(self).total_shares,
            (final(self).contents(), r) == store_outcome(old(self).contents(), key@, share@),
    {
        if self.find(key).is_some() {
            return Err(ShardError::AlreadyExists);
        }
        let ghost e0 = self.entries();
        proof {
            lemma_entries_map(e0);
        }
        self.records.push((slice_to_vec(key), slice_to_vec(share)));
        assert(self.entries() =~= e0.push((key@, share@)));
        assert(self.entries().drop_last() =~= e0);
        assert(keys_unique(self.entries())) by {
            assert forall|i: int| 0 <= i < e0.len() implies e0[i].0 != key@ by {
                if e0[i].0 == key@ {
                    assert(entries_map(e0).contains_key(key@));
                }
            }
        }
        Ok(())
    }

    /// Stores `share` under the key `key`, unless a share is already stored there.
    pub fn store_secret(&mut self, key: &str, share: &[u8]) -> (r: Result<(), ShardError>)
        requires
            old(self).wf(),
        ensures
            final(self).wf(),
            final(self).id == old(self).id,
            final(self).threshold == old(self).threshold,
            final(self).total_shares == old(self).total_shares,
            (final(self).contents(), r) == store_outcome(
                old(self).contents(),
                key.spec_bytes(),
                share@,
            ),
    {
        self.store(key.as_bytes(), share)
    }

    /// The share stored under `key`.
    pub fn get(&self, key: &[u8]) -> (r: Result<Vec<u8>, ShardError>)
        requires
            self.wf(),
        ensures
            bytes_outcome(r) == get_outcome(self.contents(), key@),
    {
        match self.find(key) {
            Some(i) => Ok(slice_to_vec(self.records[i].1.as_slice())),
            None => Err(ShardError::NotFound),
        }
    }

    /// The share stored under the key `key`.
    pub fn get_share(&self, key: &str) -> (r: Result<Vec<u8>, ShardError>)
        requires
            self.wf(),
        ensures
            bytes_outcome(r) == get_outcome(self.contents(), key.spec_bytes()),
    {
        self.get(key.as_bytes())
    }

    /// How many keys hold a share.
    pub fn key_count(&self) -> (r: usize)
        requires
            self.wf(),
        ensures
            r == self.contents().dom().len(),
    {
        proof {
            lemma_entries_map(self.entries());
        }
        self.records.len()
    }
}

/// Whether the two byte strings are equal.
pub fn bytes_equal(a: &[u8], b: &[u8]) -> (r: bool)
    ensures
        r == (a@ == b@),
{
    if a.len() != b.len() {
        return false;
    }
    let mut i: usize = 0;
    while i < a.len()
        invariant
            a.len() == b.len(),
            i <= a.len(),
            forall|j: int| 0 <= j < i ==> a@[j] == b@[j],
        decreases a.len() - i,
    {
        if a[i] != b[i] {
            return false;
        }
        i = i + 1;
    }
    assert(a@ =~= b@);
    true
}

/// Storing under a new key and then looking it up gives the share back.
pub proof fn lemma_store_then_get(m: Map<Seq<u8>, Seq<u8>>, key: Seq<u8>, share: Seq<u8>)
    requires
        !m.contains_key(key),
    ensures
        store_outcome(m, key, share).1 == Ok::<(), ShardError>(()),
        get_outcome(store_outcome(m, key, share).0, key) == Ok::<Seq<u8>, ShardError>(share),
{
}

/// A second store under the same key fails and leaves the first share in place.
pub proof fn lemma_store_twice(
    m: Map<Seq<u8>, Seq<u8>>,
    key: Seq<u8>,
    share1: Seq<u8>,
    share2: Seq<u8>,
)
    requires
        !m.contains_key(key),
    ensures
        ({
            let m1 = store_outcome(m, key, share1).0;
            &&& store_outcome(m1, key, share2).1 == Err::<(), ShardError>(ShardError::AlreadyExists)
            &&& get_outcome(store_outcome(m1, key, share2).0, key) == Ok::<Seq<u8>, ShardError>(
                share1,
            )
        }),
{
}

/// The contents after storing each share under its key in turn, starting empty.
pub open spec fn stored_all(keys: Seq<Seq<u8>>, shares: Seq<Seq<u8>>) -> Map<Seq<u8>, Seq<u8>>
    decreases keys.len(),
{
    if keys.len() == 0 {
        Map::empty()
    } else {
        store_outcome(
            stored_all(keys.drop_last(), shares),
            keys.last(),
            shares[keys.len() - 1],
        ).0
    }
}

/// After storing `k` distinct keys into an empty shard, it holds `k` keys.
pub proof fn lemma_distinct_keys_count(keys: Seq<Seq<u8>>, shares: Seq<Seq<u8>>)
    requires
        shares.len() >= keys.len(),
        forall|i: int, j: int| 0 <= i < j < keys.len() ==> keys[i] != keys[j],
    ensures
        stored_all(keys, shares).dom().finite(),
        stored_all(keys, shares).dom().len() == keys.len(),
        forall|k: Seq<u8>| #[trigger]
            stored_all(keys, shares).contains_key(k) <==> keys.contains(k),
    decreases keys.len(),
{
    if keys.len() > 0 {
        let p = keys.drop_last();
        lemma_distinct_keys_count(p, shares);
        assert(!p.contains(keys.last())) by {
            if p.contains(keys.last()) {
                let i = choose|i: int| 0 <= i < p.len() && p[i] == keys.last();
                assert(keys[i] == keys[keys.len() - 1]);
            }
        }
        assert forall|k: Seq<u8>| #[trigger]
            stored_all(keys, shares).contains_key(k) <==> keys.contains(k) by {
            if p.contains(k) {
                let i = choose|i: int| 0 <= i < p.len() && p[i] == k;
                assert(keys[i] == k);
            }
            if keys.contains(k) && k != keys.last() {
                let i = choose|i: int| 0 <= i < keys.len() && keys[i] == k;
                assert(p[i] == k);
            }
        }
    }
}

} // verus!
