//! The embedded-engine-backed sharded store.
//!
//! The store owns `shard_count` independent key spaces ("trees") of a
//! temporary embedded database and addresses an entity by the pair of its
//! shard (`partition mod shard_count`) and its primary key. Verified code
//! sees the store through two names — its contents as a map from
//! (shard, primary key) to the stored byte payload, and the shard count it
//! was opened with — and through small trusted wrappers around the engine's
//! point operations.

use crate::storage::errors::{Data, Error, OpeningStorage};
use crate::storage::{FromStorage, MergeResolver, ToFromStorage, ToStorage};
use vstd::prelude::*;

verus! {

/// How many shards a store opens by default; adequate for the expected
/// client-id cardinality.
pub const DEFAULT_NUMBER_OF_SHARDS: usize = 10;

/// The sharded store. The engine handles inside are invisible to the
/// verifier; all reasoning goes through [`store_contents`] and
/// [`store_shard_count`].
#[verifier::external_body]
pub struct Sled {
    number_of_shards: usize,
    shards: Vec<sled::Tree>,
}

/// What the store holds: for each (shard, primary key) pair, the byte
/// payload stored under it.
pub uninterp spec fn store_contents(s: Sled) -> Map<(int, Seq<char>), Seq<u8>>;

/// The number of shards the store was opened with.
pub uninterp spec fn store_shard_count(s: Sled) -> int;

/// The (shard, primary key) address of an entity in store `s`.
pub open spec fn entity_address<T: ToFromStorage>(s: Sled, e: T) -> (int, Seq<char>) {
    (e.spec_partition() % store_shard_count(s), e.spec_key())
}

/// `create_or_update` outcome: the key was free and the entity was written
/// as it stands.
pub open spec fn cou_created<T: ToFromStorage>(
    c: Map<(int, Seq<char>), Seq<u8>>,
    c2: Map<(int, Seq<char>), Seq<u8>>,
    k: (int, Seq<char>),
    e: T,
    r: Result<T, Data>,
) -> bool {
    &&& !c.contains_key(k)
    &&& r == Ok::<T, Data>(e)
    &&& c2 == c.insert(k, e.spec_bytes())
}

/// `create_or_update` outcome: an entity was already stored, the merge
/// succeeded, and the merged entity was written by compare-and-swap.
pub open spec fn cou_merged<T: ToFromStorage, M: MergeResolver<T>>(
    c: Map<(int, Seq<char>), Seq<u8>>,
    c2: Map<(int, Seq<char>), Seq<u8>>,
    k: (int, Seq<char>),
    e: T,
    r: Result<T, Data>,
) -> bool {
    &&& c.contains_key(k)
    &&& T::spec_decode(c[k]) is Some
    &&& M::spec_merge(T::spec_decode(c[k])->Some_0, e) is Ok
    &&& r == Ok::<T, Data>(M::spec_merge(T::spec_decode(c[k])->Some_0, e)->Ok_0)
    &&& c2 == c.insert(k, M::spec_merge(T::spec_decode(c[k])->Some_0, e)->Ok_0.spec_bytes())
}

/// `create_or_update` outcome: an entity was already stored but could not be
/// replaced — its bytes do not decode, or the merge resolver rejected the
/// update — and the store is unchanged.
pub open spec fn cou_rejected<T: ToFromStorage, M: MergeResolver<T>>(
    c: Map<(int, Seq<char>), Seq<u8>>,
    c2: Map<(int, Seq<char>), Seq<u8>>,
    k: (int, Seq<char>),
    e: T,
    r: Result<T, Data>,
) -> bool {
    &&& c.contains_key(k)
    &&& c2 == c
    &&& if T::spec_decode(c[k]) is None {
        r == Err::<T, Data>(Data::Serialization)
    } else {
        M::spec_merge(T::spec_decode(c[k])->Some_0, e) is Err && r == Err::<T, Data>(
            M::spec_merge(T::spec_decode(c[k])->Some_0, e)->Err_0,
        )
    }
}

/// `create_or_update` outcome: the engine itself failed. The attempted write
/// may or may not have been applied; nothing else changed.
pub open spec fn cou_engine_failed<T: ToFromStorage, M: MergeResolver<T>>(
    c: Map<(int, Seq<char>), Seq<u8>>,
    c2: Map<(int, Seq<char>), Seq<u8>>,
    k: (int, Seq<char>),
    e: T,
    r: Result<T, Data>,
) -> bool {
    &&& r matches Err(Data::Sled(_))
    &&& {
        ||| c2 == c
        ||| c2 == c.insert(k, e.spec_bytes())
        ||| (c.contains_key(k) && T::spec_decode(c[k]) is Some && M::spec_merge(
            T::spec_decode(c[k])->Some_0,
            e,
        ) is Ok && c2 == c.insert(
            k,
            M::spec_merge(T::spec_decode(c[k])->Some_0, e)->Ok_0.spec_bytes(),
        ))
    }
}

/// The set of addresses in `c` on shards `0 <= shard < bound` whose primary
/// key starts with `prefix`.
pub open spec fn matching_keys_below(
    c: Map<(int, Seq<char>), Seq<u8>>,
    prefix: Seq<char>,
    bound: int,
) -> Set<(int, Seq<char>)> {
    c.dom().filter(|e: (int, Seq<char>)| 0 <= e.0 < bound && prefix.is_prefix_of(e.1))
}

/// What a completed listing returns: `ks` enumerates each matching address
/// exactly once, in some order the contract leaves open, and `out` holds
/// their decoded payloads in that order.
#[verifier::opaque]
pub open spec fn list_witness<T: ToFromStorage>(
    c: Map<(int, Seq<char>), Seq<u8>>,
    prefix: Seq<char>,
    count: int,
    ks: Seq<(int, Seq<char>)>,
    out: Seq<T>,
) -> bool {
    &&& ks.no_duplicates()
    &&& ks.to_set() == matching_keys_below(c, prefix, count)
    &&& out.len() == ks.len()
    &&& forall|i: int|
        0 <= i < ks.len() ==> c.contains_key(#[trigger] ks[i]) && T::spec_decode(c[ks[i]])
            == Some(out[i])
}

impl Sled {
    /// Relies on `sled::Config::open` with `temporary(true)` and
    /// `sled::Db::open_tree`: a freshly opened temporary database holds no
    /// data, so every tree starts empty.
    #[verifier::external_body]
    fn new_internal() -> (r: Result<Sled, OpeningStorage>)
        ensures
            match r {
                Ok(s) => store_contents(s) == Map::<(int, Seq<char>), Seq<u8>>::empty()
                    && store_shard_count(s) == DEFAULT_NUMBER_OF_SHARDS as int,
                Err(_) => true,
            },
    {
        let db = sled::Config::new().temporary(true).mode(sled::Mode::HighThroughput).open().map_err(
            |e| OpeningStorage { message: format!("failed to open database: {e}") },
        )?;
        let mut shards = Vec::new();
        for shard in 0..DEFAULT_NUMBER_OF_SHARDS {
            match db.open_tree(format!("db-shard-{shard}")) {
                Ok(tree) => shards.push(tree),
                Err(e) => {
                    return Err(
                        OpeningStorage { message: format!("failed to open database trees: {e}") },
                    );
                },
            }
        }
        Ok(Sled { number_of_shards: DEFAULT_NUMBER_OF_SHARDS, shards })
    }

    /// Opens a fresh, empty store with the default number of shards.
    pub fn new() -> (r: Result<Sled, Error>)
        ensures
            r matches Ok(s) ==> store_contents(s) == Map::<(int, Seq<char>), Seq<u8>>::empty()
                && store_shard_count(s) == DEFAULT_NUMBER_OF_SHARDS as int,
    {
        match Self::new_internal() {
            Ok(s) => Ok(s),
            Err(e) => Err(Error::OpeningStorage(e)),
        }
    }

    /// Relies on reading this struct's own shard-count field, which
    /// `new_internal` sets to the number of trees it opened.
    #[verifier::external_body]
    fn shard_count(&self) -> (r: usize)
        ensures
            r as int == store_shard_count(*self),
    {
        self.number_of_shards
    }

    /// The shard the given partition number selects: checked modulo
    /// indexing, always in bounds.
    fn get_shard_index(&self, partition: usize) -> (r: usize)
        requires
            0 < store_shard_count(*self),
        ensures
            r as int == partition as int % store_shard_count(*self),
            (r as int) < store_shard_count(*self),
    {
        let n = self.shard_count();
        partition % n
    }

    /// Relies on `sled::Tree::get`: returns the payload stored under the
    /// key, or `None` when the key is absent.
    #[verifier::external_body]
    fn raw_get(&self, shard: usize, key: &String) -> (r: Result<Option<Vec<u8>>, Data>)
        requires
            (shard as int) < store_shard_count(*self),
        ensures
            match r {
                Ok(Some(v)) => store_contents(*self).contains_key((shard as int, key@)) && v@
                    == store_contents(*self)[(shard as int, key@)],
                Ok(None) => !store_contents(*self).contains_key((shard as int, key@)),
                Err(e) => e is Sled,
            },
    {
        match self.shards[shard].get(key.as_bytes()) {
            Ok(Some(v)) => Ok(Some(v.to_vec())),
            Ok(None) => Ok(None),
            Err(e) => Err(Data::Sled(format!("failed to get data for key {key}: {e}"))),
        }
    }

    /// Relies on `sled::Tree::insert`: sets the key to the payload and
    /// touches no other key. If the engine fails, the write may or may not
    /// have been applied.
    #[verifier::external_body]
    fn raw_insert(&mut self, shard: usize, key: &String, value: Vec<u8>) -> (r: Result<(), Data>)
        requires
            (shard as int) < store_shard_count(*old(self)),
        ensures
            store_shard_count(*final(self)) == store_shard_count(*old(self)),
            match r {
                Ok(_) => store_contents(*final(self)) == store_contents(*old(self)).insert(
                    (shard as int, key@),
                    value@,
                ),
                Err(e) => e is Sled && (store_contents(*final(self)) == store_contents(*old(self))
                    || store_contents(*final(self)) == store_contents(*old(self)).insert(
                    (shard as int, key@),
                    value@,
                )),
            },
    {
        match self.shards[shard].insert(key.as_bytes(), value) {
            Ok(_) => Ok(()),
            Err(e) => Err(Data::Sled(format!("failed to insert data: {e}"))),
        }
    }

    /// Relies on `sled::Tree::compare_and_swap`: replaces the payload only
    /// if the currently stored payload still equals `expected`; otherwise it
    /// reports the conflict and changes nothing. Exclusive access (`&mut`)
    /// rules out concurrent writers between a read and this write. If the
    /// engine fails, the write may or may not have been applied.
    #[verifier::external_body]
    fn raw_cas(&mut self, shard: usize, key: &String, expected: &Vec<u8>, value: Vec<u8>) -> (r:
        Result<(), Data>)
        requires
            (shard as int) < store_shard_count(*old(self)),
        ensures
            store_shard_count(*final(self)) == store_shard_count(*old(self)),
            match r {
                Ok(_) => store_contents(*old(self)).contains_key((shard as int, key@))
                    && store_contents(*old(self))[(shard as int, key@)] == expected@
                    && store_contents(*final(self)) == store_contents(*old(self)).insert(
                    (shard as int, key@),
                    value@,
                ),
                Err(Data::Conflict) => store_contents(*final(self)) == store_contents(*old(self))
                    && !(store_contents(*old(self)).contains_key((shard as int, key@))
                    && store_contents(*old(self))[(shard as int, key@)] == expected@),
                Err(Data::Sled(_)) => store_contents(*final(self)) == store_contents(*old(self))
                    || store_contents(*final(self)) == store_contents(*old(self)).insert(
                    (shard as int, key@),
                    value@,
                ),
                Err(_) => false,
            },
    {
        match self.shards[shard].compare_and_swap(
            key.as_bytes(),
            Some(expected.as_slice()),
            Some(value),
        ) {
            Ok(Ok(())) => Ok(()),
            Ok(Err(_)) => Err(Data::Conflict),
            Err(e) => Err(Data::Sled(format!("sled configuration error: {e}"))),
        }
    }

    /// Relies on `sled::Tree::scan_prefix`: yields every (key, payload) pair
    /// of the shard whose key starts with the prefix, each key exactly once.
    /// All stored keys were written as UTF-8 strings, so each comes back as
    /// one and a byte-level prefix is a character-level prefix.
    #[verifier::external_body]
    fn raw_scan_shard(&self, shard: usize, prefix: &str) -> (r: Result<
        Vec<(String, Vec<u8>)>,
        Data,
    >)
        requires
            (shard as int) < store_shard_count(*self),
        ensures
            match r {
                Ok(v) => (forall|i: int|
                    0 <= i < v@.len() ==> store_contents(*self).contains_key(
                        (shard as int, #[trigger] v@[i].0@),
                    ) && v@[i].1@ == store_contents(*self)[(shard as int, v@[i].0@)]
                        && prefix@.is_prefix_of(v@[i].0@)) && (forall|k: Seq<char>|
                    #[trigger] store_contents(*self).contains_key((shard as int, k))
                        && prefix@.is_prefix_of(k) ==> exists|i: int|
                        0 <= i < v@.len() && #[trigger] v@[i].0@ == k) && (forall|i: int, j: int|
                    0 <= i < j < v@.len() ==> v@[i].0@ != v@[j].0@),
                Err(e) => e is Sled || e is Serialization,
            },
    {
        let mut out = Vec::new();
        for entry in self.shards[shard].scan_prefix(prefix.as_bytes()) {
            match entry {
                Ok((k, v)) => match String::from_utf8(k.to_vec()) {
                    Ok(ks) => out.push((ks, v.to_vec())),
                    Err(_) => return Err(Data::Serialization),
                },
                Err(e) => {
                    return Err(
                        Data::Sled(format!("failed to list keys from prefix {prefix}: {e}")),
                    );
                },
            }
        }
        Ok(out)
    }

    /// Looks an entity up by the primary key of the template `partial`.
    pub fn get<T: ToFromStorage>(&self, partial: &T) -> (r: Result<T, Error>)
        requires
            0 < store_shard_count(*self),
        ensures
            match r {
                Ok(t) => store_contents(*self).contains_key(entity_address(*self, *partial))
                    && T::spec_decode(store_contents(*self)[entity_address(*self, *partial)])
                    == Some(t),
                Err(e) => e matches Error::Data(d) && match d {
                    Data::KeyNotFound(ks) => !store_contents(*self).contains_key(
                        entity_address(*self, *partial),
                    ) && ks@ == partial.spec_key(),
                    Data::Serialization => store_contents(*self).contains_key(
                        entity_address(*self, *partial),
                    ) && T::spec_decode(
                        store_contents(*self)[entity_address(*self, *partial)],
                    ) is None,
                    Data::Sled(_) => true,
                    _ => false,
                },
            },
    {
        match self.get_internal(partial) {
            Ok(t) => Ok(t),
            Err(d) => Err(Error::Data(d)),
        }
    }

    fn get_internal<T: ToFromStorage>(&self, partial: &T) -> (r: Result<T, Data>)
        requires
            0 < store_shard_count(*self),
        ensures
            match r {
                Ok(t) => store_contents(*self).contains_key(entity_address(*self, *partial))
                    && T::spec_decode(store_contents(*self)[entity_address(*self, *partial)])
                    == Some(t),
                Err(d) => match d {
                    Data::KeyNotFound(ks) => !store_contents(*self).contains_key(
                        entity_address(*self, *partial),
                    ) && ks@ == partial.spec_key(),
                    Data::Serialization => store_contents(*self).contains_key(
                        entity_address(*self, *partial),
                    ) && T::spec_decode(
                        store_contents(*self)[entity_address(*self, *partial)],
                    ) is None,
                    Data::Sled(_) => true,
                    _ => false,
                },
            },
    {
        let shard = self.get_shard_index(partial.partition());
        let primary_key = partial.primary_key();
        match self.raw_get(shard, &primary_key) {
            Err(e) => Err(e),
            Ok(None) => Err(Data::KeyNotFound(primary_key)),
            Ok(Some(data)) => T::from_bytes(data.as_slice()),
        }
    }

    /// Creates the entity if its key is free; otherwise decodes the stored
    /// entity, runs the merge resolver `M`, and writes the merged entity
    /// back with a compare-and-swap conditioned on the bytes read. A domain
    /// error of the resolver propagates unchanged and leaves the store as it
    /// was.
    pub fn create_or_update<T: ToFromStorage, M: MergeResolver<T>>(&mut self, entity: &T) -> (r:
        Result<T, Error>)
        requires
            0 < store_shard_count(*old(self)),
        ensures
            store_shard_count(*final(self)) == store_shard_count(*old(self)),
            ({
                let c = store_contents(*old(self));
                let c2 = store_contents(*final(self));
                let k = entity_address(*old(self), *entity);
                match r {
                    Ok(t) => cou_created(c, c2, k, *entity, Ok(t)) || cou_merged::<T, M>(
                        c,
                        c2,
                        k,
                        *entity,
                        Ok(t),
                    ),
                    Err(e) => e matches Error::Data(d) && (cou_rejected::<T, M>(
                        c,
                        c2,
                        k,
                        *entity,
                        Err(d),
                    ) || cou_engine_failed::<T, M>(c, c2, k, *entity, Err(d))),
                }
            }),
    {
        match self.create_or_update_internal::<T, M>(entity) {
            Ok(t) => Ok(t),
            Err(d) => Err(Error::Data(d)),
        }
    }

    fn create_or_update_internal<T: ToFromStorage, M: MergeResolver<T>>(&mut self, entity: &T) -> (r:
        Result<T, Data>)
        requires
            0 < store_shard_count(*old(self)),
        ensures
            store_shard_count(*final(self)) == store_shard_count(*old(self)),
            ({
                let c = store_contents(*old(self));
                let c2 = store_contents(*final(self));
                let k = entity_address(*old(self), *entity);
                cou_created(c, c2, k, *entity, r) || cou_merged::<T, M>(c, c2, k, *entity, r)
                    || cou_rejected::<T, M>(c, c2, k, *entity, r) || cou_engine_failed::<T, M>(
                    c,
                    c2,
                    k,
                    *entity,
                    r,
                )
            }),
    {
        let shard = self.get_shard_index(entity.partition());
        let primary_key = entity.primary_key();
        let existing = match self.raw_get(shard, &primary_key) {
            Ok(x) => x,
            Err(e) => {
                return Err(e);
            },
        };
        let existing = match existing {
            Some(existing) => existing,
            None => {
                let payload = entity.to_bytes();
                match self.raw_insert(shard, &primary_key, payload) {
                    Ok(_) => {
                        return Ok(*entity);
                    },
                    Err(e) => {
                        return Err(e);
                    },
                }
            },
        };
        let decoded_existing = match T::from_bytes(existing.as_slice()) {
            Ok(t) => t,
            Err(e) => {
                return Err(e);
            },
        };
        let new = match M::merge(&decoded_existing, entity) {
            Ok(m) => m,
            Err(e) => {
                return Err(e);
            },
        };
        let payload = new.to_bytes();
        match self.raw_cas(shard, &primary_key, &existing, payload) {
            Ok(_) => Ok(new),
            Err(e) => Err(e),
        }
    }

    /// Lists every entity whose primary key starts with `prefix`, walking
    /// the shards in order; the order of entities in the result is otherwise
    /// unspecified.
    #[verifier::rlimit(50)]
    #[verifier::spinoff_prover]
    pub fn list<T: ToFromStorage>(&self, prefix: &str) -> (r: Result<Vec<T>, Error>)
        requires
            0 < store_shard_count(*self),
        ensures
            r is Ok ==> exists|ks: Seq<(int, Seq<char>)>|
                #[trigger] list_witness::<T>(
                    store_contents(*self),
                    prefix@,
                    store_shard_count(*self),
                    ks,
                    (r->Ok_0)@,
                ),
            r is Err ==> (r->Err_0 matches Error::Data(d) && (d is Sled || d is Serialization)),
    {
        let count = self.shard_count();
        let mut out: Vec<T> = Vec::new();
        let ghost mut ks: Seq<(int, Seq<char>)> = Seq::empty();
        let mut shard: usize = 0;
        proof {
            assert(ks.to_set() =~= matching_keys_below(store_contents(*self), prefix@, 0));
        }
        while shard < count
            invariant
                count as int == store_shard_count(*self),
                0 < count,
                shard <= count,
                ks.no_duplicates(),
                ks.to_set() == matching_keys_below(store_contents(*self), prefix@, shard as int),
                out@.len() == ks.len(),
                forall|i: int|
                    0 <= i < ks.len() ==> store_contents(*self).contains_key(#[trigger] ks[i])
                        && T::spec_decode(store_contents(*self)[ks[i]]) == Some(out@[i]),
                forall|i: int| 0 <= i < ks.len() ==> (#[trigger] ks[i]).0 < shard as int,
            decreases count - shard,
        {
            let entries = match self.raw_scan_shard(shard, prefix) {
                Ok(e) => e,
                Err(d) => {
                    return Err(Error::Data(d));
                },
            };
            let ghost base = ks;
            let mut j: usize = 0;
            while j < entries.len()
                invariant
                    count as int == store_shard_count(*self),
                    (shard as int) < store_shard_count(*self),
                    j <= entries.len(),
                    forall|i: int|
                        0 <= i < entries@.len() ==> store_contents(*self).contains_key(
                            (shard as int, #[trigger] entries@[i].0@),
                        ) && entries@[i].1@ == store_contents(*self)[(
                            shard as int,
                            entries@[i].0@,
                        )] && prefix@.is_prefix_of(entries@[i].0@),
                    forall|i: int, i2: int|
                        0 <= i < i2 < entries@.len() ==> entries@[i].0@ != entries@[i2].0@,
                    ks.len() == base.len() + j,
                    ks.subrange(0, base.len() as int) == base,
                    forall|i: int|
                        0 <= i < j ==> ks[base.len() + i] == (
                            shard as int,
                            #[trigger] entries@[i].0@,
                        ),
                    out@.len() == ks.len(),
                    forall|i: int|
                        0 <= i < ks.len() ==> store_contents(*self).contains_key(#[trigger] ks[i])
                            && T::spec_decode(store_contents(*self)[ks[i]]) == Some(out@[i]),
                    ks.no_duplicates(),
                    forall|i: int| 0 <= i < base.len() ==> (#[trigger] base[i]).0 < shard as int,
                decreases entries.len() - j,
            {
                let item = match T::from_bytes(entries[j].1.as_slice()) {
                    Ok(t) => t,
                    Err(d) => {
                        return Err(Error::Data(d));
                    },
                };
                out.push(item);
                proof {
                    let newk = (shard as int, entries@[j as int].0@);
                    assert forall|i: int| 0 <= i < ks.len() implies ks[i] != newk by {
                        if i < base.len() {
                            assert(ks[i] == base[i]);
                        } else {
                            assert(ks[i] == (shard as int, entries@[i - base.len()].0@));
                            assert(entries@[i - base.len()].0@ != entries@[j as int].0@);
                        }
                    }
                    ks = ks.push(newk);
                }
                j += 1;
            }
            proof {
                let c = store_contents(*self);
                assert(ks.to_set() =~= matching_keys_below(c, prefix@, shard as int + 1)) by {
                    assert forall|e: (int, Seq<char>)| ks.to_set().contains(e) implies
                        matching_keys_below(c, prefix@, shard as int + 1).contains(e) by {
                        let i = choose|i: int| 0 <= i < ks.len() && ks[i] == e;
                        if i < base.len() {
                            assert(base[i] == e);
                            assert(base.to_set().contains(e));
                            assert(matching_keys_below(c, prefix@, shard as int).contains(e));
                        } else {
                            assert(e == (shard as int, entries@[i - base.len()].0@));
                        }
                    }
                    assert forall|e: (int, Seq<char>)|
                        matching_keys_below(c, prefix@, shard as int + 1).contains(e) implies ks
                        .to_set().contains(e) by {
                        if e.0 < shard as int {
                            assert(matching_keys_below(c, prefix@, shard as int).contains(e));
                            assert(base.to_set().contains(e));
                            let i = choose|i: int| 0 <= i < base.len() && base[i] == e;
                            assert(ks[i] == e);
                            assert(ks.contains(e));
                        } else {
                            assert(e.0 == shard as int);
                            assert(c.contains_key((shard as int, e.1))
                                && prefix@.is_prefix_of(e.1));
                            let i = choose|i: int|
                                0 <= i < entries@.len() && entries@[i].0@ == e.1;
                            assert(ks[base.len() + i] == e);
                            assert(ks.contains(e));
                        }
                    }
                }
                assert forall|i: int| 0 <= i < ks.len() implies (#[trigger] ks[i]).0 < shard as int
                    + 1 by {
                    if i < base.len() {
                        assert(ks[i] == ks.subrange(0, base.len() as int)[i]);
                        assert(base[i].0 < shard as int);
                    } else {
                        assert(ks[i] == (shard as int, entries@[i - base.len()].0@));
                    }
                }
            }
            shard = shard + 1;
        }
        proof {
            reveal(list_witness);
            assert(list_witness::<T>(
                store_contents(*self),
                prefix@,
                store_shard_count(*self),
                ks,
                out@,
            ));
        }
        let ghost out_snap: Seq<T> = out@;
        let result: Result<Vec<T>, Error> = Ok(out);
        proof {
            assert((result->Ok_0)@ == out_snap);
            assert(list_witness::<T>(
                store_contents(*self),
                prefix@,
                store_shard_count(*self),
                ks,
                (result->Ok_0)@,
            ));
        }
        result
    }
}

} // verus!
