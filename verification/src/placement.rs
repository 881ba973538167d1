//! Placement of keys on volumes: shards, and replicas chosen by highest random weight.
use vstd::prelude::*;
use crate::error::Error;
use crate::hash::{clone_strings, hrw_order, select_replicas, shard_key, shard_of, strings_view, ConsistentHashRing, placed};
use crate::metadata::VolumeMetadata;
use crate::utils::NodeState;

verus! {

/// The ids of the healthy volumes, in order.
pub open spec fn healthy_ids(vs: Seq<VolumeMetadata>) -> Seq<Seq<char>>
    decreases vs.len(),
{
    if vs.len() == 0 {
        Seq::empty()
    } else {
        let rest = healthy_ids(vs.drop_last());
        if vs.last().state == NodeState::Alive {
            rest.push(vs.last().volume_id@)
        } else {
            rest
        }
    }
}

/// The ids of the healthy volumes.
pub fn healthy_volume_ids(volumes: &[VolumeMetadata]) -> (r: Vec<String>)
    ensures
        strings_view(r@) == healthy_ids(volumes@),
{
    let mut out: Vec<String> = Vec::new();
    let mut i: usize = 0;
    while i < volumes.len()
        invariant
            i <= volumes@.len(),
            strings_view(out@) == healthy_ids(volumes@.subrange(0, i as int)),
        decreases volumes@.len() - i,
    {
        proof {
            assert(volumes@.subrange(0, i as int + 1).drop_last() =~= volumes@.subrange(0, i as int));
        }
        if volumes[i].state.is_healthy() {
            out.push(volumes[i].volume_id.clone());
        }
        proof {
            assert(strings_view(out@) =~= healthy_ids(volumes@.subrange(0, i as int + 1)));
        }
        i = i + 1;
    }
    proof { assert(volumes@.subrange(0, volumes@.len() as int) =~= volumes@); }
    out
}

/// Chooses the volumes of keys: shards on a hash ring, replicas by highest random weight.
pub struct PlacementManager {
    ring: ConsistentHashRing,
    replicas: usize,
    num_shards: u64,
}

impl PlacementManager {
    /// The ring has as many shards as the manager.
    pub closed spec fn wf(&self) -> bool {
        self.ring.shards() == self.num_shards
    }

    /// The number of replicas of each key.
    pub closed spec fn replica_count(&self) -> usize {
        self.replicas
    }

    /// The number of shards.
    pub closed spec fn shard_count(&self) -> u64 {
        self.num_shards
    }

    /// The assignment of shards to volumes.
    pub closed spec fn assignment(&self) -> Map<u64, Seq<Seq<char>>> {
        self.ring.assignment()
    }

    /// A manager of `num_shards` shards, none assigned, with `replicas` replicas per key.
    pub fn new(num_shards: u64, replicas: usize) -> (r: PlacementManager)
        ensures
            r.wf(),
            r.replica_count() == replicas,
            r.shard_count() == num_shards,
            r.assignment() == Map::<u64, Seq<Seq<char>>>::empty(),
    {
        PlacementManager { ring: ConsistentHashRing::new(num_shards), replicas, num_shards }
    }

    /// The volumes for `key`: the `replicas` heaviest healthy volumes for it, or an error
    /// when no volume is healthy or fewer than `replicas` are.
    pub fn select_volumes(&self, key: &str, volumes: &[VolumeMetadata]) -> (r: Result<Vec<String>, Error>)
        ensures
            ({
                let healthy = healthy_ids(volumes@);
                if healthy.len() == 0 {
                    r == Err::<Vec<String>, Error>(Error::NoHealthyVolumes)
                } else if healthy.len() < self.replica_count() {
                    r == Err::<Vec<String>, Error>(Error::InsufficientReplicas {
                        needed: self.replica_count(),
                        available: healthy.len() as usize,
                    })
                } else {
                    r is Ok && strings_view(r->Ok_0@) == hrw_order(key@, healthy).take(self.replica_count() as int)
                }
            }),
    {
        if volumes.len() == 0 {
            proof { assert(healthy_ids(volumes@) =~= Seq::<Seq<char>>::empty()); }
            return Err(Error::NoHealthyVolumes);
        }
        let healthy = healthy_volume_ids(volumes);
        if healthy.len() == 0 {
            return Err(Error::NoHealthyVolumes);
        }
        let selected = select_replicas(key, healthy.as_slice(), self.replicas);
        proof {
            let hv = strings_view(healthy@);
            crate::hash::lemma_hrw_order_len(key@, hv);
            assert(hv.len() == healthy@.len());
            assert(strings_view(selected@).len() == selected@.len());
            let m = if self.replicas < hv.len() { self.replicas as int } else { hv.len() as int };
            assert(hrw_order(key@, hv).take(m).len() == m);
        }
        if selected.len() < self.replicas {
            return Err(Error::InsufficientReplicas { needed: self.replicas, available: selected.len() });
        }
        Ok(selected)
    }

    /// The shard of `key`.
    pub fn get_shard(&self, key: &str) -> (r: u64)
        requires
            self.shard_count() > 0,
        ensures
            r == shard_of(key@, self.shard_count()),
    {
        shard_key(key, self.num_shards)
    }

    /// Reassigns every shard to replicas among the healthy volumes.
    pub fn rebalance(&mut self, volumes: &[VolumeMetadata])
        requires
            old(self).wf(),
        ensures
            final(self).wf(),
            final(self).replica_count() == old(self).replica_count(),
            final(self).shard_count() == old(self).shard_count(),
            forall|s: u64| s < old(self).shard_count() ==> #[trigger] placed(final(self).assignment(), s,
                healthy_ids(volumes@), old(self).replica_count()),
            forall|s: u64| s >= old(self).shard_count() ==> (#[trigger] final(self).assignment().contains_key(s)
                == old(self).assignment().contains_key(s))
                && (old(self).assignment().contains_key(s) ==> final(self).assignment()[s] == old(self).assignment()[s]),
    {
        let available = healthy_volume_ids(volumes);
        self.ring.rebalance(available.as_slice(), self.replicas);
    }

    /// The volumes of `shard`, if it is assigned.
    pub fn get_shard_volumes(&self, shard: u64) -> (r: Option<Vec<String>>)
        ensures
            match r {
                Some(v) => self.assignment().contains_key(shard) && strings_view(v@) == self.assignment()[shard],
                None => !self.assignment().contains_key(shard),
            },
    {
        match self.ring.get_shard_nodes(shard) {
            Some(nodes) => Some(clone_strings(nodes)),
            None => None,
        }
    }
}

} // verus!
