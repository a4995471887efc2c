//! Consumer groups: who reads which partition, and how far each partition
//! has been read.
//!
//! The partitions of a topic, in ascending order of their ids, are dealt
//! out to the members of a group, in ascending order of theirs, round and
//! round. The assignment is recomputed from the members on every question,
//! so it depends on nothing but who the members are and how many
//! partitions there are.

use crate::error::IggyError;
use vstd::prelude::*;

verus! {

/// Whether the ids stand in strictly ascending order.
pub open spec fn is_ascending(ids: Seq<u32>) -> bool {
    forall|i: int, j: int| 0 <= i < j < ids.len() ==> ids[i] < ids[j]
}

/// The member that reads partition `partition_id` (counted from 1) when
/// `members` are the group's members in ascending order; none when the
/// group is empty.
pub open spec fn assigned_member(members: Seq<u32>, partition_id: u32) -> Option<u32> {
    if members.len() == 0 || partition_id == 0 {
        None
    } else {
        Some(members[(partition_id - 1) % (members.len() as int)])
    }
}

/// The ids held by an ascending sequence determine the sequence.
pub proof fn lemma_ascending_is_determined(first: Seq<u32>, second: Seq<u32>)
    requires
        is_ascending(first),
        is_ascending(second),
        first.to_set() == second.to_set(),
    ensures
        first == second,
    decreases first.len(),
{
    if first.len() == 0 {
        if second.len() > 0 {
            assert(second.to_set().contains(second[0]));
            assert(first.to_set().contains(second[0]));
        }
        assert(first =~= second);
    } else {
        let top = first.last();
        assert(first.to_set().contains(top));
        assert(second.to_set().contains(top));
        assert(second.len() > 0);
        let other_top = second.last();
        assert(second.to_set().contains(other_top));
        assert(first.to_set().contains(other_top));
        assert(top == other_top);
        let first_rest = first.drop_last();
        let second_rest = second.drop_last();
        assert forall|id: u32| first_rest.to_set().contains(id) == second_rest.to_set().contains(
            id,
        ) by {
            if first_rest.to_set().contains(id) {
                let i = choose|i: int| 0 <= i < first_rest.len() && first_rest[i] == id;
                assert(first[i] == id);
                assert(id < top);
                assert(first.to_set().contains(id));
                assert(second.to_set().contains(id));
                let j = choose|j: int| 0 <= j < second.len() && second[j] == id;
                assert(j < second.len() - 1);
                assert(second_rest[j] == id);
            }
            if second_rest.to_set().contains(id) {
                let j = choose|j: int| 0 <= j < second_rest.len() && second_rest[j] == id;
                assert(second[j] == id);
                assert(id < top);
                assert(second.to_set().contains(id));
                assert(first.to_set().contains(id));
                let i = choose|i: int| 0 <= i < first.len() && first[i] == id;
                assert(i < first.len() - 1);
                assert(first_rest[i] == id);
            }
        }
        assert(first_rest.to_set() =~= second_rest.to_set());
        lemma_ascending_is_determined(first_rest, second_rest);
        assert(first =~= first_rest.push(top));
        assert(second =~= second_rest.push(top));
    }
}

/// Rebalancing is deterministic: two coordinators that hold the same
/// members assign every partition to the same member, however the members
/// came and went.
pub proof fn lemma_rebalance_is_deterministic(
    first: Seq<u32>,
    second: Seq<u32>,
    partition_id: u32,
)
    requires
        is_ascending(first),
        is_ascending(second),
        first.to_set() == second.to_set(),
    ensures
        assigned_member(first, partition_id) == assigned_member(second, partition_id),
{
    lemma_ascending_is_determined(first, second);
}

} // verus!

verus! {

/// The coordinator's record of one group.
#[derive(Debug)]
pub struct ConsumerGroup {
    group_id: u32,
    partitions_count: u32,
    members: Vec<u32>,
    committed: Vec<Option<u64>>,
}

impl ConsumerGroup {
    /// The group's id.
    pub closed spec fn id(&self) -> u32 {
        self.group_id
    }

    /// The number of partitions of the group's topic.
    pub closed spec fn partitions(&self) -> u32 {
        self.partitions_count
    }

    /// The group's members, in ascending order.
    pub closed spec fn members(&self) -> Seq<u32> {
        self.members@
    }

    /// The offset committed for each partition, the first partition's
    /// first; none where nothing was committed yet.
    pub closed spec fn committed(&self) -> Seq<Option<u64>> {
        self.committed@
    }

    /// The member that reads partition `partition_id`.
    pub open spec fn member_of(&self, partition_id: u32) -> Option<u32> {
        if 1 <= partition_id <= self.partitions() {
            assigned_member(self.members(), partition_id)
        } else {
            None
        }
    }

    #[verifier::type_invariant]
    spec fn well_formed(self) -> bool {
        is_ascending(self.members@) && self.committed@.len() == self.partitions_count
    }

    /// A group without members on a topic of `partitions_count` partitions,
    /// with nothing committed.
    pub fn new(group_id: u32, partitions_count: u32) -> (group: ConsumerGroup)
        ensures
            group.id() == group_id,
            group.partitions() == partitions_count,
            group.members() == Seq::<u32>::empty(),
            group.committed() == Seq::new(partitions_count as nat, |i: int| None::<u64>),
    {
        let mut committed: Vec<Option<u64>> = Vec::new();
        let mut made: u32 = 0;
        while made < partitions_count
            invariant
                made <= partitions_count,
                committed@ == Seq::new(made as nat, |i: int| None::<u64>),
            decreases partitions_count - made,
        {
            committed.push(None);
            made = made + 1;
            assert(committed@ =~= Seq::new(made as nat, |i: int| None::<u64>));
        }
        ConsumerGroup { group_id, partitions_count, members: Vec::new(), committed }
    }

    /// Returns the number of partitions of the group's topic. The group
    /// keeps one committed offset, or none, for each of them, and its
    /// members in ascending order.
    pub fn partitions_count(&self) -> (count: u32)
        ensures
            count == self.partitions(),
            self.committed().len() == count,
            is_ascending(self.members()),
    {
        proof {
            use_type_invariant(self);
        }
        self.partitions_count
    }

    /// Adds a member. Returns whether it was new; the assignment then
    /// follows from the new set of members.
    pub fn join(&mut self, member_id: u32) -> (joined: bool)
        ensures
            joined == !old(self).members().contains(member_id),
            is_ascending(final(self).members()),
            final(self).members().to_set() == old(self).members().to_set().insert(member_id),
            final(self).id() == old(self).id(),
            final(self).partitions() == old(self).partitions(),
            final(self).committed() == old(self).committed(),
    {
        proof {
            use_type_invariant(&*self);
        }
        let ghost before = self.members@;
        let mut position: usize = 0;
        while position < self.members.len() && self.members[position] < member_id
            invariant
                position <= self.members.len(),
                self.members@ == before,
                is_ascending(before),
                forall|i: int| 0 <= i < position ==> before[i] < member_id,
            decreases self.members.len() - position,
        {
            position = position + 1;
        }
        if position < self.members.len() && self.members[position] == member_id {
            proof {
                assert(before.contains(member_id));
                assert(before.to_set().insert(member_id) =~= before.to_set());
            }
            return false;
        }
        let mut members: Vec<u32> = Vec::new();
        core::mem::swap(&mut self.members, &mut members);
        members.insert(position, member_id);
        core::mem::swap(&mut self.members, &mut members);
        proof {
            let after = self.members@;
            assert forall|i: int, j: int| 0 <= i < j < after.len() implies after[i] < after[j] by {
                if i < position && j > position {
                    assert(after[i] == before[i]);
                    assert(after[j] == before[j - 1]);
                } else if i == position {
                    assert(after[j] == before[j - 1]);
                    assert(before[position as int] <= before[j - 1]);
                }
            }
            assert(!before.contains(member_id)) by {
                if before.contains(member_id) {
                    let i = choose|i: int| 0 <= i < before.len() && before[i] == member_id;
                    if i > position {
                        assert(before[position as int] < before[i]);
                    }
                }
            }
            assert forall|id: u32| after.to_set().contains(id) == before.to_set().insert(
                member_id,
            ).contains(id) by {
                if after.to_set().contains(id) {
                    let i = choose|i: int| 0 <= i < after.len() && after[i] == id;
                    if i < position {
                        assert(before[i] == id);
                    } else if i > position {
                        assert(before[i - 1] == id);
                    }
                }
                if before.to_set().contains(id) {
                    let i = choose|i: int| 0 <= i < before.len() && before[i] == id;
                    if i < position {
                        assert(after[i] == id);
                    } else {
                        assert(after[i + 1] == id);
                    }
                }
                if id == member_id {
                    assert(after[position as int] == id);
                }
            }
            assert(after.to_set() =~= before.to_set().insert(member_id));
        }
        true
    }

    /// Removes a member. Returns whether it was one; the assignment then
    /// follows from the members that are left.
    pub fn leave(&mut self, member_id: u32) -> (left: bool)
        ensures
            left == old(self).members().contains(member_id),
            is_ascending(final(self).members()),
            final(self).members().to_set() == old(self).members().to_set().remove(member_id),
            final(self).id() == old(self).id(),
            final(self).partitions() == old(self).partitions(),
            final(self).committed() == old(self).committed(),
    {
        proof {
            use_type_invariant(&*self);
        }
        let ghost before = self.members@;
        let mut position: usize = 0;
        while position < self.members.len() && self.members[position] != member_id
            invariant
                position <= self.members.len(),
                self.members@ == before,
                forall|i: int| 0 <= i < position ==> before[i] != member_id,
            decreases self.members.len() - position,
        {
            position = position + 1;
        }
        if position == self.members.len() {
            proof {
                assert(before.to_set().remove(member_id) =~= before.to_set());
            }
            return false;
        }
        let mut members: Vec<u32> = Vec::new();
        core::mem::swap(&mut self.members, &mut members);
        members.remove(position);
        core::mem::swap(&mut self.members, &mut members);
        proof {
            let after = self.members@;
            assert forall|i: int, j: int| 0 <= i < j < after.len() implies after[i] < after[j] by {
                let from_i = if i < position { i } else { i + 1 };
                let from_j = if j < position { j } else { j + 1 };
                assert(after[i] == before[from_i]);
                assert(after[j] == before[from_j]);
            }
            assert forall|id: u32| after.to_set().contains(id) == before.to_set().remove(
                member_id,
            ).contains(id) by {
                if after.to_set().contains(id) {
                    let i = choose|i: int| 0 <= i < after.len() && after[i] == id;
                    let from = if i < position { i } else { i + 1 };
                    assert(before[from] == id);
                    if from < position {
                        assert(before[from] < before[position as int]);
                    } else {
                        assert(before[position as int] < before[from]);
                    }
                }
                if before.to_set().contains(id) && id != member_id {
                    let i = choose|i: int| 0 <= i < before.len() && before[i] == id;
                    if i < position {
                        assert(after[i] == id);
                    } else {
                        assert(after[i - 1] == id);
                    }
                }
            }
            assert(after.to_set() =~= before.to_set().remove(member_id));
        }
        true
    }

    /// Returns the member that reads partition `partition_id`: none when
    /// the group has no members or the topic has no such partition.
    pub fn get_assigned_member(&self, partition_id: u32) -> (member: Option<u32>)
        ensures
            member == self.member_of(partition_id),
    {
        if partition_id < 1 || partition_id > self.partitions_count || self.members.len() == 0 {
            None
        } else {
            let index = (partition_id - 1) as usize % self.members.len();
            Some(self.members[index])
        }
    }

    /// Returns the partitions that `member_id` reads, in ascending order.
    pub fn get_assigned_partitions(&self, member_id: u32) -> (partitions: Vec<u32>)
        ensures
            is_ascending(partitions@),
            forall|partition_id: u32|
                partitions@.contains(partition_id) <==> self.member_of(partition_id) == Some(
                    member_id,
                ),
    {
        let mut partitions: Vec<u32> = Vec::new();
        let mut seen: u32 = 0;
        while seen < self.partitions_count
            invariant
                seen <= self.partitions_count,
                is_ascending(partitions@),
                forall|i: int| 0 <= i < partitions@.len() ==> 1 <= #[trigger] partitions@[i] <= seen,
                forall|partition_id: u32|
                    partitions@.contains(partition_id) <==> (partition_id <= seen
                        && self.member_of(partition_id) == Some(member_id)),
            decreases self.partitions_count - seen,
        {
            let partition_id = seen + 1;
            let ghost before = partitions@;
            if self.get_assigned_member(partition_id) == Some(member_id) {
                partitions.push(partition_id);
                proof {
                    let after = partitions@;
                    assert forall|other: u32| after.contains(other) <==> (other <= partition_id
                        && self.member_of(other) == Some(member_id)) by {
                        if after.contains(other) {
                            let i = choose|i: int| 0 <= i < after.len() && after[i] == other;
                            if i < before.len() {
                                assert(before[i] == other);
                                assert(before.contains(other));
                            }
                        }
                        if other <= partition_id && self.member_of(other) == Some(member_id) {
                            if other == partition_id {
                                assert(after[after.len() - 1] == other);
                            } else {
                                assert(before.contains(other));
                                let i = choose|i: int| 0 <= i < before.len() && before[i] == other;
                                assert(after[i] == other);
                            }
                        }
                    }
                }
            }
            seen = partition_id;
        }
        partitions
    }

    /// Returns the offset committed for a partition.
    pub fn get_committed_offset(&self, partition_id: u32) -> (result: Result<u64, IggyError>)
        ensures
            result == if !(1 <= partition_id <= self.partitions()) {
                Err::<u64, IggyError>(IggyError::PartitionNotFound)
            } else {
                match self.committed()[partition_id - 1] {
                    Some(offset) => Ok::<u64, IggyError>(offset),
                    None => Err::<u64, IggyError>(IggyError::ConsumerOffsetNotFound),
                }
            },
    {
        proof {
            use_type_invariant(self);
        }
        if partition_id < 1 || partition_id > self.partitions_count {
            return Err(IggyError::PartitionNotFound);
        }
        match self.committed[(partition_id - 1) as usize] {
            Some(offset) => Ok(offset),
            None => Err(IggyError::ConsumerOffsetNotFound),
        }
    }

    /// Records that the group has read a partition up to and including
    /// `offset`.
    pub fn commit(&mut self, partition_id: u32, offset: u64) -> (result: Result<(), IggyError>)
        ensures
            final(self).id() == old(self).id(),
            final(self).partitions() == old(self).partitions(),
            final(self).members() == old(self).members(),
            1 <= partition_id <= old(self).partitions() ==> result is Ok
                && final(self).committed() == old(self).committed().update(
                partition_id - 1,
                Some(offset),
            ),
            !(1 <= partition_id <= old(self).partitions()) ==> result == Err::<(), IggyError>(
                IggyError::PartitionNotFound,
            ) && final(self).committed() == old(self).committed(),
    {
        proof {
            use_type_invariant(&*self);
        }
        if partition_id < 1 || partition_id > self.partitions_count {
            return Err(IggyError::PartitionNotFound);
        }
        self.committed[(partition_id - 1) as usize] = Some(offset);
        Ok(())
    }
}

} // verus!
