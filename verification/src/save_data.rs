//! The store: the in-memory collection of all groups for one profile.
//!
//! The store owns the ordered group list that presentation code reads,
//! and every membership change produces a typed event for registered
//! listeners.  The embedding application performs the file work around
//! each operation: it reads the `groups/` directory and hands the file
//! contents to [`SaveData::new`], writes a group's document before
//! committing [`SaveData::new_group`], and deletes the file around
//! [`SaveData::delete_group`].  A write is committed to memory only
//! after it succeeded on disk, so a failed write leaves the list as it
//! was.

use vstd::prelude::*;

use crate::group::{wf_group, Group, GroupV};
use crate::groupdoc::parse_group_doc;
use crate::DataError;

verus! {

/// What happened to the group collection.
#[derive(Clone, Copy, Debug, PartialEq, Eq, Structural)]
pub enum ChangeKind {
    Added,
    Removed,
    Changed,
}

/// One change notification: which group, and how it changed.
#[derive(Clone, Copy, Debug, PartialEq, Eq, Structural)]
pub struct GroupEvent {
    pub kind: ChangeKind,
    pub group_id: u128,
}

/// The views of a sequence of groups.
pub open spec fn groups_view(v: Seq<Group>) -> Seq<GroupV> {
    v.map_values(|g: Group| g@)
}

pub proof fn lemma_groups_view_push(v: Seq<Group>, g: Group)
    ensures
        groups_view(v.push(g)) == groups_view(v).push(g@),
{
    assert forall|i: int| 0 <= i < v.len() + 1 implies #[trigger] groups_view(v.push(g))[i]
        == groups_view(v).push(g@)[i] by {
        if i < v.len() {
            assert(v.push(g)[i] == v[i]);
        } else {
            assert(v.push(g)[i] == g);
        }
    }
    assert(groups_view(v.push(g)) =~= groups_view(v).push(g@));
}

pub proof fn lemma_groups_view_remove(v: Seq<Group>, k: int)
    requires
        0 <= k < v.len(),
    ensures
        groups_view(v.remove(k)) == groups_view(v).remove(k),
{
    assert forall|i: int| 0 <= i < v.len() - 1 implies #[trigger] groups_view(v.remove(k))[i]
        == groups_view(v).remove(k)[i] by {
        if i < k {
            assert(v.remove(k)[i] == v[i]);
        } else {
            assert(v.remove(k)[i] == v[i + 1]);
        }
    }
    assert(groups_view(v.remove(k)) =~= groups_view(v).remove(k));
}

/// Position of the first group with the given id, or the length of the
/// sequence if there is none.
pub open spec fn first_group_idx(gs: Seq<GroupV>, id: u128) -> int
    decreases gs.len(),
{
    if gs.len() == 0 {
        0
    } else if gs[0].id == id {
        0
    } else {
        1 + first_group_idx(gs.skip(1), id)
    }
}

pub proof fn lemma_first_group_idx_is(gs: Seq<GroupV>, id: u128, j: int)
    requires
        0 <= j <= gs.len(),
        forall|k: int| 0 <= k < j ==> (#[trigger] gs[k]).id != id,
        j == gs.len() || gs[j].id == id,
    ensures
        first_group_idx(gs, id) == j,
    decreases gs.len(),
{
    if gs.len() > 0 {
        if j == 0 && gs[0].id == id {
        } else {
            assert(gs[0].id != id);
            assert forall|k: int| 0 <= k < j - 1 implies (#[trigger] gs.skip(1)[k]).id != id by {
                assert(gs.skip(1)[k] == gs[k + 1]);
            }
            if j < gs.len() {
                assert(gs.skip(1)[j - 1] == gs[j]);
            }
            lemma_first_group_idx_is(gs.skip(1), id, j - 1);
        }
    }
}

/// The in-memory and on-disk collection of all groups.
#[derive(Debug)]
pub struct SaveData {
    pub groups: Vec<Group>,
}

impl View for SaveData {
    type V = Seq<GroupV>;

    open spec fn view(&self) -> Seq<GroupV> {
        groups_view(self.groups@)
    }
}

impl SaveData {
    pub open spec fn wf(self) -> bool {
        forall|k: int| 0 <= k < self@.len() ==> wf_group(#[trigger] self@[k])
    }

    /// Builds the store from the contents of the group files, in
    /// directory enumeration order.  Every file must hold one group
    /// document; the first malformed one aborts the load, and no
    /// partial group list is handed out.
    pub fn new(contents: &Vec<String>) -> (res: Result<SaveData, DataError>)
        ensures
            match res {
                Ok(sd) => sd.wf() && sd@.len() == contents@.len() && (forall|k: int|
                    0 <= k < contents@.len() ==> parse_group_doc(#[trigger] contents@[k]@) == Some(
                        sd@[k],
                    )),
                Err(e) => e == DataError::ParseError && (exists|k: int|
                    0 <= k < contents@.len() && parse_group_doc(#[trigger] contents@[k]@) is None),
            },
    {
        let mut groups: Vec<Group> = Vec::new();
        let n = contents.len();
        let mut k: usize = 0;
        proof {
            assert(groups_view(groups@) =~= Seq::<GroupV>::empty());
        }
        while k < n
            invariant
                k <= n,
                n == contents@.len(),
                groups_view(groups@).len() == k,
                forall|j: int|
                    0 <= j < k ==> parse_group_doc(#[trigger] contents@[j]@) == Some(
                        groups_view(groups@)[j],
                    ),
                forall|j: int| 0 <= j < k ==> wf_group(#[trigger] groups_view(groups@)[j]),
            decreases n - k,
        {
            let ghost gvold = groups@;
            match Group::from_json(contents[k].as_str()) {
                Ok(g) => {
                    proof {
                        lemma_groups_view_push(gvold, g);
                    }
                    groups.push(g);
                },
                Err(_) => {
                    return Err(DataError::ParseError);
                },
            }
            k = k + 1;
        }
        Ok(SaveData { groups })
    }

    /// The ordered group collection, for presentation code to read.
    pub fn groups(&self) -> (r: &Vec<Group>)
        ensures
            r@ == self.groups@,
    {
        &self.groups
    }

    /// Looks a group up by id: the first match in order, if any.
    pub fn find_group(&self, group_id: u128) -> (r: Option<&Group>)
        ensures
            match r {
                Some(g) => first_group_idx(self@, group_id) < self@.len() && g@ == self@[
                    first_group_idx(self@, group_id)
                ],
                None => first_group_idx(self@, group_id) == self@.len(),
            },
    {
        let ghost gs = self@;
        let n = self.groups.len();
        let mut k: usize = 0;
        while k < n
            invariant
                k <= n,
                n == self.groups@.len(),
                gs == self@,
                gs.len() == n,
                forall|j: int| 0 <= j < k ==> (#[trigger] gs[j]).id != group_id,
            decreases n - k,
        {
            if self.groups[k].id == group_id {
                proof {
                    lemma_first_group_idx_is(gs, group_id, k as int);
                }
                return Some(&self.groups[k]);
            }
            k = k + 1;
        }
        proof {
            lemma_first_group_idx_is(gs, group_id, n as int);
        }
        None
    }

    /// Commits a new group to the collection, appending it at the end,
    /// and reports the membership change.  The caller writes the
    /// group's file first and commits only a successful write.
    pub fn new_group(&mut self, group: Group) -> (ev: GroupEvent)
        requires
            old(self).wf(),
            group.wf(),
        ensures
            final(self).wf(),
            final(self)@ == old(self)@.push(group@),
            ev == (GroupEvent { kind: ChangeKind::Added, group_id: group.id }),
    {
        let id = group.id;
        let ghost vold = self.groups@;
        self.groups.push(group);
        proof {
            lemma_groups_view_push(vold, group);
            assert forall|j: int| 0 <= j < self@.len() implies wf_group(#[trigger] self@[j]) by {
                if j < old(self)@.len() {
                    assert(self@[j] == old(self)@[j]);
                } else {
                    assert(self@[j] == group@);
                }
            }
        }
        GroupEvent { kind: ChangeKind::Added, group_id: id }
    }

    /// Replaces the tracked group that shares the given group's id
    /// after its fields or transactions changed, and reports a content
    /// change.  An id no group carries is reported and changes nothing.
    /// The caller writes the group's file first and commits only a
    /// successful write.
    pub fn save_group(&mut self, group: Group) -> (res: Result<GroupEvent, DataError>)
        requires
            old(self).wf(),
            group.wf(),
        ensures
            final(self).wf(),
            match res {
                Ok(ev) => {
                    &&& first_group_idx(old(self)@, group.id) < old(self)@.len()
                    &&& final(self)@ == old(self)@.update(
                        first_group_idx(old(self)@, group.id),
                        group@,
                    )
                    &&& ev == (GroupEvent { kind: ChangeKind::Changed, group_id: group.id })
                },
                Err(e) => {
                    &&& e == DataError::NotFoundError
                    &&& first_group_idx(old(self)@, group.id) == old(self)@.len()
                    &&& final(self)@ == old(self)@
                },
            },
    {
        let ghost gs = self@;
        let id = group.id;
        let n = self.groups.len();
        let mut k: usize = 0;
        while k < n
            invariant
                k <= n,
                *self == *old(self),
                old(self).wf(),
                group.wf(),
                id == group.id,
                n == self.groups@.len(),
                gs == self@,
                gs.len() == n,
                forall|j: int| 0 <= j < k ==> (#[trigger] gs[j]).id != id,
            decreases n - k,
        {
            if self.groups[k].id == id {
                proof {
                    lemma_first_group_idx_is(gs, id, k as int);
                }
                self.groups[k] = group;
                proof {
                    assert(groups_view(self.groups@) =~= gs.update(k as int, group@));
                    assert forall|j: int| 0 <= j < self@.len() implies wf_group(
                        #[trigger] self@[j],
                    ) by {
                        if j != k {
                            assert(self@[j] == gs[j]);
                        }
                    }
                }
                return Ok(GroupEvent { kind: ChangeKind::Changed, group_id: id });
            }
            k = k + 1;
        }
        proof {
            lemma_first_group_idx_is(gs, id, n as int);
        }
        Err(DataError::NotFoundError)
    }

    /// Removes the first group with the given id from the collection
    /// and reports the membership change; the relative order of the
    /// remaining groups is unchanged.  An absent id is reported and
    /// changes nothing.  The caller deletes the group's file alongside.
    pub fn delete_group(&mut self, group_id: u128) -> (res: Result<(Group, GroupEvent), DataError>)
        requires
            old(self).wf(),
        ensures
            final(self).wf(),
            match res {
                Ok(p) => {
                    &&& first_group_idx(old(self)@, group_id) < old(self)@.len()
                    &&& p.0@ == old(self)@[first_group_idx(old(self)@, group_id)]
                    &&& final(self)@ == old(self)@.remove(first_group_idx(old(self)@, group_id))
                    &&& p.1 == (GroupEvent { kind: ChangeKind::Removed, group_id })
                },
                Err(e) => {
                    &&& e == DataError::NotFoundError
                    &&& first_group_idx(old(self)@, group_id) == old(self)@.len()
                    &&& final(self)@ == old(self)@
                },
            },
    {
        let ghost gs = self@;
        let n = self.groups.len();
        let mut k: usize = 0;
        while k < n
            invariant
                k <= n,
                *self == *old(self),
                old(self).wf(),
                n == self.groups@.len(),
                gs == self@,
                gs.len() == n,
                forall|j: int| 0 <= j < k ==> (#[trigger] gs[j]).id != group_id,
            decreases n - k,
        {
            if self.groups[k].id == group_id {
                proof {
                    lemma_first_group_idx_is(gs, group_id, k as int);
                }
                let ghost vold = self.groups@;
                let removed = self.groups.remove(k);
                proof {
                    lemma_groups_view_remove(vold, k as int);
                    assert forall|j: int| 0 <= j < self@.len() implies wf_group(
                        #[trigger] self@[j],
                    ) by {
                        let j0 = if j < k {
                            j
                        } else {
                            j + 1
                        };
                        assert(0 <= j0 < gs.len());
                        assert(self@[j] == gs[j0]);
                        assert(wf_group(gs[j0]));
                    }
                }
                return Ok((removed, GroupEvent { kind: ChangeKind::Removed, group_id }));
            }
            k = k + 1;
        }
        proof {
            lemma_first_group_idx_is(gs, group_id, n as int);
        }
        Err(DataError::NotFoundError)
    }
}

} // verus!
