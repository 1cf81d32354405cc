use vstd::prelude::*;
use crate::engine::is_member;
use crate::model::{AddressPool, DesiredState, Member, MemberModel, names_unique};

verus! {

/// A member as the network controller lists it: its name and the addresses
/// assigned to it, of which the first is the one its record points at.
#[derive(Clone, Debug, PartialEq, Eq)]
pub struct MemberEntry {
    pub name: String,
    pub addresses: Vec<u32>,
}

/// The member that a listing entry stands for; an entry with no address has
/// none.
pub open spec fn entry_member(e: MemberEntry) -> Option<MemberModel> {
    if e.addresses@.len() > 0 {
        Some(MemberModel { name: e.name@, address: e.addresses@[0] })
    } else {
        None
    }
}

/// Adds a member, replacing the one with the same name if there is one.
pub open spec fn upsert_member(ms: Seq<MemberModel>, m: MemberModel) -> Seq<MemberModel> {
    if is_member(ms, m.name) {
        ms.update(choose|i: int| 0 <= i < ms.len() && ms[i].name == m.name, m)
    } else {
        ms.push(m)
    }
}

/// The members of a listing, in order of first appearance, each name with the
/// address of its last entry.
pub open spec fn listed_members(es: Seq<MemberEntry>) -> Seq<MemberModel>
    decreases es.len(),
{
    if es.len() == 0 {
        Seq::empty()
    } else {
        let rest = listed_members(es.drop_last());
        match entry_member(es.last()) {
            Some(m) => upsert_member(rest, m),
            None => rest,
        }
    }
}

/// The position of the member with this name, if any.
pub fn find_member(members: &Vec<Member>, name: &String) -> (r: Option<usize>)
    ensures
        match r {
            Some(i) => i < members@.len() && members@[i as int].name@ == name@,
            None => !is_member(members@.map_values(|m: Member| m@), name@),
        },
{
    let ghost ms = members@.map_values(|m: Member| m@);
    let mut i: usize = 0;
    while i < members.len()
        invariant
            i <= members.len(),
            ms == members@.map_values(|m: Member| m@),
            forall|k: int| 0 <= k < i ==> ms[k].name != name@,
        decreases members.len() - i,
    {
        if members[i].name == *name {
            return Some(i);
        }
        i += 1;
    }
    None
}

/// Builds the desired state from the controller's member listing and the
/// network's pools: a member for each name with an address, names unique, a
/// later entry with a name replacing an earlier one.
pub fn desired_from_listing(entries: &Vec<MemberEntry>, pools: Vec<AddressPool>) -> (d:
    DesiredState)
    ensures
        d@.members == listed_members(entries@),
        d@.pools == pools@,
        d.wf(),
{
    let mut out: Vec<Member> = Vec::new();
    let mut i: usize = 0;
    while i < entries.len()
        invariant
            i <= entries.len(),
            out@.map_values(|m: Member| m@) == listed_members(entries@.take(i as int)),
            names_unique(out@.map_values(|m: Member| m@)),
        decreases entries.len() - i,
    {
        let e = &entries[i];
        let ghost prev = out@.map_values(|m: Member| m@);
        assert(entries@.take(i + 1).drop_last() =~= entries@.take(i as int));
        assert(entries@.take(i + 1).last() == entries@[i as int]);
        if e.addresses.len() > 0 {
            let m = Member { name: e.name.clone(), address: e.addresses[0] };
            match find_member(&out, &m.name) {
                Some(j) => {
                    proof {
                        assert(prev[j as int].name == m@.name);
                        let c = choose|c: int| 0 <= c < prev.len() && prev[c].name == m@.name;
                        assert(c == j);
                    }
                    out[j] = m;
                    proof {
                        assert(out@.map_values(|x: Member| x@) =~= prev.update(j as int, m@));
                    }
                },
                None => {
                    out.push(m);
                    proof {
                        assert(out@.map_values(|x: Member| x@) =~= prev.push(m@));
                    }
                },
            }
        }
        i += 1;
    }
    assert(entries@.take(entries@.len() as int) =~= entries@);
    DesiredState { members: out, pools }
}

} // verus!
