use vstd::prelude::*;
use crate::model::{
    Action, ActionModel, ActualState, AddressPool, DesiredState, DnsRecord, Member, MemberModel,
    RecordModel, actions_model,
};

verus! {

/// The address lies in the inclusive range of the pool.
pub open spec fn pool_holds(p: AddressPool, a: u32) -> bool {
    p.range_start <= a && a <= p.range_end
}

/// The address lies in at least one pool.
pub open spec fn in_any_pool(pools: Seq<AddressPool>, a: u32) -> bool {
    exists|i: int| 0 <= i < pools.len() && pool_holds(pools[i], a)
}

/// Some member carries this name.
pub open spec fn is_member(ms: Seq<MemberModel>, name: Seq<char>) -> bool {
    exists|i: int| 0 <= i < ms.len() && ms[i].name == name
}

/// Index `i` holds the first record with this label.
pub open spec fn first_label_at(rs: Seq<RecordModel>, label: Seq<char>, i: int) -> bool {
    &&& 0 <= i < rs.len()
    &&& rs[i].label == label
    &&& forall|j: int| 0 <= j < i ==> rs[j].label != label
}

/// The first record with this label, if any.
pub open spec fn lookup(rs: Seq<RecordModel>, label: Seq<char>) -> Option<RecordModel> {
    if exists|i: int| first_label_at(rs, label, i) {
        Some(rs[choose|i: int| first_label_at(rs, label, i)])
    } else {
        None
    }
}

/// What the create/update pass emits for one member.
pub open spec fn member_step(rs: Seq<RecordModel>, m: MemberModel) -> Option<ActionModel> {
    match lookup(rs, m.name) {
        None => Some(ActionModel::Create { label: m.name, address: m.address }),
        Some(r) => if r.address != m.address {
            Some(ActionModel::Update { handle: r.handle, label: m.name, address: m.address })
        } else {
            None
        },
    }
}

/// What the delete pass emits for one record: a delete only for a record that
/// no member claims and whose address lies in a managed pool.
pub open spec fn record_step(
    ms: Seq<MemberModel>,
    pools: Seq<AddressPool>,
    r: RecordModel,
) -> Option<ActionModel> {
    if !is_member(ms, r.label) && in_any_pool(pools, r.address) {
        Some(ActionModel::Delete { handle: r.handle })
    } else {
        None
    }
}

/// The create/update pass, in member order.
pub open spec fn member_actions(ms: Seq<MemberModel>, rs: Seq<RecordModel>) -> Seq<ActionModel> {
    ms.filter_map(|m: MemberModel| member_step(rs, m))
}

/// The delete pass, in record order.
pub open spec fn delete_actions(
    ms: Seq<MemberModel>,
    pools: Seq<AddressPool>,
    rs: Seq<RecordModel>,
) -> Seq<ActionModel> {
    rs.filter_map(|r: RecordModel| record_step(ms, pools, r))
}

/// The actions that bring the zone to the desired state: the create/update
/// pass followed by the delete pass.
pub open spec fn reconcile_model(
    ms: Seq<MemberModel>,
    pools: Seq<AddressPool>,
    rs: Seq<RecordModel>,
) -> Seq<ActionModel> {
    member_actions(ms, rs) + delete_actions(ms, pools, rs)
}

/// Whether some pool holds the address; a malformed pool holds nothing.
pub fn address_in_pools(pools: &Vec<AddressPool>, address: u32) -> (r: bool)
    ensures
        r == in_any_pool(pools@, address),
{
    let mut i: usize = 0;
    while i < pools.len()
        invariant
            i <= pools.len(),
            forall|k: int| 0 <= k < i ==> !pool_holds(pools@[k], address),
        decreases pools.len() - i,
    {
        let p = pools[i];
        if p.range_start <= address && address <= p.range_end {
            assert(pool_holds(pools@[i as int], address));
            return true;
        }
        i += 1;
    }
    false
}

/// Whether some member carries the name.
pub fn has_member(members: &Vec<Member>, name: &String) -> (r: bool)
    ensures
        r == is_member(members@.map_values(|m: Member| m@), name@),
{
    let ghost ms = members@.map_values(|m: Member| m@);
    let mut i: usize = 0;
    while i < members.len()
        invariant
            i <= members.len(),
            ms == members@.map_values(|m: Member| m@),
            forall|k: int| 0 <= k < i ==> ms[k].name != name@,
        decreases members.len() - i,
    {
        if members[i].name == *name {
            assert(ms[i as int].name == name@);
            return true;
        }
        i += 1;
    }
    false
}

/// The position of the first record with this label, if any.
pub fn find_record(records: &Vec<DnsRecord>, label: &String) -> (r: Option<usize>)
    ensures
        match r {
            Some(i) => first_label_at(records@.map_values(|x: DnsRecord| x@), label@, i as int),
            None => lookup(records@.map_values(|x: DnsRecord| x@), label@) is None,
        },
        match r {
            Some(i) => lookup(records@.map_values(|x: DnsRecord| x@), label@) == Some(
                records@[i as int]@,
            ),
            None => true,
        },
{
    let ghost rs = records@.map_values(|x: DnsRecord| x@);
    let mut i: usize = 0;
    while i < records.len()
        invariant
            i <= records.len(),
            rs == records@.map_values(|x: DnsRecord| x@),
            forall|k: int| 0 <= k < i ==> rs[k].label != label@,
        decreases records.len() - i,
    {
        if records[i].label == *label {
            proof {
                assert(first_label_at(rs, label@, i as int));
                let c = choose|c: int| first_label_at(rs, label@, c);
                assert(c == i as int) by {
                    if c < i as int {
                        assert(rs[c].label != label@);
                    }
                    if c > i as int {
                        assert(rs[i as int].label != label@);
                    }
                }
            }
            return Some(i);
        }
        i += 1;
    }
    proof {
        false_lookup(rs, label@);
    }
    None
}

proof fn false_lookup(rs: Seq<RecordModel>, label: Seq<char>)
    requires
        forall|k: int| 0 <= k < rs.len() ==> rs[k].label != label,
    ensures
        lookup(rs, label) is None,
{
}

/// Derives the actions that bring the zone's A records to the desired state:
/// a create for each member without a record, an update for each member whose
/// record holds another address, then a delete for each record that no member
/// claims and whose address lies in a pool. Records outside every pool are
/// never touched; with no pools nothing is deleted.
pub fn reconcile(desired: &DesiredState, actual: &ActualState) -> (r: Vec<Action>)
    ensures
        actions_model(r@) == reconcile_model(desired@.members, desired@.pools, actual@),
        forall|i: int|
            0 <= i < r@.len() && (#[trigger] r@[i]) is Delete ==> exists|j: int|
                0 <= j < actual@.len() && actual@[j].handle == r@[i]@->Delete_handle
                    && in_any_pool(desired@.pools, actual@[j].address) && !is_member(
                    desired@.members,
                    actual@[j].label,
                ),
        desired@.pools.len() == 0 ==> forall|i: int|
            0 <= i < r@.len() ==> !(#[trigger] r@[i] is Delete),
{
    let ghost ms = desired@.members;
    let ghost pools = desired@.pools;
    let ghost rs = actual@;
    let ghost fm = |m: MemberModel| member_step(rs, m);
    let ghost fr = |x: RecordModel| record_step(ms, pools, x);
    let mut out: Vec<Action> = Vec::new();
    let mut i: usize = 0;
    while i < desired.members.len()
        invariant
            i <= desired.members.len(),
            ms == desired@.members,
            rs == actual@,
            fm == (|m: MemberModel| member_step(rs, m)),
            actions_model(out@) == ms.take(i as int).filter_map(fm),
        decreases desired.members.len() - i,
    {
        let m = &desired.members[i];
        proof {
            ms.lemma_filter_map_take_succ(fm, i as int);
        }
        match find_record(&actual.records, &m.name) {
            None => {
                out.push(Action::Create { label: m.name.clone(), address: m.address });
                assert(actions_model(out@) =~= ms.take(i + 1).filter_map(fm));
            },
            Some(j) => {
                let rec = &actual.records[j];
                if rec.address != m.address {
                    out.push(
                        Action::Update {
                            handle: rec.handle.clone(),
                            label: m.name.clone(),
                            address: m.address,
                        },
                    );
                    assert(actions_model(out@) =~= ms.take(i + 1).filter_map(fm));
                } else {
                    assert(actions_model(out@) =~= ms.take(i + 1).filter_map(fm));
                }
            },
        }
        i += 1;
    }
    assert(ms.take(ms.len() as int) =~= ms);
    let ghost first = actions_model(out@);
    let mut k: usize = 0;
    while k < actual.records.len()
        invariant
            k <= actual.records.len(),
            ms == desired@.members,
            pools == desired@.pools,
            rs == actual@,
            fr == (|x: RecordModel| record_step(ms, pools, x)),
            first == member_actions(ms, rs),
            actions_model(out@) == first + rs.take(k as int).filter_map(fr),
        decreases actual.records.len() - k,
    {
        let rec = &actual.records[k];
        proof {
            rs.lemma_filter_map_take_succ(fr, k as int);
        }
        assert(rs[k as int] == rec@);
        let claimed = has_member(&desired.members, &rec.label);
        let pooled = address_in_pools(&desired.pools, rec.address);
        let ghost prev = rs.take(k as int).filter_map(fr);
        assert(rs.take(k + 1).filter_map(fr) == prev + match fr(rs[k as int]) {
            Some(a) => seq![a],
            None => Seq::empty(),
        });
        if !claimed && pooled {
            let ghost before = out@;
            out.push(Action::Delete { handle: rec.handle.clone() });
            assert(actions_model(out@) =~= actions_model(before) + seq![out@.last()@]);
            assert(fr(rs[k as int]) == Some(out@.last()@));
            assert(actions_model(out@) =~= first + (prev + seq![out@.last()@]));
        } else {
            assert(actions_model(out@) =~= first + prev);
        }
        assert(actions_model(out@) =~= first + rs.take(k + 1).filter_map(fr));
        k += 1;
    }
    assert(rs.take(rs.len() as int) =~= rs);
    proof {
        lemma_reconcile_deletes(ms, pools, rs);
        assert forall|i: int| 0 <= i < out@.len() && (#[trigger] out@[i]) is Delete implies exists|
            j: int,
        |
            0 <= j < rs.len() && rs[j].handle == out@[i]@->Delete_handle && in_any_pool(
                pools,
                rs[j].address,
            ) && !is_member(ms, rs[j].label) by {
            assert(actions_model(out@)[i] == out@[i]@);
        }
    }
    out
}

/// Every delete that reconciliation emits names the handle of a record that no
/// member claims and whose address lies in a pool; with no pools there is no
/// delete at all.
pub proof fn lemma_reconcile_deletes(
    ms: Seq<MemberModel>,
    pools: Seq<AddressPool>,
    rs: Seq<RecordModel>,
)
    ensures
        forall|i: int|
            0 <= i < reconcile_model(ms, pools, rs).len() && (#[trigger] reconcile_model(
                ms,
                pools,
                rs,
            )[i]) is Delete ==> exists|j: int|
                0 <= j < rs.len() && rs[j].handle == reconcile_model(ms, pools, rs)[i]->Delete_handle
                    && in_any_pool(pools, rs[j].address) && !is_member(ms, rs[j].label),
        pools.len() == 0 ==> forall|i: int|
            0 <= i < reconcile_model(ms, pools, rs).len() ==> !(#[trigger] reconcile_model(
                ms,
                pools,
                rs,
            )[i] is Delete),
{
    let fm = |m: MemberModel| member_step(rs, m);
    let fr = |x: RecordModel| record_step(ms, pools, x);
    let acts = reconcile_model(ms, pools, rs);
    let a1 = member_actions(ms, rs);
    let a2 = delete_actions(ms, pools, rs);
    assert forall|i: int| 0 <= i < acts.len() && (#[trigger] acts[i]) is Delete implies exists|
        j: int,
    |
        0 <= j < rs.len() && rs[j].handle == acts[i]->Delete_handle && in_any_pool(
            pools,
            rs[j].address,
        ) && !is_member(ms, rs[j].label) by {
        if i < a1.len() {
            assert(a1.contains(acts[i]));
            ms.lemma_filter_map_contains(fm, acts[i]);
        } else {
            assert(acts[i] == a2[i - a1.len()]);
            assert(a2.contains(acts[i]));
            rs.lemma_filter_map_contains(fr, acts[i]);
            let t = choose|t: RecordModel| rs.contains(t) && fr(t) == Some(acts[i]);
            let j = choose|j: int| 0 <= j < rs.len() && rs[j] == t;
            assert(rs[j].handle == acts[i]->Delete_handle);
        }
    }
}

/// A label that some record carries has a first record.
pub proof fn lemma_first_label(rs: Seq<RecordModel>, l: Seq<char>, j: int)
    requires
        0 <= j < rs.len(),
        rs[j].label == l,
    ensures
        lookup(rs, l) is Some,
    decreases j,
{
    if exists|k: int| 0 <= k < j && rs[k].label == l {
        let k = choose|k: int| 0 <= k < j && rs[k].label == l;
        lemma_first_label(rs, l, k);
    } else {
        assert(first_label_at(rs, l, j));
    }
}

} // verus!
