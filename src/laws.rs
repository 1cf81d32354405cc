use vstd::prelude::*;
use crate::engine::{
    lemma_first_label,
    delete_actions, first_label_at, in_any_pool, is_member, lookup, member_actions, member_step,
    reconcile_model, record_step,
};
use crate::model::{
    ActionModel, AddressPool, MemberModel, RecordModel, handles_unique, labels_unique, names_unique,
};

verus! {

broadcast use vstd::seq_lib::group_seq_properties;

/// The batch holds a delete of this handle.
pub open spec fn deletes_handle(acts: Seq<ActionModel>, h: Seq<char>) -> bool {
    exists|i: int| 0 <= i < acts.len() && acts[i] == (ActionModel::Delete { handle: h })
}

/// Index `i` of the batch is an update of this handle.
pub open spec fn update_at(acts: Seq<ActionModel>, h: Seq<char>, i: int) -> bool {
    0 <= i < acts.len() && acts[i] is Update && acts[i]->Update_handle == h
}

/// What a batch of actions leaves of an existing record: nothing where it is
/// deleted, the new label and address where it is updated, else the record.
pub open spec fn surviving(acts: Seq<ActionModel>, r: RecordModel) -> Option<RecordModel> {
    if deletes_handle(acts, r.handle) {
        None
    } else if exists|i: int| update_at(acts, r.handle, i) {
        let u = acts[choose|i: int| update_at(acts, r.handle, i)];
        Some(RecordModel { label: u->Update_label, address: u->Update_address, handle: r.handle })
    } else {
        Some(r)
    }
}

/// The record that a create adds, under the handle the provider issues for it.
pub open spec fn created(issued: spec_fn(Seq<char>) -> Seq<char>, a: ActionModel) -> Option<
    RecordModel,
> {
    match a {
        ActionModel::Create { label, address } => Some(
            RecordModel { label, address, handle: issued(label) },
        ),
        _ => None,
    }
}

/// The zone after applying a batch of actions, each to the record its handle
/// names, with the created records after the existing ones.
pub open spec fn apply_actions(
    rs: Seq<RecordModel>,
    acts: Seq<ActionModel>,
    issued: spec_fn(Seq<char>) -> Seq<char>,
) -> Seq<RecordModel> {
    rs.filter_map(|r: RecordModel| surviving(acts, r)) + acts.filter_map(
        |a: ActionModel| created(issued, a),
    )
}

/// Each member has a record with its address, every record with a member's
/// label holds that member's address, and every record that no member claims
/// lies outside the pools.
pub open spec fn in_sync(ms: Seq<MemberModel>, pools: Seq<AddressPool>, rs: Seq<RecordModel>) -> bool {
    &&& forall|i: int|
        0 <= i < ms.len() ==> exists|j: int|
            0 <= j < rs.len() && rs[j].label == (#[trigger] ms[i]).name && rs[j].address
                == ms[i].address
    &&& forall|i: int, j: int|
        0 <= i < ms.len() && 0 <= j < rs.len() && (#[trigger] rs[j]).label == (#[trigger] ms[i]).name
            ==> rs[j].address == ms[i].address
    &&& forall|j: int|
        0 <= j < rs.len() && !is_member(ms, (#[trigger] rs[j]).label) ==> !in_any_pool(
            pools,
            rs[j].address,
        )
}

proof fn lemma_filter_map_has<A, B>(s: Seq<A>, f: spec_fn(A) -> Option<B>, t: A, e: B)
    requires
        s.contains(t),
        f(t) == Some(e),
    ensures
        s.filter_map(f).contains(e),
    decreases s.len(),
{
    let rest = s.drop_last();
    if s.last() == t {
        assert(s.filter_map(f) == rest.filter_map(f) + seq![e]);
        assert(s.filter_map(f)[rest.filter_map(f).len() as int] == e);
    } else {
        let k = choose|k: int| 0 <= k < s.len() && s[k] == t;
        assert(rest[k] == t);
        lemma_filter_map_has(rest, f, t, e);
        let fr = rest.filter_map(f);
        let k2 = choose|k2: int| 0 <= k2 < fr.len() && fr[k2] == e;
        match f(s.last()) {
            Some(x) => {
                assert(s.filter_map(f) == fr + seq![x]);
                assert(s.filter_map(f)[k2] == e);
            },
            None => {},
        }
    }
}

proof fn lemma_filter_map_none<A, B>(s: Seq<A>, f: spec_fn(A) -> Option<B>)
    requires
        forall|k: int| 0 <= k < s.len() ==> f(#[trigger] s[k]) is None,
    ensures
        s.filter_map(f) == Seq::<B>::empty(),
    decreases s.len(),
{
    if s.len() > 0 {
        let rest = s.drop_last();
        assert forall|k: int| 0 <= k < rest.len() implies f(#[trigger] rest[k]) is None by {
            assert(rest[k] == s[k]);
        }
        lemma_filter_map_none(rest, f);
        assert(f(s[s.len() - 1]) is None);
    }
}

/// With unique labels, the lookup of a record's label finds that record.
proof fn lemma_lookup_unique(rs: Seq<RecordModel>, j: int)
    requires
        labels_unique(rs),
        0 <= j < rs.len(),
    ensures
        lookup(rs, rs[j].label) == Some(rs[j]),
{
    assert(first_label_at(rs, rs[j].label, j));
    let c = choose|c: int| first_label_at(rs, rs[j].label, c);
    assert(rs[c].label == rs[j].label);
}

/// A found record sits in the list under the label looked up.
proof fn lemma_lookup_found(rs: Seq<RecordModel>, l: Seq<char>)
    requires
        lookup(rs, l) is Some,
    ensures
        exists|c: int| 0 <= c < rs.len() && rs[c] == lookup(rs, l)->Some_0 && rs[c].label == l,
{
    let c = choose|c: int| first_label_at(rs, l, c);
    assert(rs[c] == lookup(rs, l)->Some_0);
}

/// The label that a create or an update writes.
pub open spec fn written_label(a: ActionModel) -> Seq<char> {
    match a {
        ActionModel::Create { label, .. } => label,
        ActionModel::Update { label, .. } => label,
        ActionModel::Delete { .. } => Seq::empty(),
    }
}

proof fn lemma_filter_map_keys<A, B, K>(
    s: Seq<A>,
    f: spec_fn(A) -> Option<B>,
    ka: spec_fn(A) -> K,
    kb: spec_fn(B) -> K,
)
    requires
        forall|i: int, j: int|
            0 <= i < s.len() && 0 <= j < s.len() && f(s[i]) is Some && f(s[j]) is Some && ka(
                #[trigger] s[i],
            ) == ka(#[trigger] s[j]) ==> i == j,
        forall|i: int| 0 <= i < s.len() && f(#[trigger] s[i]) is Some ==> kb(f(s[i])->Some_0) == ka(s[i]),
    ensures
        forall|i: int, j: int|
            0 <= i < s.filter_map(f).len() && 0 <= j < s.filter_map(f).len() && kb(
                #[trigger] s.filter_map(f)[i],
            ) == kb(#[trigger] s.filter_map(f)[j]) ==> i == j,
    decreases s.len(),
{
    if s.len() > 0 {
        let rest = s.drop_last();
        assert forall|i: int, j: int|
            0 <= i < rest.len() && 0 <= j < rest.len() && f(rest[i]) is Some && f(rest[j]) is Some
                && ka(#[trigger] rest[i]) == ka(#[trigger] rest[j]) implies i == j by {
            assert(rest[i] == s[i] && rest[j] == s[j]);
        }
        assert forall|i: int| 0 <= i < rest.len() && f(#[trigger] rest[i]) is Some implies kb(
            f(rest[i])->Some_0,
        ) == ka(rest[i]) by {
            assert(rest[i] == s[i]);
        }
        lemma_filter_map_keys(rest, f, ka, kb);
        let ro = rest.filter_map(f);
        match f(s.last()) {
            Some(b) => {
                let out = s.filter_map(f);
                assert(out == ro + seq![b]);
                assert forall|i: int| 0 <= i < ro.len() implies kb(#[trigger] ro[i]) != kb(b) by {
                    assert(ro.contains(ro[i]));
                    rest.lemma_filter_map_contains(f, ro[i]);
                    let t = choose|t: A| rest.contains(t) && f(t) == Some(ro[i]);
                    let k = choose|k: int| 0 <= k < rest.len() && rest[k] == t;
                    assert(s[k] == t);
                    assert(kb(ro[i]) == ka(s[k]));
                    assert(f(s[s.len() - 1]) is Some);
                    if kb(ro[i]) == kb(b) {
                        assert(ka(s[k]) == ka(s[s.len() - 1]));
                    }
                }
                assert forall|i: int, j: int|
                    0 <= i < out.len() && 0 <= j < out.len() && kb(#[trigger] out[i]) == kb(
                        #[trigger] out[j],
                    ) implies i == j by {
                    if i < ro.len() && j < ro.len() {
                        assert(out[i] == ro[i] && out[j] == ro[j]);
                    } else if i < ro.len() {
                        assert(out[i] == ro[i]);
                    } else if j < ro.len() {
                        assert(out[j] == ro[j]);
                    }
                }
            },
            None => {},
        }
    }
}

/// Where each action of a reconciliation comes from.
proof fn lemma_action_origin(
    ms: Seq<MemberModel>,
    pools: Seq<AddressPool>,
    rs: Seq<RecordModel>,
    a: ActionModel,
)
    requires
        reconcile_model(ms, pools, rs).contains(a),
    ensures
        match a {
            ActionModel::Create { label, address } => lookup(rs, label) is None && exists|i: int|
                0 <= i < ms.len() && ms[i].name == label && ms[i].address == address,
            ActionModel::Update { handle, label, address } => exists|i: int, c: int|
                0 <= i < ms.len() && ms[i].name == label && ms[i].address == address && 0 <= c
                    < rs.len() && rs[c].label == label && rs[c].handle == handle,
            ActionModel::Delete { handle } => exists|j: int|
                0 <= j < rs.len() && rs[j].handle == handle && !is_member(ms, rs[j].label)
                    && in_any_pool(pools, rs[j].address),
        },
{
    let fm = |m: MemberModel| member_step(rs, m);
    let fr = |x: RecordModel| record_step(ms, pools, x);
    let a1 = member_actions(ms, rs);
    let a2 = delete_actions(ms, pools, rs);
    assert((a1 + a2).contains(a));
    if a1.contains(a) {
        ms.lemma_filter_map_contains(fm, a);
        let t = choose|t: MemberModel| ms.contains(t) && fm(t) == Some(a);
        let i = choose|i: int| 0 <= i < ms.len() && ms[i] == t;
        if lookup(rs, t.name) is Some {
            lemma_lookup_found(rs, t.name);
        }
    } else {
        rs.lemma_filter_map_contains(fr, a);
        let t = choose|t: RecordModel| rs.contains(t) && fr(t) == Some(a);
        let j = choose|j: int| 0 <= j < rs.len() && rs[j] == t;
    }
}

/// A member's step, where it emits an action, is in the reconciliation.
proof fn lemma_member_emits(
    ms: Seq<MemberModel>,
    pools: Seq<AddressPool>,
    rs: Seq<RecordModel>,
    i: int,
)
    requires
        0 <= i < ms.len(),
        member_step(rs, ms[i]) is Some,
    ensures
        reconcile_model(ms, pools, rs).contains(member_step(rs, ms[i])->Some_0),
{
    let fm = |m: MemberModel| member_step(rs, m);
    let e = member_step(rs, ms[i])->Some_0;
    assert(ms.contains(ms[i]));
    lemma_filter_map_has(ms, fm, ms[i], e);
    let a1 = member_actions(ms, rs);
    let k = choose|k: int| 0 <= k < a1.len() && a1[k] == e;
    assert(reconcile_model(ms, pools, rs)[k] == e);
}

/// A record's step, where it emits a delete, is in the reconciliation.
proof fn lemma_record_emits(
    ms: Seq<MemberModel>,
    pools: Seq<AddressPool>,
    rs: Seq<RecordModel>,
    j: int,
)
    requires
        0 <= j < rs.len(),
        record_step(ms, pools, rs[j]) is Some,
    ensures
        reconcile_model(ms, pools, rs).contains(record_step(ms, pools, rs[j])->Some_0),
{
    let fr = |x: RecordModel| record_step(ms, pools, x);
    let e = record_step(ms, pools, rs[j])->Some_0;
    assert(rs.contains(rs[j]));
    lemma_filter_map_has(rs, fr, rs[j], e);
    let a1 = member_actions(ms, rs);
    let a2 = delete_actions(ms, pools, rs);
    let k = choose|k: int| 0 <= k < a2.len() && a2[k] == e;
    assert(reconcile_model(ms, pools, rs)[a1.len() + k] == e);
}

/// A zone in sync with the desired state needs no action: reconciliation
/// returns an empty list.
pub proof fn lemma_in_sync_needs_nothing(
    ms: Seq<MemberModel>,
    pools: Seq<AddressPool>,
    rs: Seq<RecordModel>,
)
    requires
        in_sync(ms, pools, rs),
    ensures
        reconcile_model(ms, pools, rs) == Seq::<ActionModel>::empty(),
{
    let fm = |m: MemberModel| member_step(rs, m);
    let fr = |x: RecordModel| record_step(ms, pools, x);
    assert forall|k: int| 0 <= k < ms.len() implies fm(#[trigger] ms[k]) is None by {
        let j = choose|j: int|
            0 <= j < rs.len() && rs[j].label == ms[k].name && rs[j].address == ms[k].address;
        lemma_first_label(rs, ms[k].name, j);
        lemma_lookup_found(rs, ms[k].name);
        let c = choose|c: int|
            0 <= c < rs.len() && rs[c] == lookup(rs, ms[k].name)->Some_0 && rs[c].label
                == ms[k].name;
        assert(rs[c].address == ms[k].address);
    }
    assert forall|k: int| 0 <= k < rs.len() implies fr(#[trigger] rs[k]) is None by {
        if !is_member(ms, rs[k].label) {
            assert(!in_any_pool(pools, rs[k].address));
        }
    }
    lemma_filter_map_none(ms, fm);
    lemma_filter_map_none(rs, fr);
    assert(reconcile_model(ms, pools, rs) =~= Seq::<ActionModel>::empty());
}

/// An update of a record's handle in a reconciliation carries the label and
/// address of the member that owns that record.
proof fn lemma_update_of_record(
    ms: Seq<MemberModel>,
    pools: Seq<AddressPool>,
    rs: Seq<RecordModel>,
    c: int,
    u: int,
)
    requires
        names_unique(ms),
        labels_unique(rs),
        handles_unique(rs),
        0 <= c < rs.len(),
        update_at(reconcile_model(ms, pools, rs), rs[c].handle, u),
    ensures
        exists|i: int|
            0 <= i < ms.len() && ms[i].name == rs[c].label
                && reconcile_model(ms, pools, rs)[u]->Update_label == ms[i].name
                && reconcile_model(ms, pools, rs)[u]->Update_address == ms[i].address
                && member_step(rs, ms[i]) == Some(reconcile_model(ms, pools, rs)[u]),
{
    let acts = reconcile_model(ms, pools, rs);
    let a = acts[u];
    assert(acts.contains(a));
    lemma_action_origin(ms, pools, rs, a);
    let (i, c2) = choose|i: int, c2: int|
        0 <= i < ms.len() && ms[i].name == a->Update_label && ms[i].address == a->Update_address
            && 0 <= c2 < rs.len() && rs[c2].label == a->Update_label && rs[c2].handle
            == a->Update_handle;
    assert(c2 == c);
    lemma_lookup_unique(rs, c);
    if member_step(rs, ms[i]) != Some(a) {
        // the step of member i is an update of record c, which must be `a`
        let fm = |m: MemberModel| member_step(rs, m);
        let a1 = member_actions(ms, rs);
        let a2 = delete_actions(ms, pools, rs);
        if a1.contains(a) {
            ms.lemma_filter_map_contains(fm, a);
            let t = choose|t: MemberModel| ms.contains(t) && fm(t) == Some(a);
            let i2 = choose|i2: int| 0 <= i2 < ms.len() && ms[i2] == t;
            lemma_lookup_found(rs, t.name);
            assert(i2 == i);
        } else {
            assert((a1 + a2).contains(a));
            rs.lemma_filter_map_contains(|x: RecordModel| record_step(ms, pools, x), a);
        }
    }
}

/// Applying a reconciliation keeps labels unique.
proof fn lemma_apply_labels_unique(
    ms: Seq<MemberModel>,
    pools: Seq<AddressPool>,
    rs: Seq<RecordModel>,
    issued: spec_fn(Seq<char>) -> Seq<char>,
)
    requires
        names_unique(ms),
        labels_unique(rs),
        handles_unique(rs),
    ensures
        labels_unique(apply_actions(rs, reconcile_model(ms, pools, rs), issued)),
{
    let acts = reconcile_model(ms, pools, rs);
    let fs = |r: RecordModel| surviving(acts, r);
    let fc = |a: ActionModel| created(issued, a);
    let fm = |m: MemberModel| member_step(rs, m);
    let fr = |x: RecordModel| record_step(ms, pools, x);
    let lab = |r: RecordModel| r.label;
    let s1 = rs.filter_map(fs);
    let s2 = acts.filter_map(fc);
    let s = apply_actions(rs, acts, issued);
    assert(s == s1 + s2);
    // survivors keep their labels
    assert forall|c: int| 0 <= c < rs.len() && fs(#[trigger] rs[c]) is Some implies lab(
        fs(rs[c])->Some_0,
    ) == lab(rs[c]) by {
        if !deletes_handle(acts, rs[c].handle) && exists|u: int| update_at(acts, rs[c].handle, u) {
            let u = choose|u: int| update_at(acts, rs[c].handle, u);
            lemma_update_of_record(ms, pools, rs, c, u);
        }
    }
    lemma_filter_map_keys(rs, fs, lab, lab);
    // creates are unique by label
    let a1 = member_actions(ms, rs);
    let a2 = delete_actions(ms, pools, rs);
    let nm = |m: MemberModel| m.name;
    assert forall|i: int| 0 <= i < ms.len() && fm(#[trigger] ms[i]) is Some implies written_label(
        fm(ms[i])->Some_0,
    ) == nm(ms[i]) by {}
    lemma_filter_map_keys(ms, fm, nm, |a: ActionModel| written_label(a));
    assert forall|k: int| 0 <= k < a2.len() implies (#[trigger] a2[k]) is Delete by {
        assert(a2.contains(a2[k]));
        rs.lemma_filter_map_contains(fr, a2[k]);
    }
    let cl = |a: ActionModel| written_label(a);
    assert forall|i: int, j: int|
        0 <= i < acts.len() && 0 <= j < acts.len() && fc(acts[i]) is Some && fc(acts[j]) is Some
            && cl(#[trigger] acts[i]) == cl(#[trigger] acts[j]) implies i == j by {
        if i >= a1.len() {
            assert(acts[i] == a2[i - a1.len()]);
        }
        if j >= a1.len() {
            assert(acts[j] == a2[j - a1.len()]);
        }
        assert(acts[i] == a1[i] && acts[j] == a1[j]);
    }
    assert forall|i: int| 0 <= i < acts.len() && fc(#[trigger] acts[i]) is Some implies lab(
        fc(acts[i])->Some_0,
    ) == cl(acts[i]) by {}
    lemma_filter_map_keys(acts, fc, cl, lab);
    // a created label has no earlier record
    assert forall|i: int, j: int| 0 <= i < s1.len() && 0 <= j < s2.len() implies (#[trigger] s1[i]).label
        != (#[trigger] s2[j]).label by {
        assert(s1.contains(s1[i]));
        rs.lemma_filter_map_contains(fs, s1[i]);
        let t = choose|t: RecordModel| rs.contains(t) && fs(t) == Some(s1[i]);
        let c = choose|c: int| 0 <= c < rs.len() && rs[c] == t;
        assert(s2.contains(s2[j]));
        acts.lemma_filter_map_contains(fc, s2[j]);
        let a = choose|a: ActionModel| acts.contains(a) && fc(a) == Some(s2[j]);
        lemma_action_origin(ms, pools, rs, a);
        if s1[i].label == s2[j].label {
            lemma_first_label(rs, a->Create_label, c);
        }
    }
    assert forall|i: int, j: int|
        0 <= i < s.len() && 0 <= j < s.len() && s[i].label == s[j].label implies i == j by {
        if i < s1.len() && j < s1.len() {
            assert(s[i] == s1[i] && s[j] == s1[j]);
            assert(lab(s1[i]) == lab(s1[j]));
        } else if i >= s1.len() && j >= s1.len() {
            assert(s[i] == s2[i - s1.len()] && s[j] == s2[j - s1.len()]);
            assert(lab(s2[i - s1.len()]) == lab(s2[j - s1.len()]));
        } else if i < s1.len() {
            assert(s[i] == s1[i] && s[j] == s2[j - s1.len()]);
        } else {
            assert(s[j] == s1[j] && s[i] == s2[i - s1.len()]);
        }
    }
}

/// After applying a reconciliation to a zone with unique labels and handles,
/// the zone is in sync with labels still unique, so that each member has
/// exactly one record and it holds the member's address; and every record
/// that no member claims and that lies outside the pools is still there,
/// unchanged.
pub proof fn lemma_apply_reconcile(
    ms: Seq<MemberModel>,
    pools: Seq<AddressPool>,
    rs: Seq<RecordModel>,
    issued: spec_fn(Seq<char>) -> Seq<char>,
)
    requires
        names_unique(ms),
        labels_unique(rs),
        handles_unique(rs),
    ensures
        in_sync(ms, pools, apply_actions(rs, reconcile_model(ms, pools, rs), issued)),
        labels_unique(apply_actions(rs, reconcile_model(ms, pools, rs), issued)),
        forall|j: int|
            0 <= j < rs.len() && !is_member(ms, (#[trigger] rs[j]).label) && !in_any_pool(
                pools,
                rs[j].address,
            ) ==> apply_actions(rs, reconcile_model(ms, pools, rs), issued).contains(rs[j]),
{
    let acts = reconcile_model(ms, pools, rs);
    let fs = |r: RecordModel| surviving(acts, r);
    let fc = |a: ActionModel| created(issued, a);
    let s1 = rs.filter_map(fs);
    let s2 = acts.filter_map(fc);
    let s = apply_actions(rs, acts, issued);
    assert(s == s1 + s2);
    lemma_apply_labels_unique(ms, pools, rs, issued);
    // a record of a member is never deleted
    assert forall|c: int|
        0 <= c < rs.len() && is_member(ms, (#[trigger] rs[c]).label) implies !deletes_handle(
        acts,
        rs[c].handle,
    ) by {
        if deletes_handle(acts, rs[c].handle) {
            let d = choose|d: int|
                0 <= d < acts.len() && acts[d] == (ActionModel::Delete { handle: rs[c].handle });
            assert(acts.contains(acts[d]));
            lemma_action_origin(ms, pools, rs, acts[d]);
            let j = choose|j: int|
                0 <= j < rs.len() && rs[j].handle == rs[c].handle && !is_member(ms, rs[j].label)
                    && in_any_pool(pools, rs[j].address);
            assert(j == c);
        }
    }
    // each member has its record
    assert forall|i: int| 0 <= i < ms.len() implies exists|j: int|
        0 <= j < s.len() && s[j].label == (#[trigger] ms[i]).name && s[j].address
            == ms[i].address by {
        let m = ms[i];
        if lookup(rs, m.name) is None {
            lemma_member_emits(ms, pools, rs, i);
            let a = ActionModel::Create { label: m.name, address: m.address };
            lemma_filter_map_has(acts, fc, a, RecordModel { label: m.name, address: m.address, handle: issued(m.name) });
            let k = choose|k: int| 0 <= k < s2.len() && s2[k] == (RecordModel { label: m.name, address: m.address, handle: issued(m.name) });
            assert(s[s1.len() + k] == s2[k]);
        } else {
            lemma_lookup_found(rs, m.name);
            let c = choose|c: int|
                0 <= c < rs.len() && rs[c] == lookup(rs, m.name)->Some_0 && rs[c].label == m.name;
            let r = rs[c];
            assert(is_member(ms, r.label));
            assert(!deletes_handle(acts, r.handle));
            let out = surviving(acts, r)->Some_0;
            if exists|u: int| update_at(acts, r.handle, u) {
                let u = choose|u: int| update_at(acts, r.handle, u);
                lemma_update_of_record(ms, pools, rs, c, u);
                let i2 = choose|i2: int|
                    0 <= i2 < ms.len() && ms[i2].name == rs[c].label && acts[u]->Update_label
                        == ms[i2].name && acts[u]->Update_address == ms[i2].address
                        && member_step(rs, ms[i2]) == Some(acts[u]);
                assert(i2 == i);
                assert(out.label == m.name && out.address == m.address);
            } else {
                if r.address != m.address {
                    lemma_member_emits(ms, pools, rs, i);
                    let a = member_step(rs, m)->Some_0;
                    let k = choose|k: int| 0 <= k < acts.len() && acts[k] == a;
                    assert(update_at(acts, r.handle, k));
                }
                assert(out == r);
            }
            assert(rs.contains(r));
            lemma_filter_map_has(rs, fs, r, out);
            let k = choose|k: int| 0 <= k < s1.len() && s1[k] == out;
            assert(s[k] == out);
        }
    }
    assert forall|j: int| 0 <= j < s.len() implies {
        &&& forall|i: int|
            0 <= i < ms.len() && (#[trigger] s[j]).label == (#[trigger] ms[i]).name
                ==> s[j].address == ms[i].address
        &&& !is_member(ms, s[j].label) ==> !in_any_pool(pools, s[j].address)
    } by {
        let x = s[j];
        if j < s1.len() {
            assert(s1.contains(x));
            rs.lemma_filter_map_contains(fs, x);
            let t = choose|t: RecordModel| rs.contains(t) && fs(t) == Some(x);
            let c = choose|c: int| 0 <= c < rs.len() && rs[c] == t;
            if exists|u: int| update_at(acts, t.handle, u) {
                let u = choose|u: int| update_at(acts, t.handle, u);
                lemma_update_of_record(ms, pools, rs, c, u);
                let i2 = choose|i2: int|
                    0 <= i2 < ms.len() && ms[i2].name == rs[c].label && acts[u]->Update_label
                        == ms[i2].name && acts[u]->Update_address == ms[i2].address
                        && member_step(rs, ms[i2]) == Some(acts[u]);
                assert(x.label == ms[i2].name && x.address == ms[i2].address);
            } else {
                assert(x == t);
                assert forall|i: int|
                    0 <= i < ms.len() && x.label == (#[trigger] ms[i]).name implies x.address
                    == ms[i].address by {
                    lemma_lookup_unique(rs, c);
                    if x.address != ms[i].address {
                        lemma_member_emits(ms, pools, rs, i);
                        let a = member_step(rs, ms[i])->Some_0;
                        let k = choose|k: int| 0 <= k < acts.len() && acts[k] == a;
                        assert(update_at(acts, t.handle, k));
                    }
                }
                if !is_member(ms, x.label) && in_any_pool(pools, x.address) {
                    lemma_record_emits(ms, pools, rs, c);
                    let k = choose|k: int|
                        0 <= k < acts.len() && acts[k] == (ActionModel::Delete { handle: t.handle });
                    assert(deletes_handle(acts, t.handle));
                }
            }
        } else {
            assert(x == s2[j - s1.len()]);
            assert(s2.contains(x));
            acts.lemma_filter_map_contains(fc, x);
            let a = choose|a: ActionModel| acts.contains(a) && fc(a) == Some(x);
            lemma_action_origin(ms, pools, rs, a);
            let i2 = choose|i2: int|
                0 <= i2 < ms.len() && ms[i2].name == a->Create_label && ms[i2].address
                    == a->Create_address;
            assert(x.label == ms[i2].name && x.address == ms[i2].address);
        }
    }
    // records outside the pools that no member claims are kept
    assert forall|j: int|
        0 <= j < rs.len() && !is_member(ms, (#[trigger] rs[j]).label) && !in_any_pool(
            pools,
            rs[j].address,
        ) implies s.contains(rs[j]) by {
        let r = rs[j];
        if deletes_handle(acts, r.handle) {
            let d = choose|d: int|
                0 <= d < acts.len() && acts[d] == (ActionModel::Delete { handle: r.handle });
            assert(acts.contains(acts[d]));
            lemma_action_origin(ms, pools, rs, acts[d]);
            let j2 = choose|j2: int|
                0 <= j2 < rs.len() && rs[j2].handle == r.handle && !is_member(ms, rs[j2].label)
                    && in_any_pool(pools, rs[j2].address);
            assert(j2 == j);
        }
        if exists|u: int| update_at(acts, r.handle, u) {
            let u = choose|u: int| update_at(acts, r.handle, u);
            lemma_update_of_record(ms, pools, rs, j, u);
        }
        assert(rs.contains(r));
        lemma_filter_map_has(rs, fs, r, r);
        let k = choose|k: int| 0 <= k < s1.len() && s1[k] == r;
        assert(s[k] == r);
    }
}

/// Reconciling again after the actions of a reconciliation were applied
/// yields no action, whatever handles the provider issued for new records.
pub proof fn lemma_reconcile_idempotent(
    ms: Seq<MemberModel>,
    pools: Seq<AddressPool>,
    rs: Seq<RecordModel>,
    issued: spec_fn(Seq<char>) -> Seq<char>,
)
    requires
        names_unique(ms),
        labels_unique(rs),
        handles_unique(rs),
    ensures
        reconcile_model(
            ms,
            pools,
            apply_actions(rs, reconcile_model(ms, pools, rs), issued),
        ) == Seq::<ActionModel>::empty(),
{
    lemma_apply_reconcile(ms, pools, rs, issued);
    lemma_in_sync_needs_nothing(ms, pools, apply_actions(rs, reconcile_model(ms, pools, rs), issued));
}

} // verus!
