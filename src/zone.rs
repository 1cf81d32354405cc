use vstd::prelude::*;
use crate::engine::find_record;
use crate::model::{ActualState, DnsRecord, RecordModel, labels_unique};

verus! {

/// A record of the zone as the provider lists it: its full name, its IPv4
/// address where it is an A record (`None` for any other type), and its handle.
#[derive(Clone, Debug, PartialEq, Eq)]
pub struct ZoneEntry {
    pub name: String,
    pub address: Option<u32>,
    pub handle: String,
}

/// `s` ends with `suffix`.
pub open spec fn ends_with(s: Seq<char>, suffix: Seq<char>) -> bool {
    suffix.len() <= s.len() && s.subrange(s.len() - suffix.len(), s.len() as int) == suffix
}

/// The label of a record name within the zone: the name with ".<zone>"
/// stripped. The apex and names outside the zone have none.
pub open spec fn label_of(name: Seq<char>, zone: Seq<char>) -> Option<Seq<char>> {
    if name != zone && ends_with(name, seq!['.'] + zone) {
        Some(name.subrange(0, name.len() - zone.len() - 1))
    } else {
        None
    }
}

/// Relies on str::strip_suffix: where `s` ends with `suffix`, the text before
/// it; else nothing.
#[verifier::external_body]
fn without_suffix<'a>(s: &'a str, suffix: &str) -> (r: Option<&'a str>)
    ensures
        match r {
            Some(p) => s@ == p@ + suffix@,
            None => !ends_with(s@, suffix@),
        },
{
    s.strip_suffix(suffix)
}

/// The label of a record name within the zone: `None` for the apex and for
/// names that do not end in ".<zone>".
pub fn record_label(name: &String, zone: &String) -> (r: Option<String>)
    ensures
        match r {
            Some(l) => label_of(name@, zone@) == Some(l@),
            None => label_of(name@, zone@) is None,
        },
{
    if *name == *zone {
        return None;
    }
    let n = name.as_str();
    let z = zone.as_str();
    let dot = ".";
    proof {
        reveal_strlit(".");
    }
    let ghost dz = seq!['.'] + z@;
    match without_suffix(n, z) {
        None => {
            proof {
                if ends_with(n@, dz) {
                    assert(n@.subrange(n@.len() - z@.len(), n@.len() as int) =~= dz.subrange(
                        1,
                        dz.len() as int,
                    ));
                    assert(dz.subrange(1, dz.len() as int) =~= z@);
                }
                assert(label_of(name@, zone@) is None);
            }
            None
        },
        Some(p) => match without_suffix(p, dot) {
            None => {
                proof {
                    assert(dot@ =~= seq!['.']);
                    if ends_with(n@, dz) {
                        assert(n@[n@.len() - z@.len() - 1] == '.') by {
                            assert(n@.subrange(n@.len() - dz.len(), n@.len() as int)[0] == dz[0]);
                        }
                        assert(p@.len() == n@.len() - z@.len());
                        assert(p@[p@.len() - 1] == n@[p@.len() - 1]);
                        assert(p@.subrange(p@.len() - 1, p@.len() as int) =~= dot@);
                        assert(ends_with(p@, dot@));
                    }
                    assert(label_of(name@, zone@) is None);
                }
                None
            },
            Some(l) => {
                let out = l.to_owned();
                proof {
                    assert(n@ =~= l@ + dz);
                    assert(n@.subrange(n@.len() - dz.len(), n@.len() as int) =~= dz);
                    assert(n@.subrange(0, n@.len() - z@.len() - 1) =~= l@);
                    assert(ends_with(n@, dz));
                    assert(name@ != zone@);
                    assert(label_of(name@, zone@) == Some(out@));
                }
                Some(out)
            },
        },
    }
}

/// The record that a zone entry contributes: only A records with a label.
pub open spec fn entry_record(e: ZoneEntry, zone: Seq<char>) -> Option<RecordModel> {
    match (e.address, label_of(e.name@, zone)) {
        (Some(a), Some(l)) => Some(RecordModel { label: l, address: a, handle: e.handle@ }),
        _ => None,
    }
}

/// Adds a record, replacing the one with the same label if there is one.
pub open spec fn upsert_record(rs: Seq<RecordModel>, r: RecordModel) -> Seq<RecordModel> {
    if exists|i: int| 0 <= i < rs.len() && rs[i].label == r.label {
        rs.update(choose|i: int| 0 <= i < rs.len() && rs[i].label == r.label, r)
    } else {
        rs.push(r)
    }
}

/// The zone's A records by label, a later entry with a label replacing an
/// earlier one.
pub open spec fn zone_records(es: Seq<ZoneEntry>, zone: Seq<char>) -> Seq<RecordModel>
    decreases es.len(),
{
    if es.len() == 0 {
        Seq::empty()
    } else {
        let rest = zone_records(es.drop_last(), zone);
        match entry_record(es.last(), zone) {
            Some(r) => upsert_record(rest, r),
            None => rest,
        }
    }
}

/// Builds the actual state from the zone's listing: A records only, the apex
/// and names outside the zone left out, labels unique (last one wins).
pub fn actual_from_zone(entries: &Vec<ZoneEntry>, zone: &String) -> (a: ActualState)
    ensures
        a@ == zone_records(entries@, zone@),
        a.wf(),
{
    let mut out: Vec<DnsRecord> = Vec::new();
    let mut i: usize = 0;
    while i < entries.len()
        invariant
            i <= entries.len(),
            out@.map_values(|x: DnsRecord| x@) == zone_records(entries@.take(i as int), zone@),
            labels_unique(out@.map_values(|x: DnsRecord| x@)),
        decreases entries.len() - i,
    {
        let e = &entries[i];
        let ghost prev = out@.map_values(|x: DnsRecord| x@);
        assert(entries@.take(i + 1).drop_last() =~= entries@.take(i as int));
        assert(entries@.take(i + 1).last() == entries@[i as int]);
        match e.address {
            None => {},
            Some(address) => match record_label(&e.name, zone) {
                None => {},
                Some(label) => {
                    let rec = DnsRecord { label, address, handle: e.handle.clone() };
                    match find_record(&out, &rec.label) {
                        Some(j) => {
                            proof {
                                let c = choose|c: int|
                                    0 <= c < prev.len() && prev[c].label == rec@.label;
                                assert(prev[j as int].label == rec@.label);
                                assert(c == j);
                            }
                            out[j] = rec;
                            proof {
                                assert(out@.map_values(|x: DnsRecord| x@) =~= prev.update(
                                    j as int,
                                    rec@,
                                ));
                            }
                        },
                        None => {
                            proof {
                                if exists|c: int| 0 <= c < prev.len() && prev[c].label == rec@.label {
                                    let c = choose|c: int|
                                        0 <= c < prev.len() && prev[c].label == rec@.label;
                                    crate::engine::lemma_first_label(prev, rec@.label, c);
                                }
                            }
                            out.push(rec);
                            proof {
                                assert(out@.map_values(|x: DnsRecord| x@) =~= prev.push(rec@));
                            }
                        },
                    }
                },
            },
        }
        i += 1;
    }
    assert(entries@.take(entries@.len() as int) =~= entries@);
    ActualState { records: out }
}

} // verus!
