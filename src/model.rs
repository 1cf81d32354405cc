use vstd::prelude::*;

verus! {

/// A network member: the DNS label to manage and its authoritative IPv4
/// address (as a 32-bit big-endian integer).
#[derive(Clone, Debug, PartialEq, Eq)]
pub struct Member {
    pub name: String,
    pub address: u32,
}

/// An inclusive range of IPv4 addresses handed out by the network. A range
/// whose start lies above its end holds no address.
#[derive(Clone, Copy, Debug, PartialEq, Eq, Structural)]
pub struct AddressPool {
    pub range_start: u32,
    pub range_end: u32,
}

/// What the zone should hold: the members, unique by name, and the pools
/// whose addresses this system may reclaim.
#[derive(Clone, Debug, PartialEq, Eq)]
pub struct DesiredState {
    pub members: Vec<Member>,
    pub pools: Vec<AddressPool>,
}

/// An A record of the zone: its label (the zone suffix stripped), address and
/// the provider's opaque handle.
#[derive(Clone, Debug, PartialEq, Eq)]
pub struct DnsRecord {
    pub label: String,
    pub address: u32,
    pub handle: String,
}

/// The zone's current A records, keyed by label.
#[derive(Clone, Debug, PartialEq, Eq)]
pub struct ActualState {
    pub records: Vec<DnsRecord>,
}

/// One change to apply to the zone.
#[derive(Clone, Debug, PartialEq, Eq)]
pub enum Action {
    Create { label: String, address: u32 },
    Update { handle: String, label: String, address: u32 },
    Delete { handle: String },
}

/// Mathematical value of a member.
pub struct MemberModel {
    pub name: Seq<char>,
    pub address: u32,
}

/// Mathematical value of a record.
pub struct RecordModel {
    pub label: Seq<char>,
    pub address: u32,
    pub handle: Seq<char>,
}

/// Mathematical value of an action.
pub enum ActionModel {
    Create { label: Seq<char>, address: u32 },
    Update { handle: Seq<char>, label: Seq<char>, address: u32 },
    Delete { handle: Seq<char> },
}

/// Mathematical value of a desired state.
pub struct DesiredModel {
    pub members: Seq<MemberModel>,
    pub pools: Seq<AddressPool>,
}

impl View for Member {
    type V = MemberModel;

    open spec fn view(&self) -> MemberModel {
        MemberModel { name: self.name@, address: self.address }
    }
}

impl View for DnsRecord {
    type V = RecordModel;

    open spec fn view(&self) -> RecordModel {
        RecordModel { label: self.label@, address: self.address, handle: self.handle@ }
    }
}

impl View for Action {
    type V = ActionModel;

    open spec fn view(&self) -> ActionModel {
        match self {
            Action::Create { label, address } => ActionModel::Create {
                label: label@,
                address: *address,
            },
            Action::Update { handle, label, address } => ActionModel::Update {
                handle: handle@,
                label: label@,
                address: *address,
            },
            Action::Delete { handle } => ActionModel::Delete { handle: handle@ },
        }
    }
}

impl View for DesiredState {
    type V = DesiredModel;

    open spec fn view(&self) -> DesiredModel {
        DesiredModel {
            members: self.members@.map_values(|m: Member| m@),
            pools: self.pools@,
        }
    }
}

impl View for ActualState {
    type V = Seq<RecordModel>;

    open spec fn view(&self) -> Seq<RecordModel> {
        self.records@.map_values(|r: DnsRecord| r@)
    }
}

/// The values of a list of actions.
pub open spec fn actions_model(v: Seq<Action>) -> Seq<ActionModel> {
    v.map_values(|a: Action| a@)
}

/// No two members share a name.
pub open spec fn names_unique(ms: Seq<MemberModel>) -> bool {
    forall|i: int, j: int|
        0 <= i < ms.len() && 0 <= j < ms.len() && ms[i].name == ms[j].name ==> i == j
}

/// No two records share a label.
pub open spec fn labels_unique(rs: Seq<RecordModel>) -> bool {
    forall|i: int, j: int|
        0 <= i < rs.len() && 0 <= j < rs.len() && rs[i].label == rs[j].label ==> i == j
}

/// No two records share a handle.
pub open spec fn handles_unique(rs: Seq<RecordModel>) -> bool {
    forall|i: int, j: int|
        0 <= i < rs.len() && 0 <= j < rs.len() && rs[i].handle == rs[j].handle ==> i == j
}

impl DesiredState {
    /// Members are unique by name.
    pub open spec fn wf(&self) -> bool {
        names_unique(self@.members)
    }
}

impl ActualState {
    /// Records are unique by label.
    pub open spec fn wf(&self) -> bool {
        labels_unique(self@)
    }
}

} // verus!
