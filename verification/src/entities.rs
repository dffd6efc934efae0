//! The entities of the note store: note and peer identifiers, notes, peers
//! and the actions that the mutation log records.
use vstd::arithmetic::power2::pow2;
use vstd::prelude::*;

verus! {

#[verifier::external_type_specification]
#[verifier::external_body]
pub struct ExUuidError(uuid::Error);

/// What `uuid::Uuid::parse_str` gives for a text: the value of the UUID it
/// reads, or `None` where the crate refuses the text.
pub uninterp spec fn uuid_parse_text(s: Seq<char>) -> Option<u128>;

/// The lower-case hexadecimal digit for `n` (0 to 15).
pub open spec fn hex_digit(n: int) -> char {
    if n < 10 {
        (48 + n) as char
    } else {
        (87 + n) as char
    }
}

/// The `k`-th hexadecimal digit (0 is the most significant) of a 128-bit value.
pub open spec fn nibble(v: u128, k: int) -> int {
    ((v as int) / (pow2((4 * (31 - k)) as nat) as int)) % 16
}

/// Which hexadecimal digit stands at position `i` of the hyphenated form.
pub open spec fn digit_index(i: int) -> int {
    if i < 8 {
        i
    } else if i < 13 {
        i - 1
    } else if i < 18 {
        i - 2
    } else if i < 23 {
        i - 3
    } else {
        i - 4
    }
}

/// The hyphenated lower-case text of a UUID value, as in
/// `67e55044-10b1-426f-9247-bb680e5fe0c8`: its 32 hexadecimal digits, most
/// significant first, in groups of 8, 4, 4, 4 and 12.
pub open spec fn uuid_text(v: u128) -> Seq<char> {
    Seq::new(
        36,
        |i: int|
            if i == 8 || i == 13 || i == 18 || i == 23 {
                '-'
            } else {
                hex_digit(nibble(v, digit_index(i)))
            },
    )
}

/// Calls `uuid::Uuid::parse_str` and takes the 128-bit value of the result.
/// The contract claims only that the outcome is the one the name
/// `uuid_parse_text` gives for the text.
#[verifier::external_body]
fn parse_uuid(s: &str) -> (r: Result<u128, uuid::Error>)
    ensures
        match r {
            Ok(v) => uuid_parse_text(s@) == Some(v),
            Err(_) => uuid_parse_text(s@) is None,
        },
{
    match uuid::Uuid::parse_str(s) {
        Ok(u) => Ok(u.as_u128()),
        Err(e) => Err(e),
    }
}

/// Formats the UUID of a 128-bit value (`uuid::Uuid::from_u128`, then its
/// `Display`). The crate writes the hyphenated lower-case form, and its
/// `parse_str` reads back every form that it writes.
#[verifier::external_body]
fn uuid_to_text(v: u128) -> (s: String)
    ensures
        s@ == uuid_text(v),
        uuid_parse_text(s@) == Some(v),
{
    uuid::Uuid::from_u128(v).to_string()
}

/// The version and variant bits of a random UUID: version 4 (bits 76 to 79
/// hold `0100`) of the RFC 4122 variant (bits 62 and 63 hold `10`).
pub open spec fn uuid_is_v4(v: u128) -> bool {
    v & 0xF000C000000000000000u128 == 0x40008000000000000000u128
}

/// Draws a random (version 4) UUID with `uuid::Uuid::new_v4` and returns its
/// value. The crate sets the version and variant bits of the random value, so
/// every outcome is a version 4 UUID; nothing else is claimed of it.
#[verifier::external_body]
fn random_uuid() -> (v: u128)
    ensures
        uuid_is_v4(v),
{
    uuid::Uuid::new_v4().as_u128()
}

/// Identifier of a note: the 128-bit value of its UUID.
#[derive(Clone, Copy, Debug, PartialEq, Eq, Hash, Structural)]
pub struct NoteId(pub u128);

/// Identifier of a peer (a store): the 128-bit value of its UUID.
#[derive(Clone, Copy, Debug, PartialEq, Eq, Hash, Structural)]
pub struct PeerId(pub u128);

impl NoteId {
    /// Reads a note id from the text of its UUID.
    pub fn parse_str(s: &str) -> (r: Result<NoteId, uuid::Error>)
        ensures
            r is Ok <==> uuid_parse_text(s@) is Some,
            r is Ok ==> uuid_parse_text(s@) == Some(r->Ok_0.0),
    {
        match parse_uuid(s) {
            Ok(v) => Ok(NoteId(v)),
            Err(e) => Err(e),
        }
    }

    /// The hyphenated text of the id's UUID.
    pub fn to_string(&self) -> (s: String)
        ensures
            s@ == uuid_text(self.0),
            uuid_parse_text(s@) == Some(self.0),
    {
        uuid_to_text(self.0)
    }

    /// A fresh note id from a random (version 4) UUID.
    pub fn new_random() -> (id: NoteId)
        ensures
            uuid_is_v4(id.0),
    {
        NoteId(random_uuid())
    }
}

impl PeerId {
    /// Reads a peer id from the text of its UUID.
    pub fn parse_str(s: &str) -> (r: Result<PeerId, uuid::Error>)
        ensures
            r is Ok <==> uuid_parse_text(s@) is Some,
            r is Ok ==> uuid_parse_text(s@) == Some(r->Ok_0.0),
    {
        match parse_uuid(s) {
            Ok(v) => Ok(PeerId(v)),
            Err(e) => Err(e),
        }
    }

    /// The hyphenated text of the id's UUID.
    pub fn to_string(&self) -> (s: String)
        ensures
            s@ == uuid_text(self.0),
            uuid_parse_text(s@) == Some(self.0),
    {
        uuid_to_text(self.0)
    }

    /// A fresh peer id from a random (version 4) UUID.
    pub fn new_random() -> (id: PeerId)
        ensures
            uuid_is_v4(id.0),
    {
        PeerId(random_uuid())
    }
}

impl core::str::FromStr for NoteId {
    type Err = uuid::Error;

    fn from_str(s: &str) -> (r: Result<NoteId, uuid::Error>)
        ensures
            r is Ok <==> uuid_parse_text(s@) is Some,
            r is Ok ==> uuid_parse_text(s@) == Some(r->Ok_0.0),
    {
        NoteId::parse_str(s)
    }
}

/// The text of an optional string.
pub open spec fn opt_text(o: Option<String>) -> Option<Seq<char>> {
    match o {
        Some(s) => Some(s@),
        None => None,
    }
}

/// A note as the store presents it: its own fields and its relations.
#[derive(Clone, Debug, PartialEq, Eq)]
pub struct Note {
    pub id: NoteId,
    pub title: String,
    pub description: Option<String>,
    pub completed: bool,
    pub parent_id: Option<NoteId>,
    pub children_ids: Vec<NoteId>,
    pub notes_this_blocks: Vec<NoteId>,
    pub notes_blocking_this: Vec<NoteId>,
}

/// The value of a [`Note`], with its texts as character sequences.
pub struct NoteV {
    pub id: NoteId,
    pub title: Seq<char>,
    pub description: Option<Seq<char>>,
    pub completed: bool,
    pub parent_id: Option<NoteId>,
    pub children_ids: Seq<NoteId>,
    pub notes_this_blocks: Seq<NoteId>,
    pub notes_blocking_this: Seq<NoteId>,
}

impl View for Note {
    type V = NoteV;

    open spec fn view(&self) -> NoteV {
        NoteV {
            id: self.id,
            title: self.title@,
            description: opt_text(self.description),
            completed: self.completed,
            parent_id: self.parent_id,
            children_ids: self.children_ids@,
            notes_this_blocks: self.notes_this_blocks@,
            notes_blocking_this: self.notes_blocking_this@,
        }
    }
}

/// A copy of a list of ids.
pub fn copy_ids(v: &Vec<NoteId>) -> (r: Vec<NoteId>)
    ensures
        r@ == v@,
{
    let mut r: Vec<NoteId> = Vec::new();
    let mut i: usize = 0;
    while i < v.len()
        invariant
            i <= v.len(),
            r@ == v@.subrange(0, i as int),
        decreases v.len() - i,
    {
        r.push(v[i]);
        i = i + 1;
        assert(r@ =~= v@.subrange(0, i as int));
    }
    assert(r@ =~= v@);
    r
}

/// A copy of an optional string.
pub fn copy_opt_text(o: &Option<String>) -> (r: Option<String>)
    ensures
        opt_text(r) == opt_text(*o),
{
    match o {
        Some(s) => Some(s.clone()),
        None => None,
    }
}

impl Note {
    /// A copy of the note.
    pub fn duplicate(&self) -> (r: Note)
        ensures
            r@ == self@,
    {
        Note {
            id: self.id,
            title: self.title.clone(),
            description: copy_opt_text(&self.description),
            completed: self.completed,
            parent_id: self.parent_id,
            children_ids: copy_ids(&self.children_ids),
            notes_this_blocks: copy_ids(&self.notes_this_blocks),
            notes_blocking_this: copy_ids(&self.notes_blocking_this),
        }
    }
}

/// A peer that this store syncs with, and the clock of the peer up to which
/// it has been synced. The address is kept as the text of a socket address.
#[derive(Clone, Debug, PartialEq, Eq)]
pub struct PeerInfo {
    pub peer_id: PeerId,
    pub clock: usize,
    pub addr: String,
}

/// The value of a [`PeerInfo`].
pub struct PeerInfoV {
    pub peer_id: PeerId,
    pub clock: usize,
    pub addr: Seq<char>,
}

impl View for PeerInfo {
    type V = PeerInfoV;

    open spec fn view(&self) -> PeerInfoV {
        PeerInfoV { peer_id: self.peer_id, clock: self.clock, addr: self.addr@ }
    }
}

impl PeerInfo {
    /// A copy of the peer record.
    pub fn duplicate(&self) -> (r: PeerInfo)
        ensures
            r@ == self@,
    {
        PeerInfo { peer_id: self.peer_id, clock: self.clock, addr: self.addr.clone() }
    }
}

/// A change to the store, as the mutation log records it and as peers send
/// it to each other. Each action holds what is needed to undo it.
#[derive(Clone, Debug, PartialEq, Eq)]
pub enum Action {
    CreateNote { id: NoteId, title: String, description: Option<String>, parent: Option<NoteId> },
    SetCompleted { id: NoteId, new_completed: bool, old_completed: bool },
    UpdateTitle { id: NoteId, old_title: String, new_title: String },
    UpdateDescription {
        id: NoteId,
        old_description: Option<String>,
        new_description: Option<String>,
    },
    ChangeParent { id: NoteId, old_parent: Option<NoteId>, new_parent: Option<NoteId> },
    AddDependency { blocker: NoteId, blockee: NoteId },
    RemoveDependency { blocker: NoteId, blockee: NoteId },
    /// The deleted note as it read, and its rank in the user's order.
    DeleteNote { note: Note, rank: Option<String> },
    ReorderNote { id: NoteId, before: Option<NoteId>, after: Option<NoteId>, old_rank: String },
}

/// The value of an [`Action`].
pub enum ActionV {
    CreateNote {
        id: NoteId,
        title: Seq<char>,
        description: Option<Seq<char>>,
        parent: Option<NoteId>,
    },
    SetCompleted { id: NoteId, new_completed: bool, old_completed: bool },
    UpdateTitle { id: NoteId, old_title: Seq<char>, new_title: Seq<char> },
    UpdateDescription {
        id: NoteId,
        old_description: Option<Seq<char>>,
        new_description: Option<Seq<char>>,
    },
    ChangeParent { id: NoteId, old_parent: Option<NoteId>, new_parent: Option<NoteId> },
    AddDependency { blocker: NoteId, blockee: NoteId },
    RemoveDependency { blocker: NoteId, blockee: NoteId },
    DeleteNote { note: NoteV, rank: Option<Seq<char>> },
    ReorderNote {
        id: NoteId,
        before: Option<NoteId>,
        after: Option<NoteId>,
        old_rank: Seq<char>,
    },
}

impl View for Action {
    type V = ActionV;

    open spec fn view(&self) -> ActionV {
        match self {
            Action::CreateNote { id, title, description, parent } => ActionV::CreateNote {
                id: *id,
                title: title@,
                description: opt_text(*description),
                parent: *parent,
            },
            Action::SetCompleted { id, new_completed, old_completed } => ActionV::SetCompleted {
                id: *id,
                new_completed: *new_completed,
                old_completed: *old_completed,
            },
            Action::UpdateTitle { id, old_title, new_title } => ActionV::UpdateTitle {
                id: *id,
                old_title: old_title@,
                new_title: new_title@,
            },
            Action::UpdateDescription { id, old_description, new_description } =>
                ActionV::UpdateDescription {
                id: *id,
                old_description: opt_text(*old_description),
                new_description: opt_text(*new_description),
            },
            Action::ChangeParent { id, old_parent, new_parent } => ActionV::ChangeParent {
                id: *id,
                old_parent: *old_parent,
                new_parent: *new_parent,
            },
            Action::AddDependency { blocker, blockee } => ActionV::AddDependency {
                blocker: *blocker,
                blockee: *blockee,
            },
            Action::RemoveDependency { blocker, blockee } => ActionV::RemoveDependency {
                blocker: *blocker,
                blockee: *blockee,
            },
            Action::DeleteNote { note, rank } => ActionV::DeleteNote {
                note: note@,
                rank: opt_text(*rank),
            },
            Action::ReorderNote { id, before, after, old_rank } => ActionV::ReorderNote {
                id: *id,
                before: *before,
                after: *after,
                old_rank: old_rank@,
            },
        }
    }
}

impl Action {
    /// A copy of the action.
    pub fn duplicate(&self) -> (r: Action)
        ensures
            r@ == self@,
    {
        match self {
            Action::CreateNote { id, title, description, parent } => Action::CreateNote {
                id: *id,
                title: title.clone(),
                description: copy_opt_text(description),
                parent: *parent,
            },
            Action::SetCompleted { id, new_completed, old_completed } => Action::SetCompleted {
                id: *id,
                new_completed: *new_completed,
                old_completed: *old_completed,
            },
            Action::UpdateTitle { id, old_title, new_title } => Action::UpdateTitle {
                id: *id,
                old_title: old_title.clone(),
                new_title: new_title.clone(),
            },
            Action::UpdateDescription { id, old_description, new_description } =>
                Action::UpdateDescription {
                id: *id,
                old_description: copy_opt_text(old_description),
                new_description: copy_opt_text(new_description),
            },
            Action::ChangeParent { id, old_parent, new_parent } => Action::ChangeParent {
                id: *id,
                old_parent: *old_parent,
                new_parent: *new_parent,
            },
            Action::AddDependency { blocker, blockee } => Action::AddDependency {
                blocker: *blocker,
                blockee: *blockee,
            },
            Action::RemoveDependency { blocker, blockee } => Action::RemoveDependency {
                blocker: *blocker,
                blockee: *blockee,
            },
            Action::DeleteNote { note, rank } => Action::DeleteNote {
                note: note.duplicate(),
                rank: copy_opt_text(rank),
            },
            Action::ReorderNote { id, before, after, old_rank } => Action::ReorderNote {
                id: *id,
                before: *before,
                after: *after,
                old_rank: old_rank.clone(),
            },
        }
    }
}

} // verus!
