//! The typed records the store persists: notes (leaves) and topic summaries
//! (sages), each with a stable identifier, named text fields and timestamps.
//!
//! Each record kind carries the same capability set: an immutable identifier
//! unique within its kind, an ordered list of named text fields, creation and
//! modification timestamps, and an embeddable text projection. Contracts
//! speak of records through [`Rec`], the mathematical content of a record.

use vstd::prelude::*;

use crate::sys::generate_uuid;

verus! {

/// The kind of a stored entity; each kind has its own table.
#[derive(Clone, Copy, Debug, PartialEq, Eq, Hash, Structural)]
pub enum EntityKind {
    /// A note: a named piece of free-form content.
    Leaf,
    /// A topic summary: a named description.
    Sage,
}

/// The mathematical content of one record: its fields as character
/// sequences. `body` is the kind's free-text field — a leaf's content or a
/// sage's description.
#[verifier::ext_equal]
pub struct Rec {
    pub id: Seq<char>,
    pub name: Seq<char>,
    pub body: Seq<char>,
    pub created_at: Seq<char>,
    pub modified_at: Seq<char>,
}

/// The single newline separating a record's name from its body in the
/// embeddable text projection.
pub open spec fn newline() -> Seq<char> {
    seq!['\n']
}

/// The embeddable text projection of a record: its name and its body, joined
/// by a newline.
pub open spec fn text_of(r: Rec) -> Seq<char> {
    r.name + newline() + r.body
}

/// A note: a named piece of free-form content.
#[derive(Debug)]
pub struct Leaf {
    pub id: String,
    pub name: String,
    pub content: String,
    pub created_at: String,
    pub modified_at: String,
}

impl View for Leaf {
    type V = Rec;

    open spec fn view(&self) -> Rec {
        Rec {
            id: self.id@,
            name: self.name@,
            body: self.content@,
            created_at: self.created_at@,
            modified_at: self.modified_at@,
        }
    }
}

/// A topic summary: a named description.
#[derive(Debug)]
pub struct Sage {
    pub id: String,
    pub name: String,
    pub description: String,
    pub created_at: String,
    pub modified_at: String,
}

impl View for Sage {
    type V = Rec;

    open spec fn view(&self) -> Rec {
        Rec {
            id: self.id@,
            name: self.name@,
            body: self.description@,
            created_at: self.created_at@,
            modified_at: self.modified_at@,
        }
    }
}

impl Leaf {
    /// A fresh note with a server-generated identifier and timestamps still
    /// unset; the store assigns them on create.
    pub fn new(name: String, content: String) -> (r: Leaf)
        ensures
            r@.name == name@,
            r@.body == content@,
            r@.id.len() == 36,
            r@.created_at.len() == 0,
            r@.modified_at.len() == 0,
    {
        Leaf {
            id: generate_uuid(),
            name,
            content,
            created_at: String::new(),
            modified_at: String::new(),
        }
    }

    /// A field-for-field copy.
    pub fn duplicate(&self) -> (r: Leaf)
        ensures
            r@ =~= self@,
    {
        Leaf {
            id: self.id.clone(),
            name: self.name.clone(),
            content: self.content.clone(),
            created_at: self.created_at.clone(),
            modified_at: self.modified_at.clone(),
        }
    }
}

impl Sage {
    /// A fresh topic summary with a server-generated identifier and
    /// timestamps still unset; the store assigns them on create.
    pub fn new(name: String, description: String) -> (r: Sage)
        ensures
            r@.name == name@,
            r@.body == description@,
            r@.id.len() == 36,
            r@.created_at.len() == 0,
            r@.modified_at.len() == 0,
    {
        Sage {
            id: generate_uuid(),
            name,
            description,
            created_at: String::new(),
            modified_at: String::new(),
        }
    }

    /// A field-for-field copy.
    pub fn duplicate(&self) -> (r: Sage)
        ensures
            r@ =~= self@,
    {
        Sage {
            id: self.id.clone(),
            name: self.name.clone(),
            description: self.description.clone(),
            created_at: self.created_at.clone(),
            modified_at: self.modified_at.clone(),
        }
    }
}

/// A record of either kind, tagged with its kind.
#[derive(Debug)]
pub enum Entity {
    Leaf(Leaf),
    Sage(Sage),
}

impl Entity {
    /// The kind whose table this record belongs to.
    pub open spec fn kind(&self) -> EntityKind {
        match self {
            Entity::Leaf(_) => EntityKind::Leaf,
            Entity::Sage(_) => EntityKind::Sage,
        }
    }

    /// The record's mathematical content.
    pub open spec fn rec(&self) -> Rec {
        match self {
            Entity::Leaf(l) => l@,
            Entity::Sage(s) => s@,
        }
    }

    pub fn get_kind(&self) -> (k: EntityKind)
        ensures
            k == self.kind(),
    {
        match self {
            Entity::Leaf(_) => EntityKind::Leaf,
            Entity::Sage(_) => EntityKind::Sage,
        }
    }

    /// The record's stable identifier.
    pub fn get_id(&self) -> (r: &String)
        ensures
            r@ == self.rec().id,
    {
        match self {
            Entity::Leaf(l) => &l.id,
            Entity::Sage(s) => &s.id,
        }
    }

    /// A field-for-field copy.
    pub fn duplicate(&self) -> (r: Entity)
        ensures
            r.kind() == self.kind(),
            r.rec() =~= self.rec(),
    {
        match self {
            Entity::Leaf(l) => Entity::Leaf(l.duplicate()),
            Entity::Sage(s) => Entity::Sage(s.duplicate()),
        }
    }

    /// Sets both timestamps to `now`, as a create does.
    pub fn stamp_for_create(&mut self, now: &String)
        ensures
            final(self).kind() == old(self).kind(),
            final(self).rec() =~= with_times(old(self).rec(), now@),
    {
        match self {
            Entity::Leaf(l) => {
                l.set_created_at(now.clone());
                l.set_modified_at(now.clone());
            },
            Entity::Sage(s) => {
                s.set_created_at(now.clone());
                s.set_modified_at(now.clone());
            },
        }
    }

    /// The embeddable text projection: the record's name and body joined by
    /// a newline. This is the text handed to the embedding provider.
    pub fn get_embedding_text(&self) -> (r: String)
        ensures
            r@ == text_of(self.rec()),
    {
        proof {
            reveal_strlit("\n");
        }
        let (name, body) = match self {
            Entity::Leaf(l) => (&l.name, &l.content),
            Entity::Sage(s) => (&s.name, &s.description),
        };
        let mut r = name.clone();
        r.append("\n");
        r.append(body.as_str());
        proof {
            assert("\n"@ =~= newline());
            assert(r@ =~= text_of(self.rec()));
        }
        r
    }
}

/// A record with both timestamps set to `now`, as a create assigns them.
pub open spec fn with_times(r: Rec, now: Seq<char>) -> Rec {
    Rec { created_at: now, modified_at: now, ..r }
}

/// A record whose timestamps the store may assign: `created_at` is set once
/// at creation, `modified_at` on every successful write.
pub trait TimeStamped: Sized {
    /// The record's mathematical content, through which the setters'
    /// contracts speak.
    spec fn stamp_rec(&self) -> Rec;

    fn set_created_at(&mut self, timestamp: String)
        ensures
            final(self).stamp_rec() =~= (Rec { created_at: timestamp@, ..old(self).stamp_rec() }),
    ;

    fn set_modified_at(&mut self, timestamp: String)
        ensures
            final(self).stamp_rec() =~= (Rec { modified_at: timestamp@, ..old(self).stamp_rec() }),
    ;
}

impl TimeStamped for Leaf {
    open spec fn stamp_rec(&self) -> Rec {
        self@
    }

    fn set_created_at(&mut self, timestamp: String) {
        self.created_at = timestamp;
    }

    fn set_modified_at(&mut self, timestamp: String) {
        self.modified_at = timestamp;
    }
}

impl TimeStamped for Sage {
    open spec fn stamp_rec(&self) -> Rec {
        self@
    }

    fn set_created_at(&mut self, timestamp: String) {
        self.created_at = timestamp;
    }

    fn set_modified_at(&mut self, timestamp: String) {
        self.modified_at = timestamp;
    }
}

impl TimeStamped for Entity {
    open spec fn stamp_rec(&self) -> Rec {
        self.rec()
    }

    fn set_created_at(&mut self, timestamp: String) {
        match self {
            Entity::Leaf(l) => l.set_created_at(timestamp),
            Entity::Sage(s) => s.set_created_at(timestamp),
        }
    }

    fn set_modified_at(&mut self, timestamp: String) {
        match self {
            Entity::Leaf(l) => l.set_modified_at(timestamp),
            Entity::Sage(s) => s.set_modified_at(timestamp),
        }
    }
}

} // verus!
