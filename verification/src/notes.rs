//! The plain note shelf: named notes, a catalogue of sages (topic
//! summaries) and the process configuration.
//!
//! Notes of this shelf live as plain files and the sage catalogue as one
//! serialized document; reading and writing those is the persistence
//! adapter's business. The logic between a load and a save — conflict
//! checks, lookup, update, removal and search, all keyed by name — lives
//! here, on the in-memory catalogue, and is verified. Lookup and update
//! take the first matching entry; removal takes every matching entry; a
//! create refuses a name that is already present.

use vstd::prelude::*;

use crate::error::StoreError;
use crate::sys::now_rfc3339;
use crate::text::{contains_seq, lower_of, name_matches};

verus! {

/// A note: a file's name and content, with the timestamps read off the
/// file.
#[derive(Debug)]
pub struct Leaf {
    pub name: String,
    pub content: String,
    pub created_at: String,
    pub modified_at: String,
}

/// A topic summary in the catalogue.
#[derive(Debug)]
pub struct Sage {
    pub name: String,
    pub description: String,
    pub created_at: String,
    pub modified_at: String,
}

/// The mathematical content of a catalogue entry.
#[verifier::ext_equal]
pub struct SageV {
    pub name: Seq<char>,
    pub description: Seq<char>,
    pub created_at: Seq<char>,
    pub modified_at: Seq<char>,
}

impl View for Sage {
    type V = SageV;

    open spec fn view(&self) -> SageV {
        SageV {
            name: self.name@,
            description: self.description@,
            created_at: self.created_at@,
            modified_at: self.modified_at@,
        }
    }
}

impl Sage {
    /// A field-for-field copy.
    pub fn duplicate(&self) -> (r: Sage)
        ensures
            r@ =~= self@,
    {
        Sage {
            name: self.name.clone(),
            description: self.description.clone(),
            created_at: self.created_at.clone(),
            modified_at: self.modified_at.clone(),
        }
    }
}

/// The process configuration.
#[derive(Debug)]
pub struct Config {
    pub openai_api_key: String,
    pub theme: String,
}

impl Default for Config {
    /// The configuration used when none has been saved yet: no key, dark
    /// theme.
    fn default() -> (c: Config)
        ensures
            c.openai_api_key@.len() == 0,
            c.theme@ =~= "dark"@,
    {
        Config { openai_api_key: String::new(), theme: String::from_str("dark") }
    }
}

/// The contents of a catalogue, entry by entry.
pub open spec fn sseq(s: Seq<Sage>) -> Seq<SageV> {
    s.map_values(|v: Sage| v@)
}

/// Whether the catalogue holds an entry with this name.
pub open spec fn sage_named(s: Seq<SageV>, name: Seq<char>) -> bool {
    exists|i: int| 0 <= i < s.len() && (#[trigger] s[i]).name == name
}

/// What a lookup by name returns: the first entry carrying the name.
pub open spec fn spec_read_sage(s: Seq<SageV>, name: Seq<char>) -> Option<SageV>
    decreases s.len(),
{
    if s.len() == 0 {
        None
    } else if s.first().name == name {
        Some(s.first())
    } else {
        spec_read_sage(s.drop_first(), name)
    }
}

/// A fresh catalogue entry with both timestamps set to `now`.
pub open spec fn new_sage(name: Seq<char>, description: Seq<char>, now: Seq<char>) -> SageV {
    SageV { name, description, created_at: now, modified_at: now }
}

/// An entry with its description replaced and its modification moment
/// refreshed.
pub open spec fn updated_sage(cur: SageV, description: Seq<char>, now: Seq<char>) -> SageV {
    SageV { description, modified_at: now, ..cur }
}

/// The catalogue after an update: the first entry carrying the name gets
/// the new description and modification moment.
pub open spec fn spec_update_sage(
    s: Seq<SageV>,
    name: Seq<char>,
    description: Seq<char>,
    now: Seq<char>,
) -> Seq<SageV>
    decreases s.len(),
{
    if s.len() == 0 {
        s
    } else if s.first().name == name {
        seq![updated_sage(s.first(), description, now)] + s.drop_first()
    } else {
        seq![s.first()] + spec_update_sage(s.drop_first(), name, description, now)
    }
}

/// The predicate keeping the entries not carrying `name`.
pub open spec fn keep_name_pred(name: Seq<char>) -> spec_fn(SageV) -> bool {
    |v: SageV| v.name != name
}

/// The predicate keeping the entries whose lower-cased name contains the
/// lower-cased query.
pub open spec fn sage_match_pred(q: Seq<char>) -> spec_fn(SageV) -> bool {
    |v: SageV| contains_seq(lower_of(v.name), lower_of(q))
}

/// A lookup finds the first match: below position `i` nothing matches and
/// at `i` the name does, so the lookup returns entry `i`.
proof fn lemma_read_sage_at(s: Seq<SageV>, name: Seq<char>, i: int)
    requires
        0 <= i < s.len(),
        forall|t: int| 0 <= t < i ==> (#[trigger] s[t]).name != name,
        s[i].name == name,
    ensures
        spec_read_sage(s, name) == Some(s[i]),
    decreases i,
{
    if i > 0 {
        lemma_read_sage_at(s.drop_first(), name, i - 1);
    }
}

/// A lookup of a name the catalogue does not hold finds nothing.
proof fn lemma_read_sage_absent(s: Seq<SageV>, name: Seq<char>)
    requires
        !sage_named(s, name),
    ensures
        spec_read_sage(s, name) is None,
    decreases s.len(),
{
    if s.len() > 0 {
        assert(s[0].name != name);
        assert(!sage_named(s.drop_first(), name)) by {
            if sage_named(s.drop_first(), name) {
                let t = choose|t: int|
                    0 <= t < s.drop_first().len() && (#[trigger] s.drop_first()[t]).name == name;
                assert(s[t + 1].name == name);
            }
        }
        lemma_read_sage_absent(s.drop_first(), name);
    }
}

/// An update lands on the first match: below position `i` nothing matches
/// and at `i` the name does, so the update rewrites entry `i` alone.
proof fn lemma_update_sage_at(
    s: Seq<SageV>,
    name: Seq<char>,
    description: Seq<char>,
    now: Seq<char>,
    i: int,
)
    requires
        0 <= i < s.len(),
        forall|t: int| 0 <= t < i ==> (#[trigger] s[t]).name != name,
        s[i].name == name,
    ensures
        spec_update_sage(s, name, description, now) =~= s.update(
            i,
            updated_sage(s[i], description, now),
        ),
    decreases i,
{
    if i == 0 {
        assert(seq![updated_sage(s.first(), description, now)] + s.drop_first() =~= s.update(
            0,
            updated_sage(s[0], description, now),
        ));
    } else {
        lemma_update_sage_at(s.drop_first(), name, description, now, i - 1);
        assert(seq![s.first()] + s.drop_first().update(
            i - 1,
            updated_sage(s[i], description, now),
        ) =~= s.update(i, updated_sage(s[i], description, now)));
    }
}

/// The note shelf's in-memory state: the sage catalogue. The persistence
/// adapter loads it, lets the operations here run, and saves what they
/// leave.
#[derive(Debug)]
pub struct Database {
    pub sages: Vec<Sage>,
}

impl View for Database {
    type V = Seq<SageV>;

    open spec fn view(&self) -> Seq<SageV> {
        sseq(self.sages@)
    }
}

impl Database {
    /// An empty catalogue.
    pub fn new() -> (r: Database)
        ensures
            r@ =~= Seq::<SageV>::empty(),
    {
        Database { sages: Vec::new() }
    }

    /// A catalogue with the given entries, as loaded from storage.
    pub fn with_sages(sages: Vec<Sage>) -> (r: Database)
        ensures
            r@ =~= sseq(sages@),
    {
        Database { sages }
    }

    /// Scans for the first entry carrying `name`.
    fn find_sage(&self, name: &str) -> (r: Option<usize>)
        ensures
            match r {
                Some(i) => i < self@.len() && self@[i as int].name == name@ && forall|t: int|
                    0 <= t < i ==> (#[trigger] self@[t]).name != name@,
                None => !sage_named(self@, name@),
            },
    {
        let name_owned = name.to_owned();
        let mut i: usize = 0;
        while i < self.sages.len()
            invariant
                i <= self.sages@.len(),
                name_owned@ == name@,
                forall|t: int| 0 <= t < i ==> (#[trigger] self@[t]).name != name@,
            decreases self.sages@.len() - i,
        {
            if self.sages[i].name.eq(&name_owned) {
                return Some(i);
            }
            i = i + 1;
        }
        None
    }

    /// Adds a sage with both timestamps set to `now`.
    ///
    /// Fails with `StoreError::Conflict` exactly when the catalogue
    /// already holds the name; nothing changes then.
    pub fn create_sage_at(&mut self, name: &str, description: &str, now: String) -> (r: Result<
        (),
        StoreError,
    >)
        ensures
            match r {
                Ok(_) => !sage_named(old(self)@, name@) && final(self)@ =~= old(self)@.push(
                    new_sage(name@, description@, now@),
                ),
                Err(e) => e == StoreError::Conflict && sage_named(old(self)@, name@) && final(self)@
                    =~= old(self)@,
            },
    {
        if self.find_sage(name).is_some() {
            return Err(StoreError::Conflict);
        }
        let sage = Sage {
            name: name.to_owned(),
            description: description.to_owned(),
            created_at: now.clone(),
            modified_at: now,
        };
        self.sages.push(sage);
        proof {
            assert(self@ =~= old(self)@.push(new_sage(name@, description@, now@)));
        }
        Ok(())
    }

    /// Adds a sage stamped with the clock's current moment.
    pub fn create_sage(&mut self, name: &str, description: &str) -> (r: Result<(), StoreError>)
        ensures
            match r {
                Ok(_) => !sage_named(old(self)@, name@) && exists|t: Seq<char>|
                    final(self)@ =~= old(self)@.push(new_sage(name@, description@, t)),
                Err(e) => e == StoreError::Conflict && sage_named(old(self)@, name@) && final(self)@
                    =~= old(self)@,
            },
    {
        let now = now_rfc3339();
        let ghost t = now@;
        let r = self.create_sage_at(name, description, now);
        proof {
            if r is Ok {
                assert(self@ =~= old(self)@.push(new_sage(name@, description@, t)));
            }
        }
        r
    }

    /// Looks the first sage carrying `name` up. Absence is not an error.
    pub fn read_sage(&self, name: &str) -> (r: Option<Sage>)
        ensures
            match r {
                Some(s) => spec_read_sage(self@, name@) == Some(s@),
                None => spec_read_sage(self@, name@) is None,
            },
    {
        match self.find_sage(name) {
            Some(i) => {
                let s = self.sages[i].duplicate();
                proof {
                    lemma_read_sage_at(self@, name@, i as int);
                }
                Some(s)
            },
            None => {
                proof {
                    lemma_read_sage_absent(self@, name@);
                }
                None
            },
        }
    }

    /// All sages, in catalogue order.
    pub fn list_sages(&self) -> (r: Vec<Sage>)
        ensures
            sseq(r@) =~= self@,
    {
        let mut out: Vec<Sage> = Vec::new();
        let mut i: usize = 0;
        while i < self.sages.len()
            invariant
                i <= self.sages@.len(),
                sseq(out@) =~= self@.take(i as int),
            decreases self.sages@.len() - i,
        {
            let ghost out_before = out@;
            out.push(self.sages[i].duplicate());
            proof {
                assert(sseq(out_before).len() == out_before.len());
                assert(out_before.len() == i);
                assert(out@.len() == i + 1);
                assert forall|t: int| 0 <= t < i + 1 implies sseq(out@)[t] == self@.take(
                    i + 1,
                )[t] by {
                    if t < i {
                        assert(out@[t] == out_before[t]);
                        assert(sseq(out_before)[t] == self@.take(i as int)[t]);
                    }
                }
                assert(sseq(out@) =~= self@.take(i + 1));
            }
            i = i + 1;
        }
        proof {
            assert(self@.take(self@.len() as int) =~= self@);
        }
        out
    }

    /// Removes every sage carrying `name`.
    ///
    /// Fails with `StoreError::NotFound` exactly when the catalogue holds
    /// no such sage; nothing changes then.
    pub fn delete_sage(&mut self, name: &str) -> (r: Result<(), StoreError>)
        ensures
            match r {
                Ok(_) => sage_named(old(self)@, name@) && final(self)@ =~= old(self)@.filter(
                    keep_name_pred(name@),
                ),
                Err(e) => e == StoreError::NotFound && !sage_named(old(self)@, name@) && final(self)@
                    =~= old(self)@,
            },
    {
        if self.find_sage(name).is_none() {
            return Err(StoreError::NotFound);
        }
        let ghost es = self@;
        let ghost pred = keep_name_pred(name@);
        let name_owned = name.to_owned();
        let mut kept: Vec<Sage> = Vec::new();
        let mut i: usize = 0;
        while i < self.sages.len()
            invariant
                i <= self.sages@.len(),
                es == self@,
                name_owned@ == name@,
                pred == keep_name_pred(name@),
                sseq(kept@) =~= es.take(i as int).filter(pred),
            decreases self.sages@.len() - i,
        {
            let row = &self.sages[i];
            let keep = !row.name.eq(&name_owned);
            proof {
                reveal(Seq::filter);
                assert(es.take(i + 1).drop_last() =~= es.take(i as int));
                assert(es.take(i + 1).last() == es[i as int]);
                assert(keep == pred(es[i as int]));
            }
            if keep {
                kept.push(row.duplicate());
            }
            proof {
                assert(sseq(kept@) =~= es.take(i + 1).filter(pred));
            }
            i = i + 1;
        }
        self.sages = kept;
        proof {
            assert(es.take(es.len() as int) =~= es);
        }
        Ok(())
    }

    /// Replaces the first matching sage's description and refreshes its
    /// modification moment to `now`.
    ///
    /// Fails with `StoreError::NotFound` exactly when the catalogue holds
    /// no such sage; nothing changes then.
    pub fn update_sage_at(&mut self, name: &str, description: &str, now: String) -> (r: Result<
        (),
        StoreError,
    >)
        ensures
            match r {
                Ok(_) => sage_named(old(self)@, name@) && final(self)@ =~= spec_update_sage(
                    old(self)@,
                    name@,
                    description@,
                    now@,
                ),
                Err(e) => e == StoreError::NotFound && !sage_named(old(self)@, name@) && final(self)@
                    =~= old(self)@,
            },
    {
        let i = match self.find_sage(name) {
            Some(i) => i,
            None => {
                return Err(StoreError::NotFound);
            },
        };
        let cur = &self.sages[i];
        let updated = Sage {
            name: cur.name.clone(),
            description: description.to_owned(),
            created_at: cur.created_at.clone(),
            modified_at: now,
        };
        proof {
            lemma_update_sage_at(old(self)@, name@, description@, now@, i as int);
        }
        self.sages.set(i, updated);
        proof {
            assert(self@ =~= old(self)@.update(
                i as int,
                updated_sage(old(self)@[i as int], description@, now@),
            ));
        }
        Ok(())
    }

    /// Replaces the first matching sage's description, stamping the
    /// modification with the clock's current moment.
    pub fn update_sage(&mut self, name: &str, description: &str) -> (r: Result<(), StoreError>)
        ensures
            match r {
                Ok(_) => sage_named(old(self)@, name@) && exists|t: Seq<char>|
                    final(self)@ =~= spec_update_sage(old(self)@, name@, description@, t),
                Err(e) => e == StoreError::NotFound && !sage_named(old(self)@, name@) && final(self)@
                    =~= old(self)@,
            },
    {
        let now = now_rfc3339();
        let ghost t = now@;
        let r = self.update_sage_at(name, description, now);
        proof {
            if r is Ok {
                assert(self@ =~= spec_update_sage(old(self)@, name@, description@, t));
            }
        }
        r
    }

    /// All sages whose lower-cased name contains the lower-cased query, in
    /// catalogue order.
    pub fn search_sages(&self, query: &str) -> (r: Vec<Sage>)
        ensures
            sseq(r@) =~= self@.filter(sage_match_pred(query@)),
    {
        let ghost es = self@;
        let ghost pred = sage_match_pred(query@);
        let mut out: Vec<Sage> = Vec::new();
        let mut i: usize = 0;
        while i < self.sages.len()
            invariant
                i <= self.sages@.len(),
                es == self@,
                pred == sage_match_pred(query@),
                sseq(out@) =~= es.take(i as int).filter(pred),
            decreases self.sages@.len() - i,
        {
            let row = &self.sages[i];
            let keep = name_matches(row.name.as_str(), query);
            proof {
                reveal(Seq::filter);
                assert(es.take(i + 1).drop_last() =~= es.take(i as int));
                assert(es.take(i + 1).last() == es[i as int]);
                assert(keep == pred(es[i as int]));
            }
            if keep {
                out.push(row.duplicate());
            }
            proof {
                assert(sseq(out@) =~= es.take(i + 1).filter(pred));
            }
            i = i + 1;
        }
        proof {
            assert(es.take(es.len() as int) =~= es);
        }
        out
    }
}

} // verus!
