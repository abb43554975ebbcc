//! The in-memory key/value map and the responses it gives to requests.
use vstd::prelude::*;

use crate::codec::{Message, Request};

verus! {

pub open spec fn none_text() -> Seq<char> {
    seq!['N', 'O', 'N', 'E']
}

pub open spec fn ok_text() -> Seq<char> {
    seq!['O', 'K']
}

pub open spec fn err_text() -> Seq<char> {
    seq!['E', 'R', 'R']
}

/// The response text to a request, given the map before it.
pub open spec fn respond(db: Map<Seq<char>, Seq<char>>, r: Request) -> Seq<char> {
    match r {
        Request::Get(k) => if db.contains_key(k) {
            db[k]
        } else {
            none_text()
        },
        Request::Put(_, _) => ok_text(),
        Request::Invalid => err_text(),
    }
}

/// The map after a request.
pub open spec fn apply(db: Map<Seq<char>, Seq<char>>, r: Request) -> Map<Seq<char>, Seq<char>> {
    match r {
        Request::Put(k, v) => db.insert(k, v),
        _ => db,
    }
}

/// A map from keys to values, each key stored once.
pub struct Store {
    entries: Vec<(String, String)>,
    model: Ghost<Map<Seq<char>, Seq<char>>>,
}

impl View for Store {
    type V = Map<Seq<char>, Seq<char>>;

    closed spec fn view(&self) -> Map<Seq<char>, Seq<char>> {
        self.model@
    }
}

impl Store {
    pub closed spec fn wf(&self) -> bool {
        &&& forall|i: int, j: int|
            0 <= i < j < self.entries@.len() ==> self.entries@[i].0@ != self.entries@[j].0@
        &&& forall|i: int|
            0 <= i < self.entries@.len() ==> self.model@.contains_key(#[trigger] self.entries@[i].0@)
                && self.model@[self.entries@[i].0@] == self.entries@[i].1@
        &&& forall|k: Seq<char>|
            #[trigger] self.model@.contains_key(k) ==> exists|i: int|
                0 <= i < self.entries@.len() && #[trigger] self.entries@[i].0@ == k
    }

    /// An empty map.
    pub fn new() -> (s: Store)
        ensures
            s.wf(),
            s@ == Map::<Seq<char>, Seq<char>>::empty(),
    {
        Store { entries: Vec::new(), model: Ghost(Map::empty()) }
    }

    fn find(&self, key: &String) -> (r: Option<usize>)
        requires
            self.wf(),
        ensures
            match r {
                Some(i) => i < self.entries@.len() && self.entries@[i as int].0@ == key@,
                None => !self@.contains_key(key@),
            },
    {
        let mut i: usize = 0;
        while i < self.entries.len()
            invariant
                self.wf(),
                i <= self.entries@.len(),
                forall|j: int| 0 <= j < i ==> self.entries@[j].0@ != key@,
            decreases self.entries@.len() - i,
        {
            if self.entries[i].0 == *key {
                return Some(i);
            }
            i = i + 1;
        }
        None
    }

    /// The value stored under `key`, if any.
    pub fn get(&self, key: &String) -> (r: Option<String>)
        requires
            self.wf(),
        ensures
            r.is_some() == self@.contains_key(key@),
            r.is_some() ==> r->0@ == self@[key@],
    {
        match self.find(key) {
            Some(i) => Some(self.entries[i].1.clone()),
            None => None,
        }
    }

    /// Stores `value` under `key`, replacing any earlier value.
    pub fn put(&mut self, key: String, value: String)
        requires
            old(self).wf(),
        ensures
            final(self).wf(),
            final(self)@ == old(self)@.insert(key@, value@),
    {
        let ghost k = key@;
        let ghost v = value@;
        let ghost before = self.entries@;
        match self.find(&key) {
            Some(i) => {
                self.entries.set(i, (key, value));
                self.model = Ghost(self.model@.insert(k, v));
                assert forall|kk: Seq<char>| #[trigger] self.model@.contains_key(kk) implies exists|
                    j: int,
                | 0 <= j < self.entries@.len() && #[trigger] self.entries@[j].0@ == kk by {
                    if kk != k {
                        let j = choose|j: int| 0 <= j < before.len() && #[trigger] before[j].0@ == kk;
                        assert(self.entries@[j].0@ == kk);
                    } else {
                        assert(self.entries@[i as int].0@ == kk);
                    }
                }
            },
            None => {
                self.entries.push((key, value));
                self.model = Ghost(self.model@.insert(k, v));
                let ghost n: int = self.entries@.len() - 1;
                assert forall|kk: Seq<char>| #[trigger] self.model@.contains_key(kk) implies exists|
                    j: int,
                | 0 <= j < self.entries@.len() && #[trigger] self.entries@[j].0@ == kk by {
                    if kk != k {
                        let j = choose|j: int| 0 <= j < before.len() && #[trigger] before[j].0@ == kk;
                        assert(self.entries@[j].0@ == kk);
                    } else {
                        assert(self.entries@[n].0@ == kk);
                    }
                }
            },
        }
    }

    /// Applies one request and returns the response text: the stored value or
    /// `NONE` for a get, `OK` for a put (after storing), `ERR` for an invalid line.
    pub fn apply(&mut self, m: &Message) -> (r: String)
        requires
            old(self).wf(),
        ensures
            final(self).wf(),
            final(self)@ == apply(old(self)@, m@),
            r@ == respond(old(self)@, m@),
    {
        match m {
            Message::Get(key) => match self.get(key) {
                Some(v) => v,
                None => {
                    let s = "NONE".to_owned();
                    proof {
                        reveal_strlit("NONE");
                    }
                    assert(s@ =~= none_text());
                    s
                },
            },
            Message::Put(key, value) => {
                self.put(key.clone(), value.clone());
                let s = "OK".to_owned();
                proof {
                    reveal_strlit("OK");
                }
                assert(s@ =~= ok_text());
                s
            },
            Message::Error => {
                let s = "ERR".to_owned();
                proof {
                    reveal_strlit("ERR");
                }
                assert(s@ =~= err_text());
                s
            },
        }
    }
}

/// A put followed by a get of the same key answers the value just stored,
/// whatever the map held before (the last write wins).
pub proof fn lemma_put_then_get(db: Map<Seq<char>, Seq<char>>, k: Seq<char>, v: Seq<char>)
    ensures
        respond(apply(db, Request::Put(k, v)), Request::Get(k)) == v,
{
}

/// Of two puts to one key, a later get answers the second value.
pub proof fn lemma_last_write_wins(
    db: Map<Seq<char>, Seq<char>>,
    k: Seq<char>,
    v1: Seq<char>,
    v2: Seq<char>,
)
    ensures
        respond(apply(apply(db, Request::Put(k, v1)), Request::Put(k, v2)), Request::Get(k)) == v2,
{
}

/// A get of a key that the map does not hold answers `NONE`.
pub proof fn lemma_get_absent(db: Map<Seq<char>, Seq<char>>, k: Seq<char>)
    requires
        !db.contains_key(k),
    ensures
        respond(db, Request::Get(k)) == none_text(),
{
}

/// An invalid line answers `ERR` and leaves the map as it was.
pub proof fn lemma_invalid_line(db: Map<Seq<char>, Seq<char>>, line: Seq<u8>)
    requires
        crate::codec::decode_line(line) == Request::Invalid,
    ensures
        respond(db, crate::codec::decode_line(line)) == err_text(),
        apply(db, crate::codec::decode_line(line)) == db,
{
}

} // verus!
