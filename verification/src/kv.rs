//! A key-value store answering single-datagram requests: `key=value`
//! inserts, anything else retrieves.
use vstd::prelude::*;
use vstd::utf8::*;
use crate::text::{chars_of, find_char, find_char_from, lemma_find_char_from_bounds};

verus! {

broadcast use vstd::utf8::group_utf8_lib;

/// A decoded request: an insert of (key, value), or a retrieval of a key.
#[derive(Debug)]
pub enum Request {
    Insert(String, String),
    Retrieve(String),
}

/// The key whose retrieval is answered with the version.
pub const VERSION_KEY: &'static str = "version";

/// The answer to a retrieval of the version key.
pub const VERSION_REPLY: &'static str = "version=Ken's Key-Value Store 1.0";

/// What a request decodes to, for a payload that is valid UTF-8: up to the
/// first `=` the key and from it on (the `=` included) the value of an
/// insert; with no `=`, a retrieval of the whole payload.
pub open spec fn spec_parse_request(payload: Seq<u8>) -> (Seq<char>, Option<Seq<char>>) {
    let c = decode_utf8(payload);
    let k = find_char_from(c, 0, '=');
    if k < c.len() {
        (c.subrange(0, k), Some(c.subrange(k, c.len() as int)))
    } else {
        (c, None)
    }
}

/// Calls `std::str::from_utf8`, which, as its documentation states, returns
/// the slice as a string slice when it is valid UTF-8 and an error otherwise.
#[verifier::external_body]
fn str_from_utf8(bytes: &[u8]) -> (r: Option<&str>)
    ensures
        r is Some <==> valid_utf8(bytes@),
        r matches Some(s) ==> encode_utf8(s@) == bytes@,
{
    std::str::from_utf8(bytes).ok()
}

/// Decodes a request payload, which must be valid UTF-8.
pub fn parse_request(req: &[u8]) -> (r: Result<Request, ()>)
    requires
        valid_utf8(req@),
    ensures
        r matches Ok(Request::Insert(k, v)) ==> spec_parse_request(req@) == (k@, Some(v@)),
        r matches Ok(Request::Retrieve(k)) ==> spec_parse_request(req@) == (k@, None::<Seq<char>>),
        r is Ok,
{
    let payload = match str_from_utf8(req) {
        Some(s) => s,
        None => {
            return Err(());
        },
    };
    proof {
        assert(decode_utf8(req@) == payload@);
    }
    let chars = chars_of(payload);
    let n = chars.len();
    let eq_loc = find_char(&chars, 0, '=');
    proof {
        lemma_find_char_from_bounds(chars@, 0, '=');
    }
    if eq_loc < n {
        let key = String::from_str(payload.substring_char(0, eq_loc));
        let value = String::from_str(payload.substring_char(eq_loc, n));
        Ok(Request::Insert(key, value))
    } else {
        Ok(Request::Retrieve(String::from_str(payload)))
    }
}


/// Whether no two entries of `s` have the same key.
pub open spec fn keys_distinct(s: Seq<(Seq<char>, Seq<char>)>) -> bool {
    forall|i: int, j: int| 0 <= i < s.len() && 0 <= j < s.len() && i != j ==> s[i].0 != s[j].0
}

/// Whether some entry of `s` has key `k`.
pub open spec fn has_key(s: Seq<(Seq<char>, Seq<char>)>, k: Seq<char>) -> bool {
    exists|i: int| 0 <= i < s.len() && s[i].0 == k
}

/// The values of `s` by key.
pub open spec fn entry_map(s: Seq<(Seq<char>, Seq<char>)>) -> Map<Seq<char>, Seq<char>> {
    Map::new(
        |k: Seq<char>| has_key(s, k),
        |k: Seq<char>| s[choose|i: int| 0 <= i < s.len() && s[i].0 == k].1,
    )
}

/// The stored values, one per key, kept as a `Vec` of entries with distinct
/// keys: with `String` keys vstd's `HashMap` specification lets nothing be
/// proved of lookups, so the map is the entries' view instead.
pub struct Database {
    entries: Vec<(String, String)>,
}

impl Database {
    /// The entries as character sequences.
    pub closed spec fn entries_view(&self) -> Seq<(Seq<char>, Seq<char>)> {
        self.entries@.map_values(|e: (String, String)| (e.0@, e.1@))
    }

    #[verifier::type_invariant]
    closed spec fn wf(self) -> bool {
        keys_distinct(self.entries_view())
    }
}

impl View for Database {
    type V = Map<Seq<char>, Seq<char>>;

    closed spec fn view(&self) -> Map<Seq<char>, Seq<char>> {
        entry_map(self.entries_view())
    }
}

impl Database {
    /// An empty store.
    pub fn new() -> (db: Database)
        ensures
            db@ == Map::<Seq<char>, Seq<char>>::empty(),
    {
        let db = Database { entries: Vec::new() };
        assert(db@ =~= Map::<Seq<char>, Seq<char>>::empty());
        db
    }

    /// The index of the entry with key `key`, if any.
    fn find(&self, key: &String) -> (r: Option<usize>)
        ensures
            r matches Some(i) ==> i < self.entries@.len() && self.entries_view()[i as int].0
                == key@,
            r is None ==> !has_key(self.entries_view(), key@),
    {
        let n = self.entries.len();
        let mut i: usize = 0;
        while i < n
            invariant
                n == self.entries@.len(),
                i <= n,
                forall|j: int| 0 <= j < i ==> self.entries_view()[j].0 != key@,
            decreases n - i,
        {
            if self.entries[i].0 == *key {
                return Some(i);
            }
            i = i + 1;
        }
        None
    }

    /// Whether a value is stored under `key`.
    pub fn contains_key(&self, key: &String) -> (r: bool)
        ensures
            r == self@.dom().contains(key@),
    {
        self.find(key).is_some()
    }

    /// The value stored under `key`, if any.
    pub fn get(&self, key: &String) -> (r: Option<&String>)
        ensures
            r is Some <==> self@.dom().contains(key@),
            r matches Some(v) ==> v@ == self@[key@],
    {
        proof {
            use_type_invariant(self);
        }
        match self.find(key) {
            Some(i) => {
                proof {
                    let s = self.entries_view();
                    let j = choose|j: int| 0 <= j < s.len() && s[j].0 == key@;
                    assert(j == i);
                }
                Some(&self.entries[i].1)
            },
            None => None,
        }
    }

    /// Stores `value` under `key`; returns the value stored there before, if any.
    pub fn insert(&mut self, key: String, value: String) -> (r: Option<String>)
        ensures
            final(self)@ == old(self)@.insert(key@, value@),
            r is Some <==> old(self)@.dom().contains(key@),
            r matches Some(v) ==> v@ == old(self)@[key@],
    {
        proof {
            use_type_invariant(&*self);
        }
        let ghost old_s = self.entries_view();
        let ghost kv = key@;
        let ghost vv = value@;
        let found = self.find(&key);
        let mut entries: Vec<(String, String)> = Vec::new();
        std::mem::swap(&mut entries, &mut self.entries);
        match found {
            Some(i) => {
                let previous = entries[i].1.clone();
                entries.set(i, (key, value));
                let ghost s = entries@.map_values(|e: (String, String)| (e.0@, e.1@));
                proof {
                    assert(s =~= old_s.update(i as int, (kv, vv)));
                    assert(keys_distinct(s));
                    let j0 = choose|j: int| 0 <= j < old_s.len() && old_s[j].0 == kv;
                    assert(j0 == i);
                    assert forall|t: Seq<char>|
                        #![trigger entry_map(s).dom().contains(t)]
                        entry_map(s).dom().contains(t) == entry_map(old_s).insert(kv, vv).dom().contains(t)
                    by {
                        if has_key(old_s, t) {
                            let j = choose|j: int| 0 <= j < old_s.len() && old_s[j].0 == t;
                            if j != i {
                                assert(s[j].0 == t);
                            }
                        }
                        if has_key(s, t) {
                            let j = choose|j: int| 0 <= j < s.len() && s[j].0 == t;
                            if j != i {
                                assert(old_s[j].0 == t);
                            }
                        }
                        assert(s[i as int].0 == kv);
                    }
                    assert forall|t: Seq<char>| #[trigger] entry_map(s).dom().contains(t)
                        implies entry_map(s)[t] == entry_map(old_s).insert(kv, vv)[t]
                    by {
                        let j = choose|j: int| 0 <= j < s.len() && s[j].0 == t;
                        if t == kv {
                            assert(j == i);
                        } else {
                            assert(old_s[j].0 == t);
                            let k = choose|k: int| 0 <= k < old_s.len() && old_s[k].0 == t;
                            assert(k == j);
                        }
                    }
                    assert(entry_map(s) =~= entry_map(old_s).insert(kv, vv));
                }
                self.entries = entries;
                Some(previous)
            },
            None => {
                entries.push((key, value));
                let ghost s = entries@.map_values(|e: (String, String)| (e.0@, e.1@));
                proof {
                    assert(s =~= old_s.push((kv, vv)));
                    assert(keys_distinct(s)) by {
                        assert forall|a: int, b: int|
                            0 <= a < s.len() && 0 <= b < s.len() && a != b implies s[a].0 != s[b].0
                        by {
                            if a == old_s.len() {
                                assert(old_s[b].0 != kv);
                            } else if b == old_s.len() {
                                assert(old_s[a].0 != kv);
                            }
                        }
                    }
                    assert forall|t: Seq<char>|
                        #![trigger entry_map(s).dom().contains(t)]
                        entry_map(s).dom().contains(t) == entry_map(old_s).insert(kv, vv).dom().contains(t)
                    by {
                        if has_key(old_s, t) {
                            let j = choose|j: int| 0 <= j < old_s.len() && old_s[j].0 == t;
                            assert(s[j].0 == t);
                        }
                        if has_key(s, t) {
                            let j = choose|j: int| 0 <= j < s.len() && s[j].0 == t;
                            if j < old_s.len() {
                                assert(old_s[j].0 == t);
                            }
                        }
                        assert(s[old_s.len() as int].0 == kv);
                    }
                    assert forall|t: Seq<char>| #[trigger] entry_map(s).dom().contains(t)
                        implies entry_map(s)[t] == entry_map(old_s).insert(kv, vv)[t]
                    by {
                        let j = choose|j: int| 0 <= j < s.len() && s[j].0 == t;
                        if t == kv {
                            assert(j == old_s.len());
                        } else {
                            assert(old_s[j].0 == t);
                            let k = choose|k: int| 0 <= k < old_s.len() && old_s[k].0 == t;
                            assert(k == j);
                        }
                    }
                    assert(entry_map(s) =~= entry_map(old_s).insert(kv, vv));
                }
                self.entries = entries;
                None
            },
        }
    }
}


/// The answer to a retrieval of `key` from a store holding `db`: the version
/// for the version key, else the stored value, else the empty string.
pub open spec fn spec_retrieve(db: Map<Seq<char>, Seq<char>>, key: Seq<char>) -> Seq<char> {
    if key == VERSION_KEY@ {
        VERSION_REPLY@
    } else if db.dom().contains(key) {
        db[key]
    } else {
        Seq::<char>::empty()
    }
}

impl Database {
    /// Serves one decoded request: an insert stores its value and is not
    /// answered; a retrieval is answered. An insert must be under a key that
    /// is already stored: for any other key the server fails.
    pub fn handle_request(&mut self, req: Request) -> (reply: Option<String>)
        requires
            req matches Request::Insert(k, _) ==> old(self)@.dom().contains(k@),
        ensures
            match req {
                Request::Insert(k, v) => final(self)@ == old(self)@.insert(k@, v@) && reply is None,
                Request::Retrieve(k) => final(self)@ == old(self)@ && (reply matches Some(r)
                    && r@ == spec_retrieve(old(self)@, k@)),
            },
    {
        match req {
            Request::Insert(key, value) => {
                self.insert(key, value);
                None
            },
            Request::Retrieve(key) => {
                let version = String::from_str(VERSION_KEY);
                if key == version {
                    Some(String::from_str(VERSION_REPLY))
                } else {
                    match self.get(&key) {
                        Some(value) => Some(value.clone()),
                        None => Some(String::new()),
                    }
                }
            },
        }
    }
}


/// A retrieval of a key other than the version key answers the value last
/// inserted under it.
pub proof fn law_retrieve_after_insert(db: Map<Seq<char>, Seq<char>>, key: Seq<char>, value: Seq<char>)
    requires
        key != VERSION_KEY@,
    ensures
        spec_retrieve(db.insert(key, value), key) == value,
{
}

/// The version key is always answered with the version, whatever is stored.
pub proof fn law_version_is_fixed(db: Map<Seq<char>, Seq<char>>)
    ensures
        spec_retrieve(db, VERSION_KEY@) == VERSION_REPLY@,
{
}

/// Decoding a payload loses nothing: the key followed by the value is the
/// whole payload; the key holds no `=`, and the value starts with the first `=`.
pub proof fn law_parse_request_splits_payload(payload: Seq<u8>)
    requires
        valid_utf8(payload),
    ensures
        ({
            let (k, v) = spec_parse_request(payload);
            &&& (forall|i: int| 0 <= i < k.len() ==> k[i] != '=')
            &&& match v {
                Some(v) => k + v == decode_utf8(payload) && v.len() > 0 && v[0] == '=',
                None => k == decode_utf8(payload),
            }
        }),
{
    let c = decode_utf8(payload);
    lemma_find_char_from_bounds(c, 0, '=');
    let k = find_char_from(c, 0, '=');
    if k < c.len() {
        assert(c.subrange(0, k) + c.subrange(k, c.len() as int) =~= c);
    }
}

} // verus!
