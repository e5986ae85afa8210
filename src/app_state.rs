//! The replicated application: a store from keys to values driven by
//! textual `PUT:<key>:<value>` and `GET:<key>` operations.

use vstd::prelude::*;
use crate::codec::bytes_equal;
use crate::message::copy_bytes;

verus! {

/// The bytes of `text` after decoding it as UTF-8 with each invalid
/// sequence replaced by U+FFFD, encoded back as UTF-8.
pub uninterp spec fn utf8_lossy(text: Seq<u8>) -> Seq<u8>;

/// Relies on `String::from_utf8_lossy`: valid UTF-8, ASCII included, comes
/// back unchanged; invalid sequences become U+FFFD.
#[verifier::external_body]
fn lossy_utf8(bytes: &[u8]) -> (r: Vec<u8>)
    ensures
        r@ == utf8_lossy(bytes@),
        (forall|i: int| 0 <= i < bytes@.len() ==> bytes@[i] < 128) ==> r@ == bytes@,
{
    String::from_utf8_lossy(bytes).into_owned().into_bytes()
}

pub const COLON: u8 = 58;

/// `PUT:`
pub open spec fn put_prefix() -> Seq<u8> {
    seq![80u8, 85u8, 84u8, 58u8]
}

/// `GET:`
pub open spec fn get_prefix() -> Seq<u8> {
    seq![71u8, 69u8, 84u8, 58u8]
}

/// `OK`
pub open spec fn ok_reply() -> Seq<u8> {
    seq![79u8, 75u8]
}

/// `NOT_FOUND`
pub open spec fn not_found_reply() -> Seq<u8> {
    seq![78u8, 79u8, 84u8, 95u8, 70u8, 79u8, 85u8, 78u8, 68u8]
}

/// `INVALID_OPERATION`
pub open spec fn invalid_reply() -> Seq<u8> {
    seq![73u8, 78u8, 86u8, 65u8, 76u8, 73u8, 68u8, 95u8, 79u8, 80u8, 69u8, 82u8, 65u8, 84u8, 73u8, 79u8, 78u8]
}

pub open spec fn has_prefix(t: Seq<u8>, p: Seq<u8>) -> bool {
    t.len() >= p.len() && t.subrange(0, p.len() as int) == p
}

/// Position `i` holds the one colon of `s`.
pub open spec fn sole_colon_at(s: Seq<u8>, i: int) -> bool {
    0 <= i < s.len() && s[i] == COLON && forall|j: int| 0 <= j < s.len() && j != i ==> s[j] != COLON
}

/// The operation text and the store it runs against give the new store and
/// the result: `PUT:<k>:<v>` with exactly one colon after the prefix stores
/// `v` under `k` and answers `OK`; `GET:<k>` answers the value stored under
/// `k`, or `NOT_FOUND`; anything else answers `INVALID_OPERATION`.
pub open spec fn apply_operation(store: Map<Seq<u8>, Seq<u8>>, t: Seq<u8>) -> (Map<Seq<u8>, Seq<u8>>, Seq<u8>) {
    if has_prefix(t, put_prefix()) {
        let rest = t.subrange(4, t.len() as int);
        if exists|i: int| sole_colon_at(rest, i) {
            let i = choose|i: int| sole_colon_at(rest, i);
            (store.insert(rest.subrange(0, i), rest.subrange(i + 1, rest.len() as int)), ok_reply())
        } else {
            (store, invalid_reply())
        }
    } else if has_prefix(t, get_prefix()) {
        let key = t.subrange(4, t.len() as int);
        if store.contains_key(key) {
            (store, store[key])
        } else {
            (store, not_found_reply())
        }
    } else {
        (store, invalid_reply())
    }
}

/// One key and its value.
struct Entry {
    key: Vec<u8>,
    value: Vec<u8>,
}

/// The map that a list of entries stands for, later entries winning.
pub open spec fn entries_map(s: Seq<(Seq<u8>, Seq<u8>)>) -> Map<Seq<u8>, Seq<u8>>
    decreases s.len(),
{
    if s.len() == 0 {
        Map::empty()
    } else {
        entries_map(s.drop_last()).insert(s.last().0, s.last().1)
    }
}

pub open spec fn keys_distinct(s: Seq<(Seq<u8>, Seq<u8>)>) -> bool {
    forall|i: int, j: int| 0 <= i < j < s.len() ==> s[i].0 != s[j].0
}

proof fn lemma_entries_lookup(s: Seq<(Seq<u8>, Seq<u8>)>, i: int)
    requires
        keys_distinct(s),
        0 <= i < s.len(),
    ensures
        entries_map(s).contains_key(s[i].0),
        entries_map(s)[s[i].0] == s[i].1,
    decreases s.len(),
{
    if i < s.len() - 1 {
        lemma_entries_lookup(s.drop_last(), i);
    }
}

proof fn lemma_entries_absent(s: Seq<(Seq<u8>, Seq<u8>)>, k: Seq<u8>)
    requires
        forall|i: int| 0 <= i < s.len() ==> s[i].0 != k,
    ensures
        !entries_map(s).contains_key(k),
    decreases s.len(),
{
    if s.len() > 0 {
        lemma_entries_absent(s.drop_last(), k);
    }
}

proof fn lemma_entries_update(s: Seq<(Seq<u8>, Seq<u8>)>, i: int, v: Seq<u8>)
    requires
        keys_distinct(s),
        0 <= i < s.len(),
    ensures
        entries_map(s.update(i, (s[i].0, v))) == entries_map(s).insert(s[i].0, v),
    decreases s.len(),
{
    let t = s.update(i, (s[i].0, v));
    if i == s.len() - 1 {
        assert(t.drop_last() == s.drop_last());
        assert(entries_map(t) =~= entries_map(s).insert(s[i].0, v));
    } else {
        assert(t.drop_last() == s.drop_last().update(i, (s[i].0, v)));
        lemma_entries_update(s.drop_last(), i, v);
        assert(entries_map(t) =~= entries_map(s).insert(s[i].0, v));
    }
}

/// The application's store.
pub struct AppState {
    store: Vec<Entry>,
}

impl AppState {
    pub closed spec fn entries(&self) -> Seq<(Seq<u8>, Seq<u8>)> {
        self.store@.map_values(|e: Entry| (e.key@, e.value@))
    }

    /// No key appears twice among the entries.
    pub closed spec fn wf(&self) -> bool {
        keys_distinct(self.entries())
    }

    /// The store as a map from key to value.
    pub closed spec fn view(&self) -> Map<Seq<u8>, Seq<u8>> {
        entries_map(self.entries())
    }

    /// An empty store.
    pub fn new() -> (r: Self)
        ensures
            r.wf(),
            r.view() == Map::<Seq<u8>, Seq<u8>>::empty(),
    {
        let r = AppState { store: Vec::new() };
        assert(r.entries() =~= Seq::<(Seq<u8>, Seq<u8>)>::empty());
        r
    }

    /// Runs the operation, read as UTF-8 with invalid sequences replaced,
    /// and returns its result.
    pub fn execute(&mut self, operation: &[u8]) -> (r: Vec<u8>)
        requires
            old(self).wf(),
        ensures
            final(self).wf(),
            (final(self).view(), r@) == apply_operation(old(self).view(), utf8_lossy(operation@)),
            (forall|i: int| 0 <= i < operation@.len() ==> operation@[i] < 128) ==> (
            final(self).view(),
            r@,
            ) == apply_operation(old(self).view(), operation@),
    {
        let text = lossy_utf8(operation);
        self.execute_text(text.as_slice())
    }

    /// Runs an operation that is already text.
    pub fn execute_text(&mut self, text: &[u8]) -> (r: Vec<u8>)
        requires
            old(self).wf(),
        ensures
            final(self).wf(),
            (final(self).view(), r@) == apply_operation(old(self).view(), text@),
    {
        let ghost t = text@;
        let put = put_bytes();
        let get = get_bytes();
        if starts_with(text, &put) {
            let mut i: usize = 4;
            let mut colons: usize = 0;
            let mut at: usize = 0;
            while i < text.len()
                invariant
                    4 <= i <= text.len(),
                    t == text@,
                    colons <= 2,
                    colons == 0 ==> forall|j: int| 4 <= j < i ==> t[j] != COLON,
                    colons >= 1 ==> 4 <= at < i && t[at as int] == COLON,
                    colons == 1 ==> forall|j: int| 4 <= j < i && j != at ==> t[j] != COLON,
                    colons == 2 ==> exists|j: int| 4 <= j < i && j != at && t[j] == COLON,
                decreases text.len() - i,
            {
                if text[i] == 58u8 {
                    if colons == 0 {
                        at = i;
                        colons = 1;
                    } else if colons == 1 {
                        colons = 2;
                    }
                }
                i = i + 1;
            }
            let ghost rest = t.subrange(4, t.len() as int);
            if colons == 1 {
                let ghost ri: int = at - 4;
                assert(sole_colon_at(rest, ri));
                assert forall|k: int| #[trigger] sole_colon_at(rest, k) implies k == ri by {
                    if k != ri {
                        assert(rest[ri] != COLON);
                    }
                }
                let key = copy_range(text, 4, at);
                let value = copy_range(text, at + 1, text.len());
                assert(key@ == rest.subrange(0, ri));
                assert(value@ == rest.subrange(ri + 1, rest.len() as int));
                self.store_value(key, value);
                return ok_bytes();
            } else {
                assert forall|k: int| !sole_colon_at(rest, k) by {
                    if sole_colon_at(rest, k) {
                        if colons == 0 {
                            assert(t[k + 4] == COLON);
                        } else {
                            let j = choose|j: int| 4 <= j < i && j != at && t[j] == COLON;
                            assert(rest[j - 4] == COLON);
                            assert(rest[at - 4] == COLON);
                        }
                    }
                }
                return invalid_bytes();
            }
        } else if starts_with(text, &get) {
            let key = copy_range(text, 4, text.len());
            match self.get(&key) {
                Some(v) => v,
                None => not_found_bytes(),
            }
        } else {
            invalid_bytes()
        }
    }

    /// The value stored under `key`, if any.
    pub fn get(&self, key: &Vec<u8>) -> (r: Option<Vec<u8>>)
        requires
            self.wf(),
        ensures
            r is Some <==> self.view().contains_key(key@),
            r is Some ==> r->Some_0@ == self.view()[key@],
    {
        match self.find(key) {
            Some(i) => {
                proof {
                    lemma_entries_lookup(self.entries(), i as int);
                }
                Some(copy_bytes(&self.store[i].value))
            },
            None => {
                proof {
                    lemma_entries_absent(self.entries(), key@);
                }
                None
            },
        }
    }

    /// The position of the entry for `key`, if any.
    fn find(&self, key: &Vec<u8>) -> (r: Option<usize>)
        ensures
            match r {
                Some(i) => i < self.store@.len() && self.entries()[i as int].0 == key@,
                None => forall|i: int| 0 <= i < self.entries().len() ==> self.entries()[i].0 != key@,
            },
    {
        let mut i: usize = 0;
        while i < self.store.len()
            invariant
                i <= self.store@.len(),
                forall|j: int| 0 <= j < i ==> self.entries()[j].0 != key@,
            decreases self.store@.len() - i,
        {
            if bytes_equal(self.store[i].key.as_slice(), key.as_slice()) {
                return Some(i);
            }
            i = i + 1;
        }
        None
    }

    /// Stores `value` under `key`, replacing what was there.
    fn store_value(&mut self, key: Vec<u8>, value: Vec<u8>)
        requires
            old(self).wf(),
        ensures
            final(self).wf(),
            final(self).view() == old(self).view().insert(key@, value@),
    {
        match self.find(&key) {
            Some(i) => {
                proof {
                    lemma_entries_update(self.entries(), i as int, value@);
                }
                let ghost before = self.entries();
                self.store.set(i, Entry { key, value });
                assert(self.entries() =~= before.update(i as int, (before[i as int].0, value@)));
            },
            None => {
                let ghost before = self.entries();
                self.store.push(Entry { key, value });
                assert(self.entries() =~= before.push((key@, value@)));
                assert(self.entries().drop_last() =~= before);
            },
        }
    }
}

fn starts_with(t: &[u8], p: &Vec<u8>) -> (r: bool)
    ensures
        r == has_prefix(t@, p@),
{
    if t.len() < p.len() {
        return false;
    }
    let mut i: usize = 0;
    while i < p.len()
        invariant
            p@.len() <= t@.len(),
            i <= p@.len(),
            forall|j: int| 0 <= j < i ==> t@[j] == p@[j],
        decreases p@.len() - i,
    {
        if t[i] != p[i] {
            assert(t@.subrange(0, p@.len() as int)[i as int] != p@[i as int]);
            return false;
        }
        i = i + 1;
    }
    assert(t@.subrange(0, p@.len() as int) =~= p@);
    true
}

fn copy_range(t: &[u8], lo: usize, hi: usize) -> (r: Vec<u8>)
    requires
        lo <= hi <= t@.len(),
    ensures
        r@ == t@.subrange(lo as int, hi as int),
{
    let mut r: Vec<u8> = Vec::new();
    let mut i: usize = lo;
    while i < hi
        invariant
            lo <= i <= hi <= t@.len(),
            r@ == t@.subrange(lo as int, i as int),
        decreases hi - i,
    {
        r.push(t[i]);
        i = i + 1;
        assert(r@ =~= t@.subrange(lo as int, i as int));
    }
    r
}

fn put_bytes() -> (r: Vec<u8>)
    ensures
        r@ == put_prefix(),
{
    let r: Vec<u8> = vec![80u8, 85u8, 84u8, 58u8];
    assert(r@ =~= put_prefix());
    r
}

fn get_bytes() -> (r: Vec<u8>)
    ensures
        r@ == get_prefix(),
{
    let r: Vec<u8> = vec![71u8, 69u8, 84u8, 58u8];
    assert(r@ =~= get_prefix());
    r
}

fn ok_bytes() -> (r: Vec<u8>)
    ensures
        r@ == ok_reply(),
{
    let r: Vec<u8> = vec![79u8, 75u8];
    assert(r@ =~= ok_reply());
    r
}

fn not_found_bytes() -> (r: Vec<u8>)
    ensures
        r@ == not_found_reply(),
{
    let r: Vec<u8> = vec![78u8, 79u8, 84u8, 95u8, 70u8, 79u8, 85u8, 78u8, 68u8];
    assert(r@ =~= not_found_reply());
    r
}

fn invalid_bytes() -> (r: Vec<u8>)
    ensures
        r@ == invalid_reply(),
{
    let r: Vec<u8> = vec![73u8, 78u8, 86u8, 65u8, 76u8, 73u8, 68u8, 95u8, 79u8, 80u8, 69u8, 82u8, 65u8, 84u8, 73u8, 79u8, 78u8];
    assert(r@ =~= invalid_reply());
    r
}

} // verus!
