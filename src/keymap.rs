use crate::hexfmt::{encode_hex, hex_of};
use vstd::prelude::*;

verus! {

/// Why a key map was rejected.
#[derive(Debug)]
pub enum KeyMapError {
    /// The identifier could not be computed from the key's material.
    KeyIdComputation { message: String },
    /// The declared identifier differs from the one computed from the key.
    InvalidKeyId { keyid: String, calculated: String },
    /// The identifier was already declared by an earlier entry.
    DuplicateKeyId { keyid: String },
}

/// The contents of a `KeyMapError`, as text.
pub enum KeyMapFailure {
    KeyIdComputation(Seq<char>),
    InvalidKeyId(Seq<char>, Seq<char>),
    DuplicateKeyId(Seq<char>),
}

impl View for KeyMapError {
    type V = KeyMapFailure;

    open spec fn view(&self) -> KeyMapFailure {
        match self {
            KeyMapError::KeyIdComputation { message } => KeyMapFailure::KeyIdComputation(message@),
            KeyMapError::InvalidKeyId { keyid, calculated } => KeyMapFailure::InvalidKeyId(
                keyid@,
                calculated@,
            ),
            KeyMapError::DuplicateKeyId { keyid } => KeyMapFailure::DuplicateKeyId(keyid@),
        }
    }
}

/// One decoded entry of a key map: the identifier it declares, the key, and
/// the identifier computed from the key's content (or why that failed).
pub struct KeyEntry<K> {
    pub keyid: Vec<u8>,
    pub key: K,
    pub calculated: Result<Vec<u8>, String>,
}

/// A map from key identifier to key in which every identifier was checked
/// against its key and occurs once. Entries keep the order they came in.
#[derive(Debug)]
pub struct KeyMap<K> {
    entries: Vec<(Vec<u8>, K)>,
}

/// The identifiers of a sequence of entries.
pub open spec fn ids_of<K>(s: Seq<(Seq<u8>, K)>) -> Seq<Seq<u8>> {
    s.map_values(|p: (Seq<u8>, K)| p.0)
}

/// How an entry is refused given the identifiers already accepted, if it is.
/// The computation is looked at first, then the match, then uniqueness.
pub open spec fn entry_failure(
    ids: Seq<Seq<u8>>,
    keyid: Seq<u8>,
    calculated: Result<Vec<u8>, String>,
) -> Option<KeyMapFailure> {
    match calculated {
        Err(m) => Some(KeyMapFailure::KeyIdComputation(m@)),
        Ok(c) => if c@ != keyid {
            Some(KeyMapFailure::InvalidKeyId(hex_of(keyid), hex_of(c@)))
        } else if ids.contains(keyid) {
            Some(KeyMapFailure::DuplicateKeyId(hex_of(keyid)))
        } else {
            None
        },
    }
}

/// The outcome of decoding a sequence of entries in order, stopping at the
/// first entry that is refused.
pub open spec fn decode_spec<K>(s: Seq<KeyEntry<K>>) -> Result<Seq<(Seq<u8>, K)>, KeyMapFailure>
    decreases s.len(),
{
    if s.len() == 0 {
        Ok(Seq::empty())
    } else {
        match decode_spec(s.drop_last()) {
            Err(f) => Err(f),
            Ok(acc) => {
                let e = s.last();
                match entry_failure(ids_of(acc), e.keyid@, e.calculated) {
                    Some(f) => Err(f),
                    None => Ok(acc.push((e.keyid@, e.key))),
                }
            },
        }
    }
}

/// A decode result, as the sequence of accepted entries or the failure.
pub open spec fn outcome_view<K>(r: Result<KeyMap<K>, KeyMapError>) -> Result<
    Seq<(Seq<u8>, K)>,
    KeyMapFailure,
> {
    match r {
        Ok(m) => Ok(m@),
        Err(e) => Err(e@),
    }
}

/// An entry whose declared identifier is the one computed from its key.
pub open spec fn self_consistent<K>(e: KeyEntry<K>) -> bool {
    e.calculated is Ok && e.calculated->Ok_0@ == e.keyid@
}

/// No two entries declare the same identifier.
pub open spec fn distinct_ids<K>(s: Seq<KeyEntry<K>>) -> bool {
    forall|i: int, j: int| 0 <= i < j < s.len() ==> s[i].keyid@ != s[j].keyid@
}

impl<K> View for KeyMap<K> {
    type V = Seq<(Seq<u8>, K)>;

    closed spec fn view(&self) -> Seq<(Seq<u8>, K)> {
        self.entries@.map_values(|p: (Vec<u8>, K)| (p.0@, p.1))
    }
}

/// Whether two byte strings are equal.
fn bytes_eq(a: &Vec<u8>, b: &Vec<u8>) -> (r: bool)
    ensures
        r == (a@ == b@),
{
    if a.len() != b.len() {
        return false;
    }
    let mut i: usize = 0;
    while i < a.len()
        invariant
            a@.len() == b@.len(),
            0 <= i <= a@.len(),
            a@.subrange(0, i as int) == b@.subrange(0, i as int),
        decreases a@.len() - i,
    {
        if a[i] != b[i] {
            assert(a@[i as int] != b@[i as int]);
            return false;
        }
        assert(a@.subrange(0, i + 1) == a@.subrange(0, i as int).push(a@[i as int]));
        assert(b@.subrange(0, i + 1) == b@.subrange(0, i as int).push(b@[i as int]));
        i = i + 1;
    }
    assert(a@ == a@.subrange(0, a@.len() as int));
    assert(b@ == b@.subrange(0, b@.len() as int));
    true
}

impl<K> KeyMap<K> {
    /// Every identifier occurs once.
    pub closed spec fn wf(&self) -> bool {
        forall|i: int, j: int|
            0 <= i < j < self@.len() ==> #[trigger] self@[i].0 != #[trigger] self@[j].0
    }

    /// An empty map.
    pub fn new() -> (r: Self)
        ensures
            r.wf(),
            r@ == Seq::<(Seq<u8>, K)>::empty(),
    {
        let r = KeyMap { entries: Vec::new() };
        assert(r@ =~= Seq::<(Seq<u8>, K)>::empty());
        r
    }

    /// The number of keys.
    pub fn len(&self) -> (r: usize)
        ensures
            r == self@.len(),
    {
        self.entries.len()
    }

    /// The entries, identifier and key, in the order they were accepted.
    pub fn into_entries(self) -> (r: Vec<(Vec<u8>, K)>)
        ensures
            r@.len() == self@.len(),
            forall|i: int| 0 <= i < r@.len() ==> (#[trigger] r@[i]).0@ == self@[i].0 && r@[i].1 == self@[i].1,
    {
        self.entries
    }

    /// Whether some entry has the identifier `id`.
    pub fn contains_id(&self, id: &Vec<u8>) -> (r: bool)
        ensures
            r == ids_of(self@).contains(id@),
    {
        let mut i: usize = 0;
        while i < self.entries.len()
            invariant
                0 <= i <= self@.len(),
                self@.len() == self.entries@.len(),
                forall|j: int| 0 <= j < i ==> self@[j].0 != id@,
            decreases self.entries@.len() - i,
        {
            if bytes_eq(&self.entries[i].0, id) {
                assert(ids_of(self@)[i as int] == id@);
                return true;
            }
            i = i + 1;
        }
        assert forall|j: int| 0 <= j < ids_of(self@).len() implies ids_of(self@)[j] != id@ by {
            assert(self@[j].0 != id@);
        }
        false
    }

    /// The key with identifier `id`, if there is one.
    pub fn get(&self, id: &Vec<u8>) -> (r: Option<&K>)
        requires
            self.wf(),
        ensures
            r is None <==> !ids_of(self@).contains(id@),
            r is Some ==> exists|i: int|
                0 <= i < self@.len() && self@[i].0 == id@ && self@[i].1 == *r->Some_0,
    {
        let mut i: usize = 0;
        while i < self.entries.len()
            invariant
                0 <= i <= self@.len(),
                self@.len() == self.entries@.len(),
                forall|j: int| 0 <= j < i ==> self@[j].0 != id@,
            decreases self.entries@.len() - i,
        {
            if bytes_eq(&self.entries[i].0, id) {
                assert(ids_of(self@)[i as int] == id@);
                assert(self@[i as int].1 == self.entries@[i as int].1);
                return Some(&self.entries[i].1);
            }
            i = i + 1;
        }
        assert forall|j: int| 0 <= j < ids_of(self@).len() implies ids_of(self@)[j] != id@ by {
            assert(self@[j].0 != id@);
        }
        None
    }

    /// Checks one entry and adds it. The entry is refused if its identifier
    /// could not be computed, differs from the declared one, or was declared
    /// before; a refused entry leaves the map as it was.
    pub fn validate_and_insert_entry(
        &mut self,
        keyid: Vec<u8>,
        key: K,
        calculated: Result<Vec<u8>, String>,
    ) -> (r: Result<(), KeyMapError>)
        requires
            old(self).wf(),
        ensures
            final(self).wf(),
            match entry_failure(ids_of(old(self)@), keyid@, calculated) {
                Some(f) => r is Err && r->Err_0@ == f && final(self)@ == old(self)@,
                None => r is Ok && final(self)@ == old(self)@.push((keyid@, key)),
            },
    {
        let calculated = match calculated {
            Err(message) => {
                return Err(KeyMapError::KeyIdComputation { message });
            },
            Ok(c) => c,
        };
        let keyid_hex = encode_hex(&keyid);
        if !bytes_eq(&keyid, &calculated) {
            return Err(KeyMapError::InvalidKeyId { keyid: keyid_hex, calculated: encode_hex(&calculated) });
        }
        if self.contains_id(&keyid) {
            return Err(KeyMapError::DuplicateKeyId { keyid: keyid_hex });
        }
        let ghost before = self@;
        self.entries.push((keyid, key));
        assert(self@ =~= before.push((keyid@, key)));
        assert forall|i: int, j: int|
            0 <= i < j < self@.len() implies #[trigger] self@[i].0 != #[trigger] self@[j].0 by {
            if j == before.len() {
                assert(ids_of(before)[i] == before[i].0);
            }
        }
        Ok(())
    }
}

/// Once a prefix of the entries is refused, so is the whole, with the same
/// failure.
proof fn lemma_failure_persists<K>(s: Seq<KeyEntry<K>>, k: int)
    requires
        0 <= k <= s.len(),
        decode_spec(s.subrange(0, k)) is Err,
    ensures
        decode_spec(s) == decode_spec(s.subrange(0, k)),
    decreases s.len() - k,
{
    if k < s.len() {
        assert(s.subrange(0, k + 1).drop_last() == s.subrange(0, k));
        lemma_failure_persists(s, k + 1);
    } else {
        assert(s.subrange(0, k) == s);
    }
}

/// A successful decode holds each entry's identifier and key, in input order.
pub proof fn lemma_decode_ok_entries<K>(s: Seq<KeyEntry<K>>)
    requires
        decode_spec(s) is Ok,
    ensures
        decode_spec(s)->Ok_0.len() == s.len(),
        forall|k: int|
            0 <= k < s.len() ==> #[trigger] decode_spec(s)->Ok_0[k] == (s[k].keyid@, s[k].key),
    decreases s.len(),
{
    if s.len() > 0 {
        lemma_decode_ok_entries(s.drop_last());
    }
}

/// Decoding is a function of the entries: two results that both meet the
/// contract of `decode_keys` on the same entries are the same map or the same
/// failure.
pub proof fn lemma_decode_deterministic<K>(
    s: Seq<KeyEntry<K>>,
    r1: Result<KeyMap<K>, KeyMapError>,
    r2: Result<KeyMap<K>, KeyMapError>,
)
    requires
        outcome_view(r1) == decode_spec(s),
        outcome_view(r2) == decode_spec(s),
    ensures
        outcome_view(r1) == outcome_view(r2),
        r1 is Ok <==> r2 is Ok,
{
}

/// Entries that are all self-consistent, with distinct identifiers, decode
/// to a map with exactly one entry per input entry.
pub proof fn lemma_no_silent_loss<K>(s: Seq<KeyEntry<K>>)
    requires
        forall|i: int| 0 <= i < s.len() ==> self_consistent(#[trigger] s[i]),
        distinct_ids(s),
    ensures
        decode_spec(s) is Ok,
        decode_spec(s)->Ok_0.len() == s.len(),
        forall|k: int|
            0 <= k < s.len() ==> #[trigger] decode_spec(s)->Ok_0[k] == (s[k].keyid@, s[k].key),
    decreases s.len(),
{
    if s.len() > 0 {
        let t = s.drop_last();
        assert forall|i: int| 0 <= i < t.len() implies self_consistent(#[trigger] t[i]) by {
            assert(t[i] == s[i]);
        }
        lemma_no_silent_loss(t);
        let acc = decode_spec(t)->Ok_0;
        assert(self_consistent(s[s.len() - 1]));
        assert(!ids_of(acc).contains(s.last().keyid@)) by {
            if ids_of(acc).contains(s.last().keyid@) {
                let m = choose|m: int| 0 <= m < ids_of(acc).len() && ids_of(acc)[m] == s.last().keyid@;
                assert(acc[m] == (t[m].keyid@, t[m].key));
                assert(s[m].keyid@ == s[s.len() - 1].keyid@);
            }
        }
        lemma_decode_ok_entries(s);
    }
}

/// An entry whose declared identifier differs from the computed one makes
/// the decode fail with that mismatch, when the entries before it are
/// self-consistent and distinct.
pub proof fn lemma_mismatch_detected<K>(s: Seq<KeyEntry<K>>, i: int)
    requires
        0 <= i < s.len(),
        forall|j: int| 0 <= j < i ==> self_consistent(#[trigger] s[j]),
        distinct_ids(s.subrange(0, i)),
        s[i].calculated is Ok,
        s[i].calculated->Ok_0@ != s[i].keyid@,
    ensures
        decode_spec(s) == Err::<Seq<(Seq<u8>, K)>, KeyMapFailure>(
            KeyMapFailure::InvalidKeyId(hex_of(s[i].keyid@), hex_of(s[i].calculated->Ok_0@)),
        ),
{
    let p = s.subrange(0, i);
    assert forall|j: int| 0 <= j < p.len() implies self_consistent(#[trigger] p[j]) by {
        assert(p[j] == s[j]);
    }
    lemma_no_silent_loss(p);
    assert(s.subrange(0, i + 1).drop_last() == p);
    assert(s.subrange(0, i + 1).last() == s[i]);
    lemma_failure_persists(s, i + 1);
}

/// Self-consistent entries decode exactly when their identifiers are
/// distinct; otherwise the failure names an identifier declared twice.
pub proof fn lemma_duplicate_detected<K>(s: Seq<KeyEntry<K>>)
    requires
        forall|i: int| 0 <= i < s.len() ==> self_consistent(#[trigger] s[i]),
    ensures
        decode_spec(s) is Ok <==> distinct_ids(s),
        decode_spec(s) is Err ==> exists|m: int, k: int|
            0 <= m < k < s.len() && s[m].keyid@ == s[k].keyid@ && decode_spec(s)->Err_0
                == KeyMapFailure::DuplicateKeyId(hex_of(s[k].keyid@)),
    decreases s.len(),
{
    if s.len() > 0 {
        let t = s.drop_last();
        let n = s.len() - 1;
        assert forall|i: int| 0 <= i < t.len() implies self_consistent(#[trigger] t[i]) by {
            assert(t[i] == s[i]);
        }
        lemma_duplicate_detected(t);
        if decode_spec(t) is Err {
            let (m, k) = choose|m: int, k: int|
                0 <= m < k < t.len() && t[m].keyid@ == t[k].keyid@ && decode_spec(t)->Err_0
                    == KeyMapFailure::DuplicateKeyId(hex_of(t[k].keyid@));
            assert(s[m] == t[m] && s[k] == t[k]);
        } else {
            lemma_decode_ok_entries(t);
            let acc = decode_spec(t)->Ok_0;
            assert(self_consistent(s[n]));
            if ids_of(acc).contains(s.last().keyid@) {
                let m = choose|m: int| 0 <= m < ids_of(acc).len() && ids_of(acc)[m] == s.last().keyid@;
                assert(acc[m] == (t[m].keyid@, t[m].key));
                assert(s[m].keyid@ == s[n].keyid@);
            } else {
                assert forall|i: int, j: int| 0 <= i < j < s.len() implies s[i].keyid@ != s[j].keyid@ by {
                    if j == n {
                        assert(acc[i] == (t[i].keyid@, t[i].key));
                        assert(ids_of(acc)[i] == s[i].keyid@);
                    } else {
                        assert(t[i] == s[i] && t[j] == s[j]);
                    }
                }
            }
        }
    }
}

/// Decodes a key map from its entries, in order: the first entry that is
/// refused decides the error, and no map is returned then.
pub fn decode_keys<K>(entries: Vec<KeyEntry<K>>) -> (r: Result<KeyMap<K>, KeyMapError>)
    ensures
        outcome_view(r) == decode_spec(entries@),
        r is Ok ==> r->Ok_0.wf(),
{
    let ghost all = entries@;
    let mut pending = entries;
    let mut map = KeyMap::new();
    let mut i: usize = 0;
    let n = pending.len();
    while i < n
        invariant
            all == entries@,
            n == all.len(),
            0 <= i <= n,
            pending@ == all.subrange(i as int, n as int),
            map.wf(),
            decode_spec(all.subrange(0, i as int)) == Ok::<_, KeyMapFailure>(map@),
        decreases n - i,
    {
        let e = pending.remove(0);
        assert(e == all[i as int]);
        assert(all.subrange(0, i + 1).last() == all[i as int]);
        assert(all.subrange(0, i + 1).drop_last() == all.subrange(0, i as int));
        assert(all.subrange(i + 1, n as int) =~= all.subrange(i as int, n as int).remove(0));
        match map.validate_and_insert_entry(e.keyid, e.key, e.calculated) {
            Err(err) => {
                proof {
                    assert(decode_spec(all.subrange(0, i + 1)) == Err::<Seq<(Seq<u8>, K)>, _>(err@));
                    lemma_failure_persists(all, i + 1);
                }
                return Err(err);
            },
            Ok(()) => {},
        }
        i = i + 1;
    }
    assert(all.subrange(0, n as int) == all);
    Ok(map)
}

} // verus!
