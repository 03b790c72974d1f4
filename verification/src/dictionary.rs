use vstd::prelude::*;
use vstd::utf8::*;

use crate::checksum::{lemma_low_bits, low4, rotate32, rotl32};
use crate::cursor::{le16, Cursor};
use crate::error::{JunctionError, Result, Subject};
use crate::model::views;

verus! {

/// A named value from a dictionary page.
#[derive(Clone, Debug)]
pub struct DictionaryEntry {
    pub id: u16,
    pub class: DictionaryClass,
    pub flags: u8,
    pub name: String,
    pub value: Vec<u8>,
}

pub ghost struct DictionaryEntryModel {
    pub id: u16,
    pub class: DictionaryClass,
    pub flags: u8,
    pub name: Seq<char>,
    pub value: Seq<u8>,
}

impl View for DictionaryEntry {
    type V = DictionaryEntryModel;

    open spec fn view(&self) -> DictionaryEntryModel {
        DictionaryEntryModel {
            id: self.id,
            class: self.class,
            flags: self.flags,
            name: self.name@,
            value: self.value@,
        }
    }
}

#[derive(Copy, Clone, Debug, PartialEq, Eq, Structural)]
pub enum DictionaryClass {
    Circuit,
    Signal,
    Route,
    Maintainer,
    Phrase,
    Vendor(u8),
}

pub open spec fn class_of(byte: u8) -> DictionaryClass {
    if byte == 1 {
        DictionaryClass::Circuit
    } else if byte == 2 {
        DictionaryClass::Signal
    } else if byte == 3 {
        DictionaryClass::Route
    } else if byte == 4 {
        DictionaryClass::Maintainer
    } else if byte == 5 {
        DictionaryClass::Phrase
    } else {
        DictionaryClass::Vendor(byte)
    }
}

impl DictionaryClass {
    pub fn from_byte(byte: u8) -> (c: Self)
        ensures
            c == class_of(byte),
    {
        match byte {
            1 => DictionaryClass::Circuit,
            2 => DictionaryClass::Signal,
            3 => DictionaryClass::Route,
            4 => DictionaryClass::Maintainer,
            5 => DictionaryClass::Phrase,
            other => DictionaryClass::Vendor(other),
        }
    }
}

/// `e` is stored under the key `(id, class)`.
pub open spec fn has_key(e: DictionaryEntryModel, id: u16, class: DictionaryClass) -> bool {
    e.id == id && e.class == class
}

/// `i` is the first position of `d` that holds the key `(id, class)`.
pub open spec fn is_first_key(
    d: Seq<DictionaryEntryModel>,
    id: u16,
    class: DictionaryClass,
    i: int,
) -> bool {
    &&& 0 <= i < d.len()
    &&& has_key(d[i], id, class)
    &&& forall|j: int| 0 <= j < i ==> !has_key(#[trigger] d[j], id, class)
}

/// `i` is the first position of `d` whose entry has the id `id`, whatever its class.
pub open spec fn is_first_id(d: Seq<DictionaryEntryModel>, id: u16, i: int) -> bool {
    &&& 0 <= i < d.len()
    &&& d[i].id == id
    &&& forall|j: int| 0 <= j < i ==> (#[trigger] d[j]).id != id
}

/// The first entry of `d` stored under `(id, class)`.
pub open spec fn find_key(
    d: Seq<DictionaryEntryModel>,
    id: u16,
    class: DictionaryClass,
) -> Option<DictionaryEntryModel> {
    if exists|i: int| is_first_key(d, id, class, i) {
        Some(d[choose|i: int| is_first_key(d, id, class, i)])
    } else {
        None
    }
}

/// The first entry of `d` with the id `id`.
pub open spec fn find_id(d: Seq<DictionaryEntryModel>, id: u16) -> Option<DictionaryEntryModel> {
    if exists|i: int| is_first_id(d, id, i) {
        Some(d[choose|i: int| is_first_id(d, id, i)])
    } else {
        None
    }
}

/// `d` after `e` is stored: it replaces the first entry with the same key, or is appended.
pub open spec fn upsert_entry(
    d: Seq<DictionaryEntryModel>,
    e: DictionaryEntryModel,
) -> Seq<DictionaryEntryModel> {
    if exists|i: int| is_first_key(d, e.id, e.class, i) {
        d.update(choose|i: int| is_first_key(d, e.id, e.class, i), e)
    } else {
        d.push(e)
    }
}

/// `d` after each of `es` is stored in turn.
pub open spec fn upsert_all(
    d: Seq<DictionaryEntryModel>,
    es: Seq<DictionaryEntryModel>,
) -> Seq<DictionaryEntryModel>
    decreases es.len(),
{
    if es.len() == 0 {
        d
    } else {
        upsert_all(upsert_entry(d, es[0]), es.drop_first())
    }
}

/// No two entries of `d` share a key.
pub open spec fn keys_unique(d: Seq<DictionaryEntryModel>) -> bool {
    forall|i: int, j: int|
        0 <= i < d.len() && 0 <= j < d.len() && i != j ==> !has_key(
            #[trigger] d[i],
            d[j].id,
            #[trigger] d[j].class,
        )
}

/// Storing an entry never makes two entries share a key.
pub proof fn lemma_upsert_keeps_keys_unique(d: Seq<DictionaryEntryModel>, e: DictionaryEntryModel)
    requires
        keys_unique(d),
    ensures
        keys_unique(upsert_entry(d, e)),
{
    let r = upsert_entry(d, e);
    if exists|i: int| is_first_key(d, e.id, e.class, i) {
        let k = choose|i: int| is_first_key(d, e.id, e.class, i);
        assert forall|i: int, j: int|
            0 <= i < r.len() && 0 <= j < r.len() && i != j implies !has_key(
            #[trigger] r[i],
            r[j].id,
            #[trigger] r[j].class,
        ) by {
            if i == k {
                assert(!has_key(d[j], d[k].id, d[k].class));
            } else if j == k {
                assert(!has_key(d[i], d[k].id, d[k].class));
            }
        }
    } else {
        assert forall|i: int, j: int|
            0 <= i < r.len() && 0 <= j < r.len() && i != j implies !has_key(
            #[trigger] r[i],
            r[j].id,
            #[trigger] r[j].class,
        ) by {
            if i == d.len() {
                if has_key(d[j], e.id, e.class) {
                    assert(forall|t: int| 0 <= t < j ==> !has_key(#[trigger] d[t], e.id, e.class)) by {
                        assert forall|t: int| 0 <= t < j implies !has_key(#[trigger] d[t], e.id, e.class) by {
                            if has_key(d[t], e.id, e.class) {
                                assert(has_key(d[t], d[j].id, d[j].class));
                            }
                        }
                    }
                    assert(is_first_key(d, e.id, e.class, j));
                }
            } else if j == d.len() {
                if has_key(d[i], e.id, e.class) {
                    assert forall|t: int| 0 <= t < i implies !has_key(#[trigger] d[t], e.id, e.class) by {
                        if has_key(d[t], e.id, e.class) {
                            assert(has_key(d[t], d[i].id, d[i].class));
                        }
                    }
                    assert(is_first_key(d, e.id, e.class, i));
                }
            }
        }
    }
}

/// Storing entries one after another never makes two entries share a key.
pub proof fn lemma_upsert_all_keeps_keys_unique(
    d: Seq<DictionaryEntryModel>,
    es: Seq<DictionaryEntryModel>,
)
    requires
        keys_unique(d),
    ensures
        keys_unique(upsert_all(d, es)),
    decreases es.len(),
{
    if es.len() > 0 {
        lemma_upsert_keeps_keys_unique(d, es[0]);
        lemma_upsert_all_keeps_keys_unique(upsert_entry(d, es[0]), es.drop_first());
    }
}

/// A lookup of the key of an entry just stored gives that entry back.
pub proof fn lemma_lookup_after_upsert(d: Seq<DictionaryEntryModel>, e: DictionaryEntryModel)
    ensures
        find_key(upsert_entry(d, e), e.id, e.class) == Some(e),
{
    let r = upsert_entry(d, e);
    if exists|i: int| is_first_key(d, e.id, e.class, i) {
        let k = choose|i: int| is_first_key(d, e.id, e.class, i);
        assert(is_first_key(r, e.id, e.class, k));
        let c = choose|i: int| is_first_key(r, e.id, e.class, i);
        assert(c == k) by {
            if c < k {
                assert(!has_key(r[c], e.id, e.class));
            }
            if c > k {
                assert(!has_key(r[k], e.id, e.class));
            }
        }
    } else {
        let n = d.len() as int;
        assert forall|j: int| 0 <= j < n implies !has_key(#[trigger] r[j], e.id, e.class) by {
            if has_key(d[j], e.id, e.class) {
                lemma_first_key_exists(d, e.id, e.class, j);
            }
        }
        assert(is_first_key(r, e.id, e.class, n));
        let c = choose|i: int| is_first_key(r, e.id, e.class, i);
        assert(c == n) by {
            if c < n {
                assert(!has_key(r[c], e.id, e.class));
            }
        }
    }
}

/// Where some entry has the key, a first one does.
pub proof fn lemma_first_key_exists(
    d: Seq<DictionaryEntryModel>,
    id: u16,
    class: DictionaryClass,
    j: int,
)
    requires
        0 <= j < d.len(),
        has_key(d[j], id, class),
    ensures
        exists|i: int| is_first_key(d, id, class, i),
    decreases j,
{
    if forall|t: int| 0 <= t < j ==> !has_key(#[trigger] d[t], id, class) {
        assert(is_first_key(d, id, class, j));
    } else {
        let t = choose|t: int| 0 <= t < j && has_key(#[trigger] d[t], id, class);
        lemma_first_key_exists(d, id, class, t);
    }
}

/// Storing an entry leaves what every other key looks up unchanged.
pub proof fn lemma_upsert_keeps_other_keys(
    d: Seq<DictionaryEntryModel>,
    e: DictionaryEntryModel,
    id: u16,
    class: DictionaryClass,
)
    requires
        !(id == e.id && class == e.class),
    ensures
        find_key(upsert_entry(d, e), id, class) == find_key(d, id, class),
{
    let r = upsert_entry(d, e);
    assert forall|j: int| 0 <= j < d.len() implies has_key(#[trigger] r[j], id, class) == has_key(
        d[j],
        id,
        class,
    ) by {}
    if r.len() > d.len() {
        assert(!has_key(r[d.len() as int], id, class));
    }
    assert forall|i: int| is_first_key(r, id, class, i) implies is_first_key(d, id, class, i) by {
        assert forall|j: int| 0 <= j < i implies !has_key(#[trigger] d[j], id, class) by {
            assert(!has_key(r[j], id, class));
        }
    }
    assert forall|i: int| is_first_key(d, id, class, i) implies is_first_key(r, id, class, i) by {
        assert forall|j: int| 0 <= j < i implies !has_key(#[trigger] r[j], id, class) by {
            assert(!has_key(d[j], id, class));
        }
    }
    if exists|i: int| is_first_key(d, id, class, i) {
        let a = choose|i: int| is_first_key(d, id, class, i);
        let b = choose|i: int| is_first_key(r, id, class, i);
        assert(is_first_key(r, id, class, a));
        assert(is_first_key(d, id, class, b));
        assert(a == b) by {
            if a < b {
                assert(!has_key(d[a], id, class));
            }
            if b < a {
                assert(!has_key(d[b], id, class));
            }
        }
        assert(r[b] == d[a]);
    }
}

/// Storing an entry keeps the dictionary's size or adds one.
pub proof fn lemma_upsert_size(d: Seq<DictionaryEntryModel>, e: DictionaryEntryModel)
    ensures
        upsert_entry(d, e).len() == d.len() || upsert_entry(d, e).len() == d.len() + 1,
{
}

/// The entries of a dictionary page found from position `p`, with at most `left`
/// entries still to read, and the error that stopped the page, if any.
pub open spec fn page_entries_from(s: Seq<u8>, p: int, left: nat) -> (
    Seq<DictionaryEntryModel>,
    Option<JunctionError>,
)
    decreases left,
{
    if left == 0 || s.len() - p < 7 || p < 0 {
        (seq![], None)
    } else {
        let name_len = s[p + 4] as int;
        let value_len = le16(s, p + 5) as int;
        if name_len > 96 || value_len > 512 {
            (seq![], Some(JunctionError::LimitExceeded(Subject::DictionaryEntry)))
        } else if s.len() - (p + 7) < name_len + value_len {
            (seq![], None)
        } else {
            let name = s.subrange(p + 7, p + 7 + name_len);
            if !valid_utf8(name) {
                (seq![], Some(JunctionError::InvalidUtf8))
            } else {
                let entry = DictionaryEntryModel {
                    id: le16(s, p),
                    class: class_of(s[p + 2]),
                    flags: s[p + 3],
                    name: decode_utf8(name),
                    value: s.subrange(p + 7 + name_len, p + 7 + name_len + value_len),
                };
                let rest = page_entries_from(s, p + 7 + name_len + value_len, (left - 1) as nat);
                (seq![entry] + rest.0, rest.1)
            }
        }
    }
}

/// The entries of a dictionary page, and the error that stopped it, if any.
pub open spec fn page_entries(s: Seq<u8>) -> (Seq<DictionaryEntryModel>, Option<JunctionError>) {
    if s.len() == 0 {
        (seq![], None)
    } else {
        page_entries_from(s, 1, if s[0] < 96 { s[0] as nat } else { 96 })
    }
}

/// `needle` occurs in `v` as a run of consecutive bytes.
pub open spec fn contains_run(v: Seq<u8>, needle: Seq<u8>) -> bool {
    exists|k: int| 0 <= k && k + needle.len() <= v.len() && #[trigger] v.subrange(k, k + needle.len()) == needle
}

/// Some phrase entry of `d` contains `needle`.
pub open spec fn phrase_has(d: Seq<DictionaryEntryModel>, needle: Seq<u8>) -> bool {
    exists|i: int|
        0 <= i < d.len() && (#[trigger] d[i]).class == DictionaryClass::Phrase && contains_run(
            d[i].value,
            needle,
        )
}

/// Some two consecutive bytes of `v` read `x` in little-endian order.
pub open spec fn has_le16(v: Seq<u8>, x: u16) -> bool {
    exists|k: int| 0 <= k && k + 1 < v.len() && le16(v, k) == x
}

/// The entry `e` bears on the route `route_id`.
pub open spec fn bears_on(e: DictionaryEntryModel, route_id: u16) -> bool {
    e.id == route_id || has_le16(e.value, route_id)
}

/// The route bias after the entries of `d`, in order.
pub open spec fn bias_over(d: Seq<DictionaryEntryModel>, route_id: u16) -> u32
    decreases d.len(),
{
    if d.len() == 0 {
        route_id as u32
    } else {
        let prev = bias_over(d.drop_last(), route_id);
        let e = d.last();
        if bears_on(e, route_id) {
            rotl32(prev, low4(e.flags) as u32) ^ (e.value.len() as u32)
        } else {
            prev
        }
    }
}

/// Whether `needle` occurs in `v` as a run of consecutive bytes.
pub fn has_run(v: &[u8], needle: &[u8]) -> (r: bool)
    requires
        needle@.len() > 0,
    ensures
        r == contains_run(v@, needle@),
{
    let n = needle.len();
    if n > v.len() {
        proof {
            assert forall|k: int| 0 <= k && k + n <= v@.len() implies #[trigger] v@.subrange(
                k,
                k + n,
            ) != needle@ by {}
        }
        return false;
    }
    let len = v.len();
    let last = len - n;
    let mut k: usize = 0;
    while k <= last
        invariant
            len == v@.len(),
            n == needle@.len(),
            n <= v@.len(),
            last == v@.len() - n,
            k <= last + 1,
            forall|j: int| 0 <= j < k ==> #[trigger] v@.subrange(j, j + n) != needle@,
        decreases last + 1 - k,
    {
        let mut m: usize = 0;
        let mut same = true;
        while m < n
            invariant
                n == needle@.len(),
                len == v@.len(),
                k <= last,
                last == v@.len() - n,
                m <= n,
                same == (forall|t: int| 0 <= t < m ==> v@[k + t] == needle@[t]),
            decreases n - m,
        {
            if v[k + m] != needle[m] {
                same = false;
            }
            m = m + 1;
        }
        if same {
            assert(v@.subrange(k as int, k + n) =~= needle@);
            return true;
        }
        proof {
            let t = choose|t: int| 0 <= t < n && v@[k + t] != needle@[t];
            assert(v@.subrange(k as int, k + n)[t] != needle@[t]);
        }
        k = k + 1;
    }
    false
}

/// Whether some two consecutive bytes of `v` read `x` in little-endian order.
pub fn has_pair(v: &[u8], x: u16) -> (r: bool)
    ensures
        r == has_le16(v@, x),
{
    if v.len() < 2 {
        return false;
    }
    let mut k: usize = 0;
    while k < v.len() - 1
        invariant
            v@.len() >= 2,
            k <= v@.len() - 1,
            forall|j: int| 0 <= j < k ==> le16(v@, j) != x,
        decreases v.len() - k,
    {
        if v[k] as u16 + (v[k + 1] as u16) * 256 == x {
            assert(le16(v@, k as int) == x);
            return true;
        }
        k = k + 1;
    }
    false
}

/// The dictionary pages of a bundle, merged.
#[derive(Clone, Debug)]
pub struct Dictionary {
    entries: Vec<DictionaryEntry>,
}

impl View for Dictionary {
    type V = Seq<DictionaryEntryModel>;

    closed spec fn view(&self) -> Seq<DictionaryEntryModel> {
        views(self.entries@)
    }
}

impl Default for Dictionary {
    fn default() -> (d: Self)
        ensures
            d@ == Seq::<DictionaryEntryModel>::empty(),
    {
        Self::new()
    }
}

impl Dictionary {
    pub fn new() -> (d: Self)
        ensures
            d@ == Seq::<DictionaryEntryModel>::empty(),
    {
        let d = Self { entries: Vec::new() };
        assert(d@ =~= Seq::<DictionaryEntryModel>::empty());
        d
    }

    /// Reads a dictionary page and stores its entries. The entries read before an
    /// error stay stored.
    pub fn parse_page(&mut self, data: &[u8]) -> (r: Result<()>)
        ensures
            final(self)@ == upsert_all(old(self)@, page_entries(data@).0),
            r == match page_entries(data@).1 {
                None => Ok::<(), JunctionError>(()),
                Some(e) => Err(e),
            },
    {
        let mut c = Cursor::new(data);
        if c.is_empty() {
            return Ok(());
        }
        let count = c.read_u8()? as usize;
        let mut left: usize = if count < 96 { count } else { 96 };
        let ghost s = data@;
        let ghost start = *old(self);
        while left > 0
            invariant
                c.bytes() == s,
                s == data@,
                start == *old(self),
                1 <= c.pos() <= s.len(),
                upsert_all(start@, page_entries(s).0) == upsert_all(
                    self@,
                    page_entries_from(s, c.pos(), left as nat).0,
                ),
                page_entries(s).1 == page_entries_from(s, c.pos(), left as nat).1,
            decreases left,
        {
            let ghost p = c.pos();
            if c.remaining() < 7 {
                assert(page_entries_from(s, p, left as nat) == (
                    Seq::<DictionaryEntryModel>::empty(),
                    None::<JunctionError>,
                ));
                assert(upsert_all(self@, Seq::<DictionaryEntryModel>::empty()) == self@);
                return Ok(());
            }
            let id = c.read_u16()?;
            let class = DictionaryClass::from_byte(c.read_u8()?);
            let flags = c.read_u8()?;
            let name_len = c.read_u8()? as usize;
            let value_len = c.read_u16()? as usize;
            assert(name_len == s[p + 4] && value_len == le16(s, p + 5));
            if name_len > 96 || value_len > 512 {
                assert(page_entries_from(s, p, left as nat) == (
                    Seq::<DictionaryEntryModel>::empty(),
                    Some(JunctionError::LimitExceeded(Subject::DictionaryEntry)),
                ));
                assert(upsert_all(self@, Seq::<DictionaryEntryModel>::empty()) == self@);
                return Err(JunctionError::LimitExceeded(Subject::DictionaryEntry));
            }
            if c.remaining() < name_len + value_len {
                assert(page_entries_from(s, p, left as nat) == (
                    Seq::<DictionaryEntryModel>::empty(),
                    None::<JunctionError>,
                ));
                assert(upsert_all(self@, Seq::<DictionaryEntryModel>::empty()) == self@);
                return Ok(());
            }
            let name = c.read_text(name_len)?;
            let value = c.read_vec(value_len)?;
            let entry = DictionaryEntry { id, class, flags, name, value };
            let ghost rest = page_entries_from(s, c.pos(), (left - 1) as nat);
            proof {
                let es = seq![entry@] + rest.0;
                assert(es[0] == entry@);
                assert(es.drop_first() =~= rest.0);
            }
            self.upsert(entry);
            left = left - 1;
        }
        assert(page_entries_from(s, c.pos(), left as nat).0.len() == 0);
        assert(upsert_all(self@, page_entries_from(s, c.pos(), left as nat).0) == self@);
        Ok(())
    }

    fn upsert(&mut self, entry: DictionaryEntry)
        ensures
            final(self)@ == upsert_entry(old(self)@, entry@),
    {
        let mut i: usize = 0;
        let ghost d = self@;
        while i < self.entries.len()
            invariant
                d == self@,
                d == old(self)@,
                i <= self.entries.len(),
                forall|j: int| 0 <= j < i ==> !has_key(#[trigger] d[j], entry.id, entry.class),
            decreases self.entries.len() - i,
        {
            if self.entries[i].id == entry.id && self.entries[i].class == entry.class {
                let ghost e = entry@;
                self.entries.set(i, entry);
                proof {
                    assert(is_first_key(d, e.id, e.class, i as int));
                    let k = choose|k: int| is_first_key(d, e.id, e.class, k);
                    assert(k == i) by {
                        if k < i {
                            assert(!has_key(d[k], e.id, e.class));
                        }
                        if k > i {
                            assert(!has_key(d[i as int], e.id, e.class));
                        }
                    }
                    assert(self@ =~= d.update(i as int, e));
                }
                return;
            }
            i = i + 1;
        }
        let ghost e = entry@;
        self.entries.push(entry);
        assert(self@ =~= d.push(e));
    }

    pub fn lookup(&self, id: u16) -> (r: Option<&DictionaryEntry>)
        ensures
            match r {
                Some(e) => find_id(self@, id) == Some(e@),
                None => find_id(self@, id) is None,
            },
    {
        let mut i: usize = 0;
        while i < self.entries.len()
            invariant
                i <= self.entries.len(),
                forall|j: int| 0 <= j < i ==> (#[trigger] self@[j]).id != id,
            decreases self.entries.len() - i,
        {
            if self.entries[i].id == id {
                proof {
                    assert(is_first_id(self@, id, i as int));
                    let k = choose|k: int| is_first_id(self@, id, k);
                    assert(k == i) by {
                        if k < i {
                            assert(self@[k].id != id);
                        }
                        if k > i {
                            assert(self@[i as int].id != id);
                        }
                    }
                }
                return Some(&self.entries[i]);
            }
            i = i + 1;
        }
        None
    }

    pub fn lookup_class(&self, id: u16, class: DictionaryClass) -> (r: Option<&DictionaryEntry>)
        ensures
            match r {
                Some(e) => find_key(self@, id, class) == Some(e@),
                None => find_key(self@, id, class) is None,
            },
    {
        let mut i: usize = 0;
        while i < self.entries.len()
            invariant
                i <= self.entries.len(),
                forall|j: int| 0 <= j < i ==> !has_key(#[trigger] self@[j], id, class),
            decreases self.entries.len() - i,
        {
            if self.entries[i].id == id && self.entries[i].class == class {
                proof {
                    assert(is_first_key(self@, id, class, i as int));
                    let k = choose|k: int| is_first_key(self@, id, class, k);
                    assert(k == i) by {
                        if k < i {
                            assert(!has_key(self@[k], id, class));
                        }
                        if k > i {
                            assert(!has_key(self@[i as int], id, class));
                        }
                    }
                }
                return Some(&self.entries[i]);
            }
            i = i + 1;
        }
        None
    }

    /// Whether some phrase entry contains `needle` as a run of bytes. The needle is
    /// not empty wherever there is a phrase entry to search.
    pub fn phrase_contains(&self, needle: &[u8]) -> (r: bool)
        requires
            needle@.len() > 0 || forall|i: int|
                0 <= i < self@.len() ==> (#[trigger] self@[i]).class != DictionaryClass::Phrase,
        ensures
            r == phrase_has(self@, needle@),
    {
        let mut i: usize = 0;
        while i < self.entries.len()
            invariant
                i <= self@.len(),
                needle@.len() > 0 || forall|j: int|
                    0 <= j < self@.len() ==> (#[trigger] self@[j]).class != DictionaryClass::Phrase,
                forall|j: int|
                    0 <= j < i ==> !((#[trigger] self@[j]).class == DictionaryClass::Phrase
                        && contains_run(self@[j].value, needle@)),
            decreases self.entries.len() - i,
        {
            let entry = &self.entries[i];
            if entry.class == DictionaryClass::Phrase {
                assert(self@[i as int].class == DictionaryClass::Phrase);
                if has_run(entry.value.as_slice(), needle) {
                    assert(self@[i as int].value == entry.value@);
                    return true;
                }
            }
            i = i + 1;
        }
        false
    }

    /// The route id folded with every entry that bears on the route.
    pub fn route_bias(&self, route_id: u16) -> (bias: u32)
        ensures
            bias == bias_over(self@, route_id),
    {
        let mut bias = route_id as u32;
        let mut i: usize = 0;
        assert(self@.take(0) =~= Seq::<DictionaryEntryModel>::empty());
        while i < self.entries.len()
            invariant
                i <= self@.len(),
                bias == bias_over(self@.take(i as int), route_id),
            decreases self.entries.len() - i,
        {
            let entry = &self.entries[i];
            assert(self@.take(i + 1).drop_last() =~= self@.take(i as int));
            assert(self@.take(i + 1).last() == entry@);
            if entry.id == route_id || has_pair(entry.value.as_slice(), route_id) {
                proof {
                    lemma_low_bits(entry.flags);
                }
                bias = rotate32(bias, (entry.flags & 15) as u32) ^ (entry.value.len() as u32);
            }
            i = i + 1;
        }
        assert(self@.take(self@.len() as int) =~= self@);
        bias
    }

    pub fn len(&self) -> (n: usize)
        ensures
            n == self@.len(),
    {
        self.entries.len()
    }

    pub fn is_empty(&self) -> (b: bool)
        ensures
            b == (self@.len() == 0),
    {
        self.entries.len() == 0
    }

    pub fn entries(&self) -> (r: &[DictionaryEntry])
        ensures
            views(r@) == self@,
    {
        self.entries.as_slice()
    }
}

} // verus!
