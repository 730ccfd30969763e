//! Text handling for the trace records: hashing, comparison and interning of strings.
use vstd::prelude::*;
use vstd::std_specs::iter::IteratorSpec;
use std::collections::HashMap;

verus! {

/// FNV-1a hash of a character sequence (one step per character code), wrapping at 64 bits.
pub open spec fn text_hash_spec(s: Seq<char>) -> u64
    decreases s.len(),
{
    if s.len() == 0 {
        0xcbf2_9ce4_8422_2325u64
    } else {
        vstd::wrapping::u64_specs::wrapping_mul(text_hash_spec(s.drop_last()) ^ (s.last() as u32 as u64), 0x100_0000_01b3u64)
    }
}

/// Hashes the characters of `s`.
pub fn text_hash(s: &str) -> (h: u64)
    ensures
        h == text_hash_spec(s@),
{
    broadcast use vstd::string::axiom_spec_iter, vstd::string::next_postcondition;

    let mut chars = s.chars();
    let ghost full = s@;
    let mut h: u64 = 0xcbf2_9ce4_8422_2325;
    let ghost mut i: int = 0;
    proof {
        assert(full.take(0) =~= Seq::<char>::empty());
    }
    loop
        invariant
            0 <= i <= full.len(),
            chars.remaining() == full.skip(i),
            h == text_hash_spec(full.take(i)),
        ensures
            h == text_hash_spec(full),
        decreases full.len() - i,
    {
        match chars.next() {
            Some(c) => {
                proof {
                    assert(c == full[i]);
                    assert(full.take(i + 1).drop_last() =~= full.take(i));
                    assert(full.skip(i).drop_first() =~= full.skip(i + 1));
                }
                h = (h ^ (c as u32 as u64)).wrapping_mul(0x100_0000_01b3);
                proof {
                    i = i + 1;
                }
            },
            None => {
                proof {
                    assert(i == full.len());
                    assert(full.take(i) =~= full);
                }
                break;
            },
        }
    }
    h
}


/// Collects characters into a `String` with `FromIterator<char>`, which appends them in
/// order.
#[verifier::external_body]
pub(crate) fn string_of(chars: &[char]) -> (text: String)
    ensures
        text@ == chars@,
{
    chars.iter().collect()
}

/// The characters of `s`.
pub fn chars_of(s: &str) -> (chars: Vec<char>)
    ensures
        chars@ == s@,
{
    broadcast use vstd::string::axiom_spec_iter, vstd::string::next_postcondition;

    let mut it = s.chars();
    let ghost full = s@;
    let mut out: Vec<char> = Vec::new();
    loop
        invariant
            out@.len() <= full.len(),
            it.remaining() == full.skip(out@.len() as int),
            out@ == full.take(out@.len() as int),
        ensures
            out@ == full,
        decreases full.len() - out@.len(),
    {
        match it.next() {
            Some(c) => {
                proof {
                    assert(c == full[out@.len() as int]);
                    assert(full.skip(out@.len() as int).drop_first() =~= full.skip(out@.len() as int + 1));
                    assert(full.take(out@.len() as int + 1) =~= full.take(out@.len() as int).push(c));
                }
                out.push(c);
            },
            None => {
                proof {
                    assert(full.take(out@.len() as int) =~= full);
                }
                break;
            },
        }
    }
    out
}

/// Whether two strings hold the same characters.
pub fn str_eq(a: &str, b: &str) -> (same: bool)
    ensures
        same == (a@ == b@),
{
    broadcast use vstd::string::axiom_spec_iter, vstd::string::next_postcondition;

    let mut xs = a.chars();
    let mut ys = b.chars();
    let ghost mut i: int = 0;
    loop
        invariant
            0 <= i <= a@.len(),
            i <= b@.len(),
            xs.remaining() == a@.skip(i),
            ys.remaining() == b@.skip(i),
            a@.take(i) == b@.take(i),
        decreases a@.len() - i,
    {
        let x = xs.next();
        let y = ys.next();
        match (x, y) {
            (Some(cx), Some(cy)) => {
                if cx != cy {
                    proof {
                        assert(a@[i] != b@[i]);
                    }
                    return false;
                }
                proof {
                    assert(a@.skip(i).drop_first() =~= a@.skip(i + 1));
                    assert(b@.skip(i).drop_first() =~= b@.skip(i + 1));
                    assert(a@.take(i + 1) =~= a@.take(i).push(cx));
                    assert(b@.take(i + 1) =~= b@.take(i).push(cy));
                    i = i + 1;
                }
            },
            (None, None) => {
                proof {
                    assert(a@ =~= a@.take(i));
                    assert(b@ =~= b@.take(i));
                }
                return true;
            },
            (Some(_), None) => {
                proof {
                    assert(a@.len() != b@.len());
                }
                return false;
            },
            (None, Some(_)) => {
                proof {
                    assert(a@.len() != b@.len());
                }
                return false;
            },
        }
    }
}

/// The table after interning `s`: unchanged if it holds `s`, else `s` appended.
pub open spec fn interned(table: Seq<Seq<char>>, s: Seq<char>) -> Seq<Seq<char>> {
    if table.contains(s) {
        table
    } else {
        table.push(s)
    }
}

/// The views of a sequence of strings.
pub open spec fn texts_of(values: Seq<String>) -> Seq<Seq<char>> {
    values.map_values(|v: String| v@)
}

/// A string table that hands out one id per distinct string, in order of first use.
pub struct StringInterner {
    values: Vec<String>,
    buckets: HashMap<u64, Vec<u32>>,
}

impl View for StringInterner {
    type V = Seq<Seq<char>>;

    /// The interned strings by id.
    closed spec fn view(&self) -> Seq<Seq<char>> {
        texts_of(self.values@)
    }
}

impl StringInterner {
    pub closed spec fn wf(&self) -> bool {
        &&& self.values.len() <= u32::MAX
        &&& texts_of(self.values@).no_duplicates()
        &&& forall|h: u64, j: int|
            #![trigger self.buckets@[h]@[j]]
            self.buckets@.contains_key(h) && 0 <= j < self.buckets@[h]@.len() ==> {
                let id = self.buckets@[h]@[j] as int;
                &&& 0 <= id < self.values.len()
                &&& text_hash_spec(self.values@[id]@) == h
            }
        &&& forall|id: int|
            0 <= id < self.values.len() ==> #[trigger] self.buckets@.contains_key(text_hash_spec(self.values@[id]@))
                && self.buckets@[text_hash_spec(self.values@[id]@)]@.contains(id as u32)
    }

    /// An empty table.
    pub fn new() -> (table: Self)
        ensures
            table.wf(),
            table@ == Seq::<Seq<char>>::empty(),
    {
        let table = StringInterner { values: Vec::new(), buckets: HashMap::new() };
        proof {
            assert(table@ =~= Seq::<Seq<char>>::empty());
        }
        table
    }

    /// No string occurs twice.
    pub proof fn lemma_distinct(&self)
        requires
            self.wf(),
        ensures
            self@.no_duplicates(),
            self@.len() <= u32::MAX,
    {
    }

    /// Number of strings.
    pub fn len(&self) -> (n: usize)
        requires
            self.wf(),
        ensures
            n == self@.len(),
    {
        self.values.len()
    }

    /// The id of `value` if it is in the table.
    pub fn lookup(&self, value: &str) -> (id: Option<u32>)
        requires
            self.wf(),
        ensures
            id is None <==> !self@.contains(value@),
            id matches Some(i) ==> (i as int) < self@.len() && self@[i as int] == value@,
    {
        broadcast use vstd::std_specs::hash::group_hash_axioms;

        let h = text_hash(value);
        match self.buckets.get(&h) {
            Some(bucket) => {
                let mut j: usize = 0;
                while j < bucket.len()
                    invariant
                        self.wf(),
                        h == text_hash_spec(value@),
                        self.buckets@.contains_key(h),
                        *bucket == self.buckets@[h],
                        j <= bucket.len(),
                        forall|q: int| 0 <= q < j ==> self@[bucket@[q] as int] != value@,
                    decreases bucket.len() - j,
                {
                    let id = bucket[j];
                    proof {
                        assert(self.buckets@[h]@[j as int] == id);
                    }
                    if str_eq(self.values[id as usize].as_str(), value) {
                        proof {
                            assert(self@[id as int] == value@);
                            assert(self@.contains(value@));
                        }
                        return Some(id);
                    }
                    j = j + 1;
                }
                proof {
                    if self@.contains(value@) {
                        let id = choose|id: int| 0 <= id < self@.len() && self@[id] == value@;
                        assert(self.values@[id]@ == value@);
                        assert(self.buckets@[h]@.contains(id as u32));
                        let q = choose|q: int| 0 <= q < bucket@.len() && bucket@[q] == id as u32;
                    }
                }
                None
            },
            None => {
                proof {
                    if self@.contains(value@) {
                        let id = choose|id: int| 0 <= id < self@.len() && self@[id] == value@;
                        assert(self.values@[id]@ == value@);
                    }
                }
                None
            },
        }
    }

    /// The id of `value`, adding it to the table if it is new.
    pub fn intern(&mut self, value: String) -> (id: u32)
        requires
            old(self).wf(),
            old(self)@.len() < u32::MAX,
        ensures
            final(self).wf(),
            final(self)@ == interned(old(self)@, value@),
            (id as int) < final(self)@.len(),
            final(self)@[id as int] == value@,
    {
        broadcast use vstd::std_specs::hash::group_hash_axioms;

        if let Some(id) = self.lookup(value.as_str()) {
            return id;
        }
        let h = text_hash(value.as_str());
        let id = self.values.len() as u32;
        let ghost old_values = self.values@;
        let ghost old_buckets = self.buckets@;
        proof {
            assert forall|i2: int| 0 <= i2 < old_values.len() implies old_buckets.contains_key(
                text_hash_spec(old_values[i2]@),
            ) && old_buckets[text_hash_spec(old_values[i2]@)]@.contains(i2 as u32) by {
                assert(self.buckets@.contains_key(text_hash_spec(self.values@[i2]@)));
            }
        }
        let mut bucket = match self.buckets.remove(&h) {
            Some(b) => b,
            None => Vec::new(),
        };
        let ghost old_bucket = bucket@;
        bucket.push(id);
        self.buckets.insert(h, bucket);
        self.values.push(value);
        proof {
            assert(texts_of(self.values@) =~= texts_of(old_values).push(value@));
            assert(texts_of(self.values@).no_duplicates()) by {
                let t = texts_of(self.values@);
                assert forall|a: int, b: int| 0 <= a < t.len() && 0 <= b < t.len() && a != b implies t[a] != t[b] by {
                    if a == old_values.len() && t[a] == t[b] {
                        assert(texts_of(old_values)[b] == value@);
                    } else if b == old_values.len() && t[a] == t[b] {
                        assert(texts_of(old_values)[a] == value@);
                    }
                }
            }
            assert forall|h2: u64, j: int|
                #![trigger self.buckets@[h2]@[j]]
                self.buckets@.contains_key(h2) && 0 <= j < self.buckets@[h2]@.len() implies {
                let i2 = self.buckets@[h2]@[j] as int;
                &&& 0 <= i2 < self.values.len()
                &&& text_hash_spec(self.values@[i2]@) == h2
            } by {
                if h2 == h {
                    if j < old_bucket.len() {
                        assert(self.buckets@[h2]@[j] == old_buckets[h2]@[j]);
                    }
                } else {
                    assert(self.buckets@[h2] == old_buckets[h2]);
                }
            }
            assert forall|i2: int| 0 <= i2 < self.values.len() implies #[trigger] self.buckets@.contains_key(
                text_hash_spec(self.values@[i2]@),
            ) && self.buckets@[text_hash_spec(self.values@[i2]@)]@.contains(i2 as u32) by {
                let h2 = text_hash_spec(self.values@[i2]@);
                if i2 < old_values.len() {
                    assert(self.values@[i2] == old_values[i2]);
                    assert(old_buckets.contains_key(h2) && old_buckets[h2]@.contains(i2 as u32));
                    if h2 == h {
                        let q = choose|q: int| 0 <= q < old_bucket.len() && old_bucket[q] == i2 as u32;
                        assert(self.buckets@[h2]@[q] == i2 as u32);
                    }
                } else {
                    assert(self.buckets@[h]@[old_bucket.len() as int] == id);
                }
            }
            assert(self@[id as int] == value@);
        }
        id
    }

    /// The string with id `id`.
    pub fn get(&self, id: u32) -> (text: &str)
        requires
            self.wf(),
            (id as int) < self@.len(),
        ensures
            text@ == self@[id as int],
    {
        self.values[id as usize].as_str()
    }

    /// The strings by id.
    pub fn into_values(self) -> (values: Vec<String>)
        ensures
            texts_of(values@) == self@,
    {
        self.values
    }
}

} // verus!
