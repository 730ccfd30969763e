//! Trace transactions and relations as plain values: attribute values, attribute lookup
//! by name, typed keys and the display text of values.
use vstd::prelude::*;
use crate::konata::texts::{str_eq, StringInterner};

verus! {

/// An attribute value of a trace transaction. Floating-point values are carried as their
/// display text, which is all that the normalization reads of them.
#[derive(Clone)]
pub enum AttrValue {
    Boolean(bool),
    Enumeration(String),
    Integer(i64),
    Unsigned(u64),
    FloatingPointNumber(String),
    BitVector(String),
    LogicVector(String),
    FixedPointInteger(String),
    UnsignedFixedPointInteger(String),
    Pointer(u64),
    Text(String),
    Time(u64),
    Error,
}

/// A named attribute; `begins` marks an attribute recorded at the transaction's begin.
pub struct TxAttribute {
    pub begins: bool,
    pub name: String,
    pub value: AttrValue,
}

/// A trace transaction: id, generator, time span and attributes.
pub struct TxRecord {
    pub tx_id: u64,
    pub generator: u64,
    pub start: u64,
    pub end: u64,
    pub attributes: Vec<TxAttribute>,
}

/// A named relation between two transactions of (possibly) two streams.
pub struct TxRelationRecord {
    pub name: String,
    pub source_tx: u64,
    pub sink_tx: u64,
    pub source_stream: u64,
    pub sink_stream: u64,
}

/// A key that groups transactions (a thread or a lane): a boolean, a signed or unsigned
/// number, or a text.
pub enum TypedKey {
    Boolean(bool),
    Signed(i64),
    Unsigned(u64),
    Text(String),
}

/// The decimal digits of `v`.
pub open spec fn decimal(v: nat) -> Seq<char>
    decreases v,
{
    let digit = ((v % 10) + 48) as char;
    if v < 10 {
        seq![digit]
    } else {
        decimal(v / 10).push(digit)
    }
}

/// The decimal text of `v`, with a minus sign when negative.
pub open spec fn signed_decimal(v: int) -> Seq<char> {
    if v < 0 {
        seq!['-'] + decimal((-v) as nat)
    } else {
        decimal(v as nat)
    }
}

/// The display text of a boolean.
pub open spec fn bool_text(b: bool) -> Seq<char> {
    if b {
        seq!['t', 'r', 'u', 'e']
    } else {
        seq!['f', 'a', 'l', 's', 'e']
    }
}

/// Formats an unsigned number with `Display`, which writes its decimal digits.
#[verifier::external_body]
pub(crate) fn unsigned_text(v: u64) -> (text: String)
    ensures
        text@ == decimal(v as nat),
{
    v.to_string()
}

/// Formats a signed number with `Display`, which writes its decimal digits after a minus
/// sign for a negative number.
#[verifier::external_body]
fn signed_text(v: i64) -> (text: String)
    ensures
        text@ == signed_decimal(v as int),
{
    v.to_string()
}

/// The display text of a boolean.
fn boolean_text(b: bool) -> (text: String)
    ensures
        text@ == bool_text(b),
{
    let text = if b {
        String::from_str("true")
    } else {
        String::from_str("false")
    };
    proof {
        reveal_strlit("true");
        reveal_strlit("false");
        assert("true"@ =~= bool_text(true));
        assert("false"@ =~= bool_text(false));
    }
    text
}

/// The text carried by a textual value.
pub open spec fn text_of(v: AttrValue) -> Option<Seq<char>> {
    match v {
        AttrValue::Enumeration(s) => Some(s@),
        AttrValue::BitVector(s) => Some(s@),
        AttrValue::LogicVector(s) => Some(s@),
        AttrValue::Text(s) => Some(s@),
        _ => None,
    }
}

/// The display text of a value: the text of a textual value, the decimal text of a number,
/// `true`/`false`, the carried text of a floating-point value, nothing for an error.
pub open spec fn value_text(v: AttrValue) -> Seq<char> {
    match v {
        AttrValue::Boolean(b) => bool_text(b),
        AttrValue::Enumeration(s) => s@,
        AttrValue::Integer(i) => signed_decimal(i as int),
        AttrValue::Unsigned(u) => decimal(u as nat),
        AttrValue::FloatingPointNumber(s) => s@,
        AttrValue::BitVector(s) => s@,
        AttrValue::LogicVector(s) => s@,
        AttrValue::FixedPointInteger(s) => s@,
        AttrValue::UnsignedFixedPointInteger(s) => s@,
        AttrValue::Pointer(u) => decimal(u as nat),
        AttrValue::Text(s) => s@,
        AttrValue::Time(u) => decimal(u as nat),
        AttrValue::Error => Seq::empty(),
    }
}

/// Writes the display text of a value.
pub fn format_value(v: &AttrValue) -> (text: String)
    ensures
        text@ == value_text(*v),
{
    match v {
        AttrValue::Boolean(b) => boolean_text(*b),
        AttrValue::Enumeration(s) => s.clone(),
        AttrValue::Integer(i) => signed_text(*i),
        AttrValue::Unsigned(u) => unsigned_text(*u),
        AttrValue::FloatingPointNumber(s) => s.clone(),
        AttrValue::BitVector(s) => s.clone(),
        AttrValue::LogicVector(s) => s.clone(),
        AttrValue::FixedPointInteger(s) => s.clone(),
        AttrValue::UnsignedFixedPointInteger(s) => s.clone(),
        AttrValue::Pointer(u) => unsigned_text(*u),
        AttrValue::Text(s) => s.clone(),
        AttrValue::Time(u) => unsigned_text(*u),
        AttrValue::Error => String::new(),
    }
}

/// The unsigned number a value holds: an unsigned, pointer or time value, or a
/// nonnegative integer.
pub open spec fn unsigned_of(v: AttrValue) -> Option<u64> {
    match v {
        AttrValue::Unsigned(u) => Some(u),
        AttrValue::Pointer(u) => Some(u),
        AttrValue::Time(u) => Some(u),
        AttrValue::Integer(i) => if i >= 0 {
            Some(i as u64)
        } else {
            None
        },
        _ => None,
    }
}

/// Reads the unsigned number a value holds.
pub fn unsigned_value(v: &AttrValue) -> (n: Option<u64>)
    ensures
        n == unsigned_of(*v),
{
    match v {
        AttrValue::Unsigned(u) => Some(*u),
        AttrValue::Pointer(u) => Some(*u),
        AttrValue::Time(u) => Some(*u),
        AttrValue::Integer(i) => if *i >= 0 {
            Some(*i as u64)
        } else {
            None
        },
        _ => None,
    }
}

/// A key as a tag, a number and a text, so that equal keys have equal views.
pub open spec fn key_view(k: TypedKey) -> (u8, int, Seq<char>) {
    match k {
        TypedKey::Boolean(b) => (0u8, if b { 1int } else { 0int }, Seq::empty()),
        TypedKey::Signed(i) => (1u8, i as int, Seq::empty()),
        TypedKey::Unsigned(u) => (2u8, u as int, Seq::empty()),
        TypedKey::Text(s) => (3u8, 0int, s@),
    }
}

/// The key a value makes, if any: floating-point and error values make none.
pub open spec fn key_of(v: AttrValue) -> Option<(u8, int, Seq<char>)> {
    match v {
        AttrValue::Boolean(b) => Some(key_view(TypedKey::Boolean(b))),
        AttrValue::Integer(i) => Some((1u8, i as int, Seq::empty())),
        AttrValue::Unsigned(u) => Some((2u8, u as int, Seq::empty())),
        AttrValue::Pointer(u) => Some((2u8, u as int, Seq::empty())),
        AttrValue::Time(u) => Some((2u8, u as int, Seq::empty())),
        AttrValue::Enumeration(s) => Some((3u8, 0int, s@)),
        AttrValue::BitVector(s) => Some((3u8, 0int, s@)),
        AttrValue::LogicVector(s) => Some((3u8, 0int, s@)),
        AttrValue::Text(s) => Some((3u8, 0int, s@)),
        _ => None,
    }
}

/// The display text of a key view.
pub open spec fn key_text(k: (u8, int, Seq<char>)) -> Seq<char> {
    if k.0 == 0 {
        bool_text(k.1 == 1)
    } else if k.0 == 1 {
        signed_decimal(k.1)
    } else if k.0 == 2 {
        decimal(k.1 as nat)
    } else {
        k.2
    }
}

/// Makes the key of a value.
pub fn typed_key(v: &AttrValue) -> (key: Option<TypedKey>)
    ensures
        key matches Some(k) ==> key_of(*v) == Some(key_view(k)),
        key is None ==> key_of(*v) is None,
{
    match v {
        AttrValue::Boolean(b) => Some(TypedKey::Boolean(*b)),
        AttrValue::Integer(i) => Some(TypedKey::Signed(*i)),
        AttrValue::Unsigned(u) => Some(TypedKey::Unsigned(*u)),
        AttrValue::Pointer(u) => Some(TypedKey::Unsigned(*u)),
        AttrValue::Time(u) => Some(TypedKey::Unsigned(*u)),
        AttrValue::Enumeration(s) => Some(TypedKey::Text(s.clone())),
        AttrValue::BitVector(s) => Some(TypedKey::Text(s.clone())),
        AttrValue::LogicVector(s) => Some(TypedKey::Text(s.clone())),
        AttrValue::Text(s) => Some(TypedKey::Text(s.clone())),
        _ => None,
    }
}

/// Writes the display text of a key.
pub fn key_display(k: &TypedKey) -> (text: String)
    ensures
        text@ == key_text(key_view(*k)),
{
    match k {
        TypedKey::Boolean(b) => boolean_text(*b),
        TypedKey::Signed(i) => signed_text(*i),
        TypedKey::Unsigned(u) => unsigned_text(*u),
        TypedKey::Text(s) => s.clone(),
    }
}

/// Whether two keys are equal.
pub fn key_eq(a: &TypedKey, b: &TypedKey) -> (same: bool)
    ensures
        same == (key_view(*a) == key_view(*b)),
{
    match (a, b) {
        (TypedKey::Boolean(x), TypedKey::Boolean(y)) => *x == *y,
        (TypedKey::Signed(x), TypedKey::Signed(y)) => *x == *y,
        (TypedKey::Unsigned(x), TypedKey::Unsigned(y)) => *x == *y,
        (TypedKey::Text(x), TypedKey::Text(y)) => str_eq(x.as_str(), y.as_str()),
        _ => false,
    }
}

/// Position of the first attribute named `name` at or after `from`.
pub open spec fn first_named(attrs: Seq<TxAttribute>, name: Seq<char>, from: int) -> Option<int>
    decreases attrs.len() - from,
{
    if from < 0 || from >= attrs.len() {
        None
    } else if attrs[from].name@ == name {
        Some(from)
    } else {
        first_named(attrs, name, from + 1)
    }
}

/// The value of the first attribute named `name`.
pub open spec fn attribute_value(attrs: Seq<TxAttribute>, name: Seq<char>) -> Option<AttrValue> {
    match first_named(attrs, name, 0) {
        Some(i) => Some(attrs[i].value),
        None => None,
    }
}

/// Finds the first attribute named `name`.
pub fn find_attribute(attrs: &Vec<TxAttribute>, name: &str) -> (pos: Option<usize>)
    ensures
        pos matches Some(i) ==> first_named(attrs@, name@, 0) == Some(i as int) && i < attrs.len(),
        pos is None ==> first_named(attrs@, name@, 0) is None,
{
    let mut i: usize = 0;
    while i < attrs.len()
        invariant
            i <= attrs.len(),
            first_named(attrs@, name@, 0) == first_named(attrs@, name@, i as int),
        decreases attrs.len() - i,
    {
        if str_eq(attrs[i].name.as_str(), name) {
            return Some(i);
        }
        i = i + 1;
    }
    None
}

/// Position of the first attribute named `name` that begins with the transaction, else of
/// the first attribute named `name`.
pub open spec fn first_begin_named(attrs: Seq<TxAttribute>, name: Seq<char>, from: int) -> Option<int>
    decreases attrs.len() - from,
{
    if from < 0 || from >= attrs.len() {
        None
    } else if attrs[from].begins && attrs[from].name@ == name {
        Some(from)
    } else {
        first_begin_named(attrs, name, from + 1)
    }
}

/// The attribute that names a stage event: the first begin attribute with the name, else
/// the first attribute with the name.
pub open spec fn event_name_position(attrs: Seq<TxAttribute>, name: Seq<char>) -> Option<int> {
    match first_begin_named(attrs, name, 0) {
        Some(i) => Some(i),
        None => first_named(attrs, name, 0),
    }
}

/// Finds the attribute that names a stage event.
pub fn find_event_name(attrs: &Vec<TxAttribute>, name: &str) -> (pos: Option<usize>)
    ensures
        pos matches Some(i) ==> event_name_position(attrs@, name@) == Some(i as int) && i < attrs.len(),
        pos is None ==> event_name_position(attrs@, name@) is None,
{
    let mut i: usize = 0;
    while i < attrs.len()
        invariant
            i <= attrs.len(),
            first_begin_named(attrs@, name@, 0) == first_begin_named(attrs@, name@, i as int),
        decreases attrs.len() - i,
    {
        if attrs[i].begins && str_eq(attrs[i].name.as_str(), name) {
            return Some(i);
        }
        i = i + 1;
    }
    find_attribute(attrs, name)
}

/// Interns the display text of a value.
pub fn intern_value(strings: &mut StringInterner, v: &AttrValue) -> (id: u32)
    requires
        old(strings).wf(),
        old(strings)@.len() < u32::MAX,
    ensures
        final(strings).wf(),
        final(strings)@ == crate::konata::texts::interned(old(strings)@, value_text(*v)),
        (id as int) < final(strings)@.len(),
        final(strings)@[id as int] == value_text(*v),
{
    strings.intern(format_value(v))
}


/// The key table after interning `k`: unchanged if it holds `k`, else `k` appended.
pub open spec fn key_interned(table: Seq<(u8, int, Seq<char>)>, k: (u8, int, Seq<char>)) -> Seq<(u8, int, Seq<char>)> {
    if table.contains(k) {
        table
    } else {
        table.push(k)
    }
}

/// A table of distinct keys, each with the string id of its display text.
pub struct KeyInterner {
    keys: Vec<TypedKey>,
    names: Vec<u32>,
}

impl View for KeyInterner {
    type V = Seq<(u8, int, Seq<char>)>;

    /// The interned keys by id.
    closed spec fn view(&self) -> Seq<(u8, int, Seq<char>)> {
        self.keys@.map_values(|k: TypedKey| key_view(k))
    }
}

impl KeyInterner {
    pub closed spec fn wf(&self) -> bool {
        &&& self.keys.len() == self.names.len()
        &&& self.keys.len() <= u32::MAX
        &&& self@.no_duplicates()
    }

    /// The string id of each key's display text.
    pub closed spec fn name_ids(&self) -> Seq<u32> {
        self.names@
    }

    /// Every key's name is the id of its display text in `strings`.
    pub closed spec fn names_in(&self, strings: Seq<Seq<char>>) -> bool {
        &&& self.names@.len() == self@.len()
        &&& forall|i: int|
            0 <= i < self@.len() ==> (#[trigger] self.names@[i] as int) < strings.len() && strings[self.names@[i] as int]
                == key_text(self@[i])
    }

    /// An empty table.
    pub fn new() -> (table: Self)
        ensures
            table.wf(),
            table@ == Seq::<(u8, int, Seq<char>)>::empty(),
            table.name_ids() == Seq::<u32>::empty(),
    {
        let table = KeyInterner { keys: Vec::new(), names: Vec::new() };
        proof {
            assert(table@ =~= Seq::<(u8, int, Seq<char>)>::empty());
        }
        table
    }

    /// The id of `key`, adding it (and its display text to `strings`) if it is new.
    pub fn intern(&mut self, key: TypedKey, strings: &mut StringInterner) -> (id: u32)
        requires
            old(self).wf(),
            old(strings).wf(),
            old(self).names_in(old(strings)@),
            old(self)@.len() < u32::MAX,
            old(strings)@.len() < u32::MAX,
        ensures
            final(self).wf(),
            final(strings).wf(),
            final(self).names_in(final(strings)@),
            final(self)@ == key_interned(old(self)@, key_view(key)),
            old(self)@.is_prefix_of(final(self)@),
            (id as int) < final(self)@.len(),
            final(self)@[id as int] == key_view(key),
            final(strings)@ == if old(self)@.contains(key_view(key)) {
                old(strings)@
            } else {
                crate::konata::texts::interned(old(strings)@, key_text(key_view(key)))
            },
    {
        let mut i: usize = 0;
        while i < self.keys.len()
            invariant
                i <= self.keys.len(),
                self.wf(),
                strings.wf(),
                self.names_in(strings@),
                *self == *old(self),
                *strings == *old(strings),
                forall|j: int| 0 <= j < i ==> self@[j] != key_view(key),
            decreases self.keys.len() - i,
        {
            if key_eq(&self.keys[i], &key) {
                proof {
                    assert(self@[i as int] == key_view(key));
                    assert(self@.contains(key_view(key)));
                }
                return i as u32;
            }
            i = i + 1;
        }
        proof {
            assert(!self@.contains(key_view(key)));
        }
        let id = self.keys.len() as u32;
        let text = key_display(&key);
        let ghost old_strings = strings@;
        let ghost old_view = self@;
        let ghost old_names = self.names@;
        let name = strings.intern(text);
        self.keys.push(key);
        self.names.push(name);
        proof {
            assert(self@ =~= old_view.push(key_view(key)));
            assert(self@.subrange(0, old_view.len() as int) =~= old_view);
            assert(self@.no_duplicates()) by {
                assert forall|a: int, b: int| 0 <= a < self@.len() && 0 <= b < self@.len() && a != b implies self@[a]
                    != self@[b] by {
                    if a == old_view.len() && self@[a] == self@[b] {
                        assert(old_view[b] == key_view(key));
                    } else if b == old_view.len() && self@[a] == self@[b] {
                        assert(old_view[a] == key_view(key));
                    }
                }
            }
            assert forall|j: int| 0 <= j < self@.len() implies (#[trigger] self.names@[j] as int) < strings@.len()
                && strings@[self.names@[j] as int] == key_text(self@[j]) by {
                if j < old_view.len() {
                    assert(self.names@[j] == old_names[j]);
                    assert(strings@[old_names[j] as int] == old_strings[old_names[j] as int]);
                }
            }
        }
        id
    }

    /// Key ids fit `u32`, and every key has a name.
    pub proof fn lemma_len(&self)
        requires
            self.wf(),
        ensures
            self@.len() <= u32::MAX,
            self.name_ids().len() == self@.len(),
            self@.no_duplicates(),
    {
    }

    /// Number of keys.
    pub fn len(&self) -> (n: usize)
        requires
            self.wf(),
        ensures
            n == self@.len(),
    {
        self.keys.len()
    }

    /// The string ids of the keys' display texts.
    pub fn into_names(self) -> (names: Vec<u32>)
        ensures
            names@ == self.name_ids(),
    {
        self.names
    }
}

/// The index of a key of the table is its position.
pub proof fn lemma_key_index(table: KeyInterner, i: int)
    requires
        table.wf(),
        0 <= i < table@.len(),
    ensures
        table@.index_of(table@[i]) == i,
{
    let k = table@[i];
    assert(table@.contains(k));
    let j = table@.index_of(k);
    assert(0 <= j < table@.len() && table@[j] == k);
}


/// A table with no keys has its names in any string table.
pub proof fn lemma_empty_names_in(table: KeyInterner, strings: Seq<Seq<char>>)
    requires
        table@.len() == 0,
        table.name_ids().len() == 0,
    ensures
        table.names_in(strings),
{
}

/// Names stay in place when the string table grows at its end.
pub proof fn lemma_names_in_grow(table: KeyInterner, strings: Seq<Seq<char>>, grown: Seq<Seq<char>>)
    requires
        table.names_in(strings),
        strings.is_prefix_of(grown),
    ensures
        table.names_in(grown),
{
    assert forall|i: int| 0 <= i < table@.len() implies (#[trigger] table.names@[i] as int) < grown.len()
        && grown[table.names@[i] as int] == key_text(table@[i]) by {
        assert(grown[table.names@[i] as int] == strings[table.names@[i] as int]);
    }
}

} // verus!
