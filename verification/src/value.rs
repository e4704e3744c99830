//! The TOML value tree: a closed tagged union of scalars, arrays and
//! key-sorted tables.
//!
//! Two scalar kinds carry pre-rendered text instead of a machine number:
//! a float is stored as the decimal rendering its source formatter produced
//! (the emitter only decides whether a trailing `.0` must be added), and a
//! datetime is an opaque scalar that already knows its display form.

use vstd::prelude::*;

use crate::text::lemma_str_lt_irrefl;
use crate::text::lemma_str_lt_trans;
use crate::text::spec_str_lt;
use crate::text::str_cmp;
use crate::text::str_eq;

verus! {

/// The type tag of a value, as the emission engine resolves it when it
/// checks arrays for homogeneity.
#[derive(Clone, Copy, PartialEq, Eq, Structural, Debug)]
pub enum Ty {
    Bool,
    Integer,
    Float,
    Str,
    Datetime,
    Array,
    Table,
}

/// An opaque datetime scalar. The tree does not interpret dates; it only
/// carries the text the scalar renders to, which is written into documents
/// as a bare (unquoted) token.
#[derive(Clone, Debug)]
pub struct Datetime {
    pub text: String,
}

impl Datetime {
    /// Wraps an already-rendered datetime token.
    pub fn new(text: String) -> (d: Datetime)
        ensures
            d.text@ == text@,
    {
        Datetime { text }
    }

    /// The rendered form of the datetime.
    pub fn as_str(&self) -> (s: &str)
        ensures
            s@ == self.text@,
    {
        self.text.as_str()
    }
}

/// Representation of a TOML value.
#[derive(Debug)]
pub enum Value {
    /// Represents a TOML string
    String(String),
    /// Represents a TOML integer
    Integer(i64),
    /// Represents a TOML float, stored as the decimal text its source
    /// formatter rendered (for example `"4"` or `"2.5"`)
    Float(String),
    /// Represents a TOML boolean
    Boolean(bool),
    /// Represents a TOML datetime
    Datetime(Datetime),
    /// Represents a TOML array
    Array(Vec<Value>),
    /// Represents a TOML table
    Table(Table),
}

/// A TOML table: a mapping with unique string keys, kept sorted so that
/// iteration follows the canonical key order.
#[derive(Debug)]
pub struct Table {
    pub entries: Vec<(String, Value)>,
}

/// Strictly sorted (hence duplicate-free) key order.
pub open spec fn table_wf(entries: Seq<(String, Value)>) -> bool {
    forall|i: int, j: int|
        0 <= i < j < entries.len() ==> spec_str_lt(
            (#[trigger] entries[i]).0@,
            (#[trigger] entries[j]).0@,
        )
}

/// Lookup by key view; the first entry with a matching key wins (in a
/// well-formed table keys are unique, so the first match is the only one).
pub open spec fn spec_table_get(entries: Seq<(String, Value)>, k: Seq<char>) -> Option<Value>
    decreases entries.len(),
{
    if entries.len() == 0 {
        Option::None
    } else if entries[0].0@ == k {
        Option::Some(entries[0].1)
    } else {
        spec_table_get(entries.skip(1), k)
    }
}

/// The result of inserting `kv` into a sorted entry list: existing keys are
/// overwritten in place (keeping the stored key), new keys enter at their
/// sorted position.
pub open spec fn spec_table_insert(entries: Seq<(String, Value)>, kv: (String, Value)) -> Seq<
    (String, Value),
>
    decreases entries.len(),
{
    if entries.len() == 0 {
        seq![kv]
    } else if spec_str_lt(entries[0].0@, kv.0@) {
        seq![entries[0]] + spec_table_insert(entries.skip(1), kv)
    } else if entries[0].0@ == kv.0@ {
        seq![(entries[0].0, kv.1)] + entries.skip(1)
    } else {
        seq![kv] + entries
    }
}

/// Every entry of an insertion result is the inserted pair or one of the
/// original entries.
proof fn lemma_table_insert_entries(entries: Seq<(String, Value)>, kv: (String, Value))
    ensures
        forall|i: int|
            0 <= i < spec_table_insert(entries, kv).len() ==> (#[trigger] spec_table_insert(
                entries,
                kv,
            )[i]).0@ == kv.0@ || exists|j: int|
                0 <= j < entries.len() && spec_table_insert(entries, kv)[i] == entries[j],
    decreases entries.len(),
{
    if entries.len() == 0 {
    } else if spec_str_lt(entries[0].0@, kv.0@) {
        lemma_table_insert_entries(entries.skip(1), kv);
        assert forall|i: int| 0 <= i < spec_table_insert(entries, kv).len() implies (
        #[trigger] spec_table_insert(entries, kv)[i]).0@ == kv.0@ || exists|j: int|
            0 <= j < entries.len() && spec_table_insert(entries, kv)[i] == entries[j] by {
            if i == 0 {
                assert(spec_table_insert(entries, kv)[0] == entries[0]);
            } else {
                let rest = spec_table_insert(entries.skip(1), kv);
                assert(spec_table_insert(entries, kv)[i] == rest[i - 1]);
                if rest[i - 1].0@ == kv.0@ {
                } else {
                    let j = choose|j: int|
                        0 <= j < entries.skip(1).len() && rest[i - 1] == entries.skip(1)[j];
                    assert(spec_table_insert(entries, kv)[i] == entries[j + 1]);
                }
            }
        }
    } else {
    }
}

fn insert_entries(entries: &mut Vec<(String, Value)>, kv: (String, Value))
    ensures
        final(entries)@ == spec_table_insert(old(entries)@, kv),
        table_wf(old(entries)@) ==> table_wf(final(entries)@),
    decreases old(entries)@.len(),
{
    if entries.len() == 0 {
        entries.push(kv);
        assert(entries@ =~= spec_table_insert(old(entries)@, kv));
        return ;
    }
    let c = str_cmp(entries[0].0.as_str(), kv.0.as_str());
    if c == 0 {
        let first = entries.remove(0);
        proof {
            assert(entries@ =~= old(entries)@.skip(1));
            if table_wf(old(entries)@) {
                assert forall|i: int, j: int|
                    0 <= i < j < old(entries)@.skip(1).len() implies spec_str_lt(
                    (#[trigger] old(entries)@.skip(1)[i]).0@,
                    (#[trigger] old(entries)@.skip(1)[j]).0@,
                ) by {
                    assert(old(entries)@.skip(1)[i] == old(entries)@[i + 1]);
                    assert(old(entries)@.skip(1)[j] == old(entries)@[j + 1]);
                }
            }
        }
        insert_entries(entries, kv);
        entries.insert(0, first);
        proof {
            let rest = spec_table_insert(old(entries)@.skip(1), kv);
            assert(entries@ =~= spec_table_insert(old(entries)@, kv));
            if table_wf(old(entries)@) {
                lemma_table_insert_entries(old(entries)@.skip(1), kv);
                assert forall|i: int, j: int| 0 <= i < j < entries@.len() implies spec_str_lt(
                    (#[trigger] entries@[i]).0@,
                    (#[trigger] entries@[j]).0@,
                ) by {
                    if i == 0 {
                        assert(entries@[j] == rest[j - 1]);
                        if rest[j - 1].0@ == kv.0@ {
                            // head key precedes the inserted key
                        } else {
                            let m = choose|m: int|
                                0 <= m < old(entries)@.skip(1).len() && rest[j - 1] == old(
                                    entries,
                                )@.skip(1)[m];
                            assert(old(entries)@.skip(1)[m] == old(entries)@[m + 1]);
                        }
                    } else {
                        assert(entries@[i] == rest[i - 1] && entries@[j] == rest[j - 1]);
                    }
                }
            }
        }
    } else if c == 1 {
        let first = entries.remove(0);
        entries.insert(0, (first.0, kv.1));
        proof {
            lemma_str_lt_irrefl(old(entries)@[0].0@);
            assert(entries@ =~= spec_table_insert(old(entries)@, kv));
            if table_wf(old(entries)@) {
                assert forall|i: int, j: int| 0 <= i < j < entries@.len() implies spec_str_lt(
                    (#[trigger] entries@[i]).0@,
                    (#[trigger] entries@[j]).0@,
                ) by {
                    assert(entries@[i].0 == old(entries)@[i].0);
                    assert(entries@[j].0 == old(entries)@[j].0);
                }
            }
        }
    } else {
        proof {
            // The head key strictly follows kv's key, so it neither equals
            // nor precedes it.
            lemma_str_lt_irrefl(kv.0@);
            if spec_str_lt(entries@[0].0@, kv.0@) {
                lemma_str_lt_trans(kv.0@, entries@[0].0@, kv.0@);
            }
        }
        let ghost pre = entries@;
        entries.insert(0, kv);
        proof {
            assert(entries@ =~= spec_table_insert(old(entries)@, kv));
            if table_wf(old(entries)@) {
                assert forall|i: int, j: int| 0 <= i < j < entries@.len() implies spec_str_lt(
                    (#[trigger] entries@[i]).0@,
                    (#[trigger] entries@[j]).0@,
                ) by {
                    if i == 0 {
                        assert(entries@[j] == old(entries)@[j - 1]);
                        if j > 1 {
                            lemma_str_lt_trans(kv.0@, old(entries)@[0].0@, old(entries)@[j - 1].0@);
                        }
                    } else {
                        assert(entries@[i] == old(entries)@[i - 1]);
                        assert(entries@[j] == old(entries)@[j - 1]);
                    }
                }
            }
        }
    }
}

impl Table {
    /// Well-formedness: keys strictly sorted, hence unique.
    pub open spec fn wf(self) -> bool {
        table_wf(self.entries@)
    }

    /// Lookup in the table's view.
    pub open spec fn spec_get(self, k: Seq<char>) -> Option<Value> {
        spec_table_get(self.entries@, k)
    }

    /// Whether the table holds the given key.
    pub open spec fn has_key(self, k: Seq<char>) -> bool {
        self.spec_get(k) is Some
    }

    /// Creates an empty table.
    pub fn new() -> (t: Table)
        ensures
            t.entries@.len() == 0,
            t.wf(),
    {
        Table { entries: Vec::new() }
    }

    /// The number of entries.
    pub fn len(&self) -> (n: usize)
        ensures
            n == self.entries@.len(),
    {
        self.entries.len()
    }

    /// Whether the table has no entries.
    pub fn is_empty(&self) -> (r: bool)
        ensures
            r == (self.entries@.len() == 0),
    {
        self.entries.len() == 0
    }

    /// Inserts a key/value pair, overwriting the value if the key is
    /// already present and keeping the entries sorted otherwise.
    pub fn insert(&mut self, key: String, value: Value)
        ensures
            final(self).entries@ == spec_table_insert(old(self).entries@, (key, value)),
            old(self).wf() ==> final(self).wf(),
    {
        insert_entries(&mut self.entries, (key, value));
    }

    /// Looks a key up, returning the value stored under it.
    pub fn get<'a>(&'a self, key: &str) -> (r: Option<&'a Value>)
        ensures
            match r {
                Option::Some(v) => self.spec_get(key@) == Option::Some(*v),
                Option::None => self.spec_get(key@) is None,
            },
    {
        let n = self.entries.len();
        let mut i: usize = 0;
        proof {
            assert(self.entries@.skip(0) =~= self.entries@);
        }
        while i < n
            invariant
                i <= n,
                n == self.entries@.len(),
                spec_table_get(self.entries@, key@) == spec_table_get(
                    self.entries@.skip(i as int),
                    key@,
                ),
            decreases n - i,
        {
            if str_eq(self.entries[i].0.as_str(), key) {
                return Option::Some(&self.entries[i].1);
            }
            proof {
                assert(self.entries@.skip(i as int).skip(1) =~= self.entries@.skip(i + 1));
            }
            i = i + 1;
        }
        Option::None
    }

    /// Looks a key up, returning a mutable borrow of the value stored
    /// under it, for replacement in place.
    pub fn get_mut<'a>(&'a mut self, key: &str) -> (r: Option<&'a mut Value>)
        ensures
            (match r {
                Option::Some(m) => old(self).spec_get(key@) == Option::Some(*m) && final(self).entries@.len() == old(self).entries@.len() && (exists|i: int|
                    0 <= i < old(self).entries@.len() && (#[trigger] old(self).entries@[i]).0@
                        == key@ && final(self).entries@ == old(self).entries@.update(
                        i,
                        (old(self).entries@[i].0, *final(m)),
                    )) && (old(self).wf() ==> final(self).wf()),
                Option::None => old(self).spec_get(key@) is None && *final(self) == *old(self),
            }),
    {
        let n = self.entries.len();
        let mut i: usize = 0;
        let ghost orig = self.entries@;
        proof {
            assert(orig.skip(0) =~= orig);
        }
        while i < n
            invariant
                i <= n,
                n == orig.len(),
                *self == *old(self),
                orig == old(self).entries@,
                spec_table_get(orig, key@) == spec_table_get(orig.skip(i as int), key@),
            decreases n - i,
        {
            if str_eq(self.entries[i].0.as_str(), key) {
                proof {
                    assert(orig.skip(i as int)[0] == orig[i as int]);
                }
                let e = &mut self.entries[i];
                return Option::Some(&mut e.1);
            }
            proof {
                assert(orig.skip(i as int).skip(1) =~= orig.skip(i + 1));
            }
            i = i + 1;
        }
        Option::None
    }

    /// Whether the table holds the given key.
    pub fn contains_key(&self, key: &str) -> (r: bool)
        ensures
            r == self.has_key(key@),
    {
        match self.get(key) {
            Option::Some(_) => true,
            Option::None => false,
        }
    }
}

/// The type tag of a value.
pub open spec fn spec_ty(v: Value) -> Ty {
    match v {
        Value::String(_) => Ty::Str,
        Value::Integer(_) => Ty::Integer,
        Value::Float(_) => Ty::Float,
        Value::Boolean(_) => Ty::Bool,
        Value::Datetime(_) => Ty::Datetime,
        Value::Array(_) => Ty::Array,
        Value::Table(_) => Ty::Table,
    }
}

impl Value {
    /// The type tag of this value.
    pub fn ty(&self) -> (t: Ty)
        ensures
            t == spec_ty(*self),
    {
        match *self {
            Value::String(_) => Ty::Str,
            Value::Integer(_) => Ty::Integer,
            Value::Float(_) => Ty::Float,
            Value::Boolean(_) => Ty::Bool,
            Value::Datetime(_) => Ty::Datetime,
            Value::Array(_) => Ty::Array,
            Value::Table(_) => Ty::Table,
        }
    }

    /// Extracts the integer value if it is an integer.
    pub fn as_integer(&self) -> (r: Option<i64>)
        ensures
            r == (match *self {
                Value::Integer(i) => Option::Some(i),
                _ => Option::<i64>::None,
            }),
    {
        match *self {
            Value::Integer(i) => Option::Some(i),
            _ => Option::None,
        }
    }

    /// Tests whether this value is an integer.
    pub fn is_integer(&self) -> (r: bool)
        ensures
            r == (spec_ty(*self) == Ty::Integer),
    {
        self.as_integer().is_some()
    }

    /// Extracts the rendered float text if it is a float.
    pub fn as_float(&self) -> (r: Option<&str>)
        ensures
            match *self {
                Value::Float(ref s) => r matches Option::Some(x) && x@ == s@,
                _ => r is None,
            },
    {
        match *self {
            Value::Float(ref s) => Option::Some(s.as_str()),
            _ => Option::None,
        }
    }

    /// Tests whether this value is a float.
    pub fn is_float(&self) -> (r: bool)
        ensures
            r == (spec_ty(*self) == Ty::Float),
    {
        match *self {
            Value::Float(_) => true,
            _ => false,
        }
    }

    /// Extracts the boolean value if it is a boolean.
    pub fn as_bool(&self) -> (r: Option<bool>)
        ensures
            r == (match *self {
                Value::Boolean(b) => Option::Some(b),
                _ => Option::<bool>::None,
            }),
    {
        match *self {
            Value::Boolean(b) => Option::Some(b),
            _ => Option::None,
        }
    }

    /// Tests whether this value is a boolean.
    pub fn is_bool(&self) -> (r: bool)
        ensures
            r == (spec_ty(*self) == Ty::Bool),
    {
        self.as_bool().is_some()
    }

    /// Extracts the string of this value if it is a string.
    pub fn as_str(&self) -> (r: Option<&str>)
        ensures
            match *self {
                Value::String(ref s) => r matches Option::Some(x) && x@ == s@,
                _ => r is None,
            },
    {
        match *self {
            Value::String(ref s) => Option::Some(s.as_str()),
            _ => Option::None,
        }
    }

    /// Tests if this value is a string.
    pub fn is_str(&self) -> (r: bool)
        ensures
            r == (spec_ty(*self) == Ty::Str),
    {
        match *self {
            Value::String(_) => true,
            _ => false,
        }
    }

    /// Extracts the datetime value if it is a datetime.
    pub fn as_datetime(&self) -> (r: Option<&Datetime>)
        ensures
            match *self {
                Value::Datetime(ref d) => r matches Option::Some(x) && *x == *d,
                _ => r is None,
            },
    {
        match *self {
            Value::Datetime(ref d) => Option::Some(d),
            _ => Option::None,
        }
    }

    /// Tests whether this value is a datetime.
    pub fn is_datetime(&self) -> (r: bool)
        ensures
            r == (spec_ty(*self) == Ty::Datetime),
    {
        match *self {
            Value::Datetime(_) => true,
            _ => false,
        }
    }

    /// Extracts the array value if it is an array.
    pub fn as_array(&self) -> (r: Option<&Vec<Value>>)
        ensures
            match *self {
                Value::Array(ref a) => r matches Option::Some(x) && *x == *a,
                _ => r is None,
            },
    {
        match *self {
            Value::Array(ref a) => Option::Some(a),
            _ => Option::None,
        }
    }

    /// Extracts the array value if it is an array, for mutation in place.
    pub fn as_array_mut(&mut self) -> (r: Option<&mut Vec<Value>>)
        ensures
            (match *old(self) {
                Value::Array(a) => r matches Option::Some(m) && *m == a && *final(self)
                    == Value::Array(*final(m)),
                _ => r is None && *final(self) == *old(self),
            }),
    {
        match *self {
            Value::Array(ref mut a) => Option::Some(a),
            _ => Option::None,
        }
    }

    /// Tests whether this value is an array.
    pub fn is_array(&self) -> (r: bool)
        ensures
            r == (spec_ty(*self) == Ty::Array),
    {
        match *self {
            Value::Array(_) => true,
            _ => false,
        }
    }

    /// Extracts the table value if it is a table.
    pub fn as_table(&self) -> (r: Option<&Table>)
        ensures
            match *self {
                Value::Table(ref t) => r matches Option::Some(x) && *x == *t,
                _ => r is None,
            },
    {
        match *self {
            Value::Table(ref t) => Option::Some(t),
            _ => Option::None,
        }
    }

    /// Extracts the table value if it is a table, for mutation in place.
    pub fn as_table_mut(&mut self) -> (r: Option<&mut Table>)
        ensures
            (match *old(self) {
                Value::Table(t) => r matches Option::Some(m) && *m == t && *final(self)
                    == Value::Table(*final(m)),
                _ => r is None && *final(self) == *old(self),
            }),
    {
        match *self {
            Value::Table(ref mut t) => Option::Some(t),
            _ => Option::None,
        }
    }

    /// Tests whether this value is a table.
    pub fn is_table(&self) -> (r: bool)
        ensures
            r == (spec_ty(*self) == Ty::Table),
    {
        match *self {
            Value::Table(_) => true,
            _ => false,
        }
    }

    /// Tests whether this and another value have the same type.
    pub fn same_type(&self, other: &Value) -> (r: bool)
        ensures
            r == (spec_ty(*self) == spec_ty(*other)),
    {
        let a = self.ty();
        let b = other.ty();
        a == b
    }

    /// Returns a human-readable representation of the type of this value.
    pub fn type_str(&self) -> (r: &'static str)
        ensures
            r@ == spec_type_name(spec_ty(*self)),
    {
        proof {
            reveal_strlit("string");
            reveal_strlit("integer");
            reveal_strlit("float");
            reveal_strlit("boolean");
            reveal_strlit("datetime");
            reveal_strlit("array");
            reveal_strlit("table");
        }
        match *self {
            Value::String(_) => "string",
            Value::Integer(_) => "integer",
            Value::Float(_) => "float",
            Value::Boolean(_) => "boolean",
            Value::Datetime(_) => "datetime",
            Value::Array(_) => "array",
            Value::Table(_) => "table",
        }
    }

    /// Index into a TOML array or table. A string index accesses a value in
    /// a table, a `usize` index an element of an array.
    pub fn get<I: Index>(&self, index: I) -> (r: Option<&Value>)
        ensures
            match r {
                Option::Some(v) => index.spec_lookup(*self) == Option::Some(*v),
                Option::None => index.spec_lookup(*self) is None,
            },
    {
        index.index(self)
    }

    /// Mutably index into a TOML array or table, for replacement in
    /// place; `None` under the same conditions as [`Value::get`].
    pub fn get_mut<I: Index>(&mut self, index: I) -> (r: Option<&mut Value>)
        ensures
            (match r {
                Option::Some(m) => index.spec_lookup(*old(self)) == Option::Some(*m)
                    && index.spec_replaced(*old(self), *final(self), *final(m)),
                Option::None => index.spec_lookup(*old(self)) is None && *final(self) == *old(
                    self,
                ),
            }),
    {
        index.index_mut(self)
    }
}

/// The human-readable name of a type tag.
pub open spec fn spec_type_name(t: Ty) -> Seq<char> {
    match t {
        Ty::Str => "string"@,
        Ty::Integer => "integer"@,
        Ty::Float => "float"@,
        Ty::Bool => "boolean"@,
        Ty::Datetime => "datetime"@,
        Ty::Array => "array"@,
        Ty::Table => "table"@,
    }
}

/// How replacing a table field's value through a key shows up in a
/// value: `post` is `pre` with the entry under key `k` holding `nv`,
/// keys untouched and order kept.
pub open spec fn spec_key_replaced(k: Seq<char>, pre: Value, post: Value, nv: Value) -> bool {
    match (pre, post) {
        (Value::Table(t), Value::Table(u)) => (exists|j: int|
            0 <= j < t.entries@.len() && (#[trigger] t.entries@[j]).0@ == k && u.entries@
                == t.entries@.update(j, (t.entries@[j].0, nv))) && (t.wf() ==> u.wf()),
        _ => false,
    }
}

/// Types that can be used to index a [`Value`]: `usize` for arrays, string
/// types for tables.
pub trait Index: Sealed {
    /// What indexing with `self` finds in `v`.
    spec fn spec_lookup(&self, v: Value) -> Option<Value>;

    /// How mutation through the borrow `index_mut` returns shows up in
    /// the indexed value: `post` is `pre` with the slot `self` finds
    /// holding `nv`.
    spec fn spec_replaced(&self, pre: Value, post: Value, nv: Value) -> bool;

    /// Looks `self` up in `v`, returning `None` on a kind mismatch or a
    /// missing key or position.
    fn index<'a>(&self, val: &'a Value) -> (r: Option<&'a Value>)
        ensures
            match r {
                Option::Some(v) => self.spec_lookup(*val) == Option::Some(*v),
                Option::None => self.spec_lookup(*val) is None,
            },
    ;

    /// Looks `self` up in `val` for mutation in place, under the same
    /// `None` conditions as [`Index::index`].
    fn index_mut<'a>(&self, val: &'a mut Value) -> (r: Option<&'a mut Value>)
        ensures
            (match r {
                Option::Some(m) => self.spec_lookup(*old(val)) == Option::Some(*m)
                    && self.spec_replaced(*old(val), *final(val), *final(m)),
                Option::None => self.spec_lookup(*old(val)) is None && *final(val) == *old(val),
            }),
    ;
}

/// Marker restricting [`Index`] to the index types this crate supports.
pub trait Sealed {

}

impl Sealed for usize {

}

impl Sealed for String {

}

impl<'b> Sealed for &'b str {

}

impl Index for usize {
    open spec fn spec_lookup(&self, v: Value) -> Option<Value> {
        match v {
            Value::Array(a) => if *self < a@.len() {
                Option::Some(a@[*self as int])
            } else {
                Option::None
            },
            _ => Option::None,
        }
    }

    open spec fn spec_replaced(&self, pre: Value, post: Value, nv: Value) -> bool {
        match (pre, post) {
            (Value::Array(a), Value::Array(b)) => *self < a@.len() && b@ == a@.update(
                *self as int,
                nv,
            ),
            _ => false,
        }
    }

    fn index<'a>(&self, val: &'a Value) -> (r: Option<&'a Value>) {
        match *val {
            Value::Array(ref a) => if *self < a.len() {
                Option::Some(&a[*self])
            } else {
                Option::None
            },
            _ => Option::None,
        }
    }

    fn index_mut<'a>(&self, val: &'a mut Value) -> (r: Option<&'a mut Value>) {
        match *val {
            Value::Array(ref mut a) => if *self < a.len() {
                Option::Some(&mut a[*self])
            } else {
                Option::None
            },
            _ => Option::None,
        }
    }
}

impl Index for String {
    open spec fn spec_lookup(&self, v: Value) -> Option<Value> {
        match v {
            Value::Table(t) => spec_table_get(t.entries@, self@),
            _ => Option::None,
        }
    }

    open spec fn spec_replaced(&self, pre: Value, post: Value, nv: Value) -> bool {
        spec_key_replaced(self@, pre, post, nv)
    }

    fn index<'a>(&self, val: &'a Value) -> (r: Option<&'a Value>) {
        match *val {
            Value::Table(ref t) => t.get(self.as_str()),
            _ => Option::None,
        }
    }

    fn index_mut<'a>(&self, val: &'a mut Value) -> (r: Option<&'a mut Value>) {
        match *val {
            Value::Table(ref mut t) => t.get_mut(self.as_str()),
            _ => Option::None,
        }
    }
}

impl<'b> Index for &'b str {
    open spec fn spec_lookup(&self, v: Value) -> Option<Value> {
        match v {
            Value::Table(t) => spec_table_get(t.entries@, self@),
            _ => Option::None,
        }
    }

    open spec fn spec_replaced(&self, pre: Value, post: Value, nv: Value) -> bool {
        spec_key_replaced(self@, pre, post, nv)
    }

    fn index<'a>(&self, val: &'a Value) -> (r: Option<&'a Value>) {
        match *val {
            Value::Table(ref t) => t.get(self),
            _ => Option::None,
        }
    }

    fn index_mut<'a>(&self, val: &'a mut Value) -> (r: Option<&'a mut Value>) {
        match *val {
            Value::Table(ref mut t) => t.get_mut(self),
            _ => Option::None,
        }
    }
}

impl From<String> for Value {
    fn from(val: String) -> (v: Value)
        ensures
            v == Value::String(val),
    {
        Value::String(val)
    }
}

impl vstd::std_specs::convert::FromSpecImpl<String> for Value {
    open spec fn obeys_from_spec() -> bool {
        true
    }

    open spec fn from_spec(val: String) -> Value {
        Value::String(val)
    }
}

impl From<i64> for Value {
    fn from(val: i64) -> (v: Value)
        ensures
            v == Value::Integer(val),
    {
        Value::Integer(val)
    }
}

impl vstd::std_specs::convert::FromSpecImpl<i64> for Value {
    open spec fn obeys_from_spec() -> bool {
        true
    }

    open spec fn from_spec(val: i64) -> Value {
        Value::Integer(val)
    }
}

impl From<bool> for Value {
    fn from(val: bool) -> (v: Value)
        ensures
            v == Value::Boolean(val),
    {
        Value::Boolean(val)
    }
}

impl vstd::std_specs::convert::FromSpecImpl<bool> for Value {
    open spec fn obeys_from_spec() -> bool {
        true
    }

    open spec fn from_spec(val: bool) -> Value {
        Value::Boolean(val)
    }
}

impl From<Vec<Value>> for Value {
    fn from(val: Vec<Value>) -> (v: Value)
        ensures
            v == Value::Array(val),
    {
        Value::Array(val)
    }
}

impl vstd::std_specs::convert::FromSpecImpl<Vec<Value>> for Value {
    open spec fn obeys_from_spec() -> bool {
        true
    }

    open spec fn from_spec(val: Vec<Value>) -> Value {
        Value::Array(val)
    }
}

impl From<Table> for Value {
    fn from(val: Table) -> (v: Value)
        ensures
            v == Value::Table(val),
    {
        Value::Table(val)
    }
}

impl vstd::std_specs::convert::FromSpecImpl<Table> for Value {
    open spec fn obeys_from_spec() -> bool {
        true
    }

    open spec fn from_spec(val: Table) -> Value {
        Value::Table(val)
    }
}

impl From<Datetime> for Value {
    fn from(val: Datetime) -> (v: Value)
        ensures
            v == Value::Datetime(val),
    {
        Value::Datetime(val)
    }
}

impl vstd::std_specs::convert::FromSpecImpl<Datetime> for Value {
    open spec fn obeys_from_spec() -> bool {
        true
    }

    open spec fn from_spec(val: Datetime) -> Value {
        Value::Datetime(val)
    }
}

} // verus!
