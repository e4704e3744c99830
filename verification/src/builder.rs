//! The protocol -> value bridge: a minimal consumer that rebuilds a
//! [`Value`] tree from producer events. It rejects duplicate table keys
//! and recognizes the reserved datetime sentinel both as an aggregate
//! name and as the first field name a table announces.

use vstd::prelude::*;

use crate::ser::Error;
use crate::ser::DATETIME_SENTINEL;
use crate::text::str_eq;
use crate::value::spec_table_insert;
use crate::value::Datetime;
use crate::value::Table;
use crate::value::Value;
use vstd::string::StringExecFns;

verus! {

/// One partially built container on the builder's stack.
pub enum BNode {
    /// An array collecting its elements.
    Arr { items: Vec<Value> },
    /// A table collecting its fields; `key` holds the announced key of the
    /// field whose value is awaited, and `first` is true until a field
    /// name has been announced (the first name is where the reserved
    /// datetime sentinel is recognized).
    Tab { map: Table, key: Option<String>, first: bool },
    /// The reserved datetime aggregate, awaiting its single string field.
    Dt { val: Option<Datetime> },
}

/// Rebuilds a [`Value`] from the events of the producer protocol.
pub struct ValueBuilder {
    pub stack: Vec<BNode>,
    pub done: Option<Value>,
}

/// The message a repeated table key fails with.
pub open spec fn dup_key_message(k: Seq<char>) -> Seq<char> {
    "duplicate key: `"@ + k + "`"@
}

/// How one finished value `v` enters the builder: it becomes the root
/// result, the next array element, or the awaited table field (failing on
/// a repeated key); inside the datetime aggregate nothing but its string
/// field is accepted, and after the root value is done nothing is.
pub open spec fn b_feed_rel(
    pre_stack: Seq<BNode>,
    pre_done: Option<Value>,
    v: Value,
    post_stack: Seq<BNode>,
    post_done: Option<Value>,
    r: Result<(), Error>,
) -> bool {
    if pre_done is Some {
        post_stack == pre_stack && post_done == pre_done && r == Result::<(), Error>::Err(
            Error::UnsupportedType,
        )
    } else if pre_stack.len() == 0 {
        post_stack == pre_stack && post_done == Option::Some(v) && r == Result::<(), Error>::Ok(())
    } else {
        let top = pre_stack.len() - 1;
        post_done == pre_done && post_stack.len() == pre_stack.len() && (forall|j: int|
            0 <= j < top ==> post_stack[j] == pre_stack[j]) && (match pre_stack[top] {
            BNode::Arr { items } => r == Result::<(), Error>::Ok(()) && (match post_stack[top] {
                BNode::Arr { items: items2 } => items2@ == items@.push(v),
                _ => false,
            }),
            BNode::Tab { map, key, first } => match key {
                Option::Some(k) => {
                    if map.has_key(k@) {
                        post_stack[top] == pre_stack[top] && (match r {
                            Result::Err(e) => e matches Error::Custom(m) && m@ == dup_key_message(
                                k@,
                            ),
                            Result::Ok(_) => false,
                        })
                    } else {
                        r == Result::<(), Error>::Ok(()) && (match post_stack[top] {
                            BNode::Tab { map: map2, key: key2, first: first2 } => key2 is None
                                && first2 == first && map2.entries@ == spec_table_insert(
                                map.entries@,
                                (k, v),
                            ) && (map.wf() ==> map2.wf()),
                            _ => false,
                        })
                    }
                },
                Option::None => post_stack[top] == pre_stack[top] && r == Result::<(), Error>::Err(
                    Error::UnsupportedType,
                ),
            },
            BNode::Dt { .. } => post_stack[top] == pre_stack[top] && r == Result::<(), Error>::Err(
                Error::DateInvalid,
            ),
        })
    }
}

impl ValueBuilder {
    /// Creates a builder awaiting a root value.
    pub fn new() -> (b: ValueBuilder)
        ensures
            b.stack@.len() == 0,
            b.done is None,
    {
        ValueBuilder { stack: Vec::new(), done: Option::None }
    }

    /// Feeds one finished value into the innermost open container.
    fn feed(&mut self, v: Value) -> (r: Result<(), Error>)
        ensures
            b_feed_rel(old(self).stack@, old(self).done, v, final(self).stack@, final(self).done, r),
    {
        if self.done.is_some() {
            return Result::Err(Error::UnsupportedType);
        }
        let n = self.stack.len();
        if n == 0 {
            self.done = Option::Some(v);
            return Result::Ok(());
        }
        let node = self.stack.remove(n - 1);
        match node {
            BNode::Arr { mut items } => {
                items.push(v);
                self.stack.insert(n - 1, BNode::Arr { items });
                proof {
                    assert(self.stack@ =~= old(self).stack@.update(
                        n - 1,
                        self.stack@[n - 1],
                    ));
                }
                Result::Ok(())
            },
            BNode::Tab { mut map, key, first } => {
                match key {
                    Option::Some(k) => {
                        if map.contains_key(k.as_str()) {
                            let mut msg = String::from_str("duplicate key: `");
                            msg.append(k.as_str());
                            msg.append("`");
                            self.stack.insert(
                                n - 1,
                                BNode::Tab { map, key: Option::Some(k), first },
                            );
                            proof {
                                assert(self.stack@ =~= old(self).stack@);
                            }
                            Result::Err(Error::Custom(msg))
                        } else {
                            map.insert(k, v);
                            self.stack.insert(
                                n - 1,
                                BNode::Tab { map, key: Option::None, first },
                            );
                            proof {
                                assert(self.stack@ =~= old(self).stack@.update(
                                    n - 1,
                                    self.stack@[n - 1],
                                ));
                            }
                            Result::Ok(())
                        }
                    },
                    Option::None => {
                        self.stack.insert(
                            n - 1,
                            BNode::Tab { map, key: Option::None, first },
                        );
                        proof {
                            assert(self.stack@ =~= old(self).stack@);
                        }
                        Result::Err(Error::UnsupportedType)
                    },
                }
            },
            BNode::Dt { val } => {
                self.stack.insert(n - 1, BNode::Dt { val });
                proof {
                    assert(self.stack@ =~= old(self).stack@);
                }
                Result::Err(Error::DateInvalid)
            },
        }
    }

    /// Whether the innermost open container is the datetime aggregate.
    fn top_is_dt(&self) -> (r: bool)
        ensures
            r == (self.stack@.len() > 0 && self.stack@.last() is Dt),
    {
        let n = self.stack.len();
        if n == 0 {
            return false;
        }
        match &self.stack[n - 1] {
            BNode::Dt { .. } => true,
            _ => false,
        }
    }

    /// A boolean scalar.
    pub fn visit_bool(&mut self, v: bool) -> (r: Result<(), Error>)
        ensures
            b_feed_rel(
                old(self).stack@,
                old(self).done,
                Value::Boolean(v),
                final(self).stack@,
                final(self).done,
                r,
            ),
    {
        self.feed(Value::Boolean(v))
    }

    /// An integer scalar.
    pub fn visit_i64(&mut self, v: i64) -> (r: Result<(), Error>)
        ensures
            b_feed_rel(
                old(self).stack@,
                old(self).done,
                Value::Integer(v),
                final(self).stack@,
                final(self).done,
                r,
            ),
    {
        self.feed(Value::Integer(v))
    }

    /// An unsigned integer scalar; values beyond the integer range are
    /// rejected.
    pub fn visit_u64(&mut self, v: u64) -> (r: Result<(), Error>)
        ensures
            v <= i64::MAX as u64 ==> b_feed_rel(
                old(self).stack@,
                old(self).done,
                Value::Integer(v as i64),
                final(self).stack@,
                final(self).done,
                r,
            ),
            v > i64::MAX as u64 ==> final(self).stack@ == old(self).stack@ && final(self).done
                == old(self).done && (match r {
                Result::Err(e) => e matches Error::Custom(m) && m@ == "u64 value was too large"@,
                Result::Ok(_) => false,
            }),
    {
        if v <= 9223372036854775807u64 {
            self.feed(Value::Integer(v as i64))
        } else {
            Result::Err(Error::Custom(String::from_str("u64 value was too large")))
        }
    }

    /// A float scalar, given as its decimal rendering.
    pub fn visit_float(&mut self, repr: String) -> (r: Result<(), Error>)
        ensures
            b_feed_rel(
                old(self).stack@,
                old(self).done,
                Value::Float(repr),
                final(self).stack@,
                final(self).done,
                r,
            ),
    {
        self.feed(Value::Float(repr))
    }

    /// A string scalar; inside the datetime aggregate it is the datetime's
    /// rendering.
    pub fn visit_str(&mut self, s: String) -> (r: Result<(), Error>)
        ensures
            (old(self).stack@.len() > 0 && old(self).stack@.last() is Dt) ==> (match old(self).stack@.last() {
                BNode::Dt { val } => match val {
                    Option::None => r == Result::<(), Error>::Ok(()) && final(self).done == old(self).done && final(self).stack@.len() == old(self).stack@.len() && (forall|j: int|
                        0 <= j < old(self).stack@.len() - 1 ==> final(self).stack@[j] == old(self).stack@[j]) && (match final(self).stack@.last() {
                        BNode::Dt { val: val2 } => val2 matches Option::Some(d) && d.text == s,
                        _ => false,
                    }),
                    Option::Some(_) => r == Result::<(), Error>::Err(Error::DateInvalid) && final(self).stack@ == old(self).stack@ && final(self).done == old(self).done,
                },
                _ => true,
            }),
            !(old(self).stack@.len() > 0 && old(self).stack@.last() is Dt) ==> b_feed_rel(
                old(self).stack@,
                old(self).done,
                Value::String(s),
                final(self).stack@,
                final(self).done,
                r,
            ),
    {
        let n = self.stack.len();
        if self.top_is_dt() {
            let node = self.stack.remove(n - 1);
            match node {
                BNode::Dt { val } => match val {
                    Option::None => {
                        self.stack.insert(
                            n - 1,
                            BNode::Dt { val: Option::Some(Datetime { text: s }) },
                        );
                        proof {
                            assert(self.stack@ =~= old(self).stack@.update(
                                n - 1,
                                self.stack@[n - 1],
                            ));
                        }
                        Result::Ok(())
                    },
                    Option::Some(d) => {
                        self.stack.insert(n - 1, BNode::Dt { val: Option::Some(d) });
                        proof {
                            assert(self.stack@ =~= old(self).stack@);
                        }
                        Result::Err(Error::DateInvalid)
                    },
                },
                BNode::Arr { items } => {
                    self.stack.insert(n - 1, BNode::Arr { items });
                    proof {
                        assert(false);
                    }
                    Result::Err(Error::DateInvalid)
                },
                BNode::Tab { map, key, first } => {
                    self.stack.insert(n - 1, BNode::Tab { map, key, first });
                    proof {
                        assert(false);
                    }
                    Result::Err(Error::DateInvalid)
                },
            }
        } else {
            self.feed(Value::String(s))
        }
    }

    /// A datetime scalar given directly.
    pub fn visit_datetime(&mut self, d: Datetime) -> (r: Result<(), Error>)
        ensures
            b_feed_rel(
                old(self).stack@,
                old(self).done,
                Value::Datetime(d),
                final(self).stack@,
                final(self).done,
                r,
            ),
    {
        self.feed(Value::Datetime(d))
    }

    /// An absent value: as a table field the pending field is silently
    /// dropped; at the root, inside a sequence or inside the datetime
    /// aggregate absence is undefined.
    pub fn visit_none(&mut self) -> (r: Result<(), Error>)
        ensures
            final(self).done == old(self).done,
            final(self).stack@.len() == old(self).stack@.len(),
            forall|j: int|
                0 <= j < old(self).stack@.len() - 1 ==> final(self).stack@[j] == old(self).stack@[j],
            (if old(self).done is Some {
                final(self).stack@ == old(self).stack@ && r == Result::<(), Error>::Err(
                    Error::UnsupportedType,
                )
            } else if old(self).stack@.len() == 0 {
                final(self).stack@ == old(self).stack@ && r == Result::<(), Error>::Err(
                    Error::UnsupportedNone,
                )
            } else {
                match old(self).stack@.last() {
                    BNode::Tab { map, key, first } => match key {
                        Option::Some(_) => r == Result::<(), Error>::Ok(()) && final(self).stack@.last() == (BNode::Tab { map, key: Option::None, first }),
                        Option::None => final(self).stack@ == old(self).stack@ && r == Result::<
                            (),
                            Error,
                        >::Err(Error::UnsupportedType),
                    },
                    BNode::Arr { .. } => final(self).stack@ == old(self).stack@ && r == Result::<
                        (),
                        Error,
                    >::Err(Error::UnsupportedNone),
                    BNode::Dt { .. } => final(self).stack@ == old(self).stack@ && r == Result::<
                        (),
                        Error,
                    >::Err(Error::DateInvalid),
                }
            }),
    {
        if self.done.is_some() {
            return Result::Err(Error::UnsupportedType);
        }
        let n = self.stack.len();
        if n == 0 {
            return Result::Err(Error::UnsupportedNone);
        }
        let node = self.stack.remove(n - 1);
        match node {
            BNode::Tab { map, key, first } => match key {
                Option::Some(_) => {
                    self.stack.insert(n - 1, BNode::Tab { map, key: Option::None, first });
                    proof {
                        assert(self.stack@ =~= old(self).stack@.update(
                            n - 1,
                            self.stack@[n - 1],
                        ));
                    }
                    Result::Ok(())
                },
                Option::None => {
                    self.stack.insert(n - 1, BNode::Tab { map, key: Option::None, first });
                    proof {
                        assert(self.stack@ =~= old(self).stack@);
                    }
                    Result::Err(Error::UnsupportedType)
                },
            },
            BNode::Arr { items } => {
                self.stack.insert(n - 1, BNode::Arr { items });
                proof {
                    assert(self.stack@ =~= old(self).stack@);
                }
                Result::Err(Error::UnsupportedNone)
            },
            BNode::Dt { val } => {
                self.stack.insert(n - 1, BNode::Dt { val });
                proof {
                    assert(self.stack@ =~= old(self).stack@);
                }
                Result::Err(Error::DateInvalid)
            },
        }
    }

    /// Opens a sequence.
    pub fn begin_seq(&mut self) -> (r: Result<(), Error>)
        ensures
            (match r {
                Result::Ok(_) => old(self).done is None && !(old(self).stack@.len() > 0 && old(self).stack@.last() is Dt) && final(self).done == old(self).done && final(self).stack@
                    == old(self).stack@.push(final(self).stack@.last()) && (match final(self).stack@.last() {
                    BNode::Arr { items } => items@.len() == 0,
                    _ => false,
                }),
                Result::Err(e) => final(self).stack@ == old(self).stack@ && final(self).done == old(self).done && (if old(self).done is Some {
                    e == Error::UnsupportedType
                } else {
                    e == Error::DateInvalid && old(self).stack@.len() > 0 && old(self).stack@.last() is Dt
                }),
            }),
    {
        if self.done.is_some() {
            return Result::Err(Error::UnsupportedType);
        }
        if self.top_is_dt() {
            return Result::Err(Error::DateInvalid);
        }
        self.stack.push(BNode::Arr { items: Vec::new() });
        Result::Ok(())
    }

    /// Opens a table.
    pub fn begin_table(&mut self) -> (r: Result<(), Error>)
        ensures
            (match r {
                Result::Ok(_) => old(self).done is None && !(old(self).stack@.len() > 0 && old(self).stack@.last() is Dt) && final(self).done == old(self).done && final(self).stack@
                    == old(self).stack@.push(final(self).stack@.last()) && (match final(self).stack@.last() {
                    BNode::Tab { map, key, first } => map.entries@.len() == 0 && key is None
                        && first,
                    _ => false,
                }),
                Result::Err(e) => final(self).stack@ == old(self).stack@ && final(self).done == old(self).done && (if old(self).done is Some {
                    e == Error::UnsupportedType
                } else {
                    e == Error::DateInvalid && old(self).stack@.len() > 0 && old(self).stack@.last() is Dt
                }),
            }),
    {
        if self.done.is_some() {
            return Result::Err(Error::UnsupportedType);
        }
        if self.top_is_dt() {
            return Result::Err(Error::DateInvalid);
        }
        self.stack.push(BNode::Tab { map: Table::new(), key: Option::None, first: true });
        Result::Ok(())
    }

    /// Opens a named aggregate: the reserved sentinel name opens the
    /// datetime aggregate, any other an ordinary table.
    pub fn begin_struct(&mut self, name: &str) -> (r: Result<(), Error>)
        ensures
            name@ == DATETIME_SENTINEL@ ==> (match r {
                Result::Ok(_) => old(self).done is None && !(old(self).stack@.len() > 0 && old(self).stack@.last() is Dt) && final(self).done == old(self).done && final(self).stack@
                    == old(self).stack@.push(final(self).stack@.last()) && final(self).stack@.last() matches BNode::Dt { val: Option::None },
                Result::Err(e) => final(self).stack@ == old(self).stack@ && final(self).done == old(self).done && (if old(self).done is Some {
                    e == Error::UnsupportedType
                } else {
                    e == Error::DateInvalid && old(self).stack@.len() > 0 && old(self).stack@.last() is Dt
                }),
            }),
            name@ != DATETIME_SENTINEL@ ==> (match r {
                Result::Ok(_) => old(self).done is None && !(old(self).stack@.len() > 0 && old(self).stack@.last() is Dt) && final(self).done == old(self).done && final(self).stack@
                    == old(self).stack@.push(final(self).stack@.last()) && (match final(self).stack@.last() {
                    BNode::Tab { map, key, first } => map.entries@.len() == 0 && key is None
                        && first,
                    _ => false,
                }),
                Result::Err(e) => final(self).stack@ == old(self).stack@ && final(self).done == old(self).done && (if old(self).done is Some {
                    e == Error::UnsupportedType
                } else {
                    e == Error::DateInvalid && old(self).stack@.len() > 0 && old(self).stack@.last() is Dt
                }),
            }),
    {
        if str_eq(name, DATETIME_SENTINEL) {
            if self.done.is_some() {
                return Result::Err(Error::UnsupportedType);
            }
            if self.top_is_dt() {
                return Result::Err(Error::DateInvalid);
            }
            self.stack.push(BNode::Dt { val: Option::None });
            Result::Ok(())
        } else {
            self.begin_table()
        }
    }

    /// Announces the key of the next table field. The first field name a
    /// table receives is special: if it equals the reserved sentinel, the
    /// node switches to datetime collection and the aggregate yields a
    /// datetime instead of a table; announced any later, the sentinel is
    /// an ordinary (if unusual) key.
    pub fn visit_key(&mut self, k: String) -> (r: Result<(), Error>)
        ensures
            final(self).done == old(self).done,
            final(self).stack@.len() == old(self).stack@.len(),
            forall|j: int|
                0 <= j < old(self).stack@.len() - 1 ==> final(self).stack@[j] == old(self).stack@[j],
            (if old(self).done is Some {
                final(self).stack@ == old(self).stack@ && r == Result::<(), Error>::Err(
                    Error::UnsupportedType,
                )
            } else if old(self).stack@.len() == 0 {
                final(self).stack@ == old(self).stack@ && r == Result::<(), Error>::Err(
                    Error::UnsupportedType,
                )
            } else {
                match old(self).stack@.last() {
                    BNode::Dt { .. } => final(self).stack@ == old(self).stack@ && (if k@
                        == DATETIME_SENTINEL@ {
                        r == Result::<(), Error>::Ok(())
                    } else {
                        r == Result::<(), Error>::Err(Error::DateInvalid)
                    }),
                    BNode::Tab { map, key, first } => r == Result::<(), Error>::Ok(()) && (if first
                        && k@ == DATETIME_SENTINEL@ {
                        final(self).stack@.last() == (BNode::Dt { val: Option::None })
                    } else {
                        final(self).stack@.last() == (BNode::Tab {
                            map,
                            key: Option::Some(k),
                            first: false,
                        })
                    }),
                    BNode::Arr { .. } => final(self).stack@ == old(self).stack@ && r == Result::<
                        (),
                        Error,
                    >::Err(Error::UnsupportedType),
                }
            }),
    {
        if self.done.is_some() {
            return Result::Err(Error::UnsupportedType);
        }
        let n = self.stack.len();
        if n == 0 {
            return Result::Err(Error::UnsupportedType);
        }
        if self.top_is_dt() {
            if str_eq(k.as_str(), DATETIME_SENTINEL) {
                return Result::Ok(());
            } else {
                return Result::Err(Error::DateInvalid);
            }
        }
        let node = self.stack.remove(n - 1);
        match node {
            BNode::Tab { map, key: _, first } => {
                if first && str_eq(k.as_str(), DATETIME_SENTINEL) {
                    self.stack.insert(n - 1, BNode::Dt { val: Option::None });
                    proof {
                        assert(self.stack@ =~= old(self).stack@.update(
                            n - 1,
                            self.stack@[n - 1],
                        ));
                    }
                    Result::Ok(())
                } else {
                    self.stack.insert(
                        n - 1,
                        BNode::Tab { map, key: Option::Some(k), first: false },
                    );
                    proof {
                        assert(self.stack@ =~= old(self).stack@.update(
                            n - 1,
                            self.stack@[n - 1],
                        ));
                    }
                    Result::Ok(())
                }
            },
            BNode::Arr { items } => {
                self.stack.insert(n - 1, BNode::Arr { items });
                proof {
                    assert(self.stack@ =~= old(self).stack@);
                }
                Result::Err(Error::UnsupportedType)
            },
            BNode::Dt { val } => {
                self.stack.insert(n - 1, BNode::Dt { val });
                proof {
                    assert(false);
                }
                Result::Err(Error::UnsupportedType)
            },
        }
    }

    /// Closes a sequence, feeding the collected array one level out.
    pub fn end_seq(&mut self) -> (r: Result<(), Error>)
        ensures
            (match old(self).stack@.last() {
                BNode::Arr { items } => old(self).stack@.len() > 0 && old(self).done is None
                    ==> b_feed_rel(
                    old(self).stack@.drop_last(),
                    old(self).done,
                    Value::Array(items),
                    final(self).stack@,
                    final(self).done,
                    r,
                ),
                _ => true,
            }),
            !(old(self).done is None && old(self).stack@.len() > 0
                && old(self).stack@.last() is Arr) ==> final(self).stack@ == old(self).stack@
                && final(self).done == old(self).done && (match r {
                Result::Err(e) => if old(self).done is Some {
                    e == Error::UnsupportedType
                } else if old(self).stack@.len() > 0 && old(self).stack@.last() is Dt {
                    e == Error::DateInvalid
                } else {
                    e == Error::UnsupportedType
                },
                Result::Ok(_) => false,
            }),
    {
        if self.done.is_some() {
            return Result::Err(Error::UnsupportedType);
        }
        let n = self.stack.len();
        if n == 0 {
            return Result::Err(Error::UnsupportedType);
        }
        let node = self.stack.remove(n - 1);
        proof {
            assert(self.stack@ =~= old(self).stack@.drop_last());
        }
        match node {
            BNode::Arr { items } => self.feed(Value::Array(items)),
            BNode::Tab { map, key, first } => {
                self.stack.insert(n - 1, BNode::Tab { map, key, first });
                proof {
                    assert(self.stack@ =~= old(self).stack@);
                }
                Result::Err(Error::UnsupportedType)
            },
            BNode::Dt { val } => {
                self.stack.insert(n - 1, BNode::Dt { val });
                proof {
                    assert(self.stack@ =~= old(self).stack@);
                }
                Result::Err(Error::DateInvalid)
            },
        }
    }

    /// Closes a table or the datetime aggregate, feeding the finished
    /// value one level out. A datetime aggregate that did not receive its
    /// string field is an invalid date.
    pub fn end_table(&mut self) -> (r: Result<(), Error>)
        ensures
            (match old(self).stack@.last() {
                BNode::Tab { map, .. } => old(self).stack@.len() > 0 && old(self).done is None
                    ==> b_feed_rel(
                    old(self).stack@.drop_last(),
                    old(self).done,
                    Value::Table(map),
                    final(self).stack@,
                    final(self).done,
                    r,
                ),
                BNode::Dt { val: Option::Some(d) } => old(self).stack@.len() > 0 && old(self).done is None ==> b_feed_rel(
                    old(self).stack@.drop_last(),
                    old(self).done,
                    Value::Datetime(d),
                    final(self).stack@,
                    final(self).done,
                    r,
                ),
                BNode::Dt { val: Option::None } => old(self).stack@.len() > 0 && old(self).done is None ==> final(self).stack@ == old(self).stack@ && final(self).done
                    == old(self).done && r == Result::<(), Error>::Err(Error::DateInvalid),
                _ => true,
            }),
            !(old(self).done is None && old(self).stack@.len() > 0) ==> final(self).stack@ == old(self).stack@ && final(self).done == old(self).done && r == Result::<(), Error>::Err(
                Error::UnsupportedType,
            ),
            (old(self).done is None && old(self).stack@.len() > 0
                && old(self).stack@.last() is Arr) ==> final(self).stack@ == old(self).stack@
                && final(self).done == old(self).done && r == Result::<(), Error>::Err(
                Error::UnsupportedType,
            ),
    {
        if self.done.is_some() {
            return Result::Err(Error::UnsupportedType);
        }
        let n = self.stack.len();
        if n == 0 {
            return Result::Err(Error::UnsupportedType);
        }
        let node = self.stack.remove(n - 1);
        proof {
            assert(self.stack@ =~= old(self).stack@.drop_last());
        }
        match node {
            BNode::Tab { map, .. } => self.feed(Value::Table(map)),
            BNode::Dt { val } => match val {
                Option::Some(d) => self.feed(Value::Datetime(d)),
                Option::None => {
                    self.stack.insert(n - 1, BNode::Dt { val: Option::None });
                    proof {
                        assert(self.stack@ =~= old(self).stack@);
                    }
                    Result::Err(Error::DateInvalid)
                },
            },
            BNode::Arr { items } => {
                self.stack.insert(n - 1, BNode::Arr { items });
                proof {
                    assert(self.stack@ =~= old(self).stack@);
                }
                Result::Err(Error::UnsupportedType)
            },
        }
    }

    /// Hands the finished root value out.
    pub fn finish(self) -> (r: Result<Value, Error>)
        ensures
            (match self.done {
                Option::Some(v) => r == Result::<Value, Error>::Ok(v),
                Option::None => r == Result::<Value, Error>::Err(Error::UnsupportedType),
            }),
    {
        match self.done {
            Option::Some(v) => Result::Ok(v),
            Option::None => Result::Err(Error::UnsupportedType),
        }
    }
}

} // verus!
