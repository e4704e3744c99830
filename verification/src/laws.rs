//! The grammar laws the engine guarantees, stated and proved over the
//! transition specification of [`crate::ser`].

use vstd::prelude::*;

use crate::num::dec_digits;
use crate::ser::esc_char;
use crate::ser::is_int_numeral;
use crate::ser::s_array_type;
use crate::ser::s_begin_seq;
use crate::ser::s_begin_table;
use crate::ser::s_complete;
use crate::ser::s_emit_key_rec;
use crate::ser::s_end_seq;
use crate::ser::s_end_table;
use crate::ser::s_key_part;
use crate::ser::s_produce;
use crate::ser::s_produce_elems;
use crate::ser::s_produce_fields;
use crate::ser::s_scalar;
use crate::ser::s_ser_key;
use crate::ser::s_table_header;
use crate::ser::spec_escape_key;
use crate::ser::spec_float_token;
use crate::ser::Error;
use crate::ser::FrameV;
use crate::ser::SerView;
use crate::value::spec_ty;
use crate::value::Ty;
use crate::value::Value;

verus! {

// ---------------------------------------------------------------------------
// String escaping (every reserved character is escaped on emission).
// ---------------------------------------------------------------------------
/// Each of the reserved characters is written as its two-character escape
/// inside a quoted string, and the remaining control characters get a
/// numeric escape.
pub proof fn lemma_reserved_chars_escaped()
    ensures
        esc_char('\u{8}') == seq!['\\', 'b'],
        esc_char('\u{9}') == seq!['\\', 't'],
        esc_char('\u{a}') == seq!['\\', 'n'],
        esc_char('\u{c}') == seq!['\\', 'f'],
        esc_char('\u{d}') == seq!['\\', 'r'],
        esc_char('"') == seq!['\\', '"'],
        esc_char('\\') == seq!['\\', '\\'],
        forall|c: char|
            (c as u32) < 0x1f && esc_char(c).len() >= 2 ==> (#[trigger] esc_char(c))[0] == '\\',
{
    assert forall|c: char| (c as u32) < 0x1f && esc_char(c).len() >= 2 implies (
    #[trigger] esc_char(c))[0] == '\\' by {
        if c != '\u{8}' && c != '\u{9}' && c != '\u{a}' && c != '\u{c}' && c != '\u{d}' {
            assert(esc_char(c) == seq!['\\', 'u'] + crate::ser::pad4(
                dec_digits(c as u32 as nat),
            ));
        }
    }
}

/// No character of a string passes through unescaped if it is one of the
/// reserved set: its escape sequence never equals the bare character.
pub proof fn lemma_reserved_chars_never_bare(c: char)
    requires
        c == '\u{8}' || c == '\u{9}' || c == '\u{a}' || c == '\u{c}' || c == '\u{d}' || c == '"'
            || c == '\\',
    ensures
        esc_char(c).len() == 2,
        esc_char(c)[0] == '\\',
        esc_char(c) != seq![c] || c == '\\',
{
}

// ---------------------------------------------------------------------------
// Float rendering (an integral rendering always gains a trailing `.0`).
// ---------------------------------------------------------------------------
/// A float whose rendering is lexically an integer is written with an
/// explicit trailing `.0`; any other rendering is written unchanged. The
/// engine writes exactly `spec_float_token` for every float value.
pub proof fn lemma_float_token_shape(repr: Seq<char>)
    ensures
        is_int_numeral(repr) ==> spec_float_token(repr) == repr + seq!['.', '0'],
        !is_int_numeral(repr) ==> spec_float_token(repr) == repr,
{
}

// ---------------------------------------------------------------------------
// Array homogeneity.
// ---------------------------------------------------------------------------
/// Once an array's element type is resolved, producing any value of a
/// different type into it fails with `ArrayMixedType`, leaving the state
/// untouched.
pub proof fn lemma_element_type_mismatch(v: Value, st: SerView)
    requires
        !st.dt,
        st.frames.len() > 0,
        (match st.frames.last() {
            FrameV::Array { ty, .. } => ty matches Option::Some(t) && t != spec_ty(v),
            _ => false,
        }),
    ensures
        s_produce(v, st).1 == Result::<(), Error>::Err(Error::ArrayMixedType),
        s_produce(v, st).0 == st,
{
    assert(s_array_type(st.frames, spec_ty(v)) == Result::<Seq<FrameV>, Error>::Err(
        Error::ArrayMixedType,
    ));
}

// ---------------------------------------------------------------------------
// The value-after-table rule.
// ---------------------------------------------------------------------------
/// The values whose emission must write an inline token under the pending
/// key before anything else: scalars, and arrays down their first element
/// (an empty array writes `[]`, so it counts too). These are the values
/// blocked once a nested table header has been emitted.
pub open spec fn v_checks(v: Value) -> bool
    decreases v,
{
    match v {
        Value::Array(a) => a@.len() == 0 || v_checks(a@[0]),
        Value::Table(_) => false,
        _ => true,
    }
}

/// Whether every frame of `frames[i..]` is an array frame whose first
/// element is still pending, below which sits a table frame that has
/// already emitted a nested table.
pub open spec fn blocked_chain(frames: Seq<FrameV>, i: int) -> bool
    decreases i,
{
    0 < i <= frames.len() && (match frames[i - 1] {
        FrameV::Table { table_emitted, .. } => table_emitted,
        FrameV::Array { first, .. } => first && blocked_chain(frames, i - 1),
    })
}

/// The key walk fails with `ValueAfterTable` over a blocked chain.
proof fn lemma_walk_blocked(frames: Seq<FrameV>, i: int)
    requires
        blocked_chain(frames, i),
    ensures
        s_emit_key_rec(frames, i) == Result::<(Seq<char>, Seq<FrameV>), Error>::Err(
            Error::ValueAfterTable,
        ),
    decreases i,
{
    match frames[i - 1] {
        FrameV::Table { .. } => {},
        FrameV::Array { .. } => {
            lemma_walk_blocked(frames, i - 1);
        },
    }
}

/// `blocked_chain` does not look at array element types, so resolving one
/// keeps the chain blocked.
proof fn lemma_blocked_after_array_type(frames: Seq<FrameV>, t: Ty)
    requires
        blocked_chain(frames, frames.len() as int),
    ensures
        (match s_array_type(frames, t) {
            Result::Ok(f) => blocked_chain(f, f.len() as int) && f.len() == frames.len(),
            Result::Err(_) => true,
        }),
{
    match s_array_type(frames, t) {
        Result::Ok(f) => {
            if f != frames {
                assert(f.len() == frames.len());
                if frames.len() >= 2 {
                    lemma_blocked_prefix_eq(frames, f, frames.len() - 1);
                }
            }
        },
        Result::Err(_) => {},
    }
}

/// Chains that agree below `i` are equally blocked there.
proof fn lemma_blocked_prefix_eq(a: Seq<FrameV>, b: Seq<FrameV>, i: int)
    requires
        blocked_chain(a, i),
        b.len() >= i,
        forall|j: int| 0 <= j < i ==> a[j] == b[j],
    ensures
        blocked_chain(b, i),
    decreases i,
{
    match a[i - 1] {
        FrameV::Table { .. } => {},
        FrameV::Array { .. } => {
            lemma_blocked_prefix_eq(a, b, i - 1);
        },
    }
}

/// Once a table has emitted a nested table, producing any further scalar
/// or array value as a sibling in that table fails with
/// `ValueAfterTable`. (A sibling that is itself a table, or an array of
/// tables, instead nests its own header one level deeper and is allowed.)
pub proof fn lemma_value_after_table(v: Value, st: SerView)
    requires
        !st.dt,
        blocked_chain(st.frames, st.frames.len() as int),
        v_checks(v),
        (match st.frames.last() {
            FrameV::Array { ty, .. } => ty is None || ty == Option::Some(spec_ty(v)),
            _ => true,
        }),
    ensures
        s_produce(v, st).1 == Result::<(), Error>::Err(Error::ValueAfterTable),
    decreases v,
{
    let n = st.frames.len() as int;
    match v {
        Value::String(_) | Value::Integer(_) | Value::Float(_) | Value::Boolean(_)
            | Value::Datetime(_) => {
            match s_array_type(st.frames, spec_ty(v)) {
                Result::Ok(f) => {
                    lemma_blocked_after_array_type(st.frames, spec_ty(v));
                    lemma_walk_blocked(f, f.len() as int);
                },
                Result::Err(_) => {
                    // A blocked chain's innermost frame is an array whose
                    // first element is pending, so its type is unresolved
                    // and the type check cannot fail; or it is a table,
                    // where no type check happens.
                    assert(false);
                },
            }
        },
        Value::Array(a) => {
            match s_array_type(st.frames, Ty::Array) {
                Result::Ok(f) => {
                    lemma_blocked_after_array_type(st.frames, Ty::Array);
                    let st1 = s_begin_seq(st).0;
                    assert(st1.frames == f.push(
                        FrameV::Array { first: true, ty: Option::None },
                    ));
                    assert(blocked_chain(st1.frames, st1.frames.len() as int)) by {
                        lemma_blocked_prefix_eq(f, st1.frames, f.len() as int);
                    }
                    if a@.len() == 0 {
                        // The empty array still needs `key = []`, and the
                        // walk over the popped chain is blocked.
                        let popped = st1.frames.drop_last();
                        assert(popped =~= f);
                        match s_array_type(popped, Ty::Array) {
                            Result::Ok(f2) => {
                                lemma_blocked_after_array_type(popped, Ty::Array);
                                lemma_walk_blocked(f2, f2.len() as int);
                            },
                            Result::Err(_) => {
                                assert(false);
                            },
                        }
                    } else {
                        lemma_value_after_table(a@[0], st1);
                        assert(s_produce_elems(a@, 0, st1).1 == Result::<(), Error>::Err(
                            Error::ValueAfterTable,
                        ));
                    }
                },
                Result::Err(_) => {
                    assert(false);
                },
            }
        },
        Value::Table(_) => {},
    }
}

// ---------------------------------------------------------------------------
// Success of serialization for canonically ordered trees.
// ---------------------------------------------------------------------------
/// The chain `frames[..i]` is open for a value: the nearest table frame
/// (looking down through array frames) has not yet emitted a nested
/// table.
pub open spec fn chain_ok_upto(frames: Seq<FrameV>, i: int) -> bool
    decreases i,
{
    0 < i <= frames.len() && (match frames[i - 1] {
        FrameV::Table { table_emitted, .. } => !table_emitted,
        FrameV::Array { .. } => chain_ok_upto(frames, i - 1),
    })
}

/// The whole chain is open.
pub open spec fn chain_ok(frames: Seq<FrameV>) -> bool {
    chain_ok_upto(frames, frames.len() as int)
}

/// The innermost frame accepts an element of type `t`.
pub open spec fn ty_ok(frames: Seq<FrameV>, t: Ty) -> bool {
    frames.len() == 0 || (match frames.last() {
        FrameV::Array { ty, .. } => ty is None || ty == Option::Some(t),
        _ => true,
    })
}

/// Array frames strictly below the innermost frame are untouched.
pub open spec fn arrays_kept(pre: Seq<FrameV>, post: Seq<FrameV>) -> bool {
    forall|j: int| 0 <= j < pre.len() - 1 && pre[j] is Array ==> post[j] == #[trigger] pre[j]
}

/// Every frame of `frames[lo+1..hi]` is an array frame.
pub open spec fn all_arrays(frames: Seq<FrameV>, lo: int, hi: int) -> bool {
    forall|l: int| lo < l < hi ==> (#[trigger] frames[l]) is Array
}

/// The nearest table below `hi` (looking down through array frames) keeps
/// its key and its `table_emitted` flag.
pub open spec fn guard_kept(pre: Seq<FrameV>, post: Seq<FrameV>, hi: int) -> bool {
    forall|j: int|
        0 <= j < hi && (#[trigger] pre[j]) is Table && all_arrays(pre, j, hi) ==> post[j] is Table
            && post[j]->Table_key == pre[j]->Table_key && post[j]->Table_table_emitted
            == pre[j]->Table_table_emitted
}

/// The array type check keeps the chain open and the other frames as they
/// are.
proof fn lemma_array_type_ok(frames: Seq<FrameV>, t: Ty)
    requires
        ty_ok(frames, t),
    ensures
        (match s_array_type(frames, t) {
            Result::Ok(f) => f.len() == frames.len() && (forall|j: int|
                0 <= j < frames.len() - 1 ==> f[j] == #[trigger] frames[j]) && (chain_ok(frames)
                ==> chain_ok(f)) && (frames.len() == 0 ==> f == frames) && (frames.len() > 0
                ==> (match frames.last() {
                FrameV::Array { first, .. } => f.last() == (FrameV::Array {
                    first,
                    ty: Option::Some(t),
                }),
                _ => f == frames,
            })),
            Result::Err(_) => false,
        }),
{
    if frames.len() == 0 {
    } else {
        match s_array_type(frames, t) {
            Result::Ok(f) => {
                if chain_ok(frames) {
                    if f != frames {
                        lemma_chain_prefix_eq(frames, f, frames.len() as int);
                    }
                }
                match frames.last() {
                    FrameV::Array { first, ty } => {
                        if ty is None {
                            assert(f.last() == FrameV::Array { first, ty: Option::Some(t) });
                        }
                    },
                    _ => {},
                }
            },
            Result::Err(_) => {},
        }
    }
}

/// Openness only depends on the frames below `i` up to the nearest table.
proof fn lemma_chain_prefix_eq(a: Seq<FrameV>, b: Seq<FrameV>, i: int)
    requires
        chain_ok_upto(a, i),
        b.len() >= i,
        forall|j: int| 0 <= j < i ==> (match #[trigger] a[j] {
            FrameV::Table { .. } => b[j] == a[j],
            FrameV::Array { .. } => b[j] is Array,
        }),
    ensures
        chain_ok_upto(b, i),
    decreases i,
{
    match a[i - 1] {
        FrameV::Table { .. } => {},
        FrameV::Array { .. } => {
            lemma_chain_prefix_eq(a, b, i - 1);
        },
    }
}

/// `s_key_part` changes nothing but `table_emitted` flags: kinds, keys,
/// `first` flags and array frames are kept.
proof fn lemma_key_part_kinds(frames: Seq<FrameV>, i: int)
    requires
        0 <= i <= frames.len(),
    ensures
        (forall|j: int|
            0 <= j < frames.len() && (#[trigger] frames[j]) is Array ==> s_key_part(
                frames,
                i,
            ).1[j] == frames[j]),
        (forall|j: int|
            0 <= j < frames.len() && (#[trigger] frames[j]) is Table ==> s_key_part(
                frames,
                i,
            ).1[j] is Table && s_key_part(frames, i).1[j]->Table_key == frames[j]->Table_key
                && s_key_part(frames, i).1[j]->Table_first == frames[j]->Table_first),
    decreases i,
{
    crate::ser::lemma_key_part_frames(frames, i);
    if i <= 0 {
    } else {
        match frames[i - 1] {
            FrameV::Array { .. } => {
                lemma_key_part_kinds(frames, i - 1);
            },
            FrameV::Table { key, first, table_emitted } => {
                let marked = frames.update(
                    i - 1,
                    FrameV::Table { key, first, table_emitted: true },
                );
                lemma_key_part_kinds(marked, i - 1);
                crate::ser::lemma_key_part_frames(marked, i - 1);
                let u = s_key_part(frames, i).1;
                assert(u == s_key_part(marked, i - 1).1);
                assert forall|j: int|
                    0 <= j < frames.len() && (#[trigger] frames[j]) is Array implies u[j]
                    == frames[j] by {
                    assert(marked[j] == frames[j]);
                }
                assert forall|j: int|
                    0 <= j < frames.len() && (#[trigger] frames[j]) is Table implies u[j] is Table
                    && u[j]->Table_key == frames[j]->Table_key && u[j]->Table_first
                    == frames[j]->Table_first by {
                    if j == i - 1 {
                        assert(marked[j]->Table_key == frames[j]->Table_key);
                        assert(marked[j]->Table_first == frames[j]->Table_first);
                    } else {
                        assert(marked[j] == frames[j]);
                    }
                }
            },
        }
    }
}

/// Over an open chain the key walk always succeeds; it leaves frames from
/// `i` on alone, keeps arrays and table keys everywhere, flips the
/// innermost table's `first` flag, and keeps the chain open.
proof fn lemma_walk_ok(frames: Seq<FrameV>, i: int)
    requires
        chain_ok_upto(frames, i),
    ensures
        (match s_emit_key_rec(frames, i) {
            Result::Ok(p) => p.1.len() == frames.len() && (forall|j: int|
                i <= j < frames.len() ==> p.1[j] == #[trigger] frames[j]) && (forall|j: int|
                0 <= j < frames.len() && (#[trigger] frames[j]) is Array ==> p.1[j] == frames[j])
                && (forall|j: int|
                0 <= j < frames.len() && (#[trigger] frames[j]) is Table ==> p.1[j] is Table
                    && p.1[j]->Table_key == frames[j]->Table_key) && chain_ok_upto(p.1, i)
                && guard_kept(frames, p.1, i) && (match frames[i - 1] {
                FrameV::Table { key, first, table_emitted } => p.1[i - 1] == (FrameV::Table {
                    key,
                    first: false,
                    table_emitted,
                }),
                FrameV::Array { .. } => p.1[i - 1] == frames[i - 1],
            }),
            Result::Err(_) => false,
        }),
    decreases i,
{
    match frames[i - 1] {
        FrameV::Array { first, ty } => {
            if first {
                lemma_walk_ok(frames, i - 1);
                match s_emit_key_rec(frames, i - 1) {
                    Result::Ok(p) => {
                        assert(chain_ok_upto(p.1, i));
                        assert forall|j: int|
                            0 <= j < i && (#[trigger] frames[j]) is Table && all_arrays(
                                frames,
                                j,
                                i,
                            ) implies p.1[j] is Table && p.1[j]->Table_key == frames[j]->Table_key
                            && p.1[j]->Table_table_emitted
                            == frames[j]->Table_table_emitted by {
                            assert(all_arrays(frames, j, i - 1));
                            assert(guard_kept(frames, p.1, i - 1));
                        }
                    },
                    Result::Err(_) => {},
                }
            } else {
                assert(chain_ok_upto(frames, i));
            }
        },
        FrameV::Table { key, first, table_emitted } => {
            assert(!table_emitted);
            if first {
                let h = s_table_header(frames, i - 1);
                crate::ser::lemma_table_header_frames(frames, i - 1);
                if i - 1 > 0 {
                    lemma_key_part_kinds(frames, i - 1);
                }
                let updated2 = h.1.update(
                    i - 1,
                    FrameV::Table { key, first: false, table_emitted: h.1[i - 1]->Table_table_emitted },
                );
                assert(h.1[i - 1] == frames[i - 1]);
                assert(chain_ok_upto(updated2, i));
                assert forall|j: int|
                    0 <= j < i && (#[trigger] frames[j]) is Table && all_arrays(
                        frames,
                        j,
                        i,
                    ) implies updated2[j] is Table && updated2[j]->Table_key
                    == frames[j]->Table_key && updated2[j]->Table_table_emitted
                    == frames[j]->Table_table_emitted by {
                    assert(j == i - 1);
                }
            } else {
                assert(chain_ok_upto(frames, i));
                let updated2 = frames.update(
                    i - 1,
                    FrameV::Table { key, first: false, table_emitted },
                );
                assert(s_emit_key_rec(frames, i) matches Result::Ok(p) && p.1 == frames);
            }
        },
    }
}

/// Frame kinds are preserved position by position.
pub open spec fn kinds_kept(pre: Seq<FrameV>, post: Seq<FrameV>) -> bool {
    post.len() == pre.len() && (forall|j: int|
        0 <= j < pre.len() ==> ((#[trigger] pre[j]) is Array <==> post[j] is Array))
}

/// What writing one non-table value of type `t` does to the chain: it
/// stays open, array frames below the innermost are untouched, the
/// nearest enclosing tables keep key and `table_emitted`, and the
/// innermost frame records the written value.
pub open spec fn step_ok(pre: SerView, post: SerView, t: Ty) -> bool {
    post.dt == pre.dt && kinds_kept(pre.frames, post.frames) && chain_ok(post.frames)
        && arrays_kept(pre.frames, post.frames) && guard_kept(
        pre.frames,
        post.frames,
        pre.frames.len() as int,
    ) && (match pre.frames.last() {
        FrameV::Array { .. } => post.frames.last() == (FrameV::Array {
            first: false,
            ty: Option::Some(t),
        }),
        FrameV::Table { key, first, table_emitted } => post.frames.last() == (FrameV::Table {
            key,
            first: false,
            table_emitted,
        }),
    })
}

/// Writing a scalar token into an open chain always succeeds.
proof fn lemma_scalar_ok(st: SerView, t: Ty, text: Seq<char>)
    requires
        !st.dt,
        st.frames.len() > 0,
        chain_ok(st.frames),
        ty_ok(st.frames, t),
    ensures
        s_scalar(st, t, text).1 == Result::<(), Error>::Ok(()),
        step_ok(st, s_scalar(st, t, text).0, t),
{
    let n = st.frames.len() as int;
    lemma_array_type_ok(st.frames, t);
    match s_array_type(st.frames, t) {
        Result::Ok(f) => {
            lemma_walk_ok(f, n);
            match s_emit_key_rec(f, n) {
                Result::Ok(p) => {
                    let post = s_scalar(st, t, text).0;
                    assert(post.frames == s_complete(
                        SerView { out: arbitrary(), frames: p.1, dt: st.dt },
                    ).frames);
                    // chain stays open after the completion flip
                    match p.1.last() {
                        FrameV::Table { .. } => {
                            assert(chain_ok(post.frames));
                        },
                        FrameV::Array { .. } => {
                            assert(post.frames.last() is Array);
                            lemma_chain_prefix_eq(p.1, post.frames, n - 1);
                            assert(chain_ok(post.frames));
                        },
                    }
                    assert forall|j: int|
                        0 <= j < n && (#[trigger] st.frames[j]) is Table && all_arrays(
                            st.frames,
                            j,
                            n,
                        ) implies post.frames[j] is Table && post.frames[j]->Table_key
                        == st.frames[j]->Table_key && post.frames[j]->Table_table_emitted
                        == st.frames[j]->Table_table_emitted by {
                        if j < n - 1 {
                            assert(f[j] == st.frames[j]);
                            assert(all_arrays(f, j, n));
                            assert(guard_kept(f, p.1, n));
                        }
                    }
                },
                Result::Err(_) => {},
            }
        },
        Result::Err(_) => {},
    }
}

/// A value tree in canonical shape: arrays are homogeneous and contain no
/// tables, and table keys contain no newline.
pub open spec fn wf_tree(v: Value) -> bool
    decreases v, 0int, 0int,
{
    match v {
        Value::Array(a) => (forall|j: int|
            0 <= j < a@.len() ==> spec_ty(#[trigger] a@[j]) == spec_ty(a@[0])) && (a@.len() > 0
            ==> spec_ty(a@[0]) != Ty::Table) && wf_list(a@, 0),
        Value::Table(t) => wf_fields(t.entries@, 0),
        _ => true,
    }
}

/// Every element of `a[i..]` is a well-formed tree.
pub open spec fn wf_list(a: Seq<Value>, i: int) -> bool
    decreases a, 1int, a.len() - i,
{
    i >= a.len() || i < 0 || (wf_tree(a[i]) && wf_list(a, i + 1))
}

/// Every entry of `entries[i..]` has a newline-free key and a well-formed
/// value.
pub open spec fn wf_fields(entries: Seq<(String, Value)>, i: int) -> bool
    decreases entries, 1int, entries.len() - i,
{
    i >= entries.len() || i < 0 || (!crate::text::spec_contains_char(entries[i].0@, '\n')
        && wf_tree(entries[i].1) && wf_fields(entries, i + 1))
}

/// Producing a well-formed value into a fitting open context succeeds.
proof fn lemma_produce_ok(v: Value, st: SerView)
    requires
        !st.dt,
        wf_tree(v),
        spec_ty(v) == Ty::Table ==> st.frames.len() == 0 || st.frames.last() is Table,
        spec_ty(v) != Ty::Table ==> st.frames.len() > 0 && chain_ok(st.frames) && ty_ok(
            st.frames,
            spec_ty(v),
        ),
    ensures
        s_produce(v, st).1 == Result::<(), Error>::Ok(()),
        s_produce(v, st).0.dt == st.dt,
        kinds_kept(st.frames, s_produce(v, st).0.frames),
        spec_ty(v) != Ty::Table ==> step_ok(st, s_produce(v, st).0, spec_ty(v)),
        spec_ty(v) == Ty::Table && st.frames.len() > 0 ==> s_produce(v, st).0.frames.last() is Table,
    decreases v, 0int, 0int,
{
    let n = st.frames.len() as int;
    match v {
        Value::String(_) | Value::Integer(_) | Value::Float(_) | Value::Boolean(_)
            | Value::Datetime(_) => {
            lemma_scalar_ok(st, spec_ty(v), arbitrary());
            match v {
                Value::String(s) => {
                    lemma_scalar_ok(st, Ty::Str, crate::ser::spec_quoted(s@));
                },
                Value::Integer(i) => {
                    lemma_scalar_ok(st, Ty::Integer, crate::num::int_text(i as int));
                },
                Value::Float(f) => {
                    lemma_scalar_ok(st, Ty::Float, spec_float_token(f@));
                },
                Value::Boolean(b) => {
                    lemma_scalar_ok(st, Ty::Bool, crate::ser::s_bool_text(b));
                },
                Value::Datetime(d) => {
                    lemma_scalar_ok(st, Ty::Datetime, d.text@);
                },
                _ => {},
            }
        },
        Value::Array(a) => {
            lemma_array_type_ok(st.frames, Ty::Array);
            let f = match s_array_type(st.frames, Ty::Array) {
                Result::Ok(f) => f,
                Result::Err(_) => arbitrary(),
            };
            let st1 = s_begin_seq(st).0;
            assert(st1.frames == f.push(FrameV::Array { first: true, ty: Option::None }));
            assert(chain_ok(st1.frames)) by {
                assert(st1.frames.last() is Array);
                assert(chain_ok_upto(f, f.len() as int));
                lemma_chain_prefix_eq(f, st1.frames, f.len() as int);
            }
            let t0: Ty = if a@.len() > 0 {
                spec_ty(a@[0])
            } else {
                Ty::Bool
            };
            lemma_elems_ok(a@, 0, st1, t0);
            let st2 = s_produce_elems(a@, 0, st1).0;
            let popped = st2.frames.drop_last();
            if a@.len() == 0 {
                assert(st2 == st1);
                assert(popped =~= f);
                assert(ty_ok(popped, Ty::Array)) by {
                    match st.frames.last() {
                        FrameV::Array { .. } => {
                            assert(f.last() is Array && f.last()->Array_ty == Option::Some(
                                Ty::Array,
                            ));
                        },
                        FrameV::Table { .. } => {},
                    }
                }
                lemma_array_type_ok(popped, Ty::Array);
                match s_array_type(popped, Ty::Array) {
                    Result::Ok(f2) => {
                        assert(chain_ok(f2));
                        lemma_walk_ok(f2, f2.len() as int);
                    },
                    Result::Err(_) => {
                        assert(false);
                    },
                }
            } else {
                assert(s_produce_elems(a@, 0, st1).1 == Result::<(), Error>::Ok(()));
                assert(st2.frames.last() == (FrameV::Array { first: false, ty: Option::Some(t0) }));
                assert(t0 != Ty::Table);
            }
            let post = s_produce(v, st).0;
            assert(s_produce(v, st).1 == Result::<(), Error>::Ok(()));
            assert(step_ok(st, post, Ty::Array)) by {
                lemma_array_step(st, f, st1, st2, post, t0, a@.len() == 0);
            }
        },
        Value::Table(t) => {
            let f = st.frames;
            assert(s_array_type(st.frames, Ty::Table) == Result::<Seq<FrameV>, Error>::Ok(f));
            let st1 = s_begin_table(st).0;
            let fresh = FrameV::Table { key: Seq::empty(), first: true, table_emitted: false };
            assert(st1.frames == f.push(fresh));
            lemma_fields_ok(t.entries@, 0, 0, st1);
            let st2 = s_produce_fields(t.entries@, 0, 0, st1).0;
            lemma_fields_ok(t.entries@, 0, 1, st2);
            let st3 = s_produce_fields(t.entries@, 0, 1, st2).0;
            lemma_fields_ok(t.entries@, 0, 2, st3);
            let st4 = s_produce_fields(t.entries@, 0, 2, st3).0;
            assert(st4.frames.last() is Table);
            let post = s_produce(v, st).0;
            assert(s_end_table(st4).1 == Result::<(), Error>::Ok(()));
            assert(post.frames.len() == st.frames.len()) by {
                if st4.frames.last()->Table_first {
                    crate::ser::lemma_table_header_frames(
                        st4.frames.drop_last(),
                        st4.frames.len() - 1,
                    );
                }
            }
            if st.frames.len() > 0 {
                assert(post.frames.last() is Table) by {
                    lemma_table_post_shape(st, st1, st2, st3, st4, post);
                }
            }
            assert(kinds_kept(st.frames, post.frames)) by {
                lemma_table_post_kinds(st, st1, st2, st3, st4, post);
            }
        },
    }
}

/// Producing the elements of a homogeneous non-table array succeeds.
proof fn lemma_elems_ok(a: Seq<Value>, i: int, st: SerView, t0: Ty)
    requires
        !st.dt,
        0 <= i,
        st.frames.len() > 0,
        st.frames.last() is Array,
        chain_ok(st.frames),
        t0 != Ty::Table,
        forall|j: int| i <= j < a.len() ==> spec_ty(#[trigger] a[j]) == t0,
        wf_list(a, i),
        (match st.frames.last() {
            FrameV::Array { ty, .. } => ty is None || ty == Option::Some(t0),
            _ => false,
        }),
    ensures
        s_produce_elems(a, i, st).1 == Result::<(), Error>::Ok(()),
        s_produce_elems(a, i, st).0.dt == st.dt,
        kinds_kept(st.frames, s_produce_elems(a, i, st).0.frames),
        chain_ok(s_produce_elems(a, i, st).0.frames),
        arrays_kept(st.frames, s_produce_elems(a, i, st).0.frames),
        guard_kept(st.frames, s_produce_elems(a, i, st).0.frames, st.frames.len() as int),
        i < a.len() ==> s_produce_elems(a, i, st).0.frames.last() == (FrameV::Array {
            first: false,
            ty: Option::Some(t0),
        }),
        i >= a.len() ==> s_produce_elems(a, i, st).0 == st,
    decreases a, 1int, a.len() - i,
{
    if i >= a.len() {
    } else {
        lemma_produce_ok(a[i], st);
        let mid = s_produce(a[i], st).0;
        assert(step_ok(st, mid, t0));
        lemma_elems_ok(a, i + 1, mid, t0);
        let fin = s_produce_elems(a, i + 1, mid).0;
        assert(s_produce_elems(a, i, st).0 == fin);
        lemma_step_guard_compose(st.frames, mid.frames, fin.frames, st.frames.len() as int);
        if i + 1 < a.len() {
        } else {
            assert(fin == mid);
        }
    }
}

/// Transitive composition of the chain bookkeeping across two steps.
proof fn lemma_step_guard_compose(pre: Seq<FrameV>, mid: Seq<FrameV>, post: Seq<FrameV>, hi: int)
    requires
        hi == pre.len(),
        kinds_kept(pre, mid),
        kinds_kept(mid, post),
        arrays_kept(pre, mid),
        arrays_kept(mid, post),
        guard_kept(pre, mid, hi),
        guard_kept(mid, post, hi),
    ensures
        kinds_kept(pre, post),
        arrays_kept(pre, post),
        guard_kept(pre, post, hi),
{
    assert forall|j: int|
        0 <= j < hi && (#[trigger] pre[j]) is Table && all_arrays(pre, j, hi) implies post[j]
        is Table && post[j]->Table_key == pre[j]->Table_key && post[j]->Table_table_emitted
        == pre[j]->Table_table_emitted by {
        assert(mid[j] is Table && mid[j]->Table_key == pre[j]->Table_key
            && mid[j]->Table_table_emitted == pre[j]->Table_table_emitted);
        assert forall|l: int| j < l < hi implies (#[trigger] mid[l]) is Array by {
            assert(pre[l] is Array);
        }
        assert(all_arrays(mid, j, hi));
    }
    assert forall|j: int| 0 <= j < pre.len() - 1 && (#[trigger] pre[j]) is Array implies post[j]
        == pre[j] by {
        assert(mid[j] == pre[j]);
    }
}

/// Producing one pass of a table's fields succeeds.
proof fn lemma_fields_ok(entries: Seq<(String, Value)>, i: int, pass: int, st: SerView)
    requires
        !st.dt,
        0 <= i,
        pass == 0 || pass == 1 || pass == 2,
        st.frames.len() > 0,
        st.frames.last() is Table,
        (pass == 0 || pass == 1) ==> !st.frames.last()->Table_table_emitted,
        wf_fields(entries, i),
    ensures
        s_produce_fields(entries, i, pass, st).1 == Result::<(), Error>::Ok(()),
        s_produce_fields(entries, i, pass, st).0.dt == st.dt,
        kinds_kept(st.frames, s_produce_fields(entries, i, pass, st).0.frames),
        s_produce_fields(entries, i, pass, st).0.frames.last() is Table,
        (pass == 0 || pass == 1) ==> !s_produce_fields(
            entries,
            i,
            pass,
            st,
        ).0.frames.last()->Table_table_emitted,
    decreases entries, 1int, entries.len() - i,
{
    if i >= entries.len() {
    } else if !crate::ser::pass_pred(entries[i].1, pass) {
        lemma_fields_ok(entries, i + 1, pass, st);
    } else {
        let k = entries[i].0;
        let vv = entries[i].1;
        let st1 = s_ser_key(st, k@).0;
        assert(s_ser_key(st, k@).1 == Result::<(), Error>::Ok(()));
        assert(st1.frames.last() is Table && st1.frames.last()->Table_table_emitted
            == st.frames.last()->Table_table_emitted);
        assert(kinds_kept(st.frames, st1.frames));
        if pass == 0 || pass == 1 {
            assert(chain_ok(st1.frames));
        }
        lemma_produce_ok(vv, st1);
        let st2 = s_produce(vv, st1).0;
        assert(st2.frames.last() is Table) by {
            if spec_ty(vv) != Ty::Table {
                assert(step_ok(st1, st2, spec_ty(vv)));
            }
        }
        if pass == 0 || pass == 1 {
            assert(!st2.frames.last()->Table_table_emitted) by {
                assert(step_ok(st1, st2, spec_ty(vv)));
            }
        }
        lemma_fields_ok(entries, i + 1, pass, st2);
        assert(kinds_kept(st.frames, s_produce_fields(entries, i, pass, st).0.frames)) by {
            assert(kinds_kept(st1.frames, st2.frames));
            assert(kinds_kept(st2.frames, s_produce_fields(entries, i + 1, pass, st2).0.frames));
        }
    }
}

/// The chain bookkeeping for a finished array value.
#[verifier::rlimit(100)]
#[verifier::spinoff_prover]
proof fn lemma_array_step(
    st: SerView,
    f: Seq<FrameV>,
    st1: SerView,
    st2: SerView,
    post: SerView,
    t0: Ty,
    empty: bool,
)
    requires
        st.frames.len() > 0,
        chain_ok(st.frames),
        ty_ok(st.frames, Ty::Array),
        s_array_type(st.frames, Ty::Array) == Result::<Seq<FrameV>, Error>::Ok(f),
        f.len() == st.frames.len(),
        forall|j: int| 0 <= j < st.frames.len() - 1 ==> f[j] == #[trigger] st.frames[j],
        (match st.frames.last() {
            FrameV::Array { first, .. } => f.last() == (FrameV::Array {
                first,
                ty: Option::Some(Ty::Array),
            }),
            _ => f == st.frames,
        }),
        chain_ok(f),
        st1.frames == f.push(FrameV::Array { first: true, ty: Option::None }),
        st1.dt == st.dt,
        !st.dt,
        kinds_kept(st1.frames, st2.frames),
        chain_ok(st2.frames),
        arrays_kept(st1.frames, st2.frames),
        guard_kept(st1.frames, st2.frames, st1.frames.len() as int),
        st2.dt == st.dt,
        st2.frames.len() == st1.frames.len(),
        empty ==> st2 == st1,
        post == s_end_seq(st2).0,
        s_end_seq(st2).1 == Result::<(), Error>::Ok(()),
        !empty ==> st2.frames.last() == (FrameV::Array { first: false, ty: Option::Some(t0) }),
        !empty ==> t0 != Ty::Table,
    ensures
        step_ok(st, post, Ty::Array),
{
    let n = st.frames.len() as int;
    let popped = st2.frames.drop_last();
    assert(chain_ok(popped)) by {
        assert(chain_ok_upto(st2.frames, n + 1));
        assert(st2.frames.last() is Array);
        lemma_chain_prefix_eq(st2.frames, popped, n);
    }
    if empty {
        assert(popped =~= f);
        assert(ty_ok(popped, Ty::Array)) by {
            match st.frames.last() {
                FrameV::Array { .. } => {
                    assert(f.last() is Array && f.last()->Array_ty == Option::Some(Ty::Array));
                },
                FrameV::Table { .. } => {},
            }
        }
        lemma_array_type_ok(popped, Ty::Array);
        match s_array_type(popped, Ty::Array) {
            Result::Ok(f2) => {
                assert(chain_ok(f2));
                lemma_walk_ok(f2, n);
                match s_emit_key_rec(f2, n) {
                    Result::Ok(p) => {
                        assert(post.frames == s_complete(
                            SerView { out: arbitrary(), frames: p.1, dt: st.dt },
                        ).frames);
                        // the chain stays open through the completion flip
                        match p.1.last() {
                            FrameV::Table { .. } => {
                                assert(chain_ok(post.frames));
                            },
                            FrameV::Array { .. } => {
                                lemma_chain_prefix_eq(p.1, post.frames, n - 1);
                            },
                        }
                        // innermost frame transform
                        match st.frames.last() {
                            FrameV::Array { .. } => {
                                assert(f2.last() == (FrameV::Array {
                                    first: f.last()->Array_first,
                                    ty: Option::Some(Ty::Array),
                                }));
                                assert(p.1[n - 1] == f2[n - 1]);
                                assert(post.frames.last() == (FrameV::Array {
                                    first: false,
                                    ty: Option::Some(Ty::Array),
                                }));
                            },
                            FrameV::Table { key, first, table_emitted } => {
                                assert(f2 == popped);
                                assert(!table_emitted);
                                assert(p.1[n - 1] == (FrameV::Table {
                                    key,
                                    first: false,
                                    table_emitted,
                                }));
                                assert(post.frames.last() == (FrameV::Table {
                                    key,
                                    first: false,
                                    table_emitted,
                                }));
                            },
                        }
                        // guard tables
                        assert forall|j: int|
                            0 <= j < n && (#[trigger] st.frames[j]) is Table && all_arrays(
                                st.frames,
                                j,
                                n,
                            ) implies post.frames[j] is Table && post.frames[j]->Table_key
                            == st.frames[j]->Table_key && post.frames[j]->Table_table_emitted
                            == st.frames[j]->Table_table_emitted by {
                            if j < n - 1 {
                                assert(f[j] == st.frames[j]);
                                assert(f2[j] == f[j]);
                                assert(all_arrays(f2, j, n)) by {
                                    assert forall|l: int| j < l < n implies (
                                    #[trigger] f2[l]) is Array by {
                                        if l < n - 1 {
                                            assert(f2[l] == st.frames[l]);
                                        } else {
                                            assert(st.frames[l] is Array);
                                        }
                                    }
                                }
                                assert(guard_kept(f2, p.1, n));
                                assert(post.frames[j] == p.1[j]);
                            }
                        }
                        // arrays below stay put, kinds stay put
                        assert forall|j: int|
                            0 <= j < n - 1 && (#[trigger] st.frames[j]) is Array implies
                            post.frames[j] == st.frames[j] by {
                            assert(f[j] == st.frames[j]);
                            assert(f2[j] == f[j]);
                            assert(p.1[j] == f2[j]);
                            assert(post.frames[j] == p.1[j]);
                        }
                        assert forall|j: int| 0 <= j < n implies ((
                        #[trigger] st.frames[j]) is Array <==> post.frames[j] is Array) by {
                            if j < n - 1 {
                                assert(f2[j] == st.frames[j]);
                            } else {
                                match st.frames.last() {
                                    FrameV::Array { .. } => {
                                        assert(f2[j] is Array);
                                    },
                                    FrameV::Table { .. } => {
                                        assert(f2[j] is Table);
                                    },
                                }
                            }
                            if f2[j] is Array {
                                assert(p.1[j] == f2[j]);
                            } else {
                                assert(p.1[j] is Table);
                            }
                            assert(post.frames.len() == n);
                            if j < n - 1 {
                                assert(post.frames[j] == p.1[j]);
                            }
                        }
                    },
                    Result::Err(_) => {},
                }
            },
            Result::Err(_) => {
                assert(false);
            },
        }
    } else {
        // the closing bracket writes nothing into the frames; only the
        // completion flip touches the newly exposed innermost frame
        assert(post.frames == s_complete(
            SerView { out: arbitrary(), frames: popped, dt: st.dt },
        ).frames);
        assert(popped.len() == n);
        match st.frames.last() {
            FrameV::Array { first, ty } => {
                assert(st1.frames[n - 1] == f.last());
                assert(popped[n - 1] == st2.frames[n - 1]);
                assert(st2.frames[n - 1] == st1.frames[n - 1]) by {
                    assert(arrays_kept(st1.frames, st2.frames));
                    assert(st1.frames[n - 1] is Array);
                }
                assert(post.frames.last() == (FrameV::Array {
                    first: false,
                    ty: Option::Some(Ty::Array),
                }));
            },
            FrameV::Table { key, first, table_emitted } => {
                assert(st1.frames[n - 1] == st.frames[n - 1]);
                assert(all_arrays(st1.frames, n - 1, n + 1));
                assert(guard_kept(st1.frames, st2.frames, n + 1)) by {
                    assert(guard_kept(st1.frames, st2.frames, st1.frames.len() as int));
                }
                assert(st2.frames[n - 1] is Table && st2.frames[n - 1]->Table_key == key
                    && st2.frames[n - 1]->Table_table_emitted == table_emitted);
                assert(post.frames.last() == (FrameV::Table {
                    key,
                    first: false,
                    table_emitted,
                }));
            },
        }
        assert(chain_ok(post.frames)) by {
            match popped.last() {
                FrameV::Table { table_emitted, .. } => {
                    assert(!table_emitted) by {
                        assert(chain_ok_upto(popped, n));
                    }
                },
                FrameV::Array { .. } => {
                    lemma_chain_prefix_eq(popped, post.frames, n - 1);
                },
            }
        }
        assert forall|j: int|
            0 <= j < n && (#[trigger] st.frames[j]) is Table && all_arrays(
                st.frames,
                j,
                n,
            ) implies post.frames[j] is Table && post.frames[j]->Table_key
            == st.frames[j]->Table_key && post.frames[j]->Table_table_emitted
            == st.frames[j]->Table_table_emitted by {
            if j < n - 1 {
                assert(st1.frames[j] == st.frames[j]);
                assert(all_arrays(st1.frames, j, n + 1)) by {
                    assert forall|l: int| j < l < n + 1 implies (
                    #[trigger] st1.frames[l]) is Array by {
                        if l < n - 1 {
                            assert(st1.frames[l] == st.frames[l]);
                        } else if l == n - 1 {
                            assert(st.frames[l] is Array);
                            assert(st1.frames[l] == f[l]);
                        }
                    }
                }
                assert(guard_kept(st1.frames, st2.frames, n + 1));
                assert(post.frames[j] == popped[j]);
            }
        }
        assert forall|j: int| 0 <= j < n - 1 && (#[trigger] st.frames[j]) is Array implies
            post.frames[j] == st.frames[j] by {
            assert(f[j] == st.frames[j]);
            assert(st1.frames[j] == f[j]);
            assert(st2.frames[j] == st1.frames[j]);
            assert(post.frames[j] == st2.frames[j]);
        }
        assert forall|j: int| 0 <= j < n implies ((#[trigger] st.frames[j]) is Array
            <==> post.frames[j] is Array) by {
            assert(st1.frames[j] is Array <==> st2.frames[j] is Array);
            if j < n - 1 {
                assert(st1.frames[j] == f[j]);
                assert(f[j] is Array <==> st.frames[j] is Array);
                assert(post.frames[j] == st2.frames[j]);
            }
        }
    }
}


proof fn lemma_table_post_shape(
    st: SerView,
    st1: SerView,
    st2: SerView,
    st3: SerView,
    st4: SerView,
    post: SerView,
)
    requires
        st.frames.len() > 0,
        st.frames.last() is Table,
        st1.frames == st.frames.push(
            FrameV::Table { key: Seq::empty(), first: true, table_emitted: false },
        ),
        kinds_kept(st1.frames, st2.frames),
        kinds_kept(st2.frames, st3.frames),
        kinds_kept(st3.frames, st4.frames),
        st4.frames.len() > 0,
        st4.frames.last() is Table,
        post == s_end_table(st4).0,
        !st4.dt,
    ensures
        post.frames.last() is Table,
        post.frames.len() == st.frames.len(),
{
    let n = st.frames.len() as int;
    let popped = st4.frames.drop_last();
    assert(st4.frames.len() == n + 1);
    assert(popped.len() == n);
    assert(popped[n - 1] is Table) by {
        assert(st1.frames[n - 1] is Table);
        assert(st2.frames[n - 1] is Table <==> st1.frames[n - 1] is Table);
        assert(st3.frames[n - 1] is Table <==> st2.frames[n - 1] is Table);
        assert(st4.frames[n - 1] is Table <==> st3.frames[n - 1] is Table);
        assert(popped[n - 1] == st4.frames[n - 1]);
    }
    if st4.frames.last()->Table_first {
        let h = s_table_header(popped, n);
        crate::ser::lemma_table_header_frames(popped, n);
        lemma_key_part_kinds(popped, n);
        assert(h.1[n - 1] is Table);
        assert(post.frames == s_complete(
            SerView { out: arbitrary(), frames: h.1, dt: st4.dt },
        ).frames);
        assert(post.frames.last() is Table);
    } else {
        assert(post.frames == s_complete(
            SerView { out: arbitrary(), frames: popped, dt: st4.dt },
        ).frames);
        assert(post.frames.last() is Table);
    }
}

proof fn lemma_table_post_kinds(
    st: SerView,
    st1: SerView,
    st2: SerView,
    st3: SerView,
    st4: SerView,
    post: SerView,
)
    requires
        st.frames.len() == 0 || st.frames.last() is Table,
        st1.frames == st.frames.push(
            FrameV::Table { key: Seq::empty(), first: true, table_emitted: false },
        ),
        kinds_kept(st1.frames, st2.frames),
        kinds_kept(st2.frames, st3.frames),
        kinds_kept(st3.frames, st4.frames),
        st4.frames.len() > 0,
        st4.frames.last() is Table,
        post == s_end_table(st4).0,
        !st4.dt,
    ensures
        kinds_kept(st.frames, post.frames),
{
    let n = st.frames.len() as int;
    let popped = st4.frames.drop_last();
    assert(st4.frames.len() == n + 1);
    if st4.frames.last()->Table_first {
        crate::ser::lemma_table_header_frames(popped, n);
        lemma_key_part_kinds(popped, n);
        let h = s_table_header(popped, n);
        assert forall|j: int| 0 <= j < n implies ((#[trigger] st.frames[j]) is Array
            <==> post.frames[j] is Array) by {
            assert(st1.frames[j] is Array <==> st.frames[j] is Array);
            assert(st4.frames[j] is Array <==> st1.frames[j] is Array);
            assert(popped[j] == st4.frames[j]);
            if popped[j] is Array {
                assert(h.1[j] == popped[j]);
            } else {
                assert(h.1[j] is Table);
            }
            if j < n - 1 || n == 0 {
            }
        }
        assert(post.frames.len() == n);
    } else {
        assert forall|j: int| 0 <= j < n implies ((#[trigger] st.frames[j]) is Array
            <==> post.frames[j] is Array) by {
            assert(st1.frames[j] is Array <==> st.frames[j] is Array);
            assert(st4.frames[j] is Array <==> st1.frames[j] is Array);
            assert(popped[j] == st4.frames[j]);
        }
        assert(post.frames.len() == n);
    }
}

/// Serializing a well-formed, table-rooted value tree always succeeds:
/// the three-pass field order makes every header rule and homogeneity
/// rule hold by construction, so `ValueAfterTable` (and every other
/// failure) is unreachable from such trees. Termination itself holds for
/// every finite tree, well-formed or not: the whole walk carries
/// `decreases` measures.
///
/// `wf_tree` excludes every array that contains a table. Many such trees
/// do serialize (a lone array-of-tables field, for instance), but no
/// guarantee covering all of them can hold: an array-of-tables field
/// marks its enclosing table as started, so a plain array field that
/// sorts after it fails with `ValueAfterTable`
/// (`lemma_value_after_table`); the exact outcome on every tree, inside
/// or outside `wf_tree`, is still fixed by `s_to_string`.
pub proof fn lemma_wf_tree_serializes(v: Value)
    requires
        wf_tree(v),
        spec_ty(v) == Ty::Table,
    ensures
        crate::ser::s_to_string(v) is Ok,
{
    let st0 = SerView { out: Seq::empty(), frames: Seq::empty(), dt: false };
    lemma_produce_ok(v, st0);
    assert(s_produce(v, st0).1 == Result::<(), Error>::Ok(()));
}


/// Reaching a mismatching element: once the elements before `k` (all of
/// one type, in canonical shape) have gone out, the element at `k` of a
/// different type is rejected with `ArrayMixedType`.
proof fn lemma_elems_mismatch(a: Seq<Value>, i: int, k: int, st: SerView, t0: Ty)
    requires
        !st.dt,
        0 <= i <= k < a.len(),
        st.frames.len() > 0,
        st.frames.last() is Array,
        chain_ok(st.frames),
        t0 != Ty::Table,
        forall|j: int| i <= j < k ==> spec_ty(#[trigger] a[j]) == t0,
        wf_list_upto(a, i, k),
        spec_ty(a[k]) != t0,
        (match st.frames.last() {
            FrameV::Array { ty, .. } => if i == k {
                ty == Option::Some(t0)
            } else {
                ty is None || ty == Option::Some(t0)
            },
            _ => false,
        }),
    ensures
        s_produce_elems(a, i, st).1 == Result::<(), Error>::Err(Error::ArrayMixedType),
    decreases k - i,
{
    if i == k {
        lemma_element_type_mismatch(a[k], st);
    } else {
        lemma_produce_ok(a[i], st);
        let mid = s_produce(a[i], st).0;
        assert(step_ok(st, mid, t0));
        lemma_elems_mismatch(a, i + 1, k, mid, t0);
    }
}

/// Every element of `a[i..k]` is a well-formed tree.
pub open spec fn wf_list_upto(a: Seq<Value>, i: int, k: int) -> bool
    decreases k - i,
{
    i >= k || (wf_tree(a[i]) && wf_list_upto(a, i + 1, k))
}

/// If any element of a sequence resolves to a type different from the
/// one the first element fixed, serialization fails with
/// `ArrayMixedType` — provided the elements before the clash are
/// themselves in canonical shape, so that nothing else fails first.
pub proof fn lemma_mixed_array_rejected(v: Value, st: SerView, k: int)
    requires
        !st.dt,
        st.frames.len() > 0,
        chain_ok(st.frames),
        ty_ok(st.frames, Ty::Array),
        (match v {
            Value::Array(a) => 0 < k < a@.len() && spec_ty(a@[k]) != spec_ty(a@[0]) && spec_ty(
                a@[0],
            ) != Ty::Table && wf_list_upto(a@, 0, k) && (forall|j: int|
                0 <= j < k ==> spec_ty(#[trigger] a@[j]) == spec_ty(a@[0])),
            _ => false,
        }),
    ensures
        s_produce(v, st).1 == Result::<(), Error>::Err(Error::ArrayMixedType),
{
    match v {
        Value::Array(a) => {
            lemma_array_type_ok(st.frames, Ty::Array);
            let st1 = s_begin_seq(st).0;
            assert(s_begin_seq(st).1 == Result::<(), Error>::Ok(()));
            match s_array_type(st.frames, Ty::Array) {
                Result::Ok(f) => {
                    assert(st1.frames == f.push(FrameV::Array { first: true, ty: Option::None }));
                    assert(chain_ok(st1.frames)) by {
                        assert(st1.frames.last() is Array);
                        lemma_chain_prefix_eq(f, st1.frames, f.len() as int);
                    }
                    lemma_elems_mismatch(a@, 0, k, st1, spec_ty(a@[0]));
                },
                Result::Err(_) => {
                    assert(false);
                },
            }
        },
        _ => {},
    }
}

/// An empty sequence in a table field always serializes as `[]`: under a
/// pending key the engine writes `key = []` and nothing else.
pub proof fn lemma_empty_sequence(v: Value, st: SerView)
    requires
        !st.dt,
        st.frames.len() > 0,
        (match v {
            Value::Array(a) => a@.len() == 0,
            _ => false,
        }),
        (match st.frames.last() {
            FrameV::Table { first, table_emitted, .. } => !first && !table_emitted,
            _ => false,
        }),
    ensures
        s_produce(v, st).1 == Result::<(), Error>::Ok(()),
        s_produce(v, st).0.out == st.out + spec_escape_key(st.frames.last()->Table_key) + seq![
            ' ',
            '=',
            ' ',
            '[',
            ']',
            '\n',
        ],
{
    let n = st.frames.len() as int;
    match v {
        Value::Array(a) => {
            let st1 = s_begin_seq(st).0;
            assert(st1.frames == st.frames.push(FrameV::Array { first: true, ty: Option::None }));
            assert(s_produce_elems(a@, 0, st1).0 == st1);
            let popped = st1.frames.drop_last();
            assert(popped =~= st.frames);
            match s_emit_key_rec(st.frames, n) {
                Result::Ok(p) => {
                    assert(p.0 == spec_escape_key(st.frames.last()->Table_key) + seq![
                        ' ',
                        '=',
                        ' ',
                    ]);
                    assert(p.1.last() is Table);
                    assert(s_produce(v, st).0.out =~= st.out + spec_escape_key(
                        st.frames.last()->Table_key,
                    ) + seq![' ', '=', ' ', '[', ']', '\n']);
                },
                Result::Err(_) => {
                    assert(false);
                },
            }
        },
        _ => {},
    }
}

} // verus!
